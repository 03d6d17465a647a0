//! Character-sequence primitives shared by every module: lines, trimming,
//! substring search, joining and decimal rendering.
use vstd::prelude::*;

verus! {

// ---------- whitespace and trimming ----------

/// The Unicode `White_Space` property, which `char::is_whitespace` tests.
pub open spec fn is_ws(c: char) -> bool {
    let n = c as u32;
    ||| 9 <= n <= 13
    ||| n == 32
    ||| n == 0x85
    ||| n == 0xa0
    ||| n == 0x1680
    ||| 0x2000 <= n <= 0x200a
    ||| n == 0x2028
    ||| n == 0x2029
    ||| n == 0x202f
    ||| n == 0x205f
    ||| n == 0x3000
}

/// `char::is_whitespace`.
pub fn is_whitespace(c: char) -> (b: bool)
    ensures
        b == is_ws(c),
{
    let n = c as u32;
    (9 <= n && n <= 13) || n == 32 || n == 0x85 || n == 0xa0 || n == 0x1680 || (0x2000 <= n && n
        <= 0x200a) || n == 0x2028 || n == 0x2029 || n == 0x202f || n == 0x205f || n == 0x3000
}

/// `s` without its trailing whitespace (`str::trim_end`).
pub open spec fn trim_end(s: Seq<char>) -> Seq<char>
    decreases s.len(),
{
    if s.len() > 0 && is_ws(s.last()) {
        trim_end(s.drop_last())
    } else {
        s
    }
}

/// `s` without its leading whitespace (`str::trim_start`).
pub open spec fn trim_start(s: Seq<char>) -> Seq<char>
    decreases s.len(),
{
    if s.len() > 0 && is_ws(s[0]) {
        trim_start(s.drop_first())
    } else {
        s
    }
}

/// `s` without leading and trailing whitespace (`str::trim`).
pub open spec fn trim(s: Seq<char>) -> Seq<char> {
    trim_start(trim_end(s))
}

pub proof fn lemma_trim_end_is_prefix(s: Seq<char>)
    ensures
        trim_end(s).len() <= s.len(),
        trim_end(s) =~= s.take(trim_end(s).len() as int),
        trim_end(s).len() > 0 ==> !is_ws(trim_end(s).last()),
    decreases s.len(),
{
    if s.len() > 0 && is_ws(s.last()) {
        lemma_trim_end_is_prefix(s.drop_last());
    }
}

pub proof fn lemma_trim_start_is_suffix(s: Seq<char>)
    ensures
        trim_start(s).len() <= s.len(),
        trim_start(s) =~= s.skip(s.len() - trim_start(s).len()),
        trim_start(s).len() > 0 ==> !is_ws(trim_start(s)[0]),
    decreases s.len(),
{
    if s.len() > 0 && is_ws(s[0]) {
        lemma_trim_start_is_suffix(s.drop_first());
    }
}

/// Length of `trim_end(s)`.
pub fn trim_end_len(s: &[char]) -> (n: usize)
    ensures
        n <= s@.len(),
        s@.take(n as int) == trim_end(s@),
{
    let mut n = s.len();
    assert(s@.take(n as int) =~= s@);
    while n > 0 && is_whitespace(s[n - 1])
        invariant
            n <= s@.len(),
            trim_end(s@.take(n as int)) == trim_end(s@),
        decreases n,
    {
        assert(s@.take(n as int).drop_last() =~= s@.take(n - 1));
        n = n - 1;
    }
    n
}

/// Number of leading whitespace characters of `s`.
pub fn trim_start_len(s: &[char]) -> (n: usize)
    ensures
        n <= s@.len(),
        s@.skip(n as int) == trim_start(s@),
{
    let mut n: usize = 0;
    assert(s@.skip(0) =~= s@);
    while n < s.len() && is_whitespace(s[n])
        invariant
            n <= s@.len(),
            trim_start(s@.skip(n as int)) == trim_start(s@),
        decreases s@.len() - n,
    {
        assert(s@.skip(n as int).drop_first() =~= s@.skip(n + 1));
        n = n + 1;
    }
    n
}

/// The characters `s[a..b]`.
pub fn slice(s: &[char], a: usize, b: usize) -> (out: Vec<char>)
    requires
        a <= b <= s@.len(),
    ensures
        out@ == s@.subrange(a as int, b as int),
{
    let mut out: Vec<char> = Vec::new();
    let mut i = a;
    while i < b
        invariant
            a <= i <= b <= s@.len(),
            out@ == s@.subrange(a as int, i as int),
        decreases b - i,
    {
        out.push(s[i]);
        i = i + 1;
        assert(out@ =~= s@.subrange(a as int, i as int));
    }
    out
}

/// `str::trim_end`.
pub fn trim_end_chars(s: &[char]) -> (out: Vec<char>)
    ensures
        out@ == trim_end(s@),
{
    let n = trim_end_len(s);
    let out = slice(s, 0, n);
    assert(out@ =~= s@.take(n as int));
    out
}

/// `str::trim_start`.
pub fn trim_start_chars(s: &[char]) -> (out: Vec<char>)
    ensures
        out@ == trim_start(s@),
{
    let n = trim_start_len(s);
    let out = slice(s, n, s.len());
    assert(out@ =~= s@.skip(n as int));
    out
}

/// `str::trim`.
pub fn trim_chars(s: &[char]) -> (out: Vec<char>)
    ensures
        out@ == trim(s@),
{
    let e = trim_end_chars(s);
    trim_start_chars(&e)
}

// ---------- substrings ----------

/// `s` without any trailing `c` (`str::trim_end_matches(c)`).
pub open spec fn trim_end_char(s: Seq<char>, c: char) -> Seq<char>
    decreases s.len(),
{
    if s.len() > 0 && s.last() == c {
        trim_end_char(s.drop_last(), c)
    } else {
        s
    }
}

/// `str::trim_end_matches(c)`.
pub fn trim_end_char_exec(s: &[char], c: char) -> (out: Vec<char>)
    ensures
        out@ == trim_end_char(s@, c),
{
    let mut n = s.len();
    assert(s@.take(n as int) =~= s@);
    while n > 0 && s[n - 1] == c
        invariant
            n <= s@.len(),
            trim_end_char(s@.take(n as int), c) == trim_end_char(s@, c),
        decreases n,
    {
        assert(s@.take(n as int).drop_last() =~= s@.take(n - 1));
        n = n - 1;
    }
    let out = slice(s, 0, n);
    assert(out@ =~= s@.take(n as int));
    out
}

/// `s` without the character `c` anywhere (`str::replace(c, "")`).
pub open spec fn remove_char(s: Seq<char>, c: char) -> Seq<char>
    decreases s.len(),
{
    if s.len() == 0 {
        s
    } else if s.last() == c {
        remove_char(s.drop_last(), c)
    } else {
        remove_char(s.drop_last(), c).push(s.last())
    }
}

/// `str::replace(c, "")`.
pub fn remove_char_exec(s: &[char], c: char) -> (out: Vec<char>)
    ensures
        out@ == remove_char(s@, c),
{
    let mut out: Vec<char> = Vec::new();
    let mut i: usize = 0;
    assert(s@.take(0) =~= Seq::<char>::empty());
    while i < s.len()
        invariant
            i <= s@.len(),
            out@ == remove_char(s@.take(i as int), c),
        decreases s@.len() - i,
    {
        assert(s@.take(i + 1).drop_last() =~= s@.take(i as int));
        if s[i] != c {
            out.push(s[i]);
        }
        i = i + 1;
    }
    assert(s@.take(i as int) =~= s@);
    out
}

/// `t` occurs in `s` at position `i`.
pub open spec fn occurs_at(s: Seq<char>, t: Seq<char>, i: int) -> bool {
    0 <= i && i + t.len() <= s.len() && s.subrange(i, i + t.len()) == t
}

/// `str::contains` with a string pattern.
pub open spec fn contains(s: Seq<char>, t: Seq<char>) -> bool {
    exists|i: int| occurs_at(s, t, i)
}

/// `str::starts_with`.
pub open spec fn starts_with(s: Seq<char>, t: Seq<char>) -> bool {
    occurs_at(s, t, 0)
}

/// `str::ends_with`.
pub open spec fn ends_with(s: Seq<char>, t: Seq<char>) -> bool {
    s.len() >= t.len() && occurs_at(s, t, s.len() - t.len())
}

/// Whether `t` occurs in `s` at position `i`.
pub fn occurs_at_exec(s: &[char], t: &[char], i: usize) -> (b: bool)
    ensures
        b == occurs_at(s@, t@, i as int),
{
    if i > s.len() || t.len() > s.len() - i {
        return false;
    }
    let mut k: usize = 0;
    while k < t.len()
        invariant
            s.len() == s@.len(),
            i + t@.len() <= s@.len(),
            k <= t@.len(),
            forall|j: int| 0 <= j < k ==> s@[i + j] == t@[j],
        decreases t@.len() - k,
    {
        if s[i + k] != t[k] {
            assert(s@.subrange(i as int, i + t@.len())[k as int] != t@[k as int]);
            return false;
        }
        k = k + 1;
    }
    assert(s@.subrange(i as int, i + t@.len()) =~= t@);
    true
}

/// `str::contains`.
pub fn contains_exec(s: &[char], t: &[char]) -> (b: bool)
    ensures
        b == contains(s@, t@),
{
    if t.len() > s.len() {
        return false;
    }
    let last = s.len() - t.len();
    let mut i: usize = 0;
    loop
        invariant
            t@.len() <= s@.len(),
            last == s@.len() - t@.len(),
            i <= last,
            forall|j: int| 0 <= j < i ==> !occurs_at(s@, t@, j),
        decreases last - i,
    {
        if occurs_at_exec(s, t, i) {
            return true;
        }
        if i == last {
            return false;
        }
        i = i + 1;
    }
}

/// `str::starts_with`.
pub fn starts_with_exec(s: &[char], t: &[char]) -> (b: bool)
    ensures
        b == starts_with(s@, t@),
{
    occurs_at_exec(s, t, 0)
}

/// `str::ends_with`.
pub fn ends_with_exec(s: &[char], t: &[char]) -> (b: bool)
    ensures
        b == ends_with(s@, t@),
{
    if t.len() > s.len() {
        return false;
    }
    occurs_at_exec(s, t, s.len() - t.len())
}

/// Whether `t` occurs in `s` with a literal needle.
pub fn contains_str(s: &[char], t: &str) -> (b: bool)
    ensures
        b == contains(s@, t@),
{
    let tc = crate::text::str_to_chars(t);
    contains_exec(s, &tc)
}

/// Whether `s` starts with the literal `t`.
pub fn starts_with_str(s: &[char], t: &str) -> (b: bool)
    ensures
        b == starts_with(s@, t@),
{
    let tc = str_to_chars(t);
    starts_with_exec(s, &tc)
}

/// Whether `s` ends with the literal `t`.
pub fn ends_with_str(s: &[char], t: &str) -> (b: bool)
    ensures
        b == ends_with(s@, t@),
{
    let tc = str_to_chars(t);
    ends_with_exec(s, &tc)
}

/// Whether `s` equals the literal `t`.
pub fn eq_str(s: &[char], t: &str) -> (b: bool)
    ensures
        b == (s@ == t@),
{
    let tc = str_to_chars(t);
    let b = s.len() == tc.len() && occurs_at_exec(s, &tc, 0);
    proof {
        if s@.len() == tc@.len() {
            assert(s@ =~= s@.subrange(0, tc@.len() as int));
        }
    }
    b
}

/// Whether `a` and `b` hold the same characters.
pub fn chars_eq(a: &[char], b: &[char]) -> (r: bool)
    ensures
        r == (a@ == b@),
{
    let r = a.len() == b.len() && occurs_at_exec(a, b, 0);
    proof {
        if a@.len() == b@.len() {
            assert(a@ =~= a@.subrange(0, b@.len() as int));
        }
    }
    r
}

/// `a < b` in the order of `str::cmp` (which, on UTF-8, is the
/// lexicographic order of code points).
pub open spec fn lex_lt(a: Seq<char>, b: Seq<char>) -> bool
    decreases a.len(),
{
    if a.len() == 0 {
        b.len() > 0
    } else if b.len() == 0 {
        false
    } else if a[0] == b[0] {
        lex_lt(a.drop_first(), b.drop_first())
    } else {
        (a[0] as u32) < (b[0] as u32)
    }
}

/// Whether `a < b` as strings.
pub fn lex_lt_exec(a: &[char], b: &[char]) -> (r: bool)
    ensures
        r == lex_lt(a@, b@),
{
    let mut k: usize = 0;
    assert(a@.skip(0) =~= a@);
    assert(b@.skip(0) =~= b@);
    while k < a.len() && k < b.len() && a[k] == b[k]
        invariant
            k <= a@.len(),
            k <= b@.len(),
            lex_lt(a@.skip(k as int), b@.skip(k as int)) == lex_lt(a@, b@),
        decreases a@.len() - k,
    {
        assert(a@.skip(k as int).drop_first() =~= a@.skip(k + 1));
        assert(b@.skip(k as int).drop_first() =~= b@.skip(k + 1));
        k = k + 1;
    }
    if k == a.len() {
        k < b.len()
    } else if k == b.len() {
        false
    } else {
        (a[k] as u32) < (b[k] as u32)
    }
}

/// Number of occurrences of `c` in `s`.
pub open spec fn count_char(s: Seq<char>, c: char) -> nat
    decreases s.len(),
{
    if s.len() == 0 {
        0
    } else {
        count_char(s.drop_last(), c) + if s.last() == c {
            1nat
        } else {
            0nat
        }
    }
}

pub proof fn lemma_count_char_le(s: Seq<char>, c: char)
    ensures
        count_char(s, c) <= s.len(),
    decreases s.len(),
{
    if s.len() > 0 {
        lemma_count_char_le(s.drop_last(), c);
    }
}

/// `str::matches(c).count()`.
pub fn count_char_exec(s: &[char], c: char) -> (n: usize)
    ensures
        n == count_char(s@, c),
{
    let mut n: usize = 0;
    let mut i: usize = 0;
    while i < s.len()
        invariant
            i <= s@.len(),
            n == count_char(s@.take(i as int), c),
            n <= i,
        decreases s@.len() - i,
    {
        assert(s@.take(i + 1).drop_last() =~= s@.take(i as int));
        if s[i] == c {
            n = n + 1;
        }
        i = i + 1;
    }
    assert(s@.take(i as int) =~= s@);
    n
}

// ---------- lines ----------

/// Pieces of `s` separated by `'\n'` (always at least one piece).
pub open spec fn split_nl(s: Seq<char>) -> Seq<Seq<char>>
    decreases s.len(),
{
    if s.len() == 0 {
        seq![Seq::<char>::empty()]
    } else {
        let p = split_nl(s.drop_last());
        if s.last() == '\n' {
            p.push(Seq::<char>::empty())
        } else {
            p.update(p.len() - 1, p.last().push(s.last()))
        }
    }
}

pub proof fn lemma_split_nl_nonempty(s: Seq<char>)
    ensures
        split_nl(s).len() >= 1,
    decreases s.len(),
{
    if s.len() > 0 {
        lemma_split_nl_nonempty(s.drop_last());
    }
}

/// `str::split(sep)`: the pieces of `s` between occurrences of `sep`.
pub open spec fn split_on(s: Seq<char>, sep: char) -> Seq<Seq<char>>
    decreases s.len(),
{
    if s.len() == 0 {
        seq![Seq::<char>::empty()]
    } else {
        let p = split_on(s.drop_last(), sep);
        if s.last() == sep {
            p.push(Seq::<char>::empty())
        } else {
            p.update(p.len() - 1, p.last().push(s.last()))
        }
    }
}

/// `str::split(sep)`, each piece as characters.
pub fn split_on_exec(s: &[char], sep: char) -> (out: Vec<Vec<char>>)
    ensures
        views(out@) == split_on(s@, sep),
{
    let mut done: Vec<Vec<char>> = Vec::new();
    let mut cur: Vec<char> = Vec::new();
    let mut i: usize = 0;
    assert(s@.take(0) =~= Seq::<char>::empty());
    while i < s.len()
        invariant
            i <= s@.len(),
            split_on(s@.take(i as int), sep) == views(done@).push(cur@),
        decreases s@.len() - i,
    {
        assert(s@.take(i + 1).drop_last() =~= s@.take(i as int));
        assert(s@.take(i + 1).last() == s@[i as int]);
        let ghost dv = views(done@);
        let ghost cv = cur@;
        let c = s[i];
        if c == sep {
            let mut finished: Vec<char> = Vec::new();
            std::mem::swap(&mut finished, &mut cur);
            done.push(finished);
            assert(views(done@).push(cur@) =~= dv.push(cv).push(Seq::<char>::empty()));
        } else {
            cur.push(c);
            assert(views(done@).push(cur@) =~= dv.push(cv).update(dv.len() as int, cv.push(c)));
        }
        i = i + 1;
    }
    assert(s@.take(i as int) =~= s@);
    done.push(cur);
    done
}

/// A line that was ended by `"\n"` loses a `'\r'` just before it.
pub open spec fn strip_cr(l: Seq<char>) -> Seq<char> {
    if l.len() > 0 && l.last() == '\r' {
        l.drop_last()
    } else {
        l
    }
}

/// `str::lines`: lines ended by `"\n"` or `"\r\n"`; the last line ending is optional.
pub open spec fn lines(s: Seq<char>) -> Seq<Seq<char>> {
    let p = split_nl(s);
    let done = p.drop_last().map_values(|l: Seq<char>| strip_cr(l));
    if p.last().len() > 0 {
        done.push(p.last())
    } else {
        done
    }
}

/// Total number of characters in the pieces `ls`.
pub open spec fn total_len(ls: Seq<Seq<char>>) -> nat
    decreases ls.len(),
{
    if ls.len() == 0 {
        0
    } else {
        total_len(ls.drop_last()) + ls.last().len()
    }
}

/// A prefix of `ls` holds no more characters than `ls`.
pub proof fn lemma_total_len_prefix(ls: Seq<Seq<char>>, i: int)
    requires
        0 <= i <= ls.len(),
    ensures
        total_len(ls.take(i)) <= total_len(ls),
    decreases ls.len() - i,
{
    if i < ls.len() {
        lemma_total_len_prefix(ls, i + 1);
        assert(ls.take(i + 1).drop_last() =~= ls.take(i));
    } else {
        assert(ls.take(i) =~= ls);
    }
}

proof fn lemma_split_nl_total_len(s: Seq<char>)
    ensures
        total_len(split_nl(s)) <= s.len(),
    decreases s.len(),
{
    if s.len() > 0 {
        lemma_split_nl_total_len(s.drop_last());
        lemma_split_nl_nonempty(s.drop_last());
        let p = split_nl(s.drop_last());
        if s.last() == '\n' {
            assert(p.push(Seq::<char>::empty()).drop_last() =~= p);
            assert(split_nl(s) == p.push(Seq::<char>::empty()));
        } else {
            let q = p.update(p.len() - 1, p.last().push(s.last()));
            assert(q.drop_last() =~= p.drop_last());
            assert(q.last() == p.last().push(s.last()));
            assert(total_len(q) == total_len(p.drop_last()) + q.last().len());
            assert(total_len(p) == total_len(p.drop_last()) + p.last().len());
            assert(split_nl(s) == q);
        }
    } else {
        let e = seq![Seq::<char>::empty()];
        assert(e.drop_last() =~= Seq::<Seq<char>>::empty());
        assert(total_len(Seq::<Seq<char>>::empty()) == 0);
        assert(e.last().len() == 0);
        assert(total_len(e) == 0);
    }
}

proof fn lemma_strip_cr_total_len(ls: Seq<Seq<char>>)
    ensures
        total_len(ls.map_values(|l: Seq<char>| strip_cr(l))) <= total_len(ls),
    decreases ls.len(),
{
    if ls.len() > 0 {
        lemma_strip_cr_total_len(ls.drop_last());
        assert(ls.map_values(|l: Seq<char>| strip_cr(l)).drop_last() =~= ls.drop_last().map_values(
            |l: Seq<char>| strip_cr(l),
        ));
    }
}

/// The lines of `s` hold no more characters than `s`.
pub proof fn lemma_lines_total_len(s: Seq<char>)
    ensures
        total_len(lines(s)) <= s.len(),
{
    lemma_split_nl_total_len(s);
    lemma_split_nl_nonempty(s);
    let p = split_nl(s);
    let done = p.drop_last().map_values(|l: Seq<char>| strip_cr(l));
    lemma_strip_cr_total_len(p.drop_last());
    if p.last().len() > 0 {
        assert(done.push(p.last()).drop_last() =~= done);
    }
}

fn strip_cr_exec(l: Vec<char>) -> (out: Vec<char>)
    ensures
        out@ == strip_cr(l@),
{
    let mut l = l;
    if l.len() > 0 && l[l.len() - 1] == '\r' {
        l.pop();
    }
    l
}

/// `str::lines`, each line as characters.
pub fn lines_exec(s: &[char]) -> (out: Vec<Vec<char>>)
    ensures
        out@.len() == lines(s@).len(),
        forall|i: int| 0 <= i < out@.len() ==> #[trigger] out@[i]@ == lines(s@)[i],
{
    let mut done: Vec<Vec<char>> = Vec::new();
    let mut cur: Vec<char> = Vec::new();
    let mut i: usize = 0;
    proof {
        assert(s@.take(0) =~= Seq::<char>::empty());
    }
    while i < s.len()
        invariant
            i <= s@.len(),
            split_nl(s@.take(i as int)).len() == done@.len() + 1,
            split_nl(s@.take(i as int)).last() == cur@,
            forall|j: int|
                0 <= j < done@.len() ==> #[trigger] done@[j]@ == strip_cr(
                    split_nl(s@.take(i as int))[j],
                ),
        decreases s@.len() - i,
    {
        let ghost prev = split_nl(s@.take(i as int));
        assert(s@.take(i + 1).drop_last() =~= s@.take(i as int));
        assert(s@.take(i + 1).last() == s@[i as int]);
        let c = s[i];
        if c == '\n' {
            let mut finished: Vec<char> = Vec::new();
            std::mem::swap(&mut finished, &mut cur);
            let finished = strip_cr_exec(finished);
            done.push(finished);
        } else {
            cur.push(c);
        }
        i = i + 1;
        proof {
            let now = split_nl(s@.take(i as int));
            assert forall|j: int| 0 <= j < done@.len() implies #[trigger] done@[j]@ == strip_cr(
                now[j],
            ) by {
                if j < prev.len() - 1 {
                    assert(now[j] == prev[j]);
                }
            }
        }
    }
    assert(s@.take(i as int) =~= s@);
    let ghost p = split_nl(s@);
    let ghost ls = lines(s@);
    if cur.len() > 0 {
        done.push(cur);
    }
    assert(done@.len() == ls.len());
    assert forall|j: int| 0 <= j < done@.len() implies #[trigger] done@[j]@ == ls[j] by {}
    done
}

/// Words found so far, and the word being read.
pub struct WordScan {
    pub words: Seq<Seq<char>>,
    pub cur: Seq<char>,
}

/// Scans `s` for runs of non-whitespace characters.
pub open spec fn word_scan(s: Seq<char>) -> WordScan
    decreases s.len(),
{
    if s.len() == 0 {
        WordScan { words: Seq::empty(), cur: Seq::empty() }
    } else {
        let p = word_scan(s.drop_last());
        if is_ws(s.last()) {
            if p.cur.len() > 0 {
                WordScan { words: p.words.push(p.cur), cur: Seq::empty() }
            } else {
                p
            }
        } else {
            WordScan { words: p.words, cur: p.cur.push(s.last()) }
        }
    }
}

/// `str::split_whitespace`: the maximal runs of non-whitespace characters.
pub open spec fn split_whitespace(s: Seq<char>) -> Seq<Seq<char>> {
    let p = word_scan(s);
    if p.cur.len() > 0 {
        p.words.push(p.cur)
    } else {
        p.words
    }
}

/// `str::split_whitespace`, each word as characters.
pub fn split_whitespace_exec(s: &[char]) -> (out: Vec<Vec<char>>)
    ensures
        views(out@) == split_whitespace(s@),
{
    let mut words: Vec<Vec<char>> = Vec::new();
    let mut cur: Vec<char> = Vec::new();
    let mut i: usize = 0;
    assert(s@.take(0) =~= Seq::<char>::empty());
    assert(views(words@) =~= Seq::<Seq<char>>::empty());
    while i < s.len()
        invariant
            i <= s@.len(),
            word_scan(s@.take(i as int)) == (WordScan { words: views(words@), cur: cur@ }),
        decreases s@.len() - i,
    {
        assert(s@.take(i + 1).drop_last() =~= s@.take(i as int));
        assert(s@.take(i + 1).last() == s@[i as int]);
        let c = s[i];
        if is_whitespace(c) {
            if cur.len() > 0 {
                let ghost before = views(words@);
                let ghost cv = cur@;
                let mut done: Vec<char> = Vec::new();
                std::mem::swap(&mut done, &mut cur);
                words.push(done);
                assert(views(words@) =~= before.push(cv));
                assert(cur@ =~= Seq::<char>::empty());
            }
        } else {
            cur.push(c);
        }
        i = i + 1;
    }
    assert(s@.take(i as int) =~= s@);
    if cur.len() > 0 {
        let ghost before = views(words@);
        let ghost cv = cur@;
        words.push(cur);
        assert(views(words@) =~= before.push(cv));
    }
    words
}

/// The last position at or before `i` where `t` occurs in `s`.
pub open spec fn last_occurrence_from(s: Seq<char>, t: Seq<char>, i: int) -> Option<int>
    decreases i + 1,
{
    if i < 0 {
        None
    } else if occurs_at(s, t, i) {
        Some(i)
    } else {
        last_occurrence_from(s, t, i - 1)
    }
}

/// `str::rfind`: the last position where `t` occurs in `s`.
pub open spec fn rfind(s: Seq<char>, t: Seq<char>) -> Option<int> {
    last_occurrence_from(s, t, s.len() - t.len())
}

/// `str::rfind` with a literal needle.
pub fn rfind_str(s: &[char], t: &str) -> (r: Option<usize>)
    ensures
        r matches Some(p) ==> rfind(s@, t@) == Some(p as int) && occurs_at(s@, t@, p as int),
        r is None ==> rfind(s@, t@) is None,
{
    let tc = str_to_chars(t);
    if tc.len() > s.len() {
        assert(last_occurrence_from(s@, t@, s@.len() - t@.len()) is None);
        return None;
    }
    let mut i: usize = s.len() - tc.len();
    loop
        invariant
            i <= s@.len() - t@.len(),
            tc@ == t@,
            last_occurrence_from(s@, t@, i as int) == rfind(s@, t@),
        decreases i,
    {
        if occurs_at_exec(s, &tc, i) {
            return Some(i);
        }
        if i == 0 {
            assert(last_occurrence_from(s@, t@, -1) is None);
            return None;
        }
        i = i - 1;
    }
}

// ---------- joining ----------

/// `slice::join`: the pieces with `sep` between neighbours.
pub open spec fn join(ls: Seq<Seq<char>>, sep: Seq<char>) -> Seq<char>
    decreases ls.len(),
{
    if ls.len() == 0 {
        Seq::<char>::empty()
    } else if ls.len() == 1 {
        ls[0]
    } else {
        join(ls.drop_last(), sep) + sep + ls.last()
    }
}

/// Appends `src` to `dst`.
pub fn append(dst: &mut Vec<char>, src: &[char])
    ensures
        final(dst)@ == old(dst)@ + src@,
{
    let mut i: usize = 0;
    let ghost start = dst@;
    while i < src.len()
        invariant
            i <= src@.len(),
            dst@ == start + src@.take(i as int),
        decreases src@.len() - i,
    {
        dst.push(src[i]);
        i = i + 1;
        assert(dst@ =~= start + src@.take(i as int));
    }
    assert(src@.take(i as int) =~= src@);
}

/// Appends the literal `src` to `dst`.
pub fn append_str(dst: &mut Vec<char>, src: &str)
    ensures
        final(dst)@ == old(dst)@ + src@,
{
    let c = str_to_chars(src);
    append(dst, &c);
}

/// `ls.join(sep)`.
pub fn join_exec(ls: &Vec<Vec<char>>, sep: &[char]) -> (out: Vec<char>)
    ensures
        out@ == join(ls@.map_values(|l: Vec<char>| l@), sep@),
{
    let ghost v = ls@.map_values(|l: Vec<char>| l@);
    let mut out: Vec<char> = Vec::new();
    let mut i: usize = 0;
    while i < ls.len()
        invariant
            i <= ls@.len(),
            v == ls@.map_values(|l: Vec<char>| l@),
            out@ == join(v.take(i as int), sep@),
        decreases ls@.len() - i,
    {
        assert(v.take(i + 1).drop_last() =~= v.take(i as int));
        if i > 0 {
            append(&mut out, sep);
        }
        append(&mut out, &ls[i]);
        i = i + 1;
        proof {
            if i == 1 {
                assert(out@ =~= join(v.take(1), sep@));
            }
        }
    }
    assert(v.take(i as int) =~= v);
    out
}

// ---------- folds over lines ----------

/// The views of a list of character vectors.
pub open spec fn views(v: Seq<Vec<char>>) -> Seq<Seq<char>> {
    v.map_values(|l: Vec<char>| l@)
}

/// The results of `f` on the elements of `ls` for which it gives one, in order.
pub open spec fn filter_map<T>(ls: Seq<Seq<char>>, f: spec_fn(Seq<char>) -> Option<T>) -> Seq<T>
    decreases ls.len(),
{
    if ls.len() == 0 {
        Seq::<T>::empty()
    } else {
        let prev = filter_map(ls.drop_last(), f);
        match f(ls.last()) {
            Some(x) => prev.push(x),
            None => prev,
        }
    }
}

/// Number of elements of `ls` that satisfy `p`.
pub open spec fn count_where(ls: Seq<Seq<char>>, p: spec_fn(Seq<char>) -> bool) -> nat
    decreases ls.len(),
{
    if ls.len() == 0 {
        0
    } else {
        count_where(ls.drop_last(), p) + if p(ls.last()) {
            1nat
        } else {
            0nat
        }
    }
}

/// The result of `f` on the last element of `ls` for which it gives one.
pub open spec fn last_some(
    ls: Seq<Seq<char>>,
    f: spec_fn(Seq<char>) -> Option<Seq<char>>,
) -> Option<Seq<char>>
    decreases ls.len(),
{
    if ls.len() == 0 {
        None
    } else {
        match f(ls.last()) {
            Some(x) => Some(x),
            None => last_some(ls.drop_last(), f),
        }
    }
}

/// The state reached by running `step` over `ls` from `init`.
pub open spec fn fold_lines<S>(ls: Seq<Seq<char>>, init: S, step: spec_fn(S, Seq<char>) -> S) -> S
    decreases ls.len(),
{
    if ls.len() == 0 {
        init
    } else {
        step(fold_lines(ls.drop_last(), init, step), ls.last())
    }
}

pub proof fn lemma_count_where_le(ls: Seq<Seq<char>>, p: spec_fn(Seq<char>) -> bool)
    ensures
        count_where(ls, p) <= ls.len(),
    decreases ls.len(),
{
    if ls.len() > 0 {
        lemma_count_where_le(ls.drop_last(), p);
    }
}

/// `"(" + n + suffix`, the note that stands for stripped lines.
pub open spec fn count_note(n: nat, suffix: Seq<char>) -> Seq<char> {
    seq!['('] + decimal(n) + suffix
}

/// `format!("({}{suffix}", n)`.
pub fn count_note_exec(n: usize, suffix: &str) -> (out: Vec<char>)
    ensures
        out@ == count_note(n as nat, suffix@),
{
    let mut out: Vec<char> = Vec::new();
    out.push('(');
    let d = decimal_exec(n);
    append(&mut out, &d);
    append_str(&mut out, suffix);
    assert(out@ =~= count_note(n as nat, suffix@));
    out
}

/// `trim(join(ls, "\n"))` as a `String`.
pub fn join_lines_trimmed(ls: &Vec<Vec<char>>) -> (out: String)
    ensures
        out@ == trim(join(views(ls@), seq!['\n'])),
{
    let mut nl: Vec<char> = Vec::new();
    nl.push('\n');
    assert(nl@ =~= seq!['\n']);
    let j = join_exec(ls, &nl);
    let t = trim_chars(&j);
    chars_to_string(&t)
}

// ---------- numbers ----------

/// The decimal digit for `d < 10`.
pub open spec fn digit(d: nat) -> char {
    if d == 0 {
        '0'
    } else if d == 1 {
        '1'
    } else if d == 2 {
        '2'
    } else if d == 3 {
        '3'
    } else if d == 4 {
        '4'
    } else if d == 5 {
        '5'
    } else if d == 6 {
        '6'
    } else if d == 7 {
        '7'
    } else if d == 8 {
        '8'
    } else {
        '9'
    }
}

/// The decimal rendering of `n` (`usize::to_string`).
pub open spec fn decimal(n: nat) -> Seq<char>
    decreases n,
{
    if n < 10 {
        seq![digit(n)]
    } else {
        decimal(n / 10).push(digit(n % 10))
    }
}

fn digit_exec(d: usize) -> (c: char)
    requires
        d < 10,
    ensures
        c == digit(d as nat),
{
    if d == 0 {
        '0'
    } else if d == 1 {
        '1'
    } else if d == 2 {
        '2'
    } else if d == 3 {
        '3'
    } else if d == 4 {
        '4'
    } else if d == 5 {
        '5'
    } else if d == 6 {
        '6'
    } else if d == 7 {
        '7'
    } else if d == 8 {
        '8'
    } else {
        '9'
    }
}

/// `n.to_string()`, as characters.
pub fn decimal_exec(n: usize) -> (out: Vec<char>)
    ensures
        out@ == decimal(n as nat),
    decreases n,
{
    if n < 10 {
        let mut v: Vec<char> = Vec::new();
        v.push(digit_exec(n));
        assert(v@ =~= seq![digit(n as nat)]);
        v
    } else {
        let mut v = decimal_exec(n / 10);
        v.push(digit_exec(n % 10));
        v
    }
}

/// `c` is an ASCII digit.
pub open spec fn is_digit(c: char) -> bool {
    '0' <= c <= '9'
}

/// The number written by the ASCII digits `s`.
pub open spec fn digits_value(s: Seq<char>) -> nat
    decreases s.len(),
{
    if s.len() == 0 {
        0
    } else {
        digits_value(s.drop_last()) * 10 + ((s.last() as u32) - ('0' as u32)) as nat
    }
}

/// `s` without one leading `+`.
pub open spec fn unsigned_digits(s: Seq<char>) -> Seq<char> {
    if s.len() > 0 && s[0] == '+' {
        s.drop_first()
    } else {
        s
    }
}

/// Every character of `d` is an ASCII digit.
pub open spec fn all_digits(d: Seq<char>) -> bool {
    forall|i: int| 0 <= i < d.len() ==> is_digit(#[trigger] d[i])
}

/// `s.parse::<usize>().ok()`: an optional `+`, then one or more ASCII digits
/// whose value fits in `usize`.
pub open spec fn parse_usize(s: Seq<char>) -> Option<nat> {
    let d = unsigned_digits(s);
    if d.len() > 0 && all_digits(d) && digits_value(d) <= usize::MAX {
        Some(digits_value(d))
    } else {
        None
    }
}

proof fn lemma_digits_value_monotone(s: Seq<char>, k: int)
    requires
        0 <= k <= s.len(),
        forall|i: int| 0 <= i < s.len() ==> is_digit(#[trigger] s[i]),
    ensures
        digits_value(s.take(k)) <= digits_value(s),
    decreases s.len() - k,
{
    if k < s.len() {
        assert(s.take(k + 1).drop_last() =~= s.take(k));
        lemma_digits_value_monotone(s, k + 1);
    } else {
        assert(s.take(k) =~= s);
    }
}

/// `s.parse::<usize>().ok()`.
pub fn parse_usize_exec(s: &[char]) -> (r: Option<usize>)
    ensures
        r matches Some(n) ==> parse_usize(s@) == Some(n as nat),
        r is None ==> parse_usize(s@) is None,
{
    let start: usize = if s.len() > 0 && s[0] == '+' {
        1
    } else {
        0
    };
    let ghost d = unsigned_digits(s@);
    assert(d =~= s@.skip(start as int));
    if start >= s.len() {
        return None;
    }
    let mut v: usize = 0;
    let mut i = start;
    while i < s.len()
        invariant
            start <= i <= s@.len(),
            d == unsigned_digits(s@),
            d =~= s@.skip(start as int),
            forall|j: int| 0 <= j < i - start ==> is_digit(#[trigger] d[j]),
            v == digits_value(d.take(i - start)),
        decreases s@.len() - i,
    {
        let c = s[i];
        assert(d[i - start] == c);
        if !('0' <= c && c <= '9') {
            assert(!is_digit(d[i - start]));
            return None;
        }
        assert(is_digit(d[i - start]));
        let dv = ((c as u32) - ('0' as u32)) as usize;
        assert(d.take(i - start + 1).drop_last() =~= d.take(i - start));
        assert(d.take(i - start + 1).last() == c);
        assert(digits_value(d.take(i - start + 1)) == v * 10 + dv);
        match v.checked_mul(10) {
            Some(m) => match m.checked_add(dv) {
                Some(n) => {
                    v = n;
                },
                None => {
                    proof {
                        lemma_all_digits_or_none(d, i - start + 1);
                    }
                    return None;
                },
            },
            None => {
                proof {
                    lemma_all_digits_or_none(d, i - start + 1);
                }
                return None;
            },
        }
        i = i + 1;
    }
    assert(d.take(i - start) =~= d);
    Some(v)
}

proof fn lemma_all_digits_or_none(d: Seq<char>, k: int)
    requires
        0 < k <= d.len(),
        forall|j: int| 0 <= j < k ==> is_digit(#[trigger] d[j]),
        digits_value(d.take(k)) > usize::MAX,
    ensures
        all_digits(d) ==> digits_value(d) > usize::MAX,
{
    if all_digits(d) {
        lemma_digits_value_monotone(d, k);
    }
}

// ---------- conversions ----------

/// The characters of `s`, in order.
pub fn str_to_chars(s: &str) -> (out: Vec<char>)
    ensures
        out@ == s@,
{
    let mut out: Vec<char> = Vec::new();
    for c in it: s.chars()
        invariant
            out@ == it.seq().take(it.index() as int),
    {
        out.push(c);
    }
    out
}

/// A `String` holding the characters `v`.
///
/// Trusted: calls `FromIterator<&char> for String`, which the standard library
/// documents as pushing each character in order.
#[verifier::external_body]
pub(crate) fn chars_to_string(v: &[char]) -> (s: String)
    ensures
        s@ == v@,
{
    v.iter().collect()
}

/// Trimming twice is trimming once.
pub proof fn lemma_trim_idempotent(s: Seq<char>)
    ensures
        trim(trim(s)) == trim(s),
{
    let e = trim_end(s);
    lemma_trim_end_is_prefix(s);
    lemma_trim_start_is_suffix(e);
    let t = trim_start(e);
    // `t` is a suffix of `e`, whose last character (if any) is not whitespace.
    if t.len() > 0 {
        assert(t.last() == e.last());
    }
    assert(trim_end(t) == t);
    lemma_trim_start_is_suffix(t);
    if t.len() > 0 {
        assert(!is_ws(t[0]));
    }
    assert(trim_start(t) == t);
}

/// No string is below itself.
pub proof fn lemma_lex_lt_irreflexive(a: Seq<char>)
    ensures
        !lex_lt(a, a),
    decreases a.len(),
{
    if a.len() > 0 {
        lemma_lex_lt_irreflexive(a.drop_first());
    }
}

/// String order is transitive.
pub proof fn lemma_lex_lt_transitive(a: Seq<char>, b: Seq<char>, c: Seq<char>)
    requires
        lex_lt(a, b),
        lex_lt(b, c),
    ensures
        lex_lt(a, c),
    decreases a.len(),
{
    if a.len() > 0 && b.len() > 0 && c.len() > 0 && a[0] == b[0] && b[0] == c[0] {
        lemma_lex_lt_transitive(a.drop_first(), b.drop_first(), c.drop_first());
    }
}

/// Of two different strings, one is below the other.
pub proof fn lemma_lex_lt_total(a: Seq<char>, b: Seq<char>)
    requires
        a != b,
    ensures
        lex_lt(a, b) || lex_lt(b, a),
    decreases a.len(),
{
    if a.len() == 0 && b.len() == 0 {
        assert(a =~= b);
    }
    if a.len() > 0 && b.len() > 0 && a[0] == b[0] {
        if a.drop_first() == b.drop_first() {
            assert(a =~= seq![a[0]] + a.drop_first());
            assert(b =~= seq![b[0]] + b.drop_first());
        }
        lemma_lex_lt_total(a.drop_first(), b.drop_first());
    } else if a.len() > 0 && b.len() > 0 {
        let u = a[0] as u32;
        let v = b[0] as u32;
        vstd::utf8::char_u32_cast(a[0], u);
        vstd::utf8::char_u32_cast(b[0], v);
        assert(u != v);
    }
}

/// Each element is below every later one.
pub open spec fn strictly_sorted(list: Seq<Seq<char>>) -> bool {
    forall|i: int, j: int| 0 <= i < j < list.len() ==> lex_lt(#[trigger] list[i], #[trigger] list[j])
}

proof fn lemma_trim_end_drops_ws(s: Seq<char>)
    ensures
        forall|j: int| trim_end(s).len() <= j < s.len() ==> is_ws(#[trigger] s[j]),
    decreases s.len(),
{
    lemma_trim_end_is_prefix(s);
    if s.len() > 0 && is_ws(s.last()) {
        lemma_trim_end_drops_ws(s.drop_last());
        lemma_trim_end_is_prefix(s.drop_last());
        assert forall|j: int| trim_end(s).len() <= j < s.len() implies is_ws(#[trigger] s[j]) by {
            if j < s.len() - 1 {
                assert(s.drop_last()[j] == s[j]);
            }
        }
    }
}

proof fn lemma_trim_start_drops_ws(s: Seq<char>)
    ensures
        forall|j: int| 0 <= j < s.len() - trim_start(s).len() ==> is_ws(#[trigger] s[j]),
    decreases s.len(),
{
    lemma_trim_start_is_suffix(s);
    if s.len() > 0 && is_ws(s[0]) {
        lemma_trim_start_drops_ws(s.drop_first());
        lemma_trim_start_is_suffix(s.drop_first());
        assert forall|j: int| 0 <= j < s.len() - trim_start(s).len() implies is_ws(
            #[trigger] s[j],
        ) by {
            if j > 0 {
                assert(s.drop_first()[j - 1] == s[j]);
            }
        }
    }
}

/// `trim(s)` is `s[m..k]`, with only whitespace before `m` and from `k` on,
/// and (when not empty) no whitespace at either of its ends.
pub proof fn lemma_trim_shape(s: Seq<char>) -> (r: (int, int))
    ensures
        0 <= r.0 <= r.1 <= s.len(),
        trim(s) == s.subrange(r.0, r.1),
        forall|j: int| 0 <= j < r.0 ==> is_ws(#[trigger] s[j]),
        forall|j: int| r.1 <= j < s.len() ==> is_ws(#[trigger] s[j]),
        r.0 < r.1 ==> !is_ws(s[r.0]) && !is_ws(s[r.1 - 1]),
{
    let e = trim_end(s);
    lemma_trim_end_is_prefix(s);
    lemma_trim_end_drops_ws(s);
    lemma_trim_start_is_suffix(e);
    lemma_trim_start_drops_ws(e);
    let k = e.len() as int;
    let m = k - trim_start(e).len();
    assert(trim(s) =~= s.subrange(m, k));
    assert forall|j: int| 0 <= j < m implies is_ws(#[trigger] s[j]) by {
        assert(e[j] == s[j]);
    }
    if m < k {
        assert(trim_start(e)[0] == s[m]);
        assert(e.last() == s[k - 1]);
    }
    (m, k)
}

/// A piece that occurs in `s` still occurs, trimmed, in `trim(s)`.
pub proof fn lemma_trim_keeps_piece(s: Seq<char>, e: Seq<char>, p: int)
    requires
        occurs_at(s, e, p),
        trim(e).len() > 0,
    ensures
        contains(trim(s), trim(e)),
{
    let (m, k) = lemma_trim_shape(s);
    let (me, ke) = lemma_trim_shape(e);
    assert(s.subrange(p, p + e.len()) == e);
    assert(e[me] == s[p + me]);
    assert(e[ke - 1] == s[p + ke - 1]);
    assert(!is_ws(s[p + me]));
    assert(!is_ws(s[p + ke - 1]));
    assert(m <= p + me) by {
        if p + me < m {
            assert(is_ws(s[p + me]));
        }
    }
    assert(p + ke <= k) by {
        if p + ke - 1 >= k {
            assert(is_ws(s[p + ke - 1]));
        }
    }
    let t = trim(s);
    let q = p + me - m;
    assert(t.subrange(q, q + trim(e).len()) =~= trim(e)) by {
        assert forall|j: int| 0 <= j < trim(e).len() implies t.subrange(q, q + trim(e).len())[j]
            == trim(e)[j] by {
            assert(t[q + j] == s[p + me + j]);
            assert(e[me + j] == s[p + me + j]);
        }
    }
    assert(occurs_at(t, trim(e), q));
}

/// Each piece of `ls` occurs in `join(ls, sep)`.
pub proof fn lemma_join_has_piece(ls: Seq<Seq<char>>, sep: Seq<char>, i: int)
    requires
        0 <= i < ls.len(),
    ensures
        exists|p: int| occurs_at(join(ls, sep), ls[i], p),
    decreases ls.len(),
{
    let j = join(ls, sep);
    if ls.len() == 1 {
        assert(j == ls[0]);
        assert(j.subrange(0, ls[0].len() as int) =~= ls[0]);
        assert(occurs_at(j, ls[i], 0));
    } else {
        let prev = join(ls.drop_last(), sep);
        assert(j == prev + sep + ls.last());
        if i == ls.len() - 1 {
            let p: int = (prev.len() + sep.len()) as int;
            assert(j.subrange(p, p + ls[i].len()) =~= ls[i]);
            assert(occurs_at(j, ls[i], p));
        } else {
            lemma_join_has_piece(ls.drop_last(), sep, i);
            assert(ls.drop_last()[i] == ls[i]);
            let p = choose|p: int| occurs_at(prev, ls[i], p);
            assert(j.subrange(p, p + ls[i].len()) =~= prev.subrange(p, p + ls[i].len()));
            assert(occurs_at(j, ls[i], p));
        }
    }
}

/// The result of `f` on an element for which it gives one is among the
/// results of `filter_map(ls, f)`.
pub proof fn lemma_filter_map_has(
    ls: Seq<Seq<char>>,
    f: spec_fn(Seq<char>) -> Option<Seq<char>>,
    i: int,
)
    requires
        0 <= i < ls.len(),
        f(ls[i]) is Some,
    ensures
        filter_map(ls, f).contains(f(ls[i])->0),
    decreases ls.len(),
{
    let p = filter_map(ls.drop_last(), f);
    if i == ls.len() - 1 {
        assert(filter_map(ls, f) == p.push(f(ls.last())->0));
        assert(filter_map(ls, f)[p.len() as int] == f(ls[i])->0);
    } else {
        lemma_filter_map_has(ls.drop_last(), f, i);
        assert(ls.drop_last()[i] == ls[i]);
        let k = choose|k: int| 0 <= k < p.len() && p[k] == f(ls[i])->0;
        match f(ls.last()) {
            Some(x) => {
                assert(filter_map(ls, f)[k] == p[k]);
            },
            None => {},
        }
    }
}

/// The texts of `s`, each once, in order of first appearance.
pub open spec fn dedup(s: Seq<Seq<char>>) -> Seq<Seq<char>>
    decreases s.len(),
{
    if s.len() == 0 {
        Seq::empty()
    } else {
        let p = dedup(s.drop_last());
        if p.contains(s.last()) {
            p
        } else {
            p.push(s.last())
        }
    }
}

/// `dedup` keeps every text of `s` once and adds none.
pub proof fn lemma_dedup(s: Seq<Seq<char>>)
    ensures
        dedup(s).no_duplicates(),
        forall|x: Seq<char>| #[trigger] dedup(s).contains(x) <==> s.contains(x),
    decreases s.len(),
{
    if s.len() > 0 {
        let r = s.drop_last();
        lemma_dedup(r);
        let p = dedup(r);
        assert forall|x: Seq<char>| #[trigger] dedup(s).contains(x) <==> s.contains(x) by {
            if r.contains(x) {
                let k = choose|k: int| 0 <= k < r.len() && r[k] == x;
                assert(s[k] == x);
            }
            if s.contains(x) && x != s.last() {
                let k = choose|k: int| 0 <= k < s.len() && s[k] == x;
                assert(k < s.len() - 1);
                assert(r[k] == x);
            }
            if !p.contains(s.last()) {
                assert(dedup(s) == p.push(s.last()));
                if p.contains(x) {
                    let k = choose|k: int| 0 <= k < p.len() && p[k] == x;
                    assert(dedup(s)[k] == x);
                }
                if x == s.last() {
                    assert(dedup(s)[p.len() as int] == x);
                }
            }
            if x == s.last() {
                assert(s[s.len() - 1] == x);
            }
        }
    }
}

/// The texts of `list`, each once, in order of first appearance.
pub fn dedup_strings(list: &Vec<String>) -> (out: Vec<String>)
    ensures
        out@.map_values(|t: String| t@) == dedup(list@.map_values(|t: String| t@)),
{
    let ghost lv = list@.map_values(|t: String| t@);
    let mut out: Vec<String> = Vec::new();
    let mut i: usize = 0;
    assert(lv.take(0) =~= Seq::<Seq<char>>::empty());
    while i < list.len()
        invariant
            i <= list@.len(),
            lv == list@.map_values(|t: String| t@),
            out@.map_values(|t: String| t@) == dedup(lv.take(i as int)),
        decreases list@.len() - i,
    {
        assert(lv.take(i + 1).drop_last() =~= lv.take(i as int));
        assert(lv.take(i + 1).last() == list@[i as int]@);
        let ghost ov = out@.map_values(|t: String| t@);
        let x = str_to_chars(list[i].as_str());
        let mut found = false;
        let mut k: usize = 0;
        while k < out.len()
            invariant
                k <= out@.len(),
                ov == out@.map_values(|t: String| t@),
                found == exists|m: int| 0 <= m < k && ov[m] == x@,
            decreases out@.len() - k,
        {
            assert(ov[k as int] == out@[k as int]@);
            if chars_eq(&str_to_chars(out[k].as_str()), &x) {
                found = true;
            }
            k = k + 1;
        }
        assert(found == ov.contains(x@));
        if !found {
            out.push(list[i].clone());
            assert(out@.map_values(|t: String| t@) =~= ov.push(x@));
        }
        i = i + 1;
    }
    assert(lv.take(i as int) =~= lv);
    out
}

} // verus!
