//! One-line signatures for code chunks.
use vstd::prelude::*;

use crate::pattern::{char_is_alphanumeric, is_alnum, regex_is_match, Pattern};
use crate::text::{
    append, chars_to_string, contains, ends_with, lines, lines_exec, starts_with, str_to_chars,
    trim, trim_chars, trim_end, trim_end_char, trim_start, views,
};

verus! {

pub const SIGNATURE_RE: &'static str =
    r"^\s*(?:pub(?:\([^)]*\))?\s+|export\s+(?:default\s+)?|public\s+|private\s+|protected\s+|static\s+|abstract\s+|final\s+|async\s+|const\s+|unsafe\s+|extern\s+)*(?:fn|function|def|class|struct|enum|trait|impl|interface|type|mod|func|fun|namespace|package|protocol|record|typedef|module|defmodule|object)\b";

pub const ARROW_FN_RE: &'static str =
    r"^\s*(?:export\s+(?:default\s+)?)?(?:const|let|var)\s+[A-Za-z_$][\w$]*\s*=\s*(?:async\s+)?(?:\([^)]*\)|[A-Za-z_$][\w$]*)\s*=>";

/// Longest signature kept whole, in characters.
pub const MAX_SIGNATURE_CHARS: usize = 500;

/// Most lines joined into one signature.
pub const MAX_SIGNATURE_LINES: usize = 20;

/// A line that starts (after indentation) like a comment.
pub open spec fn is_comment_line(line: Seq<char>) -> bool {
    let t = trim_start(line);
    starts_with(t, "//"@) || starts_with(t, "/*"@) || starts_with(t, "*"@) || starts_with(t, "#"@)
}

fn is_comment_line_exec(line: &[char]) -> (b: bool)
    ensures
        b == is_comment_line(line@),
{
    let t = crate::text::trim_start_chars(line);
    crate::text::starts_with_str(&t, "//") || crate::text::starts_with_str(&t, "/*")
        || crate::text::starts_with_str(&t, "*") || crate::text::starts_with_str(&t, "#")
}

/// A line that starts a definition (function, type, module, arrow function...).
pub open spec fn is_definition_line(line: Seq<char>) -> bool {
    regex_is_match(SIGNATURE_RE@, line) || regex_is_match(ARROW_FN_RE@, line)
}

/// A signature as shown: trimmed, without trailing `{`, and cut at 500
/// characters (with `…`) when longer.
pub open spec fn format_signature_spec(line: Seq<char>) -> Seq<char> {
    let s = trim_end(trim_end_char(trim(line), '{'));
    if s.len() <= MAX_SIGNATURE_CHARS {
        s
    } else {
        s.take(MAX_SIGNATURE_CHARS as int).push('…')
    }
}

fn format_signature(line: &[char]) -> (out: Vec<char>)
    ensures
        out@ == format_signature_spec(line@),
{
    let t = trim_chars(line);
    let mut n = t.len();
    assert(t@.take(n as int) =~= t@);
    while n > 0 && t[n - 1] == '{'
        invariant
            n <= t@.len(),
            trim_end_char(t@.take(n as int), '{') == trim_end_char(t@, '{'),
        decreases n,
    {
        assert(t@.take(n as int).drop_last() =~= t@.take(n - 1));
        n = n - 1;
    }
    let u = crate::text::slice(&t, 0, n);
    assert(u@ =~= t@.take(n as int));
    let s = crate::text::trim_end_chars(&u);
    if s.len() <= MAX_SIGNATURE_CHARS {
        s
    } else {
        let mut out = crate::text::slice(&s, 0, MAX_SIGNATURE_CHARS);
        out.push('…');
        assert(out@ =~= s@.take(MAX_SIGNATURE_CHARS as int).push('…'));
        out
    }
}

/// Paren / bracket depth and string state while reading a signature.
pub struct SigScan {
    pub depth: int,
    pub in_string: bool,
    pub prev: char,
}

/// One more character of a signature: `(`/`[` open, `)`/`]` close, and
/// `"` (not after a backslash) starts or ends a string, inside which
/// brackets do not count.
pub open spec fn scan_char(s: SigScan, ch: char) -> SigScan {
    if s.in_string {
        SigScan {
            depth: s.depth,
            in_string: !(ch == '"' && s.prev != '\\'),
            prev: ch,
        }
    } else if ch == '"' {
        SigScan { depth: s.depth, in_string: true, prev: ch }
    } else if ch == '(' || ch == '[' {
        SigScan { depth: s.depth + 1, in_string: false, prev: ch }
    } else if ch == ')' || ch == ']' {
        SigScan { depth: s.depth - 1, in_string: false, prev: ch }
    } else {
        SigScan { prev: ch, ..s }
    }
}

/// The scan state after the characters `t`.
pub open spec fn scan_chars(s: SigScan, t: Seq<char>) -> SigScan
    decreases t.len(),
{
    if t.len() == 0 {
        s
    } else {
        scan_char(scan_chars(s, t.drop_last()), t.last())
    }
}

/// A line that ends a signature once the brackets are closed.
pub open spec fn ends_signature(t: Seq<char>) -> bool {
    ends_with(t, "{"@) || ends_with(t, ";"@) || ends_with(t, "=>"@) || contains(t, "=>"@)
        || ends_with(t, ":"@)
}

/// Joins trimmed lines from `ls[k]` on, after `count` lines already joined
/// into `combined`, until the brackets close at a terminator, at most 20 lines.
pub open spec fn collect_from(
    ls: Seq<Seq<char>>,
    k: int,
    count: int,
    combined: Seq<char>,
    st: SigScan,
) -> Seq<char>
    decreases ls.len() - k,
{
    if k < 0 || k >= ls.len() || count >= MAX_SIGNATURE_LINES {
        combined
    } else {
        let t = trim(ls[k]);
        let c2 = if combined.len() > 0 {
            combined.push(' ') + t
        } else {
            t
        };
        let st2 = scan_chars(st, t);
        let count2 = count + 1;
        if st2.depth <= 0 && ends_signature(t) {
            c2
        } else if st2.depth <= 0 && count2 == 1 && (contains(t, "->"@) || ends_with(t, ")"@)) {
            collect_from(ls, k + 1, count2, c2, st2)
        } else if st2.depth <= 0 && count2 > 1 && !ends_with(trim_end(c2), ","@) {
            c2
        } else {
            collect_from(ls, k + 1, count2, c2, st2)
        }
    }
}

/// The signature that starts at line `start`.
pub open spec fn collect_signature_spec(ls: Seq<Seq<char>>, start: int) -> Seq<char> {
    format_signature_spec(
        collect_from(ls, start, 0, Seq::empty(), SigScan { depth: 0, in_string: false, prev: ' ' }),
    )
}

proof fn lemma_scan_chars_empty(s: SigScan, t: Seq<char>)
    requires
        t.len() == 0,
    ensures
        scan_chars(s, t) == s,
{
}

fn scan_chars_exec(depth: &mut i128, in_string: &mut bool, prev: &mut char, t: &[char])
    requires
        -0x1_0000_0000_0000_0000_0000 <= *old(depth) <= 0x1_0000_0000_0000_0000_0000,
    ensures
        (SigScan { depth: *final(depth) as int, in_string: *final(in_string), prev: *final(prev) })
            == scan_chars(
            SigScan { depth: *old(depth) as int, in_string: *old(in_string), prev: *old(prev) },
            t@,
        ),
        *old(depth) - t@.len() <= *final(depth) <= *old(depth) + t@.len(),
{
    let ghost start = SigScan { depth: *depth as int, in_string: *in_string, prev: *prev };
    let ghost d0 = *depth;
    let mut i: usize = 0;
    proof {
        lemma_scan_chars_empty(start, t@.take(0));
    }
    while i < t.len()
        invariant
            i <= t@.len(),
            t.len() == t@.len(),
            d0 - i <= *depth <= d0 + i,
            -0x1_0000_0000_0000_0000_0000 <= d0 <= 0x1_0000_0000_0000_0000_0000,
            (SigScan { depth: *depth as int, in_string: *in_string, prev: *prev }) == scan_chars(
                start,
                t@.take(i as int),
            ),
        decreases t@.len() - i,
    {
        assert(t@.take(i + 1).drop_last() =~= t@.take(i as int));
        assert(t@.take(i + 1).last() == t@[i as int]);
        let ch = t[i];
        if *in_string {
            if ch == '"' && *prev != '\\' {
                *in_string = false;
            }
        } else if ch == '"' {
            *in_string = true;
        } else if ch == '(' || ch == '[' {
            *depth = *depth + 1;
        } else if ch == ')' || ch == ']' {
            *depth = *depth - 1;
        }
        *prev = ch;
        i = i + 1;
    }
    assert(t@.take(i as int) =~= t@);
}

fn collect_signature(ls: &Vec<Vec<char>>, start: usize) -> (out: Vec<char>)
    ensures
        out@ == collect_signature_spec(views(ls@), start as int),
{
    let ghost lv = views(ls@);
    let ghost init = SigScan { depth: 0, in_string: false, prev: ' ' };
    let mut combined: Vec<char> = Vec::new();
    let mut depth: i128 = 0;
    let mut in_string = false;
    let mut prev = ' ';
    let mut count: usize = 0;
    let mut k = start;
    while k < ls.len() && count < MAX_SIGNATURE_LINES
        invariant
            lv == views(ls@),
            init == (SigScan { depth: 0, in_string: false, prev: ' ' }),
            count <= MAX_SIGNATURE_LINES,
            -(count as int) * 0x1_0000_0000_0000_0000 <= depth <= (count as int)
                * 0x1_0000_0000_0000_0000,
            collect_from(lv, start as int, 0, Seq::empty(), init) == collect_from(
                lv,
                k as int,
                count as int,
                combined@,
                SigScan { depth: depth as int, in_string, prev },
            ),
        decreases ls@.len() - k,
    {
        let t = trim_chars(&ls[k]);
        assert(lv[k as int] == ls@[k as int]@);
        let ghost st = SigScan { depth: depth as int, in_string, prev };
        let ghost cb = combined@;
        let ghost count_old = count as int;
        if combined.len() > 0 {
            combined.push(' ');
        }
        append(&mut combined, &t);
        assert(combined@ =~= (if cb.len() > 0 {
            cb.push(' ') + t@
        } else {
            t@
        }));
        assert(t.len() == t@.len());
        scan_chars_exec(&mut depth, &mut in_string, &mut prev, &t);
        count = count + 1;
        if depth <= 0 && (crate::text::ends_with_str(&t, "{") || crate::text::ends_with_str(&t, ";")
            || crate::text::ends_with_str(&t, "=>") || crate::text::contains_str(&t, "=>")
            || crate::text::ends_with_str(&t, ":")) {
            assert(collect_from(lv, k as int, count_old, cb, st) == combined@);
            return format_signature(&combined);
        }
        if depth <= 0 && count == 1 && (crate::text::contains_str(&t, "->")
            || crate::text::ends_with_str(&t, ")")) {
            k = k + 1;
            continue ;
        }
        if depth <= 0 && count > 1 {
            let te = crate::text::trim_end_chars(&combined);
            if !crate::text::ends_with_str(&te, ",") {
                assert(collect_from(lv, k as int, count_old, cb, st) == combined@);
                return format_signature(&combined);
            }
        }
        k = k + 1;
    }
    format_signature(&combined)
}

/// Line `i` of `ls` is a definition line (not blank, not a comment).
pub open spec fn is_def_at(ls: Seq<Seq<char>>, i: int) -> bool {
    trim(ls[i]).len() > 0 && !is_comment_line(ls[i]) && is_definition_line(ls[i])
}

/// The indices below `n` of the definition lines of `ls`, in order.
pub open spec fn def_indices(ls: Seq<Seq<char>>, n: int) -> Seq<int>
    decreases n,
{
    if n <= 0 {
        Seq::empty()
    } else {
        let p = def_indices(ls, n - 1);
        if is_def_at(ls, n - 1) {
            p.push(n - 1)
        } else {
            p
        }
    }
}

/// The first index below `n` of a line that is neither blank nor a comment.
pub open spec fn first_code_line(ls: Seq<Seq<char>>, n: int) -> Option<int>
    decreases n,
{
    if n <= 0 {
        None
    } else {
        match first_code_line(ls, n - 1) {
            Some(i) => Some(i),
            None => if trim(ls[n - 1]).len() > 0 && !is_comment_line(ls[n - 1]) {
                Some(n - 1)
            } else {
                None
            },
        }
    }
}

/// The last of `ds` that is at most `rel`.
pub open spec fn last_at_most(ds: Seq<int>, rel: int) -> Option<int>
    decreases ds.len(),
{
    if ds.len() == 0 {
        None
    } else if ds.last() <= rel {
        Some(ds.last())
    } else {
        last_at_most(ds.drop_last(), rel)
    }
}

/// The signature of a chunk whose first line is `chunk_start_line`: the
/// definition nearest above the first match line (or the first definition),
/// joined over several lines when needed; without definitions, the first
/// line of code.
pub open spec fn extract_signature_near_spec(
    content: Seq<char>,
    chunk_start_line: int,
    match_lines: Seq<usize>,
) -> Option<Seq<char>> {
    let ls = lines(content);
    if ls.len() == 0 {
        None
    } else {
        let ds = def_indices(ls, ls.len() as int);
        if ds.len() == 0 {
            match first_code_line(ls, ls.len() as int) {
                Some(i) => Some(format_signature_spec(trim(ls[i]))),
                None => None,
            }
        } else {
            let chosen = if match_lines.len() > 0 {
                let rel = if match_lines[0] >= chunk_start_line {
                    match_lines[0] - chunk_start_line
                } else {
                    0
                };
                match last_at_most(ds, rel) {
                    Some(i) => i,
                    None => ds[0],
                }
            } else {
                ds[0]
            };
            Some(collect_signature_spec(ls, chosen))
        }
    }
}

proof fn lemma_def_indices_bounded(ls: Seq<Seq<char>>, n: int)
    ensures
        forall|j: int|
            0 <= j < def_indices(ls, n).len() ==> 0 <= #[trigger] def_indices(ls, n)[j] < n,
    decreases n,
{
    if n > 0 {
        lemma_def_indices_bounded(ls, n - 1);
        let p = def_indices(ls, n - 1);
        assert forall|j: int| 0 <= j < def_indices(ls, n).len() implies 0 <= #[trigger] def_indices(
            ls,
            n,
        )[j] < n by {
            if j < p.len() {
                assert(def_indices(ls, n)[j] == p[j]);
            }
        }
    }
}

/// The signature of a chunk, preferring the definition that encloses the
/// first match line.
pub fn extract_signature_near(content: &str, chunk_start_line: usize, match_lines: &[usize]) -> (r:
    Option<String>)
    ensures
        r matches Some(s) ==> extract_signature_near_spec(
            content@,
            chunk_start_line as int,
            match_lines@,
        ) == Some(s@),
        r is None ==> extract_signature_near_spec(
            content@,
            chunk_start_line as int,
            match_lines@,
        ) is None,
{
    let c = str_to_chars(content);
    let ls = lines_exec(&c);
    let ghost lv = lines(content@);
    assert(views(ls@) =~= lv);
    if ls.len() == 0 {
        return None;
    }
    let sig = Pattern::new(SIGNATURE_RE);
    let arrow = Pattern::new(ARROW_FN_RE);
    let mut defs: Vec<usize> = Vec::new();
    let mut i: usize = 0;
    while i < ls.len()
        invariant
            sig@ == SIGNATURE_RE@,
            arrow@ == ARROW_FN_RE@,
            i <= ls@.len(),
            lv == views(ls@),
            defs@.map_values(|d: usize| d as int) == def_indices(lv, i as int),
        decreases ls@.len() - i,
    {
        let ghost before = defs@.map_values(|d: usize| d as int);
        let t = trim_chars(&ls[i]);
        if t.len() > 0 && !is_comment_line_exec(&ls[i]) {
            let s = chars_to_string(&ls[i]);
            if sig.is_match(s.as_str()) || arrow.is_match(s.as_str()) {
                defs.push(i);
                assert(defs@.map_values(|d: usize| d as int) =~= before.push(i as int));
            }
        }
        i = i + 1;
    }
    assert(i == ls@.len());
    assert(lv.len() == ls@.len());
    let ghost ds = def_indices(lv, lv.len() as int);
    assert(defs@.map_values(|d: usize| d as int).len() == defs@.len());
    proof {
        lemma_def_indices_bounded(lv, lv.len() as int);
    }
    if defs.len() == 0 {
        let mut j: usize = 0;
        while j < ls.len()
            invariant
                j <= ls@.len(),
                lv == views(ls@),
                lv.len() == ls@.len(),
                lv == lines(content@),
                def_indices(lv, lv.len() as int).len() == 0,
                first_code_line(lv, j as int) is None,
            decreases ls@.len() - j,
        {
            let t = trim_chars(&ls[j]);
            if t.len() > 0 && !is_comment_line_exec(&ls[j]) {
                assert(lv[j as int] == ls@[j as int]@);
                assert(first_code_line(lv, j + 1) == Some(j as int));
                proof {
                    lemma_first_code_line_stable(lv, j + 1, lv.len() as int);
                }
                let f = format_signature(&t);
                return Some(chars_to_string(&f));
            }
            j = j + 1;
        }
        return None;
    }
    let mut chosen = defs[0];
    if match_lines.len() > 0 {
        let first = match_lines[0];
        let rel = if first >= chunk_start_line {
            first - chunk_start_line
        } else {
            0
        };
        let mut k = defs.len();
        let ghost dv = defs@.map_values(|d: usize| d as int);
        assert(dv.take(k as int) =~= dv);
        while k > 0 && defs[k - 1] > rel
            invariant
                k <= defs@.len(),
                dv == defs@.map_values(|d: usize| d as int),
                last_at_most(dv.take(k as int), rel as int) == last_at_most(dv, rel as int),
            decreases k,
        {
            assert(dv.take(k as int).drop_last() =~= dv.take(k - 1));
            k = k - 1;
        }
        if k > 0 {
            chosen = defs[k - 1];
        }
    }
    let out = collect_signature(&ls, chosen);
    Some(chars_to_string(&out))
}

proof fn lemma_first_code_line_stable(ls: Seq<Seq<char>>, n: int, m: int)
    requires
        n <= m,
        first_code_line(ls, n) is Some,
    ensures
        first_code_line(ls, m) == first_code_line(ls, n),
    decreases m - n,
{
    if n < m {
        lemma_first_code_line_stable(ls, n, m - 1);
    }
}

/// The signature of a chunk: its first definition, or its first line of code.
pub fn extract_signature(content: &str) -> (r: Option<String>)
    ensures
        r matches Some(s) ==> extract_signature_near_spec(content@, 1, Seq::empty()) == Some(s@),
        r is None ==> extract_signature_near_spec(content@, 1, Seq::empty()) is None,
{
    let v: Vec<usize> = Vec::new();
    assert(v@ =~= Seq::<usize>::empty());
    extract_signature_near(content, 1, v.as_slice())
}

/// Walks `sig` as `is_well_formed` does: the bracket depth, the string
/// state, and whether a closing bracket went below zero.
pub struct WfScan {
    pub depth: int,
    pub in_string: bool,
    pub prev: char,
    pub broken: bool,
}

pub open spec fn wf_char(s: WfScan, ch: char) -> WfScan {
    if s.broken {
        s
    } else if s.in_string {
        WfScan { in_string: !(ch == '"' && s.prev != '\\'), prev: ch, ..s }
    } else if ch == '"' {
        WfScan { in_string: true, prev: ch, ..s }
    } else if ch == '(' || ch == '[' {
        WfScan { depth: s.depth + 1, prev: ch, ..s }
    } else if ch == ')' || ch == ']' {
        WfScan { depth: s.depth - 1, prev: ch, broken: s.depth - 1 < 0, ..s }
    } else {
        WfScan { prev: ch, ..s }
    }
}

pub open spec fn wf_chars(t: Seq<char>) -> WfScan
    decreases t.len(),
{
    if t.len() == 0 {
        WfScan { depth: 0, in_string: false, prev: ' ', broken: false }
    } else {
        wf_char(wf_chars(t.drop_last()), t.last())
    }
}

/// A signature looks complete: not cut with `...`, brackets balanced
/// (outside strings), and it ends with `)`, `;`, `}`, `:`, `>`, an
/// alphanumeric character, or holds `=>`.
pub open spec fn is_well_formed_spec(sig: Seq<char>) -> bool {
    let w = wf_chars(sig);
    let t = trim_end(sig);
    let last = if t.len() > 0 {
        t.last()
    } else {
        ' '
    };
    !ends_with(sig, "..."@) && !w.broken && w.depth == 0 && (last == ')' || last == ';' || last
        == '}' || last == ':' || last == '>' || contains(sig, "=>"@) || is_alnum(last))
}

/// Whether a signature looks complete.
pub fn is_well_formed(sig: &str) -> (b: bool)
    ensures
        b == is_well_formed_spec(sig@),
{
    let c = str_to_chars(sig);
    if crate::text::ends_with_str(&c, "...") {
        return false;
    }
    let mut depth: i128 = 0;
    let mut in_string = false;
    let mut prev = ' ';
    let mut i: usize = 0;
    while i < c.len()
        invariant
            i <= c@.len(),
            c.len() == c@.len(),
            c@ == sig@,
            -(i as int) <= depth <= i,
            wf_chars(c@.take(i as int)) == (WfScan {
                depth: depth as int,
                in_string,
                prev,
                broken: false,
            }),
        decreases c@.len() - i,
    {
        assert(c@.take(i + 1).drop_last() =~= c@.take(i as int));
        assert(c@.take(i + 1).last() == c@[i as int]);
        let ch = c[i];
        if in_string {
            if ch == '"' && prev != '\\' {
                in_string = false;
            }
        } else if ch == '"' {
            in_string = true;
        } else if ch == '(' || ch == '[' {
            depth = depth + 1;
        } else if ch == ')' || ch == ']' {
            depth = depth - 1;
            if depth < 0 {
                assert(wf_chars(c@.take(i + 1)).broken);
                proof {
                    lemma_wf_broken_stays(c@, i + 1, c@.len() as int);
                }
                assert(c@.take(c@.len() as int) =~= c@);
                assert(wf_chars(c@).broken);
                return false;
            }
        }
        prev = ch;
        i = i + 1;
    }
    assert(c@.take(i as int) =~= c@);
    if depth != 0 {
        return false;
    }
    let t = crate::text::trim_end_chars(&c);
    let last = if t.len() > 0 {
        t[t.len() - 1]
    } else {
        ' '
    };
    last == ')' || last == ';' || last == '}' || last == ':' || last == '>'
        || crate::text::contains_str(&c, "=>") || char_is_alphanumeric(last)
}

proof fn lemma_wf_broken_stays(c: Seq<char>, n: int, m: int)
    requires
        0 <= n <= m <= c.len(),
        wf_chars(c.take(n)).broken,
    ensures
        wf_chars(c.take(m)).broken,
    decreases m - n,
{
    if n < m {
        lemma_wf_broken_stays(c, n, m - 1);
        assert(c.take(m).drop_last() =~= c.take(m - 1));
    }
}

/// A signature cut with `...` is never well-formed.
pub proof fn lemma_truncated_signature_not_well_formed(sig: Seq<char>)
    requires
        ends_with(sig, "..."@),
    ensures
        !is_well_formed_spec(sig),
{
}

/// A signature whose brackets do not balance is never well-formed.
pub proof fn lemma_unbalanced_signature_not_well_formed(sig: Seq<char>)
    requires
        wf_chars(sig).depth != 0,
    ensures
        !is_well_formed_spec(sig),
{
}

/// A displayed signature holds at most 500 characters and the `…` marker.
pub proof fn lemma_signature_length_bounded(line: Seq<char>)
    ensures
        format_signature_spec(line).len() <= MAX_SIGNATURE_CHARS + 1,
{
}

/// Without match lines, the chunk's first line number plays no part.
pub proof fn lemma_signature_without_matches_ignores_start(content: Seq<char>, start: int)
    ensures
        extract_signature_near_spec(content, start, Seq::empty())
            == extract_signature_near_spec(content, 1, Seq::empty()),
{
}

proof fn lemma_last_def_at_most(ls: Seq<Seq<char>>, n: int, rel: int, d: int)
    requires
        0 <= d < n <= ls.len(),
        d <= rel,
        is_def_at(ls, d),
        forall|j: int| d < j <= rel && j < n ==> !#[trigger] is_def_at(ls, j),
    ensures
        last_at_most(def_indices(ls, n), rel) == Some(d),
    decreases n,
{
    let ds = def_indices(ls, n);
    let p = def_indices(ls, n - 1);
    if is_def_at(ls, n - 1) {
        assert(ds == p.push(n - 1));
        assert(ds.last() == n - 1);
        assert(ds.drop_last() =~= p);
        if n - 1 <= rel {
            if n - 1 != d {
                assert(!is_def_at(ls, n - 1));
            }
        } else {
            lemma_last_def_at_most(ls, n - 1, rel, d);
        }
    } else {
        assert(d != n - 1);
        lemma_last_def_at_most(ls, n - 1, rel, d);
    }
}

/// The signature near a match is that of the nearest definition line at or
/// above the first match line: when line `d` of the chunk is a definition,
/// lies at or above the first match line, and no definition lies between
/// them, the signature is the one collected from line `d`. In particular a
/// match on a definition line gives that definition's signature.
pub proof fn lemma_signature_near_is_nearest_definition_above(
    content: Seq<char>,
    chunk_start_line: int,
    match_lines: Seq<usize>,
    d: int,
)
    requires
        match_lines.len() > 0,
        chunk_start_line <= match_lines[0],
        0 <= d < lines(content).len(),
        d <= match_lines[0] - chunk_start_line,
        is_def_at(lines(content), d),
        forall|j: int|
            d < j <= match_lines[0] - chunk_start_line && j < lines(content).len() ==> !#[trigger] is_def_at(
                lines(content),
                j,
            ),
    ensures
        extract_signature_near_spec(content, chunk_start_line, match_lines) == Some(
            collect_signature_spec(lines(content), d),
        ),
{
    let ls = lines(content);
    let rel = match_lines[0] - chunk_start_line;
    lemma_last_def_at_most(ls, ls.len() as int, rel, d);
    let ds = def_indices(ls, ls.len() as int);
    assert(ds.len() > 0);
}

proof fn lemma_first_def(ls: Seq<Seq<char>>, n: int, d: int)
    requires
        0 <= d < n <= ls.len(),
        is_def_at(ls, d),
        forall|j: int| 0 <= j < d ==> !#[trigger] is_def_at(ls, j),
    ensures
        def_indices(ls, n).len() > 0,
        def_indices(ls, n)[0] == d,
    decreases n,
{
    if n - 1 == d {
        assert(def_indices(ls, d).len() == 0) by {
            lemma_no_defs_below(ls, d);
        }
    } else {
        lemma_first_def(ls, n - 1, d);
    }
}

proof fn lemma_no_defs_below(ls: Seq<Seq<char>>, n: int)
    requires
        n <= ls.len(),
        forall|j: int| 0 <= j < n ==> !#[trigger] is_def_at(ls, j),
    ensures
        def_indices(ls, n).len() == 0,
    decreases n,
{
    if n > 0 {
        lemma_no_defs_below(ls, n - 1);
    }
}

/// Without match lines the signature is that of the chunk's first
/// definition line.
pub proof fn lemma_signature_without_matches_is_first_definition(
    content: Seq<char>,
    chunk_start_line: int,
    d: int,
)
    requires
        0 <= d < lines(content).len(),
        is_def_at(lines(content), d),
        forall|j: int| 0 <= j < d ==> !#[trigger] is_def_at(lines(content), j),
    ensures
        extract_signature_near_spec(content, chunk_start_line, Seq::empty()) == Some(
            collect_signature_spec(lines(content), d),
        ),
{
    lemma_first_def(lines(content), lines(content).len() as int, d);
}

} // verus!
