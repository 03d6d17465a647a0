//! Splitting identifiers and free text into lower-case search tokens.
use vstd::prelude::*;

use crate::pattern::{
    char_is_alphabetic, char_is_lowercase, char_is_uppercase, is_alpha, is_lower, is_upper,
    lowercase, regex_find_all, to_lowercase, Pattern,
};
use crate::text::{chars_to_string, filter_map, is_digit, split_on, split_on_exec, str_to_chars, views};

verus! {

pub const TOKEN_RE: &'static str = r"[\p{L}_][\p{L}\p{N}_]*";

/// The views of a list of strings.
pub open spec fn string_views(v: Seq<String>) -> Seq<Seq<char>> {
    v.map_values(|s: String| s@)
}

/// A case or letter/digit change between `c[i - 1]` and `c[i]` that starts a new part.
pub open spec fn camel_split(c: Seq<char>, i: int) -> bool {
    ||| is_lower(c[i - 1]) && is_upper(c[i])
    ||| i + 1 < c.len() && is_upper(c[i - 1]) && is_upper(c[i]) && is_lower(c[i + 1])
    ||| is_alpha(c[i - 1]) && is_digit(c[i])
    ||| is_digit(c[i - 1]) && is_alpha(c[i])
}

/// The parts found, and where the current part starts, after looking at the
/// boundaries before positions `1..n`.
pub struct CamelScan {
    pub parts: Seq<Seq<char>>,
    pub start: int,
}

pub open spec fn camel_scan(c: Seq<char>, n: int) -> CamelScan
    decreases n,
{
    if n <= 1 {
        CamelScan { parts: Seq::empty(), start: 0 }
    } else {
        let s = camel_scan(c, n - 1);
        if camel_split(c, n - 1) {
            let part = c.subrange(s.start, n - 1);
            CamelScan {
                parts: if part.len() > 0 {
                    s.parts.push(lowercase(part))
                } else {
                    s.parts
                },
                start: n - 1,
            }
        } else {
            s
        }
    }
}

/// The lower-cased camelCase / PascalCase / letter-digit parts of `c`.
pub open spec fn camel_parts(c: Seq<char>) -> Seq<Seq<char>> {
    if c.len() == 0 {
        Seq::empty()
    } else {
        let s = camel_scan(c, c.len() as int);
        if s.start < c.len() && c.subrange(s.start, c.len() as int).len() > 0 {
            s.parts.push(lowercase(c.subrange(s.start, c.len() as int)))
        } else {
            s.parts
        }
    }
}

pub proof fn lemma_camel_scan_start(c: Seq<char>, n: int)
    requires
        1 <= n,
    ensures
        0 <= camel_scan(c, n).start <= n - 1,
    decreases n,
{
    if n > 1 {
        lemma_camel_scan_start(c, n - 1);
    }
}

fn lower_chars(s: &[char]) -> (out: Vec<char>)
    ensures
        out@ == lowercase(s@),
{
    let st = chars_to_string(s);
    let l = to_lowercase(st.as_str());
    str_to_chars(l.as_str())
}

fn split_camel_case(c: &[char]) -> (parts: Vec<Vec<char>>)
    ensures
        views(parts@) == camel_parts(c@),
{
    let mut parts: Vec<Vec<char>> = Vec::new();
    if c.len() == 0 {
        assert(views(parts@) =~= camel_parts(c@));
        return parts;
    }
    let mut start: usize = 0;
    let mut i: usize = 1;
    assert(views(parts@) =~= Seq::<Seq<char>>::empty());
    while i < c.len()
        invariant
            1 <= i <= c@.len(),
            camel_scan(c@, i as int) == (CamelScan { parts: views(parts@), start: start as int }),
        decreases c@.len() - i,
    {
        proof {
            lemma_camel_scan_start(c@, i as int);
        }
        let lower_prev = char_is_lowercase(c[i - 1]);
        let upper_prev = char_is_uppercase(c[i - 1]);
        let upper_cur = char_is_uppercase(c[i]);
        let should_split = (lower_prev && upper_cur) || (i + 1 < c.len() && upper_prev
            && upper_cur && char_is_lowercase(c[i + 1])) || (char_is_alphabetic(c[i - 1]) && (
        '0' <= c[i] && c[i] <= '9')) || (('0' <= c[i - 1] && c[i - 1] <= '9')
            && char_is_alphabetic(c[i]));
        assert(should_split == camel_split(c@, i as int));
        if should_split {
            let part = crate::text::slice(c, start, i);
            if part.len() > 0 {
                let l = lower_chars(&part);
                parts.push(l);
            }
            start = i;
        }
        i = i + 1;
        assert(views(parts@) =~= camel_scan(c@, i as int).parts);
    }
    proof {
        lemma_camel_scan_start(c@, i as int);
    }
    if start < c.len() {
        let part = crate::text::slice(c, start, c.len());
        if part.len() > 0 {
            let l = lower_chars(&part);
            parts.push(l);
        }
    }
    assert(views(parts@) =~= camel_parts(c@));
    parts
}

/// The non-empty pieces of `s` between underscores.
pub open spec fn snake_parts(s: Seq<char>) -> Seq<Seq<char>> {
    filter_map(
        split_on(s, '_'),
        |p: Seq<char>|
            if p.len() > 0 {
                Some(p)
            } else {
                None
            },
    )
}

/// The tokens of one identifier: the whole identifier lower-cased, followed
/// by its parts when it has two or more (snake_case, else camelCase).
pub open spec fn split_identifier_spec(token: Seq<char>) -> Seq<Seq<char>> {
    let lower = lowercase(token);
    let parts = if token.contains('_') {
        snake_parts(lower)
    } else {
        camel_parts(token)
    };
    if parts.len() >= 2 {
        seq![lower] + parts
    } else {
        seq![lower]
    }
}

fn snake_parts_exec(s: &[char]) -> (out: Vec<Vec<char>>)
    ensures
        views(out@) == snake_parts(s@),
{
    let pieces = split_on_exec(s, '_');
    let ghost pv = views(pieces@);
    let mut out: Vec<Vec<char>> = Vec::new();
    let mut i: usize = 0;
    assert(views(out@) =~= Seq::<Seq<char>>::empty());
    while i < pieces.len()
        invariant
            i <= pieces@.len(),
            pv == views(pieces@),
            views(out@) == filter_map(
                pv.take(i as int),
                |p: Seq<char>|
                    if p.len() > 0 {
                        Some(p)
                    } else {
                        None
                    },
            ),
        decreases pieces@.len() - i,
    {
        assert(pv.take(i + 1).drop_last() =~= pv.take(i as int));
        assert(pv.take(i + 1).last() == pieces@[i as int]@);
        if pieces[i].len() > 0 {
            let copy = crate::text::slice(&pieces[i], 0, pieces[i].len());
            assert(copy@ =~= pieces@[i as int]@);
            out.push(copy);
        }
        i = i + 1;
        assert(views(out@) =~= filter_map(
            pv.take(i as int),
            |p: Seq<char>|
                if p.len() > 0 {
                    Some(p)
                } else {
                    None
                },
        ));
    }
    assert(pv.take(i as int) =~= pv);
    out
}

fn has_underscore(c: &[char]) -> (b: bool)
    ensures
        b == c@.contains('_'),
{
    for i in 0..c.len()
        invariant
            forall|j: int| 0 <= j < i ==> c@[j] != '_',
    {
        if c[i] == '_' {
            assert(c@[i as int] == '_');
            return true;
        }
    }
    false
}

fn split_identifier_chars(c: &[char]) -> (out: Vec<Vec<char>>)
    ensures
        views(out@) == split_identifier_spec(c@),
{
    let lower = lower_chars(c);
    let mut parts = if has_underscore(c) {
        snake_parts_exec(&lower)
    } else {
        split_camel_case(c)
    };
    let mut result: Vec<Vec<char>> = Vec::new();
    result.push(lower);
    if parts.len() >= 2 {
        let ghost h = views(result@);
        result.append(&mut parts);
        assert(views(result@) =~= h + split_identifier_parts(c@));
    }
    assert(views(result@) =~= split_identifier_spec(c@));
    result
}

spec fn split_identifier_parts(token: Seq<char>) -> Seq<Seq<char>> {
    if token.contains('_') {
        snake_parts(lowercase(token))
    } else {
        camel_parts(token)
    }
}

fn to_strings(v: &Vec<Vec<char>>) -> (out: Vec<String>)
    ensures
        string_views(out@) == views(v@),
{
    let mut out: Vec<String> = Vec::new();
    for i in 0..v.len()
        invariant
            string_views(out@) == views(v@).take(i as int),
    {
        let st = chars_to_string(&v[i]);
        assert(st@ == views(v@)[i as int]);
        let ghost before = string_views(out@);
        out.push(st);
        assert(string_views(out@) =~= before.push(st@));
        assert(views(v@).take(i + 1) =~= views(v@).take(i as int).push(views(v@)[i as int]));
    }
    assert(views(v@).take(v@.len() as int) =~= views(v@));
    out
}

/// Splits an identifier into search tokens: `"my_func"` gives
/// `["my_func", "my", "func"]`, `"HandlerStack"` gives
/// `["handlerstack", "handler", "stack"]`.
pub fn split_identifier(token: &str) -> (out: Vec<String>)
    ensures
        string_views(out@) == split_identifier_spec(token@),
{
    let c = str_to_chars(token);
    let parts = split_identifier_chars(&c);
    to_strings(&parts)
}

/// The tokens of each piece, one after the other.
pub open spec fn tokens_of(words: Seq<Seq<char>>) -> Seq<Seq<char>>
    decreases words.len(),
{
    if words.len() == 0 {
        Seq::empty()
    } else {
        tokens_of(words.drop_last()) + split_identifier_spec(words.last())
    }
}

/// The tokens of every word (a letter or `_`, then letters, digits and `_`) of `text`.
pub open spec fn tokenize_spec(text: Seq<char>) -> Seq<Seq<char>> {
    tokens_of(regex_find_all(TOKEN_RE@, text))
}

/// Splits free text into search tokens.
pub fn tokenize(text: &str) -> (out: Vec<String>)
    ensures
        string_views(out@) == tokenize_spec(text@),
{
    let p = Pattern::new(TOKEN_RE);
    let words = p.find_all(text);
    let ghost wv = string_views(words@);
    assert(wv =~= regex_find_all(TOKEN_RE@, text@));
    let mut result: Vec<Vec<char>> = Vec::new();
    let mut i: usize = 0;
    assert(views(result@) =~= Seq::<Seq<char>>::empty());
    while i < words.len()
        invariant
            i <= words@.len(),
            wv == string_views(words@),
            views(result@) == tokens_of(wv.take(i as int)),
        decreases words@.len() - i,
    {
        assert(wv.take(i + 1).drop_last() =~= wv.take(i as int));
        assert(wv.take(i + 1).last() == words@[i as int]@);
        let c = str_to_chars(words[i].as_str());
        let mut parts = split_identifier_chars(&c);
        let ghost h = views(result@);
        let ghost pv = views(parts@);
        result.append(&mut parts);
        assert(views(result@) =~= h + pv);
        i = i + 1;
    }
    assert(wv.take(i as int) =~= wv);
    to_strings(&result)
}

/// An identifier always yields its lower-cased self first, and either
/// nothing more or at least two parts after it.
pub proof fn lemma_split_identifier_starts_with_lowercase(token: Seq<char>)
    ensures
        split_identifier_spec(token).len() >= 1,
        split_identifier_spec(token)[0] == lowercase(token),
        split_identifier_spec(token).len() != 2,
{
}

/// `p` is a contiguous piece of `s`.
pub open spec fn piece_of(s: Seq<char>, p: Seq<char>) -> bool {
    exists|a: int, b: int| 0 <= a <= b <= s.len() && #[trigger] s.subrange(a, b) == p
}

/// `p` is the lower case of a non-empty contiguous piece of `s`.
pub open spec fn lowered_piece_of(s: Seq<char>, p: Seq<char>) -> bool {
    exists|a: int, b: int| 0 <= a < b <= s.len() && p == lowercase(#[trigger] s.subrange(a, b))
}

proof fn lemma_split_on_pieces(s: Seq<char>, sep: char)
    ensures
        split_on(s, sep).len() > 0,
        forall|j: int|
            0 <= j < split_on(s, sep).len() ==> piece_of(s, #[trigger] split_on(s, sep)[j])
                && !split_on(s, sep)[j].contains(sep),
        exists|a: int| 0 <= a <= s.len() && #[trigger] s.subrange(a, s.len() as int) == split_on(s, sep).last(),
    decreases s.len(),
{
    let q = split_on(s, sep);
    if s.len() == 0 {
        assert(q[0] =~= s.subrange(0, 0));
        assert(s.subrange(0, 0) == q.last());
    } else {
        let r = s.drop_last();
        lemma_split_on_pieces(r, sep);
        let p = split_on(r, sep);
        let a0 = choose|a: int| 0 <= a <= r.len() && #[trigger] r.subrange(a, r.len() as int) == p.last();
        assert forall|j: int| 0 <= j < p.len() implies piece_of(s, #[trigger] p[j]) by {
            let (a, b) = choose|a: int, b: int| 0 <= a <= b <= r.len() && #[trigger] r.subrange(a, b) == p[j];
            assert(s.subrange(a, b) =~= r.subrange(a, b));
        }
        if s.last() == sep {
            assert(q == p.push(Seq::<char>::empty()));
            assert(s.subrange(s.len() as int, s.len() as int) =~= Seq::<char>::empty());
            assert forall|j: int| 0 <= j < q.len() implies piece_of(s, #[trigger] q[j]) && !q[j].contains(sep) by {
                if j < p.len() {
                    assert(q[j] == p[j]);
                    assert(piece_of(s, p[j]));
                } else {
                    assert(q[j] == s.subrange(s.len() as int, s.len() as int));
                }
            }
            assert(s.subrange(s.len() as int, s.len() as int) == q.last());
        } else {
            let last = p.last().push(s.last());
            assert(q == p.update(p.len() - 1, last));
            assert(s.subrange(a0, s.len() as int) =~= last);
            assert(!last.contains(sep)) by {
                if last.contains(sep) {
                    let k = choose|k: int| 0 <= k < last.len() && last[k] == sep;
                    if k < p.last().len() {
                        assert(p.last()[k] == sep);
                        assert(p[p.len() - 1] == p.last());
                    }
                }
            }
            assert forall|j: int| 0 <= j < q.len() implies piece_of(s, #[trigger] q[j]) && !q[j].contains(sep) by {
                if j < p.len() - 1 {
                    assert(q[j] == p[j]);
                    assert(piece_of(s, p[j]));
                } else {
                    assert(q[j] == last);
                    assert(s.subrange(a0, s.len() as int) == q[j]);
                }
            }
            assert(s.subrange(a0, s.len() as int) == q.last());
        }
    }
}

proof fn lemma_filter_map_source<T>(ls: Seq<Seq<char>>, f: spec_fn(Seq<char>) -> Option<T>)
    ensures
        forall|j: int|
            0 <= j < filter_map(ls, f).len() ==> exists|i: int|
                0 <= i < ls.len() && f(#[trigger] ls[i]) == Some(#[trigger] filter_map(ls, f)[j]),
    decreases ls.len(),
{
    if ls.len() > 0 {
        let r = ls.drop_last();
        lemma_filter_map_source(r, f);
        let p = filter_map(r, f);
        let q = filter_map(ls, f);
        assert forall|j: int| 0 <= j < q.len() implies exists|i: int|
            0 <= i < ls.len() && f(#[trigger] ls[i]) == Some(#[trigger] q[j]) by {
            if j < p.len() {
                assert(q[j] == p[j]);
                let i = choose|i: int| 0 <= i < r.len() && f(#[trigger] r[i]) == Some(#[trigger] p[j]);
                assert(ls[i] == r[i]);
            } else {
                assert(ls[ls.len() - 1] == ls.last());
            }
        }
    }
}

proof fn lemma_camel_scan_pieces(c: Seq<char>, n: int)
    requires
        1 <= n <= c.len(),
    ensures
        forall|j: int|
            0 <= j < camel_scan(c, n).parts.len() ==> lowered_piece_of(
                c,
                #[trigger] camel_scan(c, n).parts[j],
            ),
    decreases n,
{
    if n > 1 {
        lemma_camel_scan_pieces(c, n - 1);
        lemma_camel_scan_start(c, n - 1);
        let s = camel_scan(c, n - 1);
        let q = camel_scan(c, n);
        if camel_split(c, n - 1) {
            let part = c.subrange(s.start, n - 1);
            assert forall|j: int| 0 <= j < q.parts.len() implies lowered_piece_of(
                c,
                #[trigger] q.parts[j],
            ) by {
                if j < s.parts.len() {
                    assert(q.parts[j] == s.parts[j]);
                } else {
                    assert(q.parts[j] == lowercase(c.subrange(s.start, n - 1)));
                }
            }
        }
    }
}

/// Every token of an identifier is lower case in this sense: the first is
/// the whole identifier lower-cased; for a snake_case identifier the others
/// are non-empty, underscore-free pieces of the lower-cased identifier; for
/// any other identifier they are lower-cased non-empty pieces of it.
pub proof fn lemma_split_identifier_lowered(token: Seq<char>)
    ensures
        split_identifier_spec(token).len() >= 1,
        split_identifier_spec(token)[0] == lowercase(token),
        token.contains('_') ==> forall|j: int|
            1 <= j < split_identifier_spec(token).len() ==> #[trigger] split_identifier_spec(
                token,
            )[j].len() > 0 && !split_identifier_spec(token)[j].contains('_') && piece_of(
                lowercase(token),
                split_identifier_spec(token)[j],
            ),
        !token.contains('_') ==> forall|j: int|
            1 <= j < split_identifier_spec(token).len() ==> lowered_piece_of(
                token,
                #[trigger] split_identifier_spec(token)[j],
            ),
{
    let lower = lowercase(token);
    let out = split_identifier_spec(token);
    if token.contains('_') {
        let f = |p: Seq<char>|
            if p.len() > 0 {
                Some(p)
            } else {
                None
            };
        let parts = snake_parts(lower);
        lemma_split_on_pieces(lower, '_');
        lemma_filter_map_source(split_on(lower, '_'), f);
        assert forall|j: int| 0 <= j < parts.len() implies (#[trigger] parts[j]).len() > 0
            && !parts[j].contains('_') && piece_of(lower, parts[j]) by {
            let i = choose|i: int|
                0 <= i < split_on(lower, '_').len() && f(#[trigger] split_on(lower, '_')[i]) == Some(
                    parts[j],
                );
            assert(split_on(lower, '_')[i] == parts[j]);
        }
        if parts.len() >= 2 {
            assert forall|j: int| 1 <= j < out.len() implies (#[trigger] out[j]).len() > 0
                && !out[j].contains('_') && piece_of(lower, out[j]) by {
                assert(out[j] == parts[j - 1]);
            }
        }
    } else {
        let parts = camel_parts(token);
        if token.len() > 0 {
            let n = token.len() as int;
            lemma_camel_scan_pieces(token, n);
            lemma_camel_scan_start(token, n);
            let sc = camel_scan(token, n);
            assert forall|j: int| 0 <= j < parts.len() implies lowered_piece_of(
                token,
                #[trigger] parts[j],
            ) by {
                if j < sc.parts.len() {
                    assert(parts[j] == sc.parts[j]);
                } else {
                    assert(parts[j] == lowercase(token.subrange(sc.start, n)));
                }
            }
        }
        if parts.len() >= 2 {
            assert forall|j: int| 1 <= j < out.len() implies lowered_piece_of(
                token,
                #[trigger] out[j],
            ) by {
                assert(out[j] == parts[j - 1]);
            }
        }
    }
}

} // verus!
