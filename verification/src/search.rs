//! Search helpers that need no scores: which chunks a selector admits, and
//! which lines of a chunk hold a query keyword.
use vstd::prelude::*;

use crate::chunking::Chunk;
use crate::pattern::{lowercase, to_lowercase};
use crate::ranking::byte_len;
use crate::text::{
    chars_to_string, contains, contains_exec, lines, lines_exec, split_whitespace,
    split_whitespace_exec, str_to_chars, trim, trim_chars, views,
};

verus! {

/// A line of a chunk that holds a query keyword: its line number in the
/// file and its trimmed text.
#[derive(Debug, Clone, PartialEq, Eq)]
pub struct MatchLine {
    pub line: usize,
    pub content: String,
}

/// A match line as number and text.
pub struct MatchLineView {
    pub line: nat,
    pub content: Seq<char>,
}

impl View for MatchLine {
    type V = MatchLineView;

    open spec fn view(&self) -> MatchLineView {
        MatchLineView { line: self.line as nat, content: self.content@ }
    }
}

/// The match lines as views.
pub open spec fn match_views(v: Seq<MatchLine>) -> Seq<MatchLineView> {
    v.map_values(|m: MatchLine| m@)
}

/// The mask of `size` flags that admits exactly the indices listed in
/// `selector` (those below `size`); none without a selector.
pub open spec fn selector_mask(selector: Option<Seq<usize>>, size: nat) -> Option<Seq<bool>> {
    match selector {
        None => None,
        Some(s) => Some(Seq::new(size, |j: int| s.contains(j as usize))),
    }
}

/// The optional selector as a sequence.
pub open spec fn opt_slice(o: Option<&[usize]>) -> Option<Seq<usize>> {
    match o {
        Some(s) => Some(s@),
        None => None,
    }
}

/// Flags for the `size` chunks, set for those that `selector` lists.
pub fn selector_to_mask(selector: Option<&[usize]>, size: usize) -> (r: Option<Vec<bool>>)
    ensures
        r matches Some(m) ==> selector_mask(opt_slice(selector), size as nat) == Some(m@),
        r is None <==> selector is None,
{
    let indices = match selector {
        Some(s) => s,
        None => return None,
    };
    let mut mask: Vec<bool> = Vec::new();
    let mut j: usize = 0;
    while j < size
        invariant
            j <= size,
            mask@.len() == j,
            forall|k: int| 0 <= k < j ==> !mask@[k],
        decreases size - j,
    {
        mask.push(false);
        j = j + 1;
    }
    let mut i: usize = 0;
    while i < indices.len()
        invariant
            i <= indices@.len(),
            mask@.len() == size,
            forall|k: int|
                0 <= k < size ==> (mask@[k] <==> indices@.take(i as int).contains(k as usize)),
        decreases indices@.len() - i,
    {
        let idx = indices[i];
        if idx < size {
            mask.set(idx, true);
        }
        proof {
            assert forall|k: int| 0 <= k < size implies (mask@[k] <==> indices@.take(
                i + 1,
            ).contains(k as usize)) by {
                assert(indices@.take(i + 1) =~= indices@.take(i as int).push(idx));
                if indices@.take(i as int).contains(k as usize) {
                    let w = choose|w: int|
                        0 <= w < i && indices@.take(i as int)[w] == k as usize;
                    assert(indices@.take(i + 1)[w] == k as usize);
                }
                if k as usize == idx {
                    assert(indices@.take(i + 1)[i as int] == idx);
                }
            }
        }
        i = i + 1;
    }
    assert(indices@.take(i as int) =~= indices@);
    assert(mask@ =~= Seq::new(size as nat, |j: int| indices@.contains(j as usize)));
    Some(mask)
}

/// The lower-cased query words of at least two bytes.
pub open spec fn query_keywords(query: Seq<char>) -> Seq<Seq<char>> {
    split_whitespace(lowercase(query)).filter(|w: Seq<char>| byte_len(w) >= 2)
}

/// Some keyword occurs in the lower-cased line.
pub open spec fn line_has_keyword(line: Seq<char>, keywords: Seq<Seq<char>>) -> bool {
    exists|k: int| 0 <= k < keywords.len() && contains(lowercase(line), #[trigger] keywords[k])
}

/// The match lines among the first `n` lines `ls` of a chunk starting at
/// line `start_line`.
pub open spec fn match_lines_in(
    ls: Seq<Seq<char>>,
    start_line: nat,
    keywords: Seq<Seq<char>>,
    n: int,
) -> Seq<MatchLineView>
    decreases n,
{
    if n <= 0 {
        Seq::empty()
    } else {
        let p = match_lines_in(ls, start_line, keywords, n - 1);
        if line_has_keyword(ls[n - 1], keywords) {
            p.push(MatchLineView { line: (start_line + n - 1) as nat, content: trim(ls[n - 1]) })
        } else {
            p
        }
    }
}

/// The lines of a chunk that hold a keyword of the query (no keyword, no
/// lines), with their line numbers in the file.
pub open spec fn find_match_lines_spec(
    content: Seq<char>,
    start_line: nat,
    query: Seq<char>,
) -> Seq<MatchLineView> {
    let kws = query_keywords(query);
    if kws.len() == 0 {
        Seq::empty()
    } else {
        match_lines_in(lines(content), start_line, kws, lines(content).len() as int)
    }
}

/// The lower-cased words of `query` of at least two bytes.
fn query_keywords_exec(query: &str) -> (out: Vec<Vec<char>>)
    ensures
        views(out@) == query_keywords(query@),
{
    let lower = to_lowercase(query);
    let lc = str_to_chars(lower.as_str());
    let words = split_whitespace_exec(&lc);
    let ghost wv = views(words@);
    let mut out: Vec<Vec<char>> = Vec::new();
    let mut i: usize = 0;
    assert(wv.take(0).filter(|w: Seq<char>| byte_len(w) >= 2) =~= Seq::<Seq<char>>::empty());
    assert(views(out@) =~= Seq::<Seq<char>>::empty());
    while i < words.len()
        invariant
            i <= words@.len(),
            wv == views(words@),
            views(out@) == wv.take(i as int).filter(|w: Seq<char>| byte_len(w) >= 2),
        decreases words@.len() - i,
    {
        assert(wv.take(i + 1).drop_last() =~= wv.take(i as int));
        assert(wv.take(i + 1).last() == words@[i as int]@);
        reveal(Seq::filter);
        let s = chars_to_string(&words[i]);
        let n = s.as_str().as_bytes().len();
        if n >= 2 {
            let ghost before = views(out@);
            let w = crate::text::slice(&words[i], 0, words[i].len());
            assert(w@ =~= wv[i as int]);
            out.push(w);
            assert(views(out@) =~= before.push(wv[i as int]));
        }
        i = i + 1;
    }
    assert(wv.take(i as int) =~= wv);
    out
}

/// Whether some keyword occurs in the lower-cased `line`.
fn line_has_keyword_exec(line: &[char], keywords: &Vec<Vec<char>>) -> (b: bool)
    ensures
        b == line_has_keyword(line@, views(keywords@)),
{
    let ghost kv = views(keywords@);
    let s = chars_to_string(line);
    let lower = to_lowercase(s.as_str());
    let lc = str_to_chars(lower.as_str());
    let mut k: usize = 0;
    while k < keywords.len()
        invariant
            k <= keywords@.len(),
            kv == views(keywords@),
            lc@ == lowercase(line@),
            forall|m: int| 0 <= m < k ==> !contains(lowercase(line@), #[trigger] kv[m]),
        decreases keywords@.len() - k,
    {
        assert(kv[k as int] == keywords@[k as int]@);
        if contains_exec(&lc, &keywords[k]) {
            return true;
        }
        k = k + 1;
    }
    false
}

/// The lines of `chunk` that hold a word of `query` (case-insensitive).
pub fn find_match_lines(chunk: &Chunk, query: &str) -> (out: Vec<MatchLine>)
    requires
        chunk.start_line + lines(chunk.content@).len() <= usize::MAX + 1,
    ensures
        match_views(out@) == find_match_lines_spec(
            chunk.content@,
            chunk.start_line as nat,
            query@,
        ),
{
    let keywords = query_keywords_exec(query);
    let ghost kv = views(keywords@);
    if keywords.len() == 0 {
        let v: Vec<MatchLine> = Vec::new();
        assert(match_views(v@) =~= Seq::<MatchLineView>::empty());
        return v;
    }
    let c = str_to_chars(chunk.content.as_str());
    let ls = lines_exec(&c);
    let ghost lv = lines(chunk.content@);
    assert(views(ls@) =~= lv);
    let mut matches: Vec<MatchLine> = Vec::new();
    let mut i: usize = 0;
    assert(match_views(matches@) =~= Seq::<MatchLineView>::empty());
    while i < ls.len()
        invariant
            i <= ls@.len(),
            lv == views(ls@),
            lv.len() == ls@.len(),
            kv == views(keywords@),
            chunk.start_line + lv.len() <= usize::MAX + 1,
            match_views(matches@) == match_lines_in(lv, chunk.start_line as nat, kv, i as int),
        decreases ls@.len() - i,
    {
        assert(lv[i as int] == ls@[i as int]@);
        if line_has_keyword_exec(&ls[i], &keywords) {
            let t = trim_chars(&ls[i]);
            let m = MatchLine { line: chunk.start_line + i, content: chars_to_string(&t) };
            let ghost before = match_views(matches@);
            matches.push(m);
            assert(match_views(matches@) =~= before.push(m@));
        }
        i = i + 1;
    }
    matches
}

/// Every match line lies within the chunk, its numbers rising line by line.
pub proof fn lemma_match_lines_within_chunk(
    ls: Seq<Seq<char>>,
    start_line: nat,
    keywords: Seq<Seq<char>>,
    n: int,
)
    requires
        0 <= n <= ls.len(),
    ensures
        forall|j: int|
            0 <= j < match_lines_in(ls, start_line, keywords, n).len() ==> start_line
                <= #[trigger] match_lines_in(ls, start_line, keywords, n)[j].line < start_line + n,
        forall|j: int, k: int|
            0 <= j < k < match_lines_in(ls, start_line, keywords, n).len() ==> #[trigger] match_lines_in(
                ls,
                start_line,
                keywords,
                n,
            )[j].line < #[trigger] match_lines_in(ls, start_line, keywords, n)[k].line,
    decreases n,
{
    if n > 0 {
        lemma_match_lines_within_chunk(ls, start_line, keywords, n - 1);
        let p = match_lines_in(ls, start_line, keywords, n - 1);
        let q = match_lines_in(ls, start_line, keywords, n);
        assert forall|j: int| 0 <= j < q.len() implies start_line <= #[trigger] q[j].line
            < start_line + n by {
            if j < p.len() {
                assert(q[j] == p[j]);
            }
        }
        assert forall|j: int, k: int| 0 <= j < k < q.len() implies #[trigger] q[j].line
            < #[trigger] q[k].line by {
            if k < p.len() {
                assert(q[j] == p[j]);
                assert(q[k] == p[k]);
            } else {
                assert(q[j] == p[j]);
            }
        }
    }
}

/// A line for display: trimmed, and when longer than `max_len` bytes,
/// cut to `max_len - 3` characters followed by `...`.
pub open spec fn truncate_line_spec(line: Seq<char>, max_len: nat) -> Seq<char> {
    let t = trim(line);
    if byte_len(t) <= max_len {
        t
    } else {
        let n = max_len - 3;
        (if n <= t.len() {
            t.take(n)
        } else {
            t
        }) + "..."@
    }
}

/// `line` trimmed and cut to fit `max_len` bytes for display.
pub fn truncate_line(line: &str, max_len: usize) -> (out: String)
    requires
        max_len >= 3 || byte_len(trim(line@)) <= max_len,
    ensures
        out@ == truncate_line_spec(line@, max_len as nat),
{
    let c = str_to_chars(line);
    let t = trim_chars(&c);
    let ts = chars_to_string(&t);
    if ts.as_str().as_bytes().len() <= max_len {
        return ts;
    }
    let n = max_len - 3;
    let keep = if n <= t.len() {
        n
    } else {
        t.len()
    };
    let mut out = crate::text::slice(&t, 0, keep);
    crate::text::append_str(&mut out, "...");
    proof {
        if n <= t@.len() {
            assert(t@.subrange(0, keep as int) =~= t@.take(n as int));
        } else {
            assert(t@.subrange(0, keep as int) =~= t@);
        }
    }
    chars_to_string(&out)
}

/// `w` is a word of the lower-cased query of at least two bytes.
pub open spec fn is_query_word(query: Seq<char>, w: Seq<char>) -> bool {
    split_whitespace(lowercase(query)).contains(w) && byte_len(w) >= 2
}

proof fn lemma_match_lines_in_members(
    ls: Seq<Seq<char>>,
    start_line: nat,
    keywords: Seq<Seq<char>>,
    n: int,
)
    requires
        0 <= n <= ls.len(),
    ensures
        forall|i: int|
            0 <= i < n && (exists|k: int|
                0 <= k < keywords.len() && contains(lowercase(ls[i]), #[trigger] keywords[k]))
                ==> #[trigger] match_lines_in(ls, start_line, keywords, n).contains(
                MatchLineView { line: (start_line + i) as nat, content: trim(ls[i]) },
            ),
        forall|j: int|
            0 <= j < match_lines_in(ls, start_line, keywords, n).len() ==> exists|i: int|
                0 <= i < n && #[trigger] match_lines_in(ls, start_line, keywords, n)[j] == (
                MatchLineView { line: (start_line + i) as nat, content: trim(ls[i]) }) && exists|
                k: int,
            |
                0 <= k < keywords.len() && contains(lowercase(ls[i]), #[trigger] keywords[k]),
    decreases n,
{
    if n > 0 {
        lemma_match_lines_in_members(ls, start_line, keywords, n - 1);
        let p = match_lines_in(ls, start_line, keywords, n - 1);
        let q = match_lines_in(ls, start_line, keywords, n);
        let v = MatchLineView { line: (start_line + n - 1) as nat, content: trim(ls[n - 1]) };
        assert forall|i: int|
            0 <= i < n && (exists|k: int|
                0 <= k < keywords.len() && contains(lowercase(ls[i]), #[trigger] keywords[k]))
                implies #[trigger] q.contains(
            MatchLineView { line: (start_line + i) as nat, content: trim(ls[i]) },
        ) by {
            let m = MatchLineView { line: (start_line + i) as nat, content: trim(ls[i]) };
            if i < n - 1 {
                assert(p.contains(m));
                let x = choose|x: int| 0 <= x < p.len() && p[x] == m;
                assert(q[x] == m);
            } else {
                assert(line_has_keyword(ls[n - 1], keywords));
                assert(q[p.len() as int] == m);
            }
        }
        assert forall|j: int| 0 <= j < q.len() implies exists|i: int|
            0 <= i < n && #[trigger] q[j] == (MatchLineView {
                line: (start_line + i) as nat,
                content: trim(ls[i]),
            }) && exists|k: int|
                0 <= k < keywords.len() && contains(lowercase(ls[i]), #[trigger] keywords[k]) by {
            if j < p.len() {
                assert(q[j] == p[j]);
            } else {
                assert(q[j] == v);
                assert(line_has_keyword(ls[n - 1], keywords));
            }
        }
    }
}

/// The match lines are exactly the lines of the chunk whose lower-cased
/// text holds some word of the lower-cased query of at least two bytes:
/// every such line is reported, with its line number in the file and its
/// trimmed text, and every reported line is such a line.
pub proof fn lemma_match_lines_are_keyword_lines(
    content: Seq<char>,
    start_line: nat,
    query: Seq<char>,
)
    ensures
        forall|i: int, w: Seq<char>|
            0 <= i < lines(content).len() && #[trigger] is_query_word(query, w) && contains(
                lowercase(#[trigger] lines(content)[i]),
                w,
            ) ==> find_match_lines_spec(content, start_line, query).contains(
                MatchLineView { line: (start_line + i) as nat, content: trim(lines(content)[i]) },
            ),
        forall|j: int|
            #![trigger find_match_lines_spec(content, start_line, query)[j]]
            0 <= j < find_match_lines_spec(content, start_line, query).len() ==> {
                let m = find_match_lines_spec(content, start_line, query)[j];
                let i = m.line - start_line;
                &&& 0 <= i < lines(content).len()
                &&& m.content == trim(lines(content)[i])
                &&& exists|w: Seq<char>|
                    #[trigger] is_query_word(query, w) && contains(lowercase(lines(content)[i]), w)
            },
{
    let ls = lines(content);
    let kws = query_keywords(query);
    let ws = split_whitespace(lowercase(query));
    let pred = |w: Seq<char>| byte_len(w) >= 2;
    assert(kws == ws.filter(pred));
    assert forall|w: Seq<char>| is_query_word(query, w) <==> kws.contains(w) by {
        if kws.contains(w) {
            let x = choose|x: int| 0 <= x < kws.len() && kws[x] == w;
            ws.lemma_filter_pred(pred, x);
            ws.lemma_filter_contains_rev(pred, w);
        }
        if is_query_word(query, w) {
            let x = choose|x: int| 0 <= x < ws.len() && ws[x] == w;
            ws.lemma_filter_contains(pred, x);
        }
    }
    lemma_match_lines_in_members(ls, start_line, kws, ls.len() as int);
    let r = find_match_lines_spec(content, start_line, query);
    assert forall|i: int, w: Seq<char>|
        0 <= i < ls.len() && #[trigger] is_query_word(query, w) && contains(
            lowercase(#[trigger] ls[i]),
            w,
        ) implies r.contains(
        MatchLineView { line: (start_line + i) as nat, content: trim(ls[i]) },
    ) by {
        assert(kws.contains(w));
        let k = choose|k: int| 0 <= k < kws.len() && kws[k] == w;
        assert(contains(lowercase(ls[i]), kws[k]));
    }
    assert forall|j: int|
        #![trigger find_match_lines_spec(content, start_line, query)[j]]
        0 <= j < find_match_lines_spec(content, start_line, query).len() implies {
            let m = find_match_lines_spec(content, start_line, query)[j];
            let i = m.line - start_line;
            &&& 0 <= i < lines(content).len()
            &&& m.content == trim(lines(content)[i])
            &&& exists|w: Seq<char>|
                #[trigger] is_query_word(query, w) && contains(lowercase(lines(content)[i]), w)
        } by {
        let i = choose|i: int|
            0 <= i < ls.len() && #[trigger] r[j] == (MatchLineView {
                line: (start_line + i) as nat,
                content: trim(ls[i]),
            }) && exists|k: int|
                0 <= k < kws.len() && contains(lowercase(ls[i]), #[trigger] kws[k]);
        let k = choose|k: int| 0 <= k < kws.len() && contains(lowercase(ls[i]), #[trigger] kws[k]);
        let w = kws[k];
        assert(kws.contains(w));
        assert(is_query_word(query, w));
        assert(r[j].line - start_line == i);
    }
}

} // verus!
