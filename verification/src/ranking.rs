//! Ranking signals that need no scores: symbol-like queries, definition
//! sites of a symbol, file stems that name a symbol, and how query keywords
//! meet the parts of a file name.
use vstd::prelude::*;

use crate::chunking::Chunk;
use crate::pattern::{regex_find_all, regex_is_match, sources, Pattern};
use crate::tokens::{split_identifier, split_identifier_spec, string_views};
use crate::walker::{
    parent_name_of, path_file_stem, path_parent_name, path_stem_of, slash_path,
};
use crate::text::{
    append, append_str, chars_to_string, dedup, dedup_strings, filter_map, join, last_occurrence_from, occurs_at, remove_char,
    remove_char_exec, rfind, rfind_str,
    starts_with, starts_with_exec, str_to_chars, trim, trim_chars, trim_end_char,
    trim_end_char_exec,
};
use vstd::utf8::encode_utf8;

verus! {

/// A query that is a single identifier or a qualified path (`a::b`,
/// `a.b`, `a->b`, `a\b`), a leading-underscore name, a mixed-case or
/// snake-case name, or a capitalised name.
pub const SYMBOL_QUERY_RE: &'static str =
    r"^(?:[A-Za-z_][A-Za-z0-9_]*(?:(?:::|\\|->|\.)[A-Za-z_][A-Za-z0-9_]*)+|_[A-Za-z0-9_]*|[A-Za-z][A-Za-z0-9]*[A-Z_][A-Za-z0-9_]*|[A-Z][A-Za-z0-9]*)$";

/// CamelCase or camelCase words inside a free-text query.
pub const EMBEDDED_SYMBOL_RE: &'static str =
    r"\b(?:[A-Z][a-z][a-zA-Z0-9]*[A-Z][a-zA-Z0-9]*|[a-z][a-zA-Z0-9]*[A-Z][a-zA-Z0-9]+)\b";

/// Keywords that introduce a definition, over many languages.
pub const DEFINITION_KEYWORDS: [&'static str; 21] = [
    "class",
    "module",
    "defmodule",
    "def",
    "interface",
    "struct",
    "enum",
    "trait",
    "type",
    "func",
    "function",
    "object",
    "abstract class",
    "data class",
    "fn",
    "fun",
    "package",
    "namespace",
    "protocol",
    "record",
    "typedef",
];

/// SQL statements that define a named object.
pub const SQL_DEFINITION_KEYWORDS: [&'static str; 4] = [
    "CREATE TABLE",
    "CREATE VIEW",
    "CREATE PROCEDURE",
    "CREATE FUNCTION",
];

/// Start of the definition pattern (multi-line mode): a keyword at a line
/// start or after whitespace.
pub const DEFINITION_PREFIX: &'static str = r"(?m)(?:^|\s)(?:";

/// Start of the SQL definition pattern (multi-line, case-insensitive).
pub const SQL_DEFINITION_PREFIX: &'static str = r"(?mi)(?:^|\s)(?:";

/// Between the keyword and the symbol: whitespace and namespace qualifiers.
pub const SYMBOL_LEAD: &'static str = r")\s+(?:[A-Za-z_][A-Za-z0-9_]*(?:\.|::))*";

/// After the symbol: whitespace, an opening bracket, `;`, `:` or the line end.
pub const SYMBOL_TAIL: &'static str = r"(?:\s|[<({\[;:]|$)";

/// Whether a query, once trimmed, looks like a code symbol.
pub open spec fn is_symbol_query_spec(query: Seq<char>) -> bool {
    regex_is_match(SYMBOL_QUERY_RE@, trim(query))
}

/// Whether `query` looks like a code symbol.
pub fn is_symbol_query(query: &str) -> (b: bool)
    ensures
        b == is_symbol_query_spec(query@),
{
    let c = str_to_chars(query);
    let t = trim_chars(&c);
    let ts = chars_to_string(&t);
    let re = Pattern::new(SYMBOL_QUERY_RE);
    re.is_match(ts.as_str())
}

/// The characters that `regex::escape` puts a backslash before.
pub open spec fn is_regex_meta(c: char) -> bool {
    c == '\\' || c == '.' || c == '+' || c == '*' || c == '?' || c == '(' || c == ')' || c == '|'
        || c == '[' || c == ']' || c == '{' || c == '}' || c == '^' || c == '$' || c == '#' || c
        == '&' || c == '-' || c == '~'
}

/// `s` with a backslash before each regex meta character.
pub open spec fn regex_escaped(s: Seq<char>) -> Seq<char>
    decreases s.len(),
{
    if s.len() == 0 {
        s
    } else if is_regex_meta(s.last()) {
        regex_escaped(s.drop_last()).push('\\').push(s.last())
    } else {
        regex_escaped(s.drop_last()).push(s.last())
    }
}

/// Trusted: calls `regex::escape`, which (through `regex_syntax::escape`)
/// pushes a backslash before every meta character and copies the others.
#[verifier::external_body]
fn regex_escape(s: &str) -> (r: String)
    ensures
        r@ == regex_escaped(s@),
{
    regex::escape(s)
}

/// The keywords, each escaped, joined by `|`.
pub open spec fn keyword_alternation(keywords: Seq<&str>) -> Seq<char> {
    join(keywords.map_values(|k: &str| regex_escaped(k@)), "|"@)
}

fn keyword_alternation_exec(keywords: &[&'static str]) -> (out: Vec<char>)
    ensures
        out@ == keyword_alternation(keywords@),
{
    let ghost ev = keywords@.map_values(|k: &str| regex_escaped(k@));
    let mut out: Vec<char> = Vec::new();
    let mut i: usize = 0;
    while i < keywords.len()
        invariant
            i <= keywords@.len(),
            ev == keywords@.map_values(|k: &str| regex_escaped(k@)),
            out@ == join(ev.take(i as int), "|"@),
        decreases keywords@.len() - i,
    {
        assert(ev.take(i + 1).drop_last() =~= ev.take(i as int));
        if i > 0 {
            append_str(&mut out, "|");
        }
        let e = regex_escape(keywords[i]);
        let ec = str_to_chars(e.as_str());
        append(&mut out, &ec);
        i = i + 1;
        proof {
            if i == 1 {
                assert(out@ =~= join(ev.take(1), "|"@));
            }
        }
    }
    assert(ev.take(i as int) =~= ev);
    out
}

/// The pattern that finds a definition of `symbol` after one of `keywords`.
pub open spec fn definition_pattern(prefix: Seq<char>, keywords: Seq<&str>, symbol: Seq<char>) -> Seq<
    char,
> {
    prefix + keyword_alternation(keywords) + SYMBOL_LEAD@ + regex_escaped(symbol) + SYMBOL_TAIL@
}

fn definition_pattern_exec(prefix: &str, keywords: &[&'static str], symbol: &str) -> (out: String)
    ensures
        out@ == definition_pattern(prefix@, keywords@, symbol@),
{
    let mut p: Vec<char> = Vec::new();
    append_str(&mut p, prefix);
    let body = keyword_alternation_exec(keywords);
    append(&mut p, &body);
    append_str(&mut p, SYMBOL_LEAD);
    let e = regex_escape(symbol);
    append_str(&mut p, e.as_str());
    append_str(&mut p, SYMBOL_TAIL);
    chars_to_string(&p)
}

/// A chunk defines `symbol`: a definition keyword (or an SQL `CREATE`
/// statement, in any case) is followed by the symbol, possibly qualified.
pub open spec fn defines_symbol(content: Seq<char>, symbol: Seq<char>) -> bool {
    regex_is_match(definition_pattern(DEFINITION_PREFIX@, DEFINITION_KEYWORDS@, symbol), content)
        || regex_is_match(
        definition_pattern(SQL_DEFINITION_PREFIX@, SQL_DEFINITION_KEYWORDS@, symbol),
        content,
    )
}

/// Whether `chunk` holds a definition of `symbol_name`.
pub fn chunk_defines_symbol(chunk: &Chunk, symbol_name: &str) -> (b: bool)
    ensures
        b == defines_symbol(chunk.content@, symbol_name@),
{
    let general = definition_pattern_exec(DEFINITION_PREFIX, &DEFINITION_KEYWORDS, symbol_name);
    let re = Pattern::new(general.as_str());
    if re.is_match(chunk.content.as_str()) {
        return true;
    }
    let sql = definition_pattern_exec(SQL_DEFINITION_PREFIX, &SQL_DEFINITION_KEYWORDS, symbol_name);
    let re_sql = Pattern::new(sql.as_str());
    re_sql.is_match(chunk.content.as_str())
}

/// A file stem names `name`: as it is, without underscores, or either of
/// those without trailing `s`.
pub open spec fn stem_matches_spec(stem: Seq<char>, name: Seq<char>) -> bool {
    let norm = remove_char(stem, '_');
    stem == name || norm == name || trim_end_char(stem, 's') == name || trim_end_char(norm, 's')
        == name
}

/// Whether the file stem `stem` names `name`.
pub fn stem_matches(stem: &str, name: &str) -> (b: bool)
    ensures
        b == stem_matches_spec(stem@, name@),
{
    let s = str_to_chars(stem);
    let n = str_to_chars(name);
    let norm = remove_char_exec(&s, '_');
    let s_trim = trim_end_char_exec(&s, 's');
    let norm_trim = trim_end_char_exec(&norm, 's');
    crate::text::chars_eq(&s, &n) || crate::text::chars_eq(&norm, &n) || crate::text::chars_eq(
        &s_trim,
        &n,
    ) || crate::text::chars_eq(&norm_trim, &n)
}

/// The symbol named by a query: the part after the last `::`, else after
/// the last `\`, else after the last `->`, else after the last `.`, else the
/// whole trimmed query.
pub open spec fn extract_symbol_name_spec(query: Seq<char>) -> Seq<char> {
    let q = trim(query);
    match rfind(q, "::"@) {
        Some(p) => q.skip(p + 2),
        None => match rfind(q, "\\"@) {
            Some(p) => q.skip(p + 1),
            None => match rfind(q, "->"@) {
                Some(p) => q.skip(p + 2),
                None => match rfind(q, "."@) {
                    Some(p) => q.skip(p + 1),
                    None => q,
                },
            },
        },
    }
}

fn skip_chars(s: &[char], k: usize) -> (out: Vec<char>)
    requires
        k <= s@.len(),
    ensures
        out@ == s@.skip(k as int),
{
    let out = crate::text::slice(s, k, s.len());
    assert(out@ =~= s@.skip(k as int));
    out
}

/// The symbol that `query` names (see `extract_symbol_name_spec`).
pub fn extract_symbol_name(query: &str) -> (out: String)
    ensures
        out@ == extract_symbol_name_spec(query@),
{
    let c = str_to_chars(query);
    let q = trim_chars(&c);
    let q_len = q.len();
    assert(q_len == q@.len());
    proof {
        reveal_strlit("::");
        reveal_strlit("\\");
        reveal_strlit("->");
        reveal_strlit(".");
    }
    let r = match rfind_str(&q, "::") {
        Some(p) => skip_chars(&q, p + 2),
        None => match rfind_str(&q, "\\") {
            Some(p) => skip_chars(&q, p + 1),
            None => match rfind_str(&q, "->") {
                Some(p) => skip_chars(&q, p + 2),
                None => match rfind_str(&q, ".") {
                    Some(p) => skip_chars(&q, p + 1),
                    None => q,
                },
            },
        },
    };
    chars_to_string(&r)
}

/// Length in bytes of the UTF-8 encoding of `s`.
pub open spec fn byte_len(s: Seq<char>) -> nat {
    encode_utf8(s).len()
}

/// One word is a prefix of the other, and the shorter (in bytes) has at
/// least three bytes.
pub open spec fn prefix_related(keyword: Seq<char>, part: Seq<char>) -> bool {
    if byte_len(keyword) <= byte_len(part) {
        byte_len(keyword) >= 3 && starts_with(part, keyword)
    } else {
        byte_len(part) >= 3 && starts_with(keyword, part)
    }
}

/// A keyword meets the parts: it is one of them, or prefix-related to one.
pub open spec fn keyword_hits(keyword: Seq<char>, parts: Seq<Seq<char>>) -> bool {
    parts.contains(keyword) || exists|j: int|
        0 <= j < parts.len() && #[trigger] prefix_related(keyword, parts[j])
}

/// How many of `keywords` meet `parts`.
pub open spec fn count_hits(keywords: Seq<Seq<char>>, parts: Seq<Seq<char>>) -> nat
    decreases keywords.len(),
{
    if keywords.len() == 0 {
        0
    } else {
        count_hits(keywords.drop_last(), parts) + if keyword_hits(keywords.last(), parts) {
            1nat
        } else {
            0nat
        }
    }
}

fn byte_len_exec(s: &String) -> (n: usize)
    ensures
        n == byte_len(s@),
{
    s.as_str().as_bytes().len()
}

/// Whether `keyword` meets one of `parts`.
fn keyword_hits_exec(keyword: &String, parts: &Vec<String>) -> (b: bool)
    ensures
        b == keyword_hits(keyword@, crate::tokens::string_views(parts@)),
{
    let ghost pv = crate::tokens::string_views(parts@);
    let kw = str_to_chars(keyword.as_str());
    let kl = byte_len_exec(keyword);
    let mut j: usize = 0;
    while j < parts.len()
        invariant
            j <= parts@.len(),
            pv == crate::tokens::string_views(parts@),
            kw@ == keyword@,
            kl == byte_len(keyword@),
            forall|m: int| 0 <= m < j ==> pv[m] != keyword@ && !prefix_related(keyword@, pv[m]),
        decreases parts@.len() - j,
    {
        let part = str_to_chars(parts[j].as_str());
        let pl = byte_len_exec(&parts[j]);
        assert(pv[j as int] == parts@[j as int]@);
        if crate::text::chars_eq(&kw, &part) {
            assert(pv.contains(keyword@));
            return true;
        }
        let related = if kl <= pl {
            kl >= 3 && starts_with_exec(&part, &kw)
        } else {
            pl >= 3 && starts_with_exec(&kw, &part)
        };
        if related {
            assert(prefix_related(keyword@, pv[j as int]));
            return true;
        }
        j = j + 1;
    }
    assert(!pv.contains(keyword@));
    false
}

/// How many query keywords meet the parts of a file name: exactly, or as a
/// prefix of at least three bytes either way. Both lists hold distinct words.
pub fn count_keyword_matches(keywords: &Vec<String>, parts: &Vec<String>) -> (n: usize)
    ensures
        n == count_hits(crate::tokens::string_views(keywords@), crate::tokens::string_views(parts@)),
{
    let ghost kv = crate::tokens::string_views(keywords@);
    let ghost pv = crate::tokens::string_views(parts@);
    let mut n: usize = 0;
    let mut i: usize = 0;
    assert(kv.take(0) =~= Seq::<Seq<char>>::empty());
    while i < keywords.len()
        invariant
            i <= keywords@.len(),
            kv == crate::tokens::string_views(keywords@),
            pv == crate::tokens::string_views(parts@),
            n == count_hits(kv.take(i as int), pv),
            n <= i,
        decreases keywords@.len() - i,
    {
        assert(kv.take(i + 1).drop_last() =~= kv.take(i as int));
        assert(kv.take(i + 1).last() == keywords@[i as int]@);
        if keyword_hits_exec(&keywords[i], parts) {
            n = n + 1;
        }
        i = i + 1;
    }
    assert(kv.take(i as int) =~= kv);
    n
}

/// No more keywords meet the parts than there are keywords.
pub proof fn lemma_count_hits_bounded(keywords: Seq<Seq<char>>, parts: Seq<Seq<char>>)
    ensures
        count_hits(keywords, parts) <= keywords.len(),
    decreases keywords.len(),
{
    if keywords.len() > 0 {
        lemma_count_hits_bounded(keywords.drop_last(), parts);
    }
}

/// Every keyword among the parts is counted.
pub proof fn lemma_count_hits_all_present(keywords: Seq<Seq<char>>, parts: Seq<Seq<char>>)
    requires
        forall|i: int| 0 <= i < keywords.len() ==> parts.contains(#[trigger] keywords[i]),
    ensures
        count_hits(keywords, parts) == keywords.len(),
    decreases keywords.len(),
{
    if keywords.len() > 0 {
        let k = keywords.drop_last();
        assert forall|i: int| 0 <= i < k.len() implies parts.contains(#[trigger] k[i]) by {
            assert(k[i] == keywords[i]);
        }
        lemma_count_hits_all_present(k, parts);
        assert(parts.contains(keywords[keywords.len() - 1]));
    }
}

/// The symbol named by a query is a tail of the trimmed query.
pub proof fn lemma_symbol_name_is_suffix(query: Seq<char>)
    ensures
        exists|k: int|
            0 <= k <= trim(query).len() && extract_symbol_name_spec(query) == #[trigger] trim(
                query,
            ).skip(k),
{
    let q = trim(query);
    reveal_strlit("::");
    reveal_strlit("\\");
    reveal_strlit("->");
    reveal_strlit(".");
    assert(q.skip(0) =~= q);
    lemma_rfind_in_bounds(q, "::"@);
    lemma_rfind_in_bounds(q, "\\"@);
    lemma_rfind_in_bounds(q, "->"@);
    lemma_rfind_in_bounds(q, "."@);
}

proof fn lemma_last_occurrence_in_bounds(s: Seq<char>, t: Seq<char>, i: int)
    ensures
        last_occurrence_from(s, t, i) matches Some(p) ==> occurs_at(s, t, p),
    decreases i + 1,
{
    if i >= 0 && !occurs_at(s, t, i) {
        lemma_last_occurrence_in_bounds(s, t, i - 1);
    }
}

proof fn lemma_rfind_in_bounds(s: Seq<char>, t: Seq<char>)
    ensures
        rfind(s, t) matches Some(p) ==> 0 <= p && p + t.len() <= s.len(),
{
    lemma_last_occurrence_in_bounds(s, t, s.len() - t.len());
}

/// A file stem always names itself.
pub proof fn lemma_stem_matches_itself(stem: Seq<char>)
    ensures
        stem_matches_spec(stem, stem),
{
}

/// The words of a query that stem matching looks at.
pub const WORD_RE: &'static str = r"[a-zA-Z_][a-zA-Z0-9_]*";

/// Words too common to say anything about a file name.
pub const STOPWORDS: [&'static str; 33] = [
    "a", "an", "and", "are", "as", "at", "be", "by", "do", "does", "for", "from", "has", "have",
    "how", "if", "in", "is", "it", "not", "of", "on", "or", "the", "to", "was", "what", "when",
    "where", "which", "who", "why", "with",
];

/// The keyword a word of the query gives: the word in lower case, when it
/// has more than two bytes and is not a stop word.
pub open spec fn stem_keyword(word: Seq<char>) -> Option<Seq<char>> {
    let w = crate::pattern::lowercase(word);
    if encode_utf8(w).len() > 2 && !sources(STOPWORDS@).contains(w) {
        Some(w)
    } else {
        None
    }
}

/// The keywords of a query, each once, in order of first appearance.
pub open spec fn stem_keywords_spec(query: Seq<char>) -> Seq<Seq<char>> {
    dedup(filter_map(regex_find_all(WORD_RE@, query), |m: Seq<char>| stem_keyword(m)))
}

fn is_stopword(w: &str) -> (b: bool)
    ensures
        b == sources(STOPWORDS@).contains(w@),
{
    let ghost sv = sources(STOPWORDS@);
    let wc = str_to_chars(w);
    for k in 0..STOPWORDS.len()
        invariant
            sv == sources(STOPWORDS@),
            wc@ == w@,
            forall|m: int| 0 <= m < k ==> sv[m] != w@,
    {
        assert(sv[k as int] == STOPWORDS@[k as int]@);
        if crate::text::eq_str(&wc, STOPWORDS[k]) {
            return true;
        }
    }
    false
}

/// The keywords of a query: its words in lower case, longer than two bytes,
/// without stop words, each once.
pub fn stem_keywords(query: &str) -> (v: Vec<String>)
    ensures
        string_views(v@) == stem_keywords_spec(query@),
        string_views(v@).no_duplicates(),
{
    let p = Pattern::new(WORD_RE);
    let words = p.find_all(query);
    let ghost wv = string_views(words@);
    assert(wv =~= regex_find_all(WORD_RE@, query@));
    let ghost f = |m: Seq<char>| stem_keyword(m);
    let mut kept: Vec<String> = Vec::new();
    let mut i: usize = 0;
    assert(wv.take(0) =~= Seq::<Seq<char>>::empty());
    while i < words.len()
        invariant
            i <= words@.len(),
            wv == string_views(words@),
            f == (|m: Seq<char>| stem_keyword(m)),
            string_views(kept@) == filter_map(wv.take(i as int), f),
        decreases words@.len() - i,
    {
        assert(wv.take(i + 1).drop_last() =~= wv.take(i as int));
        assert(wv.take(i + 1).last() == words@[i as int]@);
        let w = crate::pattern::to_lowercase(words[i].as_str());
        let ghost before = string_views(kept@);
        if w.as_str().as_bytes().len() > 2 && !is_stopword(w.as_str()) {
            kept.push(w);
            assert(string_views(kept@) =~= before.push(
                crate::pattern::lowercase(words@[i as int]@),
            ));
        }
        i = i + 1;
    }
    assert(wv.take(i as int) =~= wv);
    proof {
        crate::text::lemma_dedup(filter_map(wv, f));
    }
    dedup_strings(&kept)
}

/// The name parts of a file path: those of the stem of its file name, then
/// those of its parent directory's name (unless that is `.`, `/` or `..`),
/// each once.
pub open spec fn stem_parts_spec(path: Seq<char>) -> Seq<Seq<char>> {
    let stem = match path_stem_of(path) {
        Some(s) => s,
        None => Seq::empty(),
    };
    let parent = match parent_name_of(path) {
        Some(p) => if p != "."@ && p != "/"@ && p != ".."@ {
            split_identifier_spec(p)
        } else {
            Seq::empty()
        },
        None => Seq::empty(),
    };
    dedup(split_identifier_spec(stem) + parent)
}

/// The name parts that query keywords are matched against: the identifier
/// parts of the file stem and of the parent directory's name, each once.
pub fn stem_parts(file_path: &str) -> (v: Vec<String>)
    ensures
        slash_path(file_path@) ==> string_views(v@) == stem_parts_spec(file_path@),
        string_views(v@).no_duplicates(),
{
    let stem = match path_file_stem(file_path) {
        Some(s) => s,
        None => String::new(),
    };
    let mut parts = split_identifier(stem.as_str());
    let ghost sp = string_views(parts@);
    match path_parent_name(file_path) {
        Some(parent) => {
            let pc = str_to_chars(parent.as_str());
            if !crate::text::eq_str(&pc, ".") && !crate::text::eq_str(&pc, "/")
                && !crate::text::eq_str(&pc, "..") {
                let mut more = split_identifier(parent.as_str());
                let ghost mv = string_views(more@);
                parts.append(&mut more);
                assert(string_views(parts@) =~= sp + mv);
            } else {
                assert(string_views(parts@) =~= sp + Seq::<Seq<char>>::empty());
            }
        },
        None => {
            assert(string_views(parts@) =~= sp + Seq::<Seq<char>>::empty());
        },
    }
    proof {
        crate::text::lemma_dedup(string_views(parts@));
    }
    dedup_strings(&parts)
}

/// Shortest file stem that may name a symbol by being a prefix of it.
pub const EMBEDDED_STEM_MIN_LEN: usize = 4;

/// The stem of a path's file name in lower case (empty without a file name).
pub open spec fn stem_lower_spec(path: Seq<char>) -> Seq<char> {
    crate::pattern::lowercase(
        match path_stem_of(path) {
            Some(s) => s,
            None => Seq::empty(),
        },
    )
}

/// The stem of the file name of `path`, in lower case.
pub fn file_stem_lower(path: &str) -> (r: String)
    ensures
        slash_path(path@) ==> r@ == stem_lower_spec(path@),
{
    let stem = match path_file_stem(path) {
        Some(s) => s,
        None => String::new(),
    };
    crate::pattern::to_lowercase(stem.as_str())
}

/// The symbol-like words of a query, each once, in order of first
/// appearance.
pub fn embedded_symbols(query: &str) -> (v: Vec<String>)
    ensures
        string_views(v@) == dedup(regex_find_all(EMBEDDED_SYMBOL_RE@, query@)),
        string_views(v@).no_duplicates(),
{
    let p = Pattern::new(EMBEDDED_SYMBOL_RE);
    let found = p.find_all(query);
    assert(string_views(found@) =~= regex_find_all(EMBEDDED_SYMBOL_RE@, query@));
    proof {
        crate::text::lemma_dedup(string_views(found@));
    }
    dedup_strings(&found)
}

/// A (lower-case) file stem names a (lower-case) symbol: it is the symbol,
/// with or without its underscores, or, being at least four bytes long, a
/// prefix of it.
pub open spec fn stem_names(stem: Seq<char>, symbol: Seq<char>) -> bool {
    let norm = remove_char(stem, '_');
    ||| stem == symbol
    ||| norm == symbol
    ||| (encode_utf8(stem).len() >= EMBEDDED_STEM_MIN_LEN && starts_with(symbol, stem))
    ||| (encode_utf8(norm).len() >= EMBEDDED_STEM_MIN_LEN && starts_with(symbol, norm))
}

/// Whether the file stem `stem` names `symbol` (both in lower case).
pub fn stem_names_symbol(stem: &str, symbol: &str) -> (b: bool)
    ensures
        b == stem_names(stem@, symbol@),
{
    let sc = str_to_chars(stem);
    let yc = str_to_chars(symbol);
    let norm = remove_char_exec(&sc, '_');
    let norm_s = chars_to_string(&norm);
    let norm_bytes = norm_s.as_str().as_bytes().len();
    let stem_bytes = stem.as_bytes().len();
    crate::text::chars_eq(&sc, &yc) || crate::text::chars_eq(&norm, &yc) || (stem_bytes
        >= EMBEDDED_STEM_MIN_LEN && starts_with_exec(&yc, &sc)) || (norm_bytes
        >= EMBEDDED_STEM_MIN_LEN && starts_with_exec(&yc, &norm))
}

} // verus!
