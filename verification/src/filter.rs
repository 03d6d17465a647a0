//! Comment stripping and body folding for code shown to a reader.
use vstd::prelude::*;

use crate::pattern::{regex_is_match, regex_replace_all, Pattern};
use crate::text::{
    append, chars_to_string, contains, count_char, count_char_exec, decimal, decimal_exec,
    ends_with, join, join_exec, lemma_lines_total_len, lemma_total_len_prefix, lines, lines_exec,
    starts_with, str_to_chars, total_len, trim, trim_chars, views,
};

verus! {

/// Three or more line breaks in a row.
pub const MULTIPLE_BLANK_LINES: &'static str = r"\n{3,}";

/// A line that opens a function, type or export.
pub const FUNC_SIGNATURE: &'static str =
    r"^(?:pub\s+)?(?:async\s+)?(?:fn|def|function|func|class|struct|enum|trait|interface|type|export)\s+\w+";

/// A line that imports something.
pub const IMPORT_PATTERN: &'static str =
    r"^(?:use |import |from |require\(|#include |const \{|module )";

/// How comments are written in a language, as text.
pub struct CommentStyle {
    pub line_prefix: Option<Seq<char>>,
    pub block_start: Option<Seq<char>>,
    pub block_end: Option<Seq<char>>,
    pub doc_prefix: Option<Seq<char>>,
}

/// How comments are written in a language.
pub struct CommentSyntax {
    pub line_prefix: Option<&'static str>,
    pub block_start: Option<&'static str>,
    pub block_end: Option<&'static str>,
    pub doc_prefix: Option<&'static str>,
}

/// The text of an optional string.
pub open spec fn opt_text(o: Option<&str>) -> Option<Seq<char>> {
    match o {
        Some(s) => Some(s@),
        None => None,
    }
}

impl View for CommentSyntax {
    type V = CommentStyle;

    open spec fn view(&self) -> CommentStyle {
        CommentStyle {
            line_prefix: opt_text(self.line_prefix),
            block_start: opt_text(self.block_start),
            block_end: opt_text(self.block_end),
            doc_prefix: opt_text(self.doc_prefix),
        }
    }
}

/// Languages whose comments start with `#`.
pub open spec fn is_hash_comment_lang(lang: Option<Seq<char>>) -> bool {
    match lang {
        Some(l) => l == "python"@ || l == "ruby"@ || l == "shell"@ || l == "bash"@,
        None => false,
    }
}

/// `#` comments for Python, Ruby and shells; C-style comments (`//`,
/// `/* */`, with `///` doc comments kept) for everything else.
pub open spec fn comment_style(lang: Option<Seq<char>>) -> CommentStyle {
    if is_hash_comment_lang(lang) {
        CommentStyle {
            line_prefix: Some("#"@),
            block_start: None,
            block_end: None,
            doc_prefix: None,
        }
    } else {
        CommentStyle {
            line_prefix: Some("//"@),
            block_start: Some("/*"@),
            block_end: Some("*/"@),
            doc_prefix: Some("///"@),
        }
    }
}

impl CommentSyntax {
    /// The comment syntax of `lang`.
    pub fn from_lang(lang: Option<&str>) -> (s: CommentSyntax)
        ensures
            s@ == comment_style(opt_text(lang)),
    {
        let hash = match lang {
            Some(l) => {
                let c = str_to_chars(l);
                crate::text::eq_str(&c, "python") || crate::text::eq_str(&c, "ruby")
                    || crate::text::eq_str(&c, "shell") || crate::text::eq_str(&c, "bash")
            },
            None => false,
        };
        if hash {
            CommentSyntax {
                line_prefix: Some("#"),
                block_start: None,
                block_end: None,
                doc_prefix: None,
            }
        } else {
            CommentSyntax {
                line_prefix: Some("//"),
                block_start: Some("/*"),
                block_end: Some("*/"),
                doc_prefix: Some("///"),
            }
        }
    }
}

/// Whether a block comment is open, and the text kept so far.
pub struct StripState {
    pub in_block: bool,
    pub out: Seq<char>,
}

/// The prefix of the doc comments that line-comment removal keeps.
pub open spec fn doc_prefix_or_default(cs: CommentStyle) -> Seq<char> {
    match cs.doc_prefix {
        Some(d) => d,
        None => "///"@,
    }
}

/// One line: inside or opening a block comment it is dropped (the block
/// closes on the line that holds its end); a line comment that is not a doc
/// comment is dropped; a blank line becomes a bare line break; any other
/// line is kept as it is, with a line break.
pub open spec fn strip_step(cs: CommentStyle, st: StripState, line: Seq<char>) -> StripState {
    let t = trim(line);
    if cs.block_start is Some && cs.block_end is Some && (st.in_block || contains(
        t,
        cs.block_start->0,
    )) {
        StripState { in_block: !contains(t, cs.block_end->0), out: st.out }
    } else if cs.line_prefix is Some && starts_with(t, cs.line_prefix->0) && !starts_with(
        t,
        doc_prefix_or_default(cs),
    ) {
        st
    } else if t.len() == 0 {
        StripState { in_block: st.in_block, out: st.out.push('\n') }
    } else {
        StripState { in_block: st.in_block, out: st.out + line.push('\n') }
    }
}

/// The state after the lines `ls`.
pub open spec fn strip_lines(cs: CommentStyle, ls: Seq<Seq<char>>) -> StripState
    decreases ls.len(),
{
    if ls.len() == 0 {
        StripState { in_block: false, out: Seq::empty() }
    } else {
        strip_step(cs, strip_lines(cs, ls.drop_last()), ls.last())
    }
}

/// The lines of `content` that are not comments, each with its line break.
pub open spec fn drop_comment_lines_spec(content: Seq<char>, lang: Option<Seq<char>>) -> Seq<
    char,
> {
    strip_lines(comment_style(lang), lines(content)).out
}

/// The lines of `content` that are not comments in `lang`, blank lines kept
/// as bare line breaks.
pub fn drop_comment_lines(content: &str, lang: Option<&str>) -> (out: String)
    ensures
        out@ == drop_comment_lines_spec(content@, opt_text(lang)),
{
    let syn = CommentSyntax::from_lang(lang);
    let c = str_to_chars(content);
    let ls = lines_exec(&c);
    let ghost lv = lines(content@);
    assert(views(ls@) =~= lv);
    let ghost cs = syn@;
    let mut out: Vec<char> = Vec::new();
    let mut in_block = false;
    let mut i: usize = 0;
    assert(lv.take(0) =~= Seq::<Seq<char>>::empty());
    while i < ls.len()
        invariant
            i <= ls@.len(),
            lv == views(ls@),
            cs == syn@,
            strip_lines(cs, lv.take(i as int)) == (StripState { in_block, out: out@ }),
        decreases ls@.len() - i,
    {
        assert(lv.take(i + 1).drop_last() =~= lv.take(i as int));
        assert(lv[i as int] == ls@[i as int]@);
        let line = &ls[i];
        let t = trim_chars(line);
        let mut done = false;
        match (syn.block_start, syn.block_end) {
            (Some(start), Some(end)) => {
                if !in_block && crate::text::contains_str(&t, start) {
                    in_block = true;
                }
                if in_block {
                    if crate::text::contains_str(&t, end) {
                        in_block = false;
                    }
                    done = true;
                }
            },
            _ => {},
        }
        if !done {
            match syn.line_prefix {
                Some(prefix) => {
                    let doc = match syn.doc_prefix {
                        Some(d) => d,
                        None => "///",
                    };
                    if crate::text::starts_with_str(&t, prefix) && !crate::text::starts_with_str(
                        &t,
                        doc,
                    ) {
                        done = true;
                    }
                },
                None => {},
            }
        }
        if !done {
            if t.len() == 0 {
                out.push('\n');
            } else {
                append(&mut out, line);
                out.push('\n');
            }
        }
        i = i + 1;
    }
    assert(lv.take(i as int) =~= lv);
    chars_to_string(&out)
}

/// Code without its comments: comment lines dropped, runs of three or more
/// line breaks collapsed to two (`MULTIPLE_BLANK_LINES`), and the whole
/// trimmed.
pub open spec fn strip_comments_spec(content: Seq<char>, lang: Option<Seq<char>>) -> Seq<char> {
    trim(
        regex_replace_all(
            MULTIPLE_BLANK_LINES@,
            drop_comment_lines_spec(content, lang),
            "\n\n"@,
        ),
    )
}

/// `content` without the comments of `lang`.
pub fn strip_comments(content: &str, lang: Option<&str>) -> (out: String)
    ensures
        out@ == strip_comments_spec(content@, opt_text(lang)),
{
    let kept = drop_comment_lines(content, lang);
    let blank = Pattern::new(MULTIPLE_BLANK_LINES);
    let collapsed = blank.replace_all(kept.as_str(), "\n\n");
    let c = str_to_chars(collapsed.as_str());
    let t = trim_chars(&c);
    chars_to_string(&t)
}

/// The note that stands for `n` folded lines: `"    [... n lines]"`.
pub open spec fn skipped_note(n: nat) -> Seq<char> {
    "    [... "@ + decimal(n) + " lines]"@
}

/// Lines kept so far, the brace depth inside a body, whether a body is
/// open, and how many body lines wait to be noted as folded.
pub struct FoldState {
    pub out: Seq<Seq<char>>,
    pub depth: int,
    pub in_body: bool,
    pub skipped: nat,
}

/// Notes the waiting folded lines, if any.
pub open spec fn flush(st: FoldState) -> FoldState {
    if st.skipped > 0 {
        FoldState { out: st.out.push(skipped_note(st.skipped)), skipped: 0, ..st }
    } else {
        st
    }
}

/// `st` after noting the waiting lines and keeping `line`.
pub open spec fn keep(st: FoldState, line: Seq<char>) -> FoldState {
    let f = flush(st);
    FoldState { out: f.out.push(line), ..f }
}

/// One line: imports are kept; a signature is kept and opens a body;
/// inside a body only brace lines (`{`, `}`, or ending in `{`) are kept,
/// the others are counted as folded, and the body ends when its braces
/// balance; any other line is kept.
pub open spec fn fold_step(st: FoldState, line: Seq<char>) -> FoldState {
    let t = trim(line);
    if regex_is_match(IMPORT_PATTERN@, t) {
        keep(st, line)
    } else if regex_is_match(FUNC_SIGNATURE@, t) {
        let k = keep(st, line);
        FoldState { in_body: true, depth: 0, ..k }
    } else if st.in_body {
        let d = st.depth + count_char(t, '{') - count_char(t, '}');
        let s1 = if t == "{"@ || t == "}"@ || ends_with(t, "{"@) {
            FoldState { depth: d, ..keep(st, line) }
        } else {
            FoldState { depth: d, skipped: st.skipped + 1, ..st }
        };
        if d <= 0 {
            flush(FoldState { in_body: false, ..s1 })
        } else {
            s1
        }
    } else {
        keep(st, line)
    }
}

/// The state after the lines `ls`.
pub open spec fn fold_lines_from(ls: Seq<Seq<char>>) -> FoldState
    decreases ls.len(),
{
    if ls.len() == 0 {
        FoldState { out: Seq::empty(), depth: 0, in_body: false, skipped: 0 }
    } else {
        fold_step(fold_lines_from(ls.drop_last()), ls.last())
    }
}

/// `content` with function bodies folded: signatures, imports and brace
/// lines kept, each run of other body lines replaced by a note of its length.
pub open spec fn smart_truncate_spec(content: Seq<char>) -> Seq<char> {
    join(flush(fold_lines_from(lines(content))).out, "\n"@)
}

/// Adds the note for the waiting folded lines, if any.
fn flush_skipped(result: &mut Vec<Vec<char>>, skipped: &mut usize)
    ensures
        *final(skipped) == 0,
        *old(skipped) > 0 ==> views(final(result)@) == views(old(result)@).push(
            skipped_note(*old(skipped) as nat),
        ),
        *old(skipped) == 0 ==> final(result)@ == old(result)@,
{
    if *skipped > 0 {
        let mut note: Vec<char> = Vec::new();
        crate::text::append_str(&mut note, "    [... ");
        let d = decimal_exec(*skipped);
        append(&mut note, &d);
        crate::text::append_str(&mut note, " lines]");
        assert(note@ =~= skipped_note(*old(skipped) as nat));
        let ghost before = views(result@);
        result.push(note);
        assert(views(result@) =~= before.push(skipped_note(*old(skipped) as nat)));
        *skipped = 0;
    }
}

/// Adds a copy of `line`.
fn push_line(result: &mut Vec<Vec<char>>, line: &[char])
    ensures
        views(final(result)@) == views(old(result)@).push(line@),
{
    let copy = crate::text::slice(line, 0, line.len());
    assert(copy@ =~= line@);
    result.push(copy);
    assert(views(result@) =~= views(old(result)@).push(line@));
}

fn smart_truncate(content: &str) -> (out: String)
    ensures
        out@ == smart_truncate_spec(content@),
{
    let c = str_to_chars(content);
    let ls = lines_exec(&c);
    let ghost lv = lines(content@);
    assert(views(ls@) =~= lv);
    proof {
        lemma_lines_total_len(content@);
    }
    let imports = Pattern::new(IMPORT_PATTERN);
    let sigs = Pattern::new(FUNC_SIGNATURE);
    let mut result: Vec<Vec<char>> = Vec::new();
    let mut depth: i128 = 0;
    let mut in_body = false;
    let mut skipped: usize = 0;
    let mut i: usize = 0;
    assert(lv.take(0) =~= Seq::<Seq<char>>::empty());
    assert(views(result@) =~= Seq::<Seq<char>>::empty());
    assert(c@.len() == c.len());
    while i < ls.len()
        invariant
            i <= ls@.len(),
            lv == views(ls@),
            total_len(lv) <= usize::MAX,
            imports@ == IMPORT_PATTERN@,
            sigs@ == FUNC_SIGNATURE@,
            skipped <= i,
            -total_len(lv.take(i as int)) <= depth <= total_len(lv.take(i as int)),
            fold_lines_from(lv.take(i as int)) == (FoldState {
                out: views(result@),
                depth: depth as int,
                in_body,
                skipped: skipped as nat,
            }),
        decreases ls@.len() - i,
    {
        assert(lv.take(i + 1).drop_last() =~= lv.take(i as int));
        assert(lv[i as int] == ls@[i as int]@);
        proof {
            lemma_total_len_prefix(lv, i + 1);
            crate::text::lemma_count_char_le(trim(lv[i as int]), '{');
            crate::text::lemma_count_char_le(trim(lv[i as int]), '}');
            crate::text::lemma_trim_end_is_prefix(lv[i as int]);
            crate::text::lemma_trim_start_is_suffix(crate::text::trim_end(lv[i as int]));
        }
        let ghost st0 = FoldState {
            out: views(result@),
            depth: depth as int,
            in_body,
            skipped: skipped as nat,
        };
        let ghost lvi = lv[i as int];
        let line = &ls[i];
        let t = trim_chars(line);
        let ts = chars_to_string(&t);
        if imports.is_match(ts.as_str()) {
            flush_skipped(&mut result, &mut skipped);
            push_line(&mut result, line);
            assert(views(result@) =~= flush(st0).out.push(lvi));
        } else if sigs.is_match(ts.as_str()) {
            flush_skipped(&mut result, &mut skipped);
            push_line(&mut result, line);
            assert(views(result@) =~= flush(st0).out.push(lvi));
            in_body = true;
            depth = 0;
        } else if in_body {
            let open = count_char_exec(&t, '{');
            let close = count_char_exec(&t, '}');
            depth = depth + open as i128 - close as i128;
            let ghost d = depth as int;
            let brace_line = crate::text::eq_str(&t, "{") || crate::text::eq_str(&t, "}")
                || crate::text::ends_with_str(&t, "{");
            if brace_line {
                flush_skipped(&mut result, &mut skipped);
                push_line(&mut result, line);
                assert(views(result@) =~= flush(st0).out.push(lvi));
            } else {
                skipped = skipped + 1;
            }
            let ghost s1 = FoldState {
                out: views(result@),
                depth: d,
                in_body: true,
                skipped: skipped as nat,
            };
            if depth <= 0 {
                in_body = false;
                flush_skipped(&mut result, &mut skipped);
                assert(views(result@) == flush(FoldState { in_body: false, ..s1 }).out);
            }
        } else {
            flush_skipped(&mut result, &mut skipped);
            push_line(&mut result, line);
            assert(views(result@) =~= flush(st0).out.push(lvi));
        }
        assert(fold_lines_from(lv.take(i + 1)) == fold_step(st0, lvi));
        i = i + 1;
    }
    assert(lv.take(i as int) =~= lv);
    flush_skipped(&mut result, &mut skipped);
    assert(views(result@) == flush(fold_lines_from(lv)).out);
    let mut nl: Vec<char> = Vec::new();
    nl.push('\n');
    assert(nl@ =~= "\n"@) by {
        reveal_strlit("\n");
    }
    let j = join_exec(&result, &nl);
    assert(result@.map_values(|l: Vec<char>| l@) =~= views(result@));
    chars_to_string(&j)
}

/// `content` without the comments of `lang`, with function bodies folded.
pub fn smart_strip(content: &str, lang: Option<&str>) -> (out: String)
    ensures
        out@ == smart_truncate_spec(strip_comments_spec(content@, opt_text(lang))),
{
    let stripped = strip_comments(content, lang);
    smart_truncate(stripped.as_str())
}

/// Stripped code has no leading or trailing whitespace.
pub proof fn lemma_strip_comments_trimmed(content: Seq<char>, lang: Option<Seq<char>>)
    ensures
        trim(strip_comments_spec(content, lang)) == strip_comments_spec(content, lang),
{
    crate::text::lemma_trim_idempotent(
        regex_replace_all(MULTIPLE_BLANK_LINES@, drop_comment_lines_spec(content, lang), "\n\n"@),
    );
}

/// The trimmed text `t` is a line comment of `lang` that does not open a
/// block comment: it starts with `#` (Python, Ruby, shells), or with `//`
/// but not `///` and holds no `/*` (other languages).
pub open spec fn plain_line_comment(lang: Option<Seq<char>>, t: Seq<char>) -> bool {
    if is_hash_comment_lang(lang) {
        starts_with(t, "#"@)
    } else {
        starts_with(t, "//"@) && !starts_with(t, "///"@) && !contains(t, "/*"@)
    }
}

/// Outside a block comment, a line comment leaves no trace, however it is
/// indented: the lines before it alone give the same result.
pub proof fn lemma_line_comment_dropped(
    lang: Option<Seq<char>>,
    before: Seq<Seq<char>>,
    line: Seq<char>,
)
    requires
        !strip_lines(comment_style(lang), before).in_block,
        plain_line_comment(lang, trim(line)),
    ensures
        strip_lines(comment_style(lang), before.push(line)) == strip_lines(
            comment_style(lang),
            before,
        ),
{
    assert(before.push(line).drop_last() =~= before);
    if is_hash_comment_lang(lang) {
        let t = trim(line);
        reveal_strlit("#");
        reveal_strlit("///");
        assert("#"@.len() == 1 && "#"@[0] == '#');
        assert(t.subrange(0, 1) == "#"@);
        assert(t[0] == t.subrange(0, 1)[0]);
        assert(t[0] == '#');
        assert("///"@[0] == '/');
        if starts_with(t, "///"@) {
            assert(t.subrange(0, 3) == "///"@);
            assert(t[0] == t.subrange(0, 3)[0]);
        }
    }
}

/// Outside a block comment, a line that is not blank, not a comment and
/// opens no block comment is kept exactly as it is, with a line break.
pub proof fn lemma_code_line_kept(lang: Option<Seq<char>>, before: Seq<Seq<char>>, line: Seq<char>)
    requires
        !strip_lines(comment_style(lang), before).in_block,
        trim(line).len() > 0,
        if is_hash_comment_lang(lang) {
            !starts_with(trim(line), "#"@)
        } else {
            !contains(trim(line), "/*"@) && (!starts_with(trim(line), "//"@) || starts_with(
                trim(line),
                "///"@,
            ))
        },
    ensures
        strip_lines(comment_style(lang), before.push(line)).out == strip_lines(
            comment_style(lang),
            before,
        ).out + line + seq!['\n'],
        !strip_lines(comment_style(lang), before.push(line)).in_block,
{
    assert(before.push(line).drop_last() =~= before);
    assert(line.push('\n') =~= line + seq!['\n']);
}

/// In a language with block comments, a line inside an open block comment,
/// or one that opens a block comment, leaves no trace; the block stays open
/// until a line that holds `*/`.
pub proof fn lemma_block_comment_dropped(
    lang: Option<Seq<char>>,
    before: Seq<Seq<char>>,
    line: Seq<char>,
)
    requires
        !is_hash_comment_lang(lang),
        strip_lines(comment_style(lang), before).in_block || contains(trim(line), "/*"@),
    ensures
        strip_lines(comment_style(lang), before.push(line)).out == strip_lines(
            comment_style(lang),
            before,
        ).out,
        strip_lines(comment_style(lang), before.push(line)).in_block == !contains(
            trim(line),
            "*/"@,
        ),
{
    assert(before.push(line).drop_last() =~= before);
}

} // verus!
