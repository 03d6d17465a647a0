//! Splitting source files into chunks: at top-level definitions where a
//! grammar is known, else by lines, merged up to a target length.
use vstd::prelude::*;

use crate::pattern::sources;
use crate::text::str_to_chars;
use vstd::string::StringSliceAdditionalSpecFns;
use vstd::utf8::*;
use tree_sitter::Language;

verus! {

/// Top-level node kinds that start a definition in Rust code.
pub const RUST_DEFINITION_KINDS: [&'static str; 11] = ["function_item", "impl_item", "struct_item", "enum_item", "trait_item", "mod_item", "const_item", "static_item", "type_item", "macro_definition", "attribute_item"];

/// Top-level node kinds that start a definition in Python code.
pub const PYTHON_DEFINITION_KINDS: [&'static str; 3] = ["function_definition", "class_definition", "decorated_definition"];

/// Top-level node kinds that start a definition in JavaScript code.
pub const JAVASCRIPT_DEFINITION_KINDS: [&'static str; 5] = ["function_declaration", "class_declaration", "export_statement", "lexical_declaration", "variable_declaration"];

/// Top-level node kinds that start a definition in TypeScript code.
pub const TYPESCRIPT_DEFINITION_KINDS: [&'static str; 8] = ["function_declaration", "class_declaration", "interface_declaration", "type_alias_declaration", "enum_declaration", "export_statement", "lexical_declaration", "variable_declaration"];

/// Top-level node kinds that start a definition in Go code.
pub const GO_DEFINITION_KINDS: [&'static str; 3] = ["function_declaration", "method_declaration", "type_declaration"];

/// Top-level node kinds that start a definition in Java code.
pub const JAVA_DEFINITION_KINDS: [&'static str; 6] = ["class_declaration", "method_declaration", "interface_declaration", "enum_declaration", "constructor_declaration", "record_declaration"];

/// Top-level node kinds that start a definition in C code.
pub const C_DEFINITION_KINDS: [&'static str; 4] = ["function_definition", "struct_specifier", "enum_specifier", "declaration"];

/// Top-level node kinds that start a definition in C++ code.
pub const CPP_DEFINITION_KINDS: [&'static str; 7] = ["function_definition", "class_specifier", "struct_specifier", "enum_specifier", "declaration", "namespace_definition", "template_declaration"];

/// Top-level node kinds that start a definition in Kotlin code.
pub const KOTLIN_DEFINITION_KINDS: [&'static str; 7] = ["class_declaration", "object_declaration", "function_declaration", "property_declaration", "type_alias", "companion_object", "secondary_constructor"];

/// Top-level node kinds that start a definition in Ruby code.
pub const RUBY_DEFINITION_KINDS: [&'static str; 6] = ["method", "singleton_method", "class", "module", "singleton_class", "assignment"];

/// Top-level node kinds that start a definition in PHP code.
pub const PHP_DEFINITION_KINDS: [&'static str; 7] = ["function_definition", "method_declaration", "class_declaration", "interface_declaration", "trait_declaration", "enum_declaration", "namespace_definition"];

/// Top-level node kinds that start a definition in Swift code.
pub const SWIFT_DEFINITION_KINDS: [&'static str; 8] = ["function_declaration", "class_declaration", "protocol_declaration", "extension_declaration", "enum_declaration", "struct_declaration", "property_declaration", "typealias_declaration"];

/// The grammars that source files can be parsed with.
#[derive(Debug, Clone, Copy, PartialEq, Eq, Structural)]
pub enum Grammar {
    Rust,
    Python,
    JavaScript,
    TypeScript,
    Go,
    Java,
    C,
    Cpp,
    Kotlin,
    Ruby,
    Php,
    Swift,
}

/// The grammar for a language name.
pub open spec fn grammar_of(name: Seq<char>) -> Option<Grammar> {
    if name == "rust"@ {
        Some(Grammar::Rust)
    } else if name == "python"@ {
        Some(Grammar::Python)
    } else if name == "javascript"@ {
        Some(Grammar::JavaScript)
    } else if name == "typescript"@ {
        Some(Grammar::TypeScript)
    } else if name == "go"@ {
        Some(Grammar::Go)
    } else if name == "java"@ {
        Some(Grammar::Java)
    } else if name == "c"@ {
        Some(Grammar::C)
    } else if name == "cpp"@ {
        Some(Grammar::Cpp)
    } else if name == "kotlin"@ {
        Some(Grammar::Kotlin)
    } else if name == "ruby"@ {
        Some(Grammar::Ruby)
    } else if name == "php"@ {
        Some(Grammar::Php)
    } else if name == "swift"@ {
        Some(Grammar::Swift)
    } else {
        None
    }
}

/// The grammar for a language name, if it has one.
pub fn grammar_for(name: &str) -> (g: Option<Grammar>)
    ensures
        g == grammar_of(name@),
{
    let l = str_to_chars(name);
    if crate::text::eq_str(&l, "rust") {
        Some(Grammar::Rust)
    } else if crate::text::eq_str(&l, "python") {
        Some(Grammar::Python)
    } else if crate::text::eq_str(&l, "javascript") {
        Some(Grammar::JavaScript)
    } else if crate::text::eq_str(&l, "typescript") {
        Some(Grammar::TypeScript)
    } else if crate::text::eq_str(&l, "go") {
        Some(Grammar::Go)
    } else if crate::text::eq_str(&l, "java") {
        Some(Grammar::Java)
    } else if crate::text::eq_str(&l, "c") {
        Some(Grammar::C)
    } else if crate::text::eq_str(&l, "cpp") {
        Some(Grammar::Cpp)
    } else if crate::text::eq_str(&l, "kotlin") {
        Some(Grammar::Kotlin)
    } else if crate::text::eq_str(&l, "ruby") {
        Some(Grammar::Ruby)
    } else if crate::text::eq_str(&l, "php") {
        Some(Grammar::Php)
    } else if crate::text::eq_str(&l, "swift") {
        Some(Grammar::Swift)
    } else {
        None
    }
}

/// The top-level node kinds that count as definitions in `lang`.
pub open spec fn definition_kinds(lang: Seq<char>) -> Seq<&'static str> {
    if lang == "rust"@ {
        RUST_DEFINITION_KINDS@
    } else if lang == "python"@ {
        PYTHON_DEFINITION_KINDS@
    } else if lang == "javascript"@ {
        JAVASCRIPT_DEFINITION_KINDS@
    } else if lang == "typescript"@ {
        TYPESCRIPT_DEFINITION_KINDS@
    } else if lang == "go"@ {
        GO_DEFINITION_KINDS@
    } else if lang == "java"@ {
        JAVA_DEFINITION_KINDS@
    } else if lang == "c"@ {
        C_DEFINITION_KINDS@
    } else if lang == "cpp"@ {
        CPP_DEFINITION_KINDS@
    } else if lang == "kotlin"@ {
        KOTLIN_DEFINITION_KINDS@
    } else if lang == "ruby"@ {
        RUBY_DEFINITION_KINDS@
    } else if lang == "php"@ {
        PHP_DEFINITION_KINDS@
    } else if lang == "swift"@ {
        SWIFT_DEFINITION_KINDS@
    } else {
        Seq::empty()
    }
}

/// Whether `s` is one of `names`.
fn name_in(names: &[&'static str], s: &[char]) -> (b: bool)
    ensures
        b == sources(names@).contains(s@),
{
    let ghost v = sources(names@);
    let mut i: usize = 0;
    while i < names.len()
        invariant
            i <= names@.len(),
            v == sources(names@),
            forall|j: int| 0 <= j < i ==> v[j] != s@,
        decreases names@.len() - i,
    {
        if crate::text::eq_str(s, names[i]) {
            assert(v[i as int] == s@);
            return true;
        }
        i = i + 1;
    }
    false
}

/// Whether a top-level node of kind `kind` starts a definition in `language`.
pub fn is_definition_kind(language: &str, kind: &str) -> (b: bool)
    ensures
        b == sources(definition_kinds(language@)).contains(kind@),
{
    let l = str_to_chars(language);
    let k = str_to_chars(kind);
    if crate::text::eq_str(&l, "rust") {
        name_in(&RUST_DEFINITION_KINDS, &k)
    } else if crate::text::eq_str(&l, "python") {
        name_in(&PYTHON_DEFINITION_KINDS, &k)
    } else if crate::text::eq_str(&l, "javascript") {
        name_in(&JAVASCRIPT_DEFINITION_KINDS, &k)
    } else if crate::text::eq_str(&l, "typescript") {
        name_in(&TYPESCRIPT_DEFINITION_KINDS, &k)
    } else if crate::text::eq_str(&l, "go") {
        name_in(&GO_DEFINITION_KINDS, &k)
    } else if crate::text::eq_str(&l, "java") {
        name_in(&JAVA_DEFINITION_KINDS, &k)
    } else if crate::text::eq_str(&l, "c") {
        name_in(&C_DEFINITION_KINDS, &k)
    } else if crate::text::eq_str(&l, "cpp") {
        name_in(&CPP_DEFINITION_KINDS, &k)
    } else if crate::text::eq_str(&l, "kotlin") {
        name_in(&KOTLIN_DEFINITION_KINDS, &k)
    } else if crate::text::eq_str(&l, "ruby") {
        name_in(&RUBY_DEFINITION_KINDS, &k)
    } else if crate::text::eq_str(&l, "php") {
        name_in(&PHP_DEFINITION_KINDS, &k)
    } else if crate::text::eq_str(&l, "swift") {
        name_in(&SWIFT_DEFINITION_KINDS, &k)
    } else {
        assert(sources(Seq::<&'static str>::empty()) =~= Seq::<Seq<char>>::empty());
        false
    }
}

/// The span `[start, end)` of bytes that a chunk covers.
pub struct ChunkBoundary {
    pub start: usize,
    pub end: usize,
}

/// A boundary as a pair of offsets.
pub open spec fn bview(b: ChunkBoundary) -> (nat, nat) {
    (b.start as nat, b.end as nat)
}

/// The boundaries `v` as pairs of offsets.
pub open spec fn bviews(v: Seq<ChunkBoundary>) -> Seq<(nat, nat)> {
    v.map_values(|b: ChunkBoundary| bview(b))
}

/// The length of a span.
pub open spec fn span(g: (nat, nat)) -> int {
    g.1 - g.0
}

/// Every span starts no later than it ends.
pub open spec fn ordered_spans(gs: Seq<(nat, nat)>) -> bool {
    forall|i: int| 0 <= i < gs.len() ==> (#[trigger] gs[i]).0 <= gs[i].1
}

/// The merged spans so far, and the span being grown with its length.
pub struct MergeState {
    pub merged: Seq<(nat, nat)>,
    pub start: nat,
    pub end: nat,
    pub length: int,
}

/// One more span: it joins the current one while the joined length stays
/// within `desired`; otherwise the current span is closed and a new one starts.
pub open spec fn merge_step(st: MergeState, g: (nat, nat), desired: nat) -> MergeState {
    if st.length + span(g) > desired {
        MergeState { merged: st.merged.push((st.start, st.end)), start: g.0, end: g.1, length: span(g) }
    } else {
        MergeState { end: g.1, length: st.length + span(g), ..st }
    }
}

/// The state after `first` and then `rest`.
pub open spec fn merge_fold(first: (nat, nat), rest: Seq<(nat, nat)>, desired: nat) -> MergeState
    decreases rest.len(),
{
    if rest.len() == 0 {
        MergeState { merged: Seq::empty(), start: first.0, end: first.1, length: span(first) }
    } else {
        merge_step(merge_fold(first, rest.drop_last(), desired), rest.last(), desired)
    }
}

/// Neighbouring spans joined, in order, while the joined length stays within
/// `desired`.
pub open spec fn merge_spans(gs: Seq<(nat, nat)>, desired: nat) -> Seq<(nat, nat)> {
    if gs.len() == 0 {
        Seq::empty()
    } else {
        let st = merge_fold(gs[0], gs.drop_first(), desired);
        st.merged.push((st.start, st.end))
    }
}

/// Joins neighbouring chunks while the joined length stays within
/// `desired_length`.
pub fn merge_adjacent_chunks(chunks: &[ChunkBoundary], desired_length: usize) -> (merged: Vec<
    ChunkBoundary,
>)
    requires
        ordered_spans(bviews(chunks@)),
    ensures
        bviews(merged@) == merge_spans(bviews(chunks@), desired_length as nat),
{
    let ghost gs = bviews(chunks@);
    if chunks.len() == 0 {
        let v: Vec<ChunkBoundary> = Vec::new();
        assert(bviews(v@) =~= Seq::<(nat, nat)>::empty());
        return v;
    }
    let mut merged: Vec<ChunkBoundary> = Vec::new();
    let mut current_start = chunks[0].start;
    let mut current_end = chunks[0].end;
    assert(gs[0].0 <= gs[0].1);
    let mut current_length = current_end - current_start;
    let mut i: usize = 1;
    assert(gs.subrange(1, 1) =~= Seq::<(nat, nat)>::empty());
    assert(bviews(merged@) =~= Seq::<(nat, nat)>::empty());
    while i < chunks.len()
        invariant
            1 <= i <= chunks@.len(),
            gs == bviews(chunks@),
            ordered_spans(gs),
            merge_fold(gs[0], gs.subrange(1, i as int), desired_length as nat) == (MergeState {
                merged: bviews(merged@),
                start: current_start as nat,
                end: current_end as nat,
                length: current_length as int,
            }),
        decreases chunks@.len() - i,
    {
        assert(gs.subrange(1, i + 1).drop_last() =~= gs.subrange(1, i as int));
        assert(gs.subrange(1, i + 1).last() == gs[i as int]);
        assert(gs[i as int].0 <= gs[i as int].1);
        let group = &chunks[i];
        let length = group.end - group.start;
        if current_length > desired_length || length > desired_length - current_length {
            let ghost before = bviews(merged@);
            merged.push(ChunkBoundary { start: current_start, end: current_end });
            assert(bviews(merged@) =~= before.push((current_start as nat, current_end as nat)));
            current_start = group.start;
            current_end = group.end;
            current_length = length;
        } else {
            current_end = group.end;
            current_length = current_length + length;
        }
        i = i + 1;
    }
    assert(gs.subrange(1, i as int) =~= gs.drop_first());
    let ghost before = bviews(merged@);
    merged.push(ChunkBoundary { start: current_start, end: current_end });
    assert(bviews(merged@) =~= before.push((current_start as nat, current_end as nat)));
    merged
}

/// The line spans found so far, and where the open line starts.
pub struct LineScan {
    pub groups: Seq<(nat, nat)>,
    pub start: nat,
}

/// Scans `b` for line breaks: each `'\n'` closes a line that includes it.
pub open spec fn line_scan(b: Seq<u8>) -> LineScan
    decreases b.len(),
{
    if b.len() == 0 {
        LineScan { groups: Seq::empty(), start: 0 }
    } else {
        let p = line_scan(b.drop_last());
        if b.last() == 10u8 {
            LineScan { groups: p.groups.push((p.start, b.len())), start: b.len() }
        } else {
            p
        }
    }
}

/// The byte spans of the lines of `b`, each with its line break
/// (`str::split_inclusive('\n')`).
pub open spec fn line_groups(b: Seq<u8>) -> Seq<(nat, nat)> {
    let s = line_scan(b);
    if s.start < b.len() {
        s.groups.push((s.start, b.len()))
    } else {
        s.groups
    }
}

proof fn lemma_line_scan_wf(b: Seq<u8>)
    ensures
        line_scan(b).start <= b.len(),
        forall|i: int|
            0 <= i < line_scan(b).groups.len() ==> (#[trigger] line_scan(b).groups[i]).0
                < line_scan(b).groups[i].1 <= b.len(),
    decreases b.len(),
{
    if b.len() > 0 {
        lemma_line_scan_wf(b.drop_last());
    }
}

/// Line spans of `text` merged up to `desired_length`; nothing for blank text.
pub open spec fn chunk_lines_spec(text: Seq<char>, desired_length: nat) -> Seq<(nat, nat)> {
    if crate::text::trim(text).len() == 0 {
        Seq::empty()
    } else {
        merge_spans(line_groups(encode_utf8(text)), desired_length)
    }
}

/// Splits `text` into lines and merges them up to `desired_length` bytes.
pub fn chunk_lines(text: &str, desired_length: usize) -> (out: Vec<ChunkBoundary>)
    ensures
        bviews(out@) == chunk_lines_spec(text@, desired_length as nat),
{
    let c = str_to_chars(text);
    let t = crate::text::trim_chars(&c);
    if t.len() == 0 {
        let v: Vec<ChunkBoundary> = Vec::new();
        assert(bviews(v@) =~= Seq::<(nat, nat)>::empty());
        return v;
    }
    let b = text.as_bytes();
    let ghost bs = b@;
    let mut groups: Vec<ChunkBoundary> = Vec::new();
    let mut index: usize = 0;
    let mut i: usize = 0;
    assert(bs.take(0) =~= Seq::<u8>::empty());
    assert(bviews(groups@) =~= Seq::<(nat, nat)>::empty());
    while i < b.len()
        invariant
            i <= bs.len(),
            bs == b@,
            line_scan(bs.take(i as int)) == (LineScan { groups: bviews(groups@), start: index as nat }),
        decreases bs.len() - i,
    {
        assert(bs.take(i + 1).drop_last() =~= bs.take(i as int));
        assert(bs.take(i + 1).last() == bs[i as int]);
        proof {
            lemma_line_scan_wf(bs.take(i as int));
        }
        if b[i] == 10u8 {
            let ghost before = bviews(groups@);
            groups.push(ChunkBoundary { start: index, end: i + 1 });
            assert(bviews(groups@) =~= before.push((index as nat, (i + 1) as nat)));
            index = i + 1;
        }
        i = i + 1;
    }
    assert(bs.take(i as int) =~= bs);
    proof {
        lemma_line_scan_wf(bs);
    }
    let ghost scanned = bviews(groups@);
    assert(scanned == line_scan(bs).groups);
    if index < b.len() {
        let ghost before = bviews(groups@);
        groups.push(ChunkBoundary { start: index, end: b.len() });
        assert(bviews(groups@) =~= before.push((index as nat, bs.len())));
    }
    proof {
        let g = bviews(groups@);
        assert forall|k: int| 0 <= k < g.len() implies (#[trigger] g[k]).0 <= g[k].1 by {
            if k < scanned.len() {
                assert(g[k] == scanned[k]);
            }
        }
    }
    merge_adjacent_chunks(&groups, desired_length)
}

/// Target length of a chunk, in bytes.
pub const DESIRED_CHUNK_LENGTH_CHARS: usize = 1500;

#[verifier::external_type_specification]
#[verifier::external_body]
pub struct ExLanguage(Language);

/// A grammar loaded for the parser; its view is the grammar it was made from.
pub struct TsLanguage {
    grammar: Grammar,
    language: Language,
}

impl View for TsLanguage {
    type V = Grammar;

    closed spec fn view(&self) -> Grammar {
        self.grammar
    }
}

/// The kinds and start offsets (in bytes) of the top-level nodes of the
/// syntax tree that tree-sitter builds for `source` with `grammar`; `None`
/// when the grammar cannot be loaded or the parse gives no tree.
pub uninterp spec fn top_level_nodes(grammar: Grammar, source: Seq<char>) -> Option<
    Seq<(Seq<char>, nat)>,
>;

/// Kinds and start offsets as text and numbers.
pub open spec fn node_views(v: Seq<(String, usize)>) -> Seq<(Seq<char>, nat)> {
    v.map_values(|n: (String, usize)| (n.0@, n.1 as nat))
}

impl TsLanguage {
    /// Trusted: takes the `LANGUAGE` constant of the grammar's crate
    /// (`LANGUAGE_TYPESCRIPT`, `LANGUAGE_PHP` for TypeScript and PHP) and
    /// makes it a `tree_sitter::Language` with `Language::from`.
    #[verifier::external_body]
    pub(crate) fn new(grammar: Grammar) -> (l: TsLanguage)
        ensures
            l@ == grammar,
    {
        let f = match grammar {
            Grammar::Rust => tree_sitter_rust::LANGUAGE,
            Grammar::Python => tree_sitter_python::LANGUAGE,
            Grammar::JavaScript => tree_sitter_javascript::LANGUAGE,
            Grammar::TypeScript => tree_sitter_typescript::LANGUAGE_TYPESCRIPT,
            Grammar::Go => tree_sitter_go::LANGUAGE,
            Grammar::Java => tree_sitter_java::LANGUAGE,
            Grammar::C => tree_sitter_c::LANGUAGE,
            Grammar::Cpp => tree_sitter_cpp::LANGUAGE,
            Grammar::Kotlin => tree_sitter_kotlin_ng::LANGUAGE,
            Grammar::Ruby => tree_sitter_ruby::LANGUAGE,
            Grammar::Php => tree_sitter_php::LANGUAGE_PHP,
            Grammar::Swift => tree_sitter_swift::LANGUAGE,
        };
        TsLanguage { grammar, language: Language::from(f) }
    }

    /// Trusted: parses `source` with a `tree_sitter::Parser` set to this
    /// language (`Parser::new`, `Parser::set_language`, `Parser::parse`) and
    /// lists the children of the root node (`Tree::root_node`,
    /// `Node::children`) by `Node::kind` and `Node::start_byte`. The contract
    /// names the result: it is a function of the grammar and the text.
    #[verifier::external_body]
    pub(crate) fn top_level_nodes(&self, source: &str) -> (r: Option<Vec<(String, usize)>>)
        ensures
            r is None <==> top_level_nodes(self@, source@) is None,
            r matches Some(v) ==> top_level_nodes(self@, source@) == Some(node_views(v@)),
    {
        let mut parser = tree_sitter::Parser::new();
        parser.set_language(&self.language).ok()?;
        let tree = parser.parse(source, None)?;
        let root = tree.root_node();
        let mut cursor = root.walk();
        Some(root.children(&mut cursor).map(|n| (n.kind().to_string(), n.start_byte())).collect())
    }
}

/// The start offsets of the nodes of `nodes` that are definitions in `lang`.
pub open spec fn def_starts(lang: Seq<char>, nodes: Seq<(Seq<char>, nat)>) -> Seq<nat>
    decreases nodes.len(),
{
    if nodes.len() == 0 {
        Seq::empty()
    } else {
        let p = def_starts(lang, nodes.drop_last());
        if sources(definition_kinds(lang)).contains(nodes.last().0) {
            p.push(nodes.last().1)
        } else {
            p
        }
    }
}

/// The spans of the first `n` definitions: each runs to the next
/// definition (the last to `len`), the first from offset 0 so that leading
/// imports and comments stay with it; empty spans are dropped.
pub open spec fn def_spans(starts: Seq<nat>, len: nat, n: int) -> Seq<(nat, nat)>
    decreases n,
{
    if n <= 0 {
        Seq::empty()
    } else {
        let p = def_spans(starts, len, n - 1);
        let i = n - 1;
        let end = if i + 1 < starts.len() {
            starts[i + 1]
        } else {
            len
        };
        let start = if i == 0 {
            0
        } else {
            starts[i]
        };
        if start < end {
            p.push((start, end))
        } else {
            p
        }
    }
}

/// The merged definition spans of a file of `len` bytes whose top-level
/// nodes are `nodes`; `None` without any.
pub open spec fn definition_spans(lang: Seq<char>, nodes: Seq<(Seq<char>, nat)>, len: nat) -> Option<
    Seq<(nat, nat)>,
> {
    let starts = def_starts(lang, nodes);
    let raw = def_spans(starts, len, starts.len() as int);
    if starts.len() == 0 || raw.len() == 0 {
        None
    } else {
        Some(merge_spans(raw, DESIRED_CHUNK_LENGTH_CHARS as nat))
    }
}

proof fn lemma_def_spans_ordered(starts: Seq<nat>, len: nat, n: int)
    ensures
        ordered_spans(def_spans(starts, len, n)),
    decreases n,
{
    if n > 0 {
        lemma_def_spans_ordered(starts, len, n - 1);
        let p = def_spans(starts, len, n - 1);
        let q = def_spans(starts, len, n);
        assert forall|k: int| 0 <= k < q.len() implies (#[trigger] q[k]).0 <= q[k].1 by {
            if k < p.len() {
                assert(q[k] == p[k]);
            }
        }
    }
}

/// Chunk spans from the top-level nodes of a parsed file of `source_len`
/// bytes: one per definition of `language`, merged up to the target length.
pub fn definition_boundaries(language: &str, nodes: &[(String, usize)], source_len: usize) -> (r:
    Option<Vec<ChunkBoundary>>)
    ensures
        r is None <==> definition_spans(language@, node_views(nodes@), source_len as nat) is None,
        r matches Some(v) ==> definition_spans(language@, node_views(nodes@), source_len as nat)
            == Some(bviews(v@)),
{
    let ghost nv = node_views(nodes@);
    let mut starts: Vec<usize> = Vec::new();
    let mut i: usize = 0;
    assert(nv.take(0) =~= Seq::<(Seq<char>, nat)>::empty());
    assert(starts@.map_values(|x: usize| x as nat) =~= Seq::<nat>::empty());
    while i < nodes.len()
        invariant
            i <= nodes@.len(),
            nv == node_views(nodes@),
            starts@.map_values(|x: usize| x as nat) == def_starts(language@, nv.take(i as int)),
        decreases nodes@.len() - i,
    {
        assert(nv.take(i + 1).drop_last() =~= nv.take(i as int));
        assert(nv.take(i + 1).last() == nv[i as int]);
        let node = &nodes[i];
        if is_definition_kind(language, node.0.as_str()) {
            let ghost before = starts@.map_values(|x: usize| x as nat);
            starts.push(node.1);
            assert(starts@.map_values(|x: usize| x as nat) =~= before.push(node.1 as nat));
        }
        i = i + 1;
    }
    assert(nv.take(i as int) =~= nv);
    let ghost sv = starts@.map_values(|x: usize| x as nat);
    assert(sv.len() == starts@.len());
    if starts.len() == 0 {
        return None;
    }
    let mut boundaries: Vec<ChunkBoundary> = Vec::new();
    let mut k: usize = 0;
    assert(bviews(boundaries@) =~= Seq::<(nat, nat)>::empty());
    while k < starts.len()
        invariant
            k <= starts@.len(),
            sv == starts@.map_values(|x: usize| x as nat),
            sv.len() == starts@.len(),
            bviews(boundaries@) == def_spans(sv, source_len as nat, k as int),
        decreases starts@.len() - k,
    {
        let end = if k + 1 < starts.len() {
            starts[k + 1]
        } else {
            source_len
        };
        let actual_start = if k == 0 {
            0
        } else {
            starts[k]
        };
        if actual_start < end {
            let ghost before = bviews(boundaries@);
            boundaries.push(ChunkBoundary { start: actual_start, end });
            assert(bviews(boundaries@) =~= before.push((actual_start as nat, end as nat)));
        }
        k = k + 1;
    }
    if boundaries.len() == 0 {
        return None;
    }
    proof {
        lemma_def_spans_ordered(sv, source_len as nat, sv.len() as int);
    }
    Some(merge_adjacent_chunks(&boundaries, DESIRED_CHUNK_LENGTH_CHARS))
}

/// Chunk spans at the definitions of a file in `language`, when its
/// grammar is known and the parse finds definitions.
pub open spec fn ts_spans(language: Seq<char>, source: Seq<char>) -> Option<Seq<(nat, nat)>> {
    match grammar_of(language) {
        None => None,
        Some(g) => match top_level_nodes(g, source) {
            None => None,
            Some(nodes) => definition_spans(language, nodes, encode_utf8(source).len()),
        },
    }
}

/// Chunk spans at the top-level definitions of `source`, parsed as `language`.
pub fn chunk_with_tree_sitter(source: &str, language: &str) -> (r: Option<Vec<ChunkBoundary>>)
    ensures
        r is None <==> ts_spans(language@, source@) is None,
        r matches Some(v) ==> ts_spans(language@, source@) == Some(bviews(v@)),
{
    let ts = match get_language(language) {
        Some(t) => t,
        None => return None,
    };
    let grammar = ts.grammar;
    let nodes = match ts.top_level_nodes(source) {
        Some(n) => n,
        None => return None,
    };
    let len = source.as_bytes().len();
    assert(len as nat == encode_utf8(source@).len());
    assert(top_level_nodes(grammar, source@) == Some(node_views(nodes@)));
    definition_boundaries(language, &nodes, len)
}

/// The tree-sitter language for a language name, if it has a grammar.
fn get_language(name: &str) -> (l: Option<TsLanguage>)
    ensures
        l matches Some(t) ==> grammar_of(name@) == Some(t@),
        l is None ==> grammar_of(name@) is None,
{
    match grammar_for(name) {
        Some(g) => Some(TsLanguage::new(g)),
        None => None,
    }
}

/// A piece of a source file, with the lines it spans (from 1).
#[derive(Debug, Clone, PartialEq, Eq)]
pub struct Chunk {
    pub content: String,
    pub file_path: String,
    pub start_line: usize,
    pub end_line: usize,
    pub language: Option<String>,
}

/// A chunk as text and numbers.
pub struct ChunkView {
    pub content: Seq<char>,
    pub file_path: Seq<char>,
    pub start_line: nat,
    pub end_line: nat,
    pub language: Option<Seq<char>>,
}

/// The text of an optional string.
pub open spec fn opt_string_view(o: Option<String>) -> Option<Seq<char>> {
    match o {
        Some(s) => Some(s@),
        None => None,
    }
}

impl View for Chunk {
    type V = ChunkView;

    open spec fn view(&self) -> ChunkView {
        ChunkView {
            content: self.content@,
            file_path: self.file_path@,
            start_line: self.start_line as nat,
            end_line: self.end_line as nat,
            language: opt_string_view(self.language),
        }
    }
}

impl Chunk {
    /// A chunk from its parts.
    pub fn new(
        content: String,
        file_path: String,
        start_line: usize,
        end_line: usize,
        language: Option<String>,
    ) -> (c: Chunk)
        ensures
            c@ == (ChunkView {
                content: content@,
                file_path: file_path@,
                start_line: start_line as nat,
                end_line: end_line as nat,
                language: opt_string_view(language),
            }),
    {
        Chunk { content, file_path, start_line, end_line, language }
    }
}

/// Number of line-feed bytes in `b`.
pub open spec fn newlines(b: Seq<u8>) -> nat
    decreases b.len(),
{
    if b.len() == 0 {
        0
    } else {
        newlines(b.drop_last()) + if b.last() == 10u8 {
            1nat
        } else {
            0nat
        }
    }
}

/// The line (from 1) that byte offset `k` of `b` lies on, kept within `usize`.
pub open spec fn line_at(b: Seq<u8>, k: nat) -> nat {
    let n = newlines(b.take(k as int));
    if n < usize::MAX {
        n + 1
    } else {
        n
    }
}

/// The spans that `source` is cut into: at definitions where `language`
/// has a grammar that finds some, else by lines.
pub open spec fn source_spans(source: Seq<char>, language: Option<Seq<char>>) -> Seq<(nat, nat)> {
    let ts = match language {
        Some(l) => ts_spans(l, source),
        None => None,
    };
    match ts {
        Some(b) => b,
        None => chunk_lines_spec(source, DESIRED_CHUNK_LENGTH_CHARS as nat),
    }
}

/// The chunk for span `g` of `source`, when both ends of the span fall on
/// character boundaries (the end raised to the start when below it).
pub open spec fn chunk_at(
    source: Seq<char>,
    file_path: Seq<char>,
    language: Option<Seq<char>>,
    g: (nat, nat),
) -> Option<ChunkView> {
    let b = encode_utf8(source);
    let end = if g.1 >= g.0 {
        g.1
    } else {
        g.0
    };
    if is_char_boundary(b, g.0 as int) && is_char_boundary(b, end as int) {
        Some(
            ChunkView {
                content: decode_utf8(b.subrange(g.0 as int, end as int)),
                file_path,
                start_line: line_at(b, g.0),
                end_line: if end > 0 {
                    line_at(b, end)
                } else {
                    1
                },
                language,
            },
        )
    } else {
        None
    }
}

/// The chunks for the spans `gs`, in order.
pub open spec fn chunks_at(
    source: Seq<char>,
    file_path: Seq<char>,
    language: Option<Seq<char>>,
    gs: Seq<(nat, nat)>,
) -> Seq<ChunkView>
    decreases gs.len(),
{
    if gs.len() == 0 {
        Seq::empty()
    } else {
        let p = chunks_at(source, file_path, language, gs.drop_last());
        match chunk_at(source, file_path, language, gs.last()) {
            Some(c) => p.push(c),
            None => p,
        }
    }
}

/// The chunks of a source file: none when it is blank; otherwise one per
/// span of `source_spans`.
pub open spec fn chunk_source_spec(
    source: Seq<char>,
    file_path: Seq<char>,
    language: Option<Seq<char>>,
) -> Seq<ChunkView> {
    if crate::text::trim(source).len() == 0 {
        Seq::empty()
    } else {
        chunks_at(source, file_path, language, source_spans(source, language))
    }
}

/// The chunks as views.
pub open spec fn chunk_views(v: Seq<Chunk>) -> Seq<ChunkView> {
    v.map_values(|c: Chunk| c@)
}

proof fn lemma_boundary_in_prefix(b: Seq<u8>, s: int, e: int)
    requires
        valid_utf8(b),
        is_char_boundary(b, s),
        is_char_boundary(b, e),
        s <= e,
    ensures
        0 <= s <= e <= b.len(),
        is_char_boundary(b.subrange(0, e), s),
{
    assert(0 <= s);
    assert(e <= b.len());
    valid_utf8_split(b, e);
    let p = b.subrange(0, e);
    if s == e {
        is_char_boundary_start_end_of_seq(p);
        assert(p.len() == e);
    } else {
        is_char_boundary_iff_not_is_continuation_byte(b, s);
        is_char_boundary_iff_not_is_continuation_byte(p, s);
        assert(p[s] == b[s]);
    }
}

/// Number of line-feed bytes among the first `k` of `b`.
fn count_newlines(b: &[u8], k: usize) -> (n: usize)
    requires
        k <= b@.len(),
    ensures
        n == newlines(b@.take(k as int)),
{
    let mut n: usize = 0;
    let mut i: usize = 0;
    assert(b@.take(0) =~= Seq::<u8>::empty());
    while i < k
        invariant
            i <= k <= b@.len(),
            n == newlines(b@.take(i as int)),
            n <= i,
        decreases k - i,
    {
        assert(b@.take(i + 1).drop_last() =~= b@.take(i as int));
        if b[i] == 10u8 {
            n = n + 1;
        }
        i = i + 1;
    }
    n
}

/// The line that byte offset `k` lies on.
fn line_number(b: &[u8], k: usize) -> (n: usize)
    requires
        k <= b@.len(),
    ensures
        n == line_at(b@, k as nat),
{
    let c = count_newlines(b, k);
    if c < usize::MAX {
        c + 1
    } else {
        c
    }
}

/// Splits a source file into chunks: at its top-level definitions when
/// `language` has a grammar, else by lines; spans are merged up to the
/// target length.
pub fn chunk_source(source: &str, file_path: &str, language: Option<&str>) -> (out: Vec<Chunk>)
    ensures
        chunk_views(out@) == chunk_source_spec(
            source@,
            file_path@,
            crate::filter::opt_text(language),
        ),
{
    let ghost lang = crate::filter::opt_text(language);
    let c = str_to_chars(source);
    let t = crate::text::trim_chars(&c);
    if t.len() == 0 {
        let v: Vec<Chunk> = Vec::new();
        assert(chunk_views(v@) =~= Seq::<ChunkView>::empty());
        return v;
    }
    let ts = match language {
        Some(l) => chunk_with_tree_sitter(source, l),
        None => None,
    };
    let boundaries = match ts {
        Some(b) => b,
        None => chunk_lines(source, DESIRED_CHUNK_LENGTH_CHARS),
    };
    let ghost gs = bviews(boundaries@);
    assert(gs == source_spans(source@, lang));
    let bytes = source.as_bytes();
    let ghost bs = bytes@;
    proof {
        encode_utf8_valid_utf8(source@);
    }
    let mut chunks: Vec<Chunk> = Vec::new();
    let mut i: usize = 0;
    assert(gs.take(0) =~= Seq::<(nat, nat)>::empty());
    assert(chunk_views(chunks@) =~= Seq::<ChunkView>::empty());
    while i < boundaries.len()
        invariant
            i <= boundaries@.len(),
            gs == bviews(boundaries@),
            bs == bytes@,
            bs == encode_utf8(source@),
            valid_utf8(bs),
            lang == crate::filter::opt_text(language),
            chunk_views(chunks@) == chunks_at(source@, file_path@, lang, gs.take(i as int)),
        decreases boundaries@.len() - i,
    {
        assert(gs.take(i + 1).drop_last() =~= gs.take(i as int));
        assert(gs.take(i + 1).last() == gs[i as int]);
        let boundary = &boundaries[i];
        let start = boundary.start;
        let end_index = if boundary.end >= start {
            boundary.end
        } else {
            start
        };
        if source.is_char_boundary(start) && source.is_char_boundary(end_index) {
            proof {
                lemma_boundary_in_prefix(bs, start as int, end_index as int);
            }
            let (head, _) = source.split_at(end_index);
            let (_, text) = head.split_at(start);
            proof {
                encode_utf8_decode_utf8(text@);
                assert(bs.subrange(0, end_index as int).subrange(start as int, end_index as int)
                    =~= bs.subrange(start as int, end_index as int));
            }
            let start_line = line_number(bytes, start);
            let end_line = if end_index > 0 {
                line_number(bytes, end_index)
            } else {
                1
            };
            let lang_owned = match language {
                Some(l) => Some(l.to_owned()),
                None => None,
            };
            let chunk = Chunk::new(
                text.to_owned(),
                file_path.to_owned(),
                start_line,
                end_line,
                lang_owned,
            );
            let ghost before = chunk_views(chunks@);
            chunks.push(chunk);
            assert(chunk_views(chunks@) =~= before.push(chunk@));
        }
        i = i + 1;
    }
    assert(gs.take(i as int) =~= gs);
    chunks
}

/// Span `i` ends where span `i + 1` starts.
pub open spec fn linked(gs: Seq<(nat, nat)>, i: int) -> bool {
    gs[i].1 == gs[i + 1].0
}

/// `gs` is a non-empty run of spans, each starting where the previous one
/// ends, from offset `a` to offset `z`.
pub open spec fn covers(gs: Seq<(nat, nat)>, a: nat, z: nat) -> bool {
    &&& gs.len() > 0
    &&& gs[0].0 == a
    &&& gs.last().1 == z
    &&& forall|i: int| 0 <= i < gs.len() - 1 ==> #[trigger] linked(gs, i)
}

proof fn lemma_merge_fold_cover(first: (nat, nat), rest: Seq<(nat, nat)>, desired: nat)
    requires
        rest.len() > 0 ==> first.1 == rest[0].0,
        forall|i: int| 0 <= i < rest.len() - 1 ==> #[trigger] linked(rest, i),
    ensures
        merge_fold(first, rest, desired).end == (if rest.len() == 0 {
            first.1
        } else {
            rest.last().1
        }),
        merge_fold(first, rest, desired).merged.len() == 0 ==> merge_fold(
            first,
            rest,
            desired,
        ).start == first.0,
        merge_fold(first, rest, desired).merged.len() > 0 ==> covers(
            merge_fold(first, rest, desired).merged,
            first.0,
            merge_fold(first, rest, desired).start,
        ),
        merge_fold(first, rest, desired).merged.len() <= rest.len(),
    decreases rest.len(),
{
    if rest.len() > 0 {
        let r = rest.drop_last();
        assert forall|i: int| 0 <= i < r.len() - 1 implies #[trigger] linked(r, i) by {
            assert(linked(rest, i));
        }
        lemma_merge_fold_cover(first, r, desired);
        let st = merge_fold(first, r, desired);
        let g = rest.last();
        if r.len() > 0 {
            assert(linked(rest, r.len() - 1));
        }
        assert(st.end == g.0);
        let m = st.merged.push((st.start, st.end));
        if st.length + span(g) > desired {
            assert forall|i: int| 0 <= i < m.len() - 1 implies #[trigger] linked(m, i) by {
                if i < st.merged.len() - 1 {
                    assert(linked(st.merged, i));
                }
            }
        }
    }
}

/// Merging keeps a run of adjacent spans a run over the same range, with
/// no more spans than before.
pub proof fn lemma_merge_keeps_cover(gs: Seq<(nat, nat)>, a: nat, z: nat, desired: nat)
    requires
        covers(gs, a, z),
    ensures
        covers(merge_spans(gs, desired), a, z),
        merge_spans(gs, desired).len() <= gs.len(),
{
    let rest = gs.drop_first();
    if rest.len() > 0 {
        assert(linked(gs, 0));
    }
    assert forall|i: int| 0 <= i < rest.len() - 1 implies #[trigger] linked(rest, i) by {
        assert(linked(gs, i + 1));
    }
    lemma_merge_fold_cover(gs[0], rest, desired);
    let st = merge_fold(gs[0], rest, desired);
    let m = st.merged.push((st.start, st.end));
    assert forall|i: int| 0 <= i < m.len() - 1 implies #[trigger] linked(m, i) by {
        if i < st.merged.len() - 1 {
            assert(linked(st.merged, i));
        }
    }
    if rest.len() > 0 {
        assert(rest.last() == gs.last());
    }
}

proof fn lemma_line_scan_cover(b: Seq<u8>)
    ensures
        line_scan(b).groups.len() == 0 ==> line_scan(b).start == 0,
        line_scan(b).groups.len() > 0 ==> covers(line_scan(b).groups, 0, line_scan(b).start),
        line_scan(b).start <= b.len(),
    decreases b.len(),
{
    if b.len() > 0 {
        lemma_line_scan_cover(b.drop_last());
        let p = line_scan(b.drop_last());
        if b.last() == 10u8 {
            let g = p.groups.push((p.start, b.len()));
            assert forall|i: int| 0 <= i < g.len() - 1 implies #[trigger] linked(g, i) by {
                if i < p.groups.len() - 1 {
                    assert(linked(p.groups, i));
                }
            }
        }
    }
}

/// The lines of a non-empty text, each with its line break, run from its
/// first byte to its last without gap or overlap.
pub proof fn lemma_line_groups_cover(b: Seq<u8>)
    requires
        b.len() > 0,
    ensures
        covers(line_groups(b), 0, b.len()),
{
    lemma_line_scan_cover(b);
    let s = line_scan(b);
    if s.start < b.len() {
        let g = s.groups.push((s.start, b.len()));
        assert forall|i: int| 0 <= i < g.len() - 1 implies #[trigger] linked(g, i) by {
            if i < s.groups.len() - 1 {
                assert(linked(s.groups, i));
            }
        }
    }
}

/// The line chunks of a text that is not blank cover all of its bytes,
/// in order, without gap or overlap.
pub proof fn lemma_chunk_lines_cover(text: Seq<char>, desired: nat)
    requires
        crate::text::trim(text).len() > 0,
    ensures
        covers(chunk_lines_spec(text, desired), 0, encode_utf8(text).len()),
{
    crate::text::lemma_trim_end_is_prefix(text);
    crate::text::lemma_trim_start_is_suffix(crate::text::trim_end(text));
    assert(text.len() > 0);
    assert(encode_utf8(text).len() > 0);
    lemma_line_groups_cover(encode_utf8(text));
    lemma_merge_keeps_cover(line_groups(encode_utf8(text)), 0, encode_utf8(text).len(), desired);
}

/// Offset `e` of `b` is the start, the end, or just after a line feed.
pub open spec fn line_endpoint(b: Seq<u8>, e: nat) -> bool {
    e == 0 || e == b.len() || (0 < e <= b.len() && b[e - 1] == 10u8)
}

/// Every span of `gs` is non-empty and both its ends satisfy `line_endpoint`.
pub open spec fn line_spans(b: Seq<u8>, gs: Seq<(nat, nat)>) -> bool {
    forall|i: int|
        0 <= i < gs.len() ==> (#[trigger] gs[i]).0 < gs[i].1 && line_endpoint(b, gs[i].0)
            && line_endpoint(b, gs[i].1) && gs[i].1 <= b.len()
}

/// Offset `e` of `b` is the start or just after a line feed.
pub open spec fn after_newline(b: Seq<u8>, e: nat) -> bool {
    e == 0 || (0 < e <= b.len() && b[e - 1] == 10u8)
}

proof fn lemma_line_scan_endpoints(b: Seq<u8>)
    ensures
        forall|i: int|
            0 <= i < line_scan(b).groups.len() ==> (#[trigger] line_scan(b).groups[i]).0
                < line_scan(b).groups[i].1 && after_newline(b, line_scan(b).groups[i].0)
                && after_newline(b, line_scan(b).groups[i].1),
        after_newline(b, line_scan(b).start),
    decreases b.len(),
{
    if b.len() > 0 {
        let c = b.drop_last();
        lemma_line_scan_endpoints(c);
        let p = line_scan(c);
        assert forall|e: nat| after_newline(c, e) implies after_newline(b, e) by {
            if e > 0 {
                assert(b[e - 1] == c[e - 1]);
            }
        }
        if b.last() == 10u8 {
            let g = p.groups.push((p.start, b.len()));
            assert forall|i: int| 0 <= i < g.len() implies (#[trigger] g[i]).0 < g[i].1
                && after_newline(b, g[i].0) && after_newline(b, g[i].1) by {
                if i < p.groups.len() {
                    assert(g[i] == p.groups[i]);
                    assert(after_newline(c, p.groups[i].0));
                    assert(after_newline(c, p.groups[i].1));
                } else {
                    lemma_line_scan_wf(c);
                    assert(after_newline(c, p.start));
                }
            }
        } else {
            assert forall|i: int| 0 <= i < p.groups.len() implies (#[trigger] p.groups[i]).0
                < p.groups[i].1 && after_newline(b, p.groups[i].0) && after_newline(
                b,
                p.groups[i].1,
            ) by {
                assert(after_newline(c, p.groups[i].0));
                assert(after_newline(c, p.groups[i].1));
            }
            assert(after_newline(c, p.start));
        }
    }
}

proof fn lemma_line_groups_endpoints(b: Seq<u8>)
    ensures
        line_spans(b, line_groups(b)),
{
    lemma_line_scan_endpoints(b);
    lemma_line_scan_wf(b);
    let s = line_scan(b);
    assert forall|i: int| 0 <= i < s.groups.len() implies (#[trigger] s.groups[i]).0
        < s.groups[i].1 && line_endpoint(b, s.groups[i].0) && line_endpoint(b, s.groups[i].1)
        && s.groups[i].1 <= b.len() by {
        assert(after_newline(b, s.groups[i].0));
        assert(after_newline(b, s.groups[i].1));
    }
    if s.start < b.len() {
        let g = s.groups.push((s.start, b.len()));
        assert forall|i: int| 0 <= i < g.len() implies (#[trigger] g[i]).0 < g[i].1
            && line_endpoint(b, g[i].0) && line_endpoint(b, g[i].1) && g[i].1 <= b.len() by {
            if i < s.groups.len() {
                assert(g[i] == s.groups[i]);
            }
        }
    }
}

/// Every span of `gs` is non-empty, ends by `len`, and both its ends
/// satisfy `ok`.
pub open spec fn spans_ok(ok: spec_fn(nat) -> bool, len: nat, gs: Seq<(nat, nat)>) -> bool {
    forall|i: int|
        0 <= i < gs.len() ==> (#[trigger] gs[i]).0 < gs[i].1 && ok(gs[i].0) && ok(gs[i].1)
            && gs[i].1 <= len
}

proof fn lemma_merge_fold_spans_ok(
    ok: spec_fn(nat) -> bool,
    len: nat,
    first: (nat, nat),
    rest: Seq<(nat, nat)>,
    desired: nat,
)
    requires
        spans_ok(ok, len, seq![first] + rest),
        rest.len() > 0 ==> first.1 == rest[0].0,
        forall|i: int| 0 <= i < rest.len() - 1 ==> #[trigger] linked(rest, i),
    ensures
        spans_ok(ok, len, merge_fold(first, rest, desired).merged),
        merge_fold(first, rest, desired).start < merge_fold(first, rest, desired).end,
        ok(merge_fold(first, rest, desired).start),
        ok(merge_fold(first, rest, desired).end),
        merge_fold(first, rest, desired).end <= len,
    decreases rest.len(),
{
    assert((seq![first] + rest)[0] == first);
    if rest.len() > 0 {
        let r = rest.drop_last();
        assert forall|i: int| 0 <= i < r.len() - 1 implies #[trigger] linked(r, i) by {
            assert(linked(rest, i));
        }
        let all = seq![first] + rest;
        assert forall|i: int| 0 <= i < (seq![first] + r).len() implies (#[trigger] (seq![first]
            + r)[i]).0 < (seq![first] + r)[i].1 && ok((seq![first] + r)[i].0)
            && ok((seq![first] + r)[i].1) && (seq![first] + r)[i].1 <= len by {
            assert((seq![first] + r)[i] == all[i]);
        }
        lemma_merge_fold_spans_ok(ok, len, first, r, desired);
        lemma_merge_fold_cover(first, r, desired);
        let st = merge_fold(first, r, desired);
        let g = rest.last();
        assert(all[all.len() - 1] == g);
        if r.len() > 0 {
            assert(linked(rest, r.len() - 1));
        }
        assert(st.end == g.0);
        if st.length + span(g) > desired {
            let m = st.merged.push((st.start, st.end));
            assert forall|i: int| 0 <= i < m.len() implies (#[trigger] m[i]).0 < m[i].1
                && ok(m[i].0) && ok(m[i].1) && m[i].1 <= len by {
                if i < st.merged.len() {
                    assert(m[i] == st.merged[i]);
                }
            }
        }
    } else {
        assert((seq![first] + rest)[0] == first);
    }
}

proof fn lemma_merge_spans_ok(
    ok: spec_fn(nat) -> bool,
    len: nat,
    gs: Seq<(nat, nat)>,
    a: nat,
    z: nat,
    desired: nat,
)
    requires
        covers(gs, a, z),
        spans_ok(ok, len, gs),
    ensures
        spans_ok(ok, len, merge_spans(gs, desired)),
{
    let rest = gs.drop_first();
    if rest.len() > 0 {
        assert(linked(gs, 0));
    }
    assert forall|i: int| 0 <= i < rest.len() - 1 implies #[trigger] linked(rest, i) by {
        assert(linked(gs, i + 1));
    }
    assert(seq![gs[0]] + rest =~= gs);
    lemma_merge_fold_spans_ok(ok, len, gs[0], rest, desired);
    let st = merge_fold(gs[0], rest, desired);
    let m = st.merged.push((st.start, st.end));
    assert forall|i: int| 0 <= i < m.len() implies (#[trigger] m[i]).0 < m[i].1 && ok(m[i].0)
        && ok(m[i].1) && m[i].1 <= len by {
        if i < st.merged.len() {
            assert(m[i] == st.merged[i]);
        }
    }
}

proof fn lemma_merge_endpoints(b: Seq<u8>, gs: Seq<(nat, nat)>, a: nat, z: nat, desired: nat)
    requires
        covers(gs, a, z),
        line_spans(b, gs),
    ensures
        line_spans(b, merge_spans(gs, desired)),
{
    let ok = |e: nat| line_endpoint(b, e);
    assert(spans_ok(ok, b.len(), gs));
    lemma_merge_spans_ok(ok, b.len(), gs, a, z, desired);
    let m = merge_spans(gs, desired);
    assert forall|i: int| 0 <= i < m.len() implies (#[trigger] m[i]).0 < m[i].1 && line_endpoint(
        b,
        m[i].0,
    ) && line_endpoint(b, m[i].1) && m[i].1 <= b.len() by {
        assert(ok(m[i].0) && ok(m[i].1));
    }
}

#[verifier::spinoff_prover]
proof fn lemma_ascii_not_followed_by_continuation(b: Seq<u8>, j: int)
    requires
        valid_utf8(b),
        0 <= j,
        j + 1 < b.len(),
        is_leading_byte_width_1(b[j]),
    ensures
        !is_continuation_byte(b[j + 1]),
    decreases b.len(),
{
    let l = length_of_first_scalar(b);
    let tail = pop_first_scalar(b);
    assert(tail.len() == b.len() - l);
    if j < l {
        if l == 1 {
            assert(tail[0] == b[1]);
            assert(tail.len() > 0);
            assert(valid_utf8(tail));
            assert(valid_first_scalar(tail)) by {
                reveal_with_fuel(valid_utf8, 2);
            }
        } else {
            if j == 0 {
                assert(!is_leading_byte_width_1(b[0]));
            } else {
                assert(is_continuation_byte(b[j]));
            }
        }
    } else {
        assert(tail[j - l] == b[j]);
        assert(tail[j - l + 1] == b[j + 1]);
        lemma_ascii_not_followed_by_continuation(tail, j - l);
    }
}

proof fn lemma_line_endpoint_is_boundary(b: Seq<u8>, e: nat)
    requires
        valid_utf8(b),
        line_endpoint(b, e),
        e <= b.len(),
    ensures
        is_char_boundary(b, e as int),
{
    if e == 0 {
    } else if e == b.len() {
        is_char_boundary_start_end_of_seq(b);
    } else {
        lemma_ascii_not_followed_by_continuation(b, e - 1);
        is_char_boundary_iff_not_is_continuation_byte(b, e as int);
    }
}

/// The contents of the chunks, one after the other.
pub open spec fn joined_contents(cs: Seq<ChunkView>) -> Seq<char>
    decreases cs.len(),
{
    if cs.len() == 0 {
        Seq::empty()
    } else {
        joined_contents(cs.drop_last()) + cs.last().content
    }
}

proof fn lemma_chunks_at_join(
    source: Seq<char>,
    file_path: Seq<char>,
    language: Option<Seq<char>>,
    gs: Seq<(nat, nat)>,
    k: int,
)
    requires
        covers(gs, 0, encode_utf8(source).len()),
        spans_ok(char_boundary_of(source), encode_utf8(source).len(), gs),
        1 <= k <= gs.len(),
    ensures
        chunks_at(source, file_path, language, gs.take(k)).len() == k,
        joined_contents(chunks_at(source, file_path, language, gs.take(k))) == decode_utf8(
            encode_utf8(source).subrange(0, gs[k - 1].1 as int),
        ),
    decreases k,
{
    let b = encode_utf8(source);
    encode_utf8_valid_utf8(source);
    let g = gs[k - 1];
    assert(g.0 < g.1 && char_boundary_of(source)(g.0) && char_boundary_of(source)(g.1) && g.1
        <= b.len());
    assert(gs.take(k).drop_last() =~= gs.take(k - 1));
    assert(gs.take(k).last() == g);
    let c = chunk_at(source, file_path, language, g);
    assert(c is Some);
    assert(c->0.content == decode_utf8(b.subrange(g.0 as int, g.1 as int)));
    let cs = chunks_at(source, file_path, language, gs.take(k));
    let ps = chunks_at(source, file_path, language, gs.take(k - 1));
    assert(cs == ps.push(c->0));
    assert(cs.drop_last() =~= ps);
    assert(joined_contents(cs) == joined_contents(ps) + c->0.content);
    if k == 1 {
        assert(gs.take(0) =~= Seq::<(nat, nat)>::empty());
        assert(g.0 == 0);
        assert(b.subrange(0, g.1 as int) =~= b.subrange(g.0 as int, g.1 as int));
        assert(joined_contents(Seq::<ChunkView>::empty()) == Seq::<char>::empty());
        assert(Seq::<char>::empty() + c->0.content =~= c->0.content);
    } else {
        lemma_chunks_at_join(source, file_path, language, gs, k - 1);
        assert(linked(gs, k - 2));
        let prev_end = gs[k - 2].1;
        assert(prev_end == g.0);
        let whole = b.subrange(0, g.1 as int);
        lemma_boundary_in_prefix(b, g.0 as int, g.1 as int);
        valid_utf8_split(b, g.1 as int);
        decode_utf8_split(whole, g.0 as int);
        assert(whole.subrange(0, g.0 as int) =~= b.subrange(0, g.0 as int));
        assert(whole.subrange(g.0 as int, whole.len() as int) =~= b.subrange(g.0 as int, g.1 as int));
    }
}

/// Offset `e` falls on a character boundary of the UTF-8 text of `source`.
pub open spec fn char_boundary_of(source: Seq<char>) -> spec_fn(nat) -> bool {
    |e: nat| is_char_boundary(encode_utf8(source), e as int)
}

/// Line spans end on character boundaries.
proof fn lemma_line_spans_on_boundaries(source: Seq<char>, gs: Seq<(nat, nat)>)
    requires
        line_spans(encode_utf8(source), gs),
    ensures
        spans_ok(char_boundary_of(source), encode_utf8(source).len(), gs),
{
    let b = encode_utf8(source);
    encode_utf8_valid_utf8(source);
    assert forall|i: int| 0 <= i < gs.len() implies (#[trigger] gs[i]).0 < gs[i].1
        && char_boundary_of(source)(gs[i].0) && char_boundary_of(source)(gs[i].1) && gs[i].1
        <= b.len() by {
        lemma_line_endpoint_is_boundary(b, gs[i].0);
        lemma_line_endpoint_is_boundary(b, gs[i].1);
    }
}

/// Spans that run from 0 to the end of `source` on character boundaries
/// cut it into chunks whose contents, put back together, are `source`.
proof fn lemma_chunks_at_rebuild(
    source: Seq<char>,
    file_path: Seq<char>,
    language: Option<Seq<char>>,
    gs: Seq<(nat, nat)>,
)
    requires
        covers(gs, 0, encode_utf8(source).len()),
        spans_ok(char_boundary_of(source), encode_utf8(source).len(), gs),
    ensures
        joined_contents(chunks_at(source, file_path, language, gs)) == source,
{
    let b = encode_utf8(source);
    lemma_chunks_at_join(source, file_path, language, gs, gs.len() as int);
    assert(gs.take(gs.len() as int) =~= gs);
    assert(b.subrange(0, b.len() as int) =~= b);
    encode_utf8_decode_utf8(source);
}

/// Split by lines (no language given), a source file that is not blank is
/// cut into chunks whose contents, put back together, are the file.
pub proof fn lemma_line_chunks_rebuild_source(source: Seq<char>, file_path: Seq<char>)
    requires
        crate::text::trim(source).len() > 0,
    ensures
        joined_contents(chunk_source_spec(source, file_path, None)) == source,
{
    lemma_line_chunks_rebuild(source, file_path, None);
}

proof fn lemma_line_chunks_rebuild(
    source: Seq<char>,
    file_path: Seq<char>,
    language: Option<Seq<char>>,
)
    requires
        crate::text::trim(source).len() > 0,
    ensures
        joined_contents(
            chunks_at(
                source,
                file_path,
                language,
                chunk_lines_spec(source, DESIRED_CHUNK_LENGTH_CHARS as nat),
            ),
        ) == source,
{
    let b = encode_utf8(source);
    let d = DESIRED_CHUNK_LENGTH_CHARS as nat;
    lemma_chunk_lines_cover(source, d);
    lemma_line_groups_cover(b);
    lemma_line_groups_endpoints(b);
    lemma_merge_endpoints(b, line_groups(b), 0, b.len(), d);
    let gs = chunk_lines_spec(source, d);
    lemma_line_spans_on_boundaries(source, gs);
    lemma_chunks_at_rebuild(source, file_path, language, gs);
}

proof fn lemma_chunks_at_each(
    source: Seq<char>,
    file_path: Seq<char>,
    language: Option<Seq<char>>,
    gs: Seq<(nat, nat)>,
)
    requires
        line_spans(encode_utf8(source), gs),
    ensures
        chunks_at(source, file_path, language, gs).len() == gs.len(),
        forall|i: int|
            0 <= i < gs.len() ==> chunk_at(source, file_path, language, #[trigger] gs[i]) == Some(
                chunks_at(source, file_path, language, gs)[i],
            ),
    decreases gs.len(),
{
    if gs.len() > 0 {
        let b = encode_utf8(source);
        encode_utf8_valid_utf8(source);
        let r = gs.drop_last();
        assert forall|i: int| 0 <= i < r.len() implies (#[trigger] r[i]).0 < r[i].1
            && line_endpoint(b, r[i].0) && line_endpoint(b, r[i].1) && r[i].1 <= b.len() by {
            assert(r[i] == gs[i]);
        }
        lemma_chunks_at_each(source, file_path, language, r);
        let g = gs.last();
        assert(g == gs[gs.len() - 1]);
        lemma_line_endpoint_is_boundary(b, g.0);
        lemma_line_endpoint_is_boundary(b, g.1);
        let cs = chunks_at(source, file_path, language, gs);
        assert forall|i: int| 0 <= i < gs.len() implies chunk_at(
            source,
            file_path,
            language,
            #[trigger] gs[i],
        ) == Some(cs[i]) by {
            if i < r.len() {
                assert(gs[i] == r[i]);
            }
        }
    }
}

/// Split by lines (no language given), a source file that is not blank
/// starts on line 1, and each chunk starts on the line where the one before
/// it ends.
pub proof fn lemma_line_chunks_continue(source: Seq<char>, file_path: Seq<char>)
    requires
        crate::text::trim(source).len() > 0,
    ensures
        chunk_source_spec(source, file_path, None).len() > 0,
        chunk_source_spec(source, file_path, None)[0].start_line == 1,
        forall|i: int|
            0 <= i < chunk_source_spec(source, file_path, None).len() - 1 ==> (#[trigger] chunk_source_spec(
                source,
                file_path,
                None,
            )[i + 1]).start_line == chunk_source_spec(source, file_path, None)[i].end_line,
{
    let b = encode_utf8(source);
    let d = DESIRED_CHUNK_LENGTH_CHARS as nat;
    lemma_chunk_lines_cover(source, d);
    lemma_line_groups_cover(b);
    lemma_line_groups_endpoints(b);
    lemma_merge_endpoints(b, line_groups(b), 0, b.len(), d);
    let gs = chunk_lines_spec(source, d);
    assert(source_spans(source, None) == gs);
    lemma_chunks_at_each(source, file_path, None, gs);
    let cs = chunk_source_spec(source, file_path, None);
    assert(cs == chunks_at(source, file_path, None, gs));
    assert(chunk_at(source, file_path, None, gs[0]) == Some(cs[0]));
    assert(b.take(0) =~= Seq::<u8>::empty());
    assert(newlines(Seq::<u8>::empty()) == 0);
    assert forall|i: int| 0 <= i < cs.len() - 1 implies (#[trigger] cs[i + 1]).start_line
        == cs[i].end_line by {
        assert(linked(gs, i));
        assert(chunk_at(source, file_path, None, gs[i]) == Some(cs[i]));
        assert(chunk_at(source, file_path, None, gs[i + 1]) == Some(cs[i + 1]));
        assert(gs[i].0 < gs[i].1);
    }
}

/// The offsets rise strictly and lie before `len`.
pub open spec fn rising_below(starts: Seq<nat>, len: nat) -> bool {
    &&& forall|i: int, j: int| 0 <= i < j < starts.len() ==> #[trigger] starts[i] < #[trigger] starts[j]
    &&& forall|i: int| 0 <= i < starts.len() ==> #[trigger] starts[i] < len
}

proof fn lemma_def_spans_cover(starts: Seq<nat>, len: nat, n: int)
    requires
        rising_below(starts, len),
        1 <= n <= starts.len(),
    ensures
        covers(
            def_spans(starts, len, n),
            0,
            if n < starts.len() {
                starts[n]
            } else {
                len
            },
        ),
    decreases n,
{
    let i = n - 1;
    let end = if i + 1 < starts.len() {
        starts[i + 1]
    } else {
        len
    };
    if n == 1 {
        if 1 < starts.len() {
            assert(starts[0] < starts[1]);
        }
        assert(def_spans(starts, len, 0) =~= Seq::<(nat, nat)>::empty());
        assert(def_spans(starts, len, 1) =~= seq![(0nat, end)]);
    } else {
        lemma_def_spans_cover(starts, len, n - 1);
        let p = def_spans(starts, len, n - 1);
        assert(starts[i] < end) by {
            if i + 1 < starts.len() {
                assert(starts[i] < starts[i + 1]);
            }
        }
        let q = p.push((starts[i], end));
        assert(def_spans(starts, len, n) == q);
        assert forall|k: int| 0 <= k < q.len() - 1 implies #[trigger] linked(q, k) by {
            if k < p.len() - 1 {
                assert(linked(p, k));
            }
        }
    }
}

/// When the definitions found rise strictly through the file, its chunks
/// at definitions cover all of its bytes, in order, without gap or overlap
/// (the first chunk keeps what comes before the first definition).
pub proof fn lemma_definition_spans_cover(
    lang: Seq<char>,
    nodes: Seq<(Seq<char>, nat)>,
    len: nat,
)
    requires
        def_starts(lang, nodes).len() > 0,
        rising_below(def_starts(lang, nodes), len),
    ensures
        definition_spans(lang, nodes, len) is Some,
        covers(definition_spans(lang, nodes, len)->0, 0, len),
{
    let starts = def_starts(lang, nodes);
    lemma_def_spans_cover(starts, len, starts.len() as int);
    let raw = def_spans(starts, len, starts.len() as int);
    lemma_merge_keeps_cover(raw, 0, len, DESIRED_CHUNK_LENGTH_CHARS as nat);
}

/// The definitions that the parse of `source` as `lang` finds rise strictly
/// through the file and start on character boundaries (nothing to ask when
/// there is no grammar or no parse).
pub open spec fn definitions_in_order(lang: Seq<char>, source: Seq<char>) -> bool {
    match grammar_of(lang) {
        None => true,
        Some(g) => match top_level_nodes(g, source) {
            None => true,
            Some(nodes) => {
                let starts = def_starts(lang, nodes);
                &&& rising_below(starts, encode_utf8(source).len())
                &&& forall|i: int|
                    0 <= i < starts.len() ==> #[trigger] char_boundary_of(source)(starts[i])
            },
        },
    }
}

proof fn lemma_def_spans_on_boundaries(source: Seq<char>, starts: Seq<nat>, n: int)
    requires
        n <= starts.len(),
        forall|i: int| 0 <= i < starts.len() ==> #[trigger] char_boundary_of(source)(starts[i]),
        forall|i: int| 0 <= i < starts.len() ==> #[trigger] starts[i] <= encode_utf8(source).len(),
    ensures
        spans_ok(
            char_boundary_of(source),
            encode_utf8(source).len(),
            def_spans(starts, encode_utf8(source).len(), n),
        ),
    decreases n,
{
    let b = encode_utf8(source);
    let len = b.len();
    if n > 0 {
        lemma_def_spans_on_boundaries(source, starts, n - 1);
        let p = def_spans(starts, len, n - 1);
        let q = def_spans(starts, len, n);
        let i = n - 1;
        encode_utf8_valid_utf8(source);
        is_char_boundary_start_end_of_seq(b);
        assert(char_boundary_of(source)(0));
        assert(char_boundary_of(source)(len));
        assert forall|k: int| 0 <= k < q.len() implies (#[trigger] q[k]).0 < q[k].1
            && char_boundary_of(source)(q[k].0) && char_boundary_of(source)(q[k].1) && q[k].1
            <= len by {
            if k < p.len() {
                assert(q[k] == p[k]);
            } else {
                if i + 1 < starts.len() {
                    assert(char_boundary_of(source)(starts[i + 1]));
                    assert(starts[i + 1] <= len);
                }
                if i > 0 {
                    assert(char_boundary_of(source)(starts[i]));
                }
            }
        }
    }
}

/// When the definitions found rise strictly through the file and start on
/// character boundaries, a source file that is not blank is cut, at its
/// definitions or else by lines, into chunks whose contents, put back
/// together, are the file.
pub proof fn lemma_source_chunks_rebuild_source(
    source: Seq<char>,
    file_path: Seq<char>,
    lang: Seq<char>,
)
    requires
        crate::text::trim(source).len() > 0,
        definitions_in_order(lang, source),
    ensures
        joined_contents(chunk_source_spec(source, file_path, Some(lang))) == source,
{
    let b = encode_utf8(source);
    let len = b.len();
    match ts_spans(lang, source) {
        None => {
            lemma_line_chunks_rebuild(source, file_path, Some(lang));
        },
        Some(gs) => {
            let g = grammar_of(lang)->0;
            let nodes = top_level_nodes(g, source)->0;
            let starts = def_starts(lang, nodes);
            let raw = def_spans(starts, len, starts.len() as int);
            assert(starts.len() > 0);
            lemma_def_spans_cover(starts, len, starts.len() as int);
            lemma_def_spans_on_boundaries(source, starts, starts.len() as int);
            assert forall|k: int| 0 <= k < starts.len() implies #[trigger] starts[k] <= len by {
                assert(starts[k] < len);
            }
            let d = DESIRED_CHUNK_LENGTH_CHARS as nat;
            lemma_merge_spans_ok(char_boundary_of(source), len, raw, 0, len, d);
            lemma_merge_keeps_cover(raw, 0, len, d);
            assert(gs == merge_spans(raw, d));
            lemma_chunks_at_rebuild(source, file_path, Some(lang), gs);
        },
    }
}

} // verus!
