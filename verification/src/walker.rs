//! Which files are indexed: extensions, languages and skipped directories.
use vstd::prelude::*;

use crate::pattern::{lowercase, to_lowercase};
use crate::text::{contains, dedup, dedup_strings, rfind, split_on, str_to_chars};

verus! {

/// Whether a file holds code or prose.
#[derive(Debug, Clone, Copy, PartialEq, Eq, Hash, Structural)]
pub enum FileCategory {
    Code,
    Document,
}

/// The language and category of a file extension.
#[derive(Debug, Clone)]
pub struct FileType {
    pub language: &'static str,
    pub category: FileCategory,
}

/// The known extensions, each with its language and category, in order.
pub open spec fn file_type_table() -> Seq<(Seq<char>, Seq<char>, FileCategory)> {
    seq![
        (".py"@, "python"@, FileCategory::Code),
        (".js"@, "javascript"@, FileCategory::Code),
        (".jsx"@, "javascript"@, FileCategory::Code),
        (".ts"@, "typescript"@, FileCategory::Code),
        (".tsx"@, "typescript"@, FileCategory::Code),
        (".go"@, "go"@, FileCategory::Code),
        (".rs"@, "rust"@, FileCategory::Code),
        (".java"@, "java"@, FileCategory::Code),
        (".kt"@, "kotlin"@, FileCategory::Code),
        (".kts"@, "kotlin"@, FileCategory::Code),
        (".rb"@, "ruby"@, FileCategory::Code),
        (".php"@, "php"@, FileCategory::Code),
        (".c"@, "c"@, FileCategory::Code),
        (".h"@, "c"@, FileCategory::Code),
        (".cpp"@, "cpp"@, FileCategory::Code),
        (".hpp"@, "cpp"@, FileCategory::Code),
        (".cs"@, "csharp"@, FileCategory::Code),
        (".swift"@, "swift"@, FileCategory::Code),
        (".scala"@, "scala"@, FileCategory::Code),
        (".sbt"@, "scala"@, FileCategory::Code),
        (".ex"@, "elixir"@, FileCategory::Code),
        (".exs"@, "elixir"@, FileCategory::Code),
        (".dart"@, "dart"@, FileCategory::Code),
        (".lua"@, "lua"@, FileCategory::Code),
        (".sql"@, "sql"@, FileCategory::Code),
        (".sh"@, "bash"@, FileCategory::Code),
        (".bash"@, "bash"@, FileCategory::Code),
        (".zig"@, "zig"@, FileCategory::Code),
        (".hs"@, "haskell"@, FileCategory::Code),
        (".md"@, "markdown"@, FileCategory::Document),
        (".yaml"@, "yaml"@, FileCategory::Document),
        (".yml"@, "yaml"@, FileCategory::Document),
        (".toml"@, "toml"@, FileCategory::Document),
        (".json"@, "json"@, FileCategory::Document)
    ]
}

/// An entry of the extension table, as text.
pub open spec fn entry_view(e: (&'static str, FileType)) -> (Seq<char>, Seq<char>, FileCategory) {
    (e.0@, e.1.language@, e.1.category)
}

/// The table of known extensions (with the leading dot), languages and categories.
pub fn file_types() -> (v: Vec<(&'static str, FileType)>)
    ensures
        v@.map_values(|e: (&'static str, FileType)| entry_view(e)) == file_type_table(),
{
    let mut v: Vec<(&'static str, FileType)> = Vec::new();
    v.push((".py", FileType { language: "python", category: FileCategory::Code }));
    v.push((".js", FileType { language: "javascript", category: FileCategory::Code }));
    v.push((".jsx", FileType { language: "javascript", category: FileCategory::Code }));
    v.push((".ts", FileType { language: "typescript", category: FileCategory::Code }));
    v.push((".tsx", FileType { language: "typescript", category: FileCategory::Code }));
    v.push((".go", FileType { language: "go", category: FileCategory::Code }));
    v.push((".rs", FileType { language: "rust", category: FileCategory::Code }));
    v.push((".java", FileType { language: "java", category: FileCategory::Code }));
    v.push((".kt", FileType { language: "kotlin", category: FileCategory::Code }));
    v.push((".kts", FileType { language: "kotlin", category: FileCategory::Code }));
    v.push((".rb", FileType { language: "ruby", category: FileCategory::Code }));
    v.push((".php", FileType { language: "php", category: FileCategory::Code }));
    v.push((".c", FileType { language: "c", category: FileCategory::Code }));
    v.push((".h", FileType { language: "c", category: FileCategory::Code }));
    v.push((".cpp", FileType { language: "cpp", category: FileCategory::Code }));
    v.push((".hpp", FileType { language: "cpp", category: FileCategory::Code }));
    v.push((".cs", FileType { language: "csharp", category: FileCategory::Code }));
    v.push((".swift", FileType { language: "swift", category: FileCategory::Code }));
    v.push((".scala", FileType { language: "scala", category: FileCategory::Code }));
    v.push((".sbt", FileType { language: "scala", category: FileCategory::Code }));
    v.push((".ex", FileType { language: "elixir", category: FileCategory::Code }));
    v.push((".exs", FileType { language: "elixir", category: FileCategory::Code }));
    v.push((".dart", FileType { language: "dart", category: FileCategory::Code }));
    v.push((".lua", FileType { language: "lua", category: FileCategory::Code }));
    v.push((".sql", FileType { language: "sql", category: FileCategory::Code }));
    v.push((".sh", FileType { language: "bash", category: FileCategory::Code }));
    v.push((".bash", FileType { language: "bash", category: FileCategory::Code }));
    v.push((".zig", FileType { language: "zig", category: FileCategory::Code }));
    v.push((".hs", FileType { language: "haskell", category: FileCategory::Code }));
    v.push((".md", FileType { language: "markdown", category: FileCategory::Document }));
    v.push((".yaml", FileType { language: "yaml", category: FileCategory::Document }));
    v.push((".yml", FileType { language: "yaml", category: FileCategory::Document }));
    v.push((".toml", FileType { language: "toml", category: FileCategory::Document }));
    v.push((".json", FileType { language: "json", category: FileCategory::Document }));
    assert(v@.map_values(|e: (&'static str, FileType)| entry_view(e)) =~= file_type_table());
    v
}

/// The language of the first table entry whose extension is `dot_ext`.
pub open spec fn language_of(tab: Seq<(Seq<char>, Seq<char>, FileCategory)>, dot_ext: Seq<char>) -> Option<Seq<char>>
    decreases tab.len(),
{
    if tab.len() == 0 {
        None
    } else if tab[0].0 == dot_ext {
        Some(tab[0].1)
    } else {
        language_of(tab.drop_first(), dot_ext)
    }
}

/// The language of a file extension (without its dot), in any case.
pub open spec fn language_for_extension_spec(ext: Seq<char>) -> Option<Seq<char>> {
    language_of(file_type_table(), seq!['.'] + lowercase(ext))
}

/// The language of a file extension given without its dot, in any letter case.
pub fn language_for_extension(ext: &str) -> (r: Option<&'static str>)
    ensures
        r matches Some(l) ==> language_for_extension_spec(ext@) == Some(l@),
        r is None ==> language_for_extension_spec(ext@) is None,
{
    let lower = to_lowercase(ext);
    let mut dot: Vec<char> = Vec::new();
    dot.push('.');
    let lc = str_to_chars(lower.as_str());
    crate::text::append(&mut dot, &lc);
    let ghost key = seq!['.'] + lowercase(ext@);
    assert(dot@ =~= key);
    let tab = file_types();
    let ghost tv = tab@.map_values(|e: (&'static str, FileType)| entry_view(e));
    let mut i: usize = 0;
    assert(tv.skip(0) =~= tv);
    while i < tab.len()
        invariant
            i <= tab@.len(),
            tv == tab@.map_values(|e: (&'static str, FileType)| entry_view(e)),
            tv == file_type_table(),
            dot@ == key,
            key == seq!['.'] + lowercase(ext@),
            language_of(tv.skip(i as int), key) == language_of(file_type_table(), key),
        decreases tab@.len() - i,
    {
        assert(tv.skip(i as int).drop_first() =~= tv.skip(i + 1));
        assert(tv.skip(i as int)[0] == entry_view(tab@[i as int]));
        let entry = &tab[i];
        let e: &str = entry.0;
        if crate::text::eq_str(&dot, e) {
            assert(tv.skip(i as int).len() > 0);
            assert(tv.skip(i as int)[0].0 == key);
            assert(language_of(tv.skip(i as int), key) == Some(entry.1.language@));
            return Some(entry.1.language);
        }
        i = i + 1;
    }
    None
}

/// A path whose only separator is `/` on every platform: it holds no `\\`
/// and no drive or verbatim prefix (`:`).
pub open spec fn slash_path(path: Seq<char>) -> bool {
    !path.contains('\\') && !path.contains(':')
}

/// The components of a `/`-separated path that name something: not empty,
/// and not `.` (which paths normalize away).
pub open spec fn named_components(path: Seq<char>) -> Seq<Seq<char>> {
    split_on(path, '/').filter(|c: Seq<char>| c.len() > 0 && c != "."@)
}

/// The file name of a `/`-separated path: its last named component, unless
/// there is none or it is `..`.
pub open spec fn path_file_name(path: Seq<char>) -> Option<Seq<char>> {
    let cs = named_components(path);
    if cs.len() == 0 || cs.last() == ".."@ {
        None
    } else {
        Some(cs.last())
    }
}

/// The extension of a `/`-separated path: that of its file name.
pub open spec fn path_extension_of(path: Seq<char>) -> Option<Seq<char>> {
    match path_file_name(path) {
        Some(n) => name_extension(n),
        None => None,
    }
}

/// The extension of a file name: what follows its last `.`, unless there is
/// no `.` or the only one starts the name.
pub open spec fn name_extension(name: Seq<char>) -> Option<Seq<char>> {
    match rfind(name, seq!['.']) {
        Some(k) => if k > 0 {
            Some(name.subrange(k + 1, name.len() as int))
        } else {
            None
        },
        None => None,
    }
}

/// `Path::extension` of `path`, as text when it is valid UTF-8.
///
/// Trusted: calls `std::path::Path::extension` and `OsStr::to_str`. For a
/// path that uses only `/` as separator the contract states the documented
/// rule: the file name is the last normal component (trailing `/` and `.`
/// components do not count; none when the path ends in `..`), and its
/// extension follows its last `.` unless that `.` starts the name. A path
/// with `\\` or `:` is split differently by platform; there the contract
/// states only that the extension follows a `.` in `path`.
#[verifier::external_body]
fn path_extension(path: &str) -> (r: Option<String>)
    ensures
        r matches Some(e) ==> contains(path@, seq!['.'] + e@),
        slash_path(path@) ==> (r is Some <==> path_extension_of(path@) is Some),
        slash_path(path@) ==> (r matches Some(e) ==> path_extension_of(path@) == Some(e@)),
{
    std::path::Path::new(path).extension().and_then(|e| e.to_str()).map(|e| e.to_string())
}

/// The stem of a file name: what comes before its last `.`, or the whole
/// name when there is no `.` or the only one starts the name.
pub open spec fn name_stem(name: Seq<char>) -> Seq<char> {
    match rfind(name, seq!['.']) {
        Some(k) => if k > 0 {
            name.take(k)
        } else {
            name
        },
        None => name,
    }
}

/// The stem of the file name of a `/`-separated path.
pub open spec fn path_stem_of(path: Seq<char>) -> Option<Seq<char>> {
    match path_file_name(path) {
        Some(n) => Some(name_stem(n)),
        None => None,
    }
}

/// The file name of the parent of a `/`-separated path: its named
/// component before the last, unless there is none or it is `..`.
pub open spec fn parent_name_of(path: Seq<char>) -> Option<Seq<char>> {
    let cs = named_components(path);
    if cs.len() < 2 || cs[cs.len() - 2] == ".."@ {
        None
    } else {
        Some(cs[cs.len() - 2])
    }
}

/// `Path::file_stem` of `path`, as text when it is valid UTF-8.
///
/// Trusted: calls `std::path::Path::file_stem` and `OsStr::to_str`. For a
/// path that uses only `/` as separator the contract states the documented
/// rule: the stem of the file name (as `path_extension` finds it) is what
/// comes before its last `.`, or the whole name when there is no `.` or the
/// only one starts it. A path with `\\` or `:` is split differently by
/// platform; there the contract states nothing.
#[verifier::external_body]
pub(crate) fn path_file_stem(path: &str) -> (r: Option<String>)
    ensures
        slash_path(path@) ==> (r is Some <==> path_stem_of(path@) is Some),
        slash_path(path@) ==> (r matches Some(s) ==> path_stem_of(path@) == Some(s@)),
{
    std::path::Path::new(path).file_stem().and_then(|s| s.to_str()).map(|s| s.to_string())
}

/// `Path::parent` of `path`, then `Path::file_name` of that, as text.
///
/// Trusted: calls `std::path::Path::parent`, `Path::file_name` and
/// `OsStr::to_str`. For a path that uses only `/` as separator the contract
/// states the documented rule: the parent is the path without its last
/// component, and its file name is its last component when that is a normal
/// one (not `..`, not `.` or the root). A path with `\\` or `:` is split
/// differently by platform; there the contract states nothing.
#[verifier::external_body]
pub(crate) fn path_parent_name(path: &str) -> (r: Option<String>)
    ensures
        slash_path(path@) ==> (r is Some <==> parent_name_of(path@) is Some),
        slash_path(path@) ==> (r matches Some(s) ==> parent_name_of(path@) == Some(s@)),
{
    std::path::Path::new(path).parent().and_then(|p| p.file_name()).and_then(|n| n.to_str()).map(
        |n| n.to_string(),
    )
}

/// The language of the file at `path`, by the extension of its file name.
pub fn language_for_path(path: &str) -> (r: Option<&'static str>)
    ensures
        r matches Some(l) ==> exists|e: Seq<char>|
            contains(path@, seq!['.'] + e) && #[trigger] language_for_extension_spec(e) == Some(l@),
        slash_path(path@) ==> (r is Some <==> (path_extension_of(path@) matches Some(e)
            && language_for_extension_spec(e) is Some)),
        slash_path(path@) ==> (r matches Some(l) ==> language_for_extension_spec(
            path_extension_of(path@)->0,
        ) == Some(l@)),
{
    match path_extension(path) {
        Some(ext) => {
            let r = language_for_extension(ext.as_str());
            proof {
                if r is Some {
                    assert(language_for_extension_spec(ext@) == Some(r->0@));
                }
            }
            r
        },
        None => None,
    }
}

/// The directories never indexed.
pub open spec fn ignored_dir_names() -> Seq<Seq<char>> {
    seq![
        ".git"@,
        ".hg"@,
        ".svn"@,
        "__pycache__"@,
        "node_modules"@,
        ".venv"@,
        "venv"@,
        ".tox"@,
        ".mypy_cache"@,
        ".pytest_cache"@,
        ".ruff_cache"@,
        ".cache"@,
        ".semble"@,
        ".next"@,
        "dist"@,
        "build"@,
        ".eggs"@
    ]
}

/// The names of the directories that are never indexed, each once.
pub fn default_ignored_dirs() -> (v: Vec<String>)
    ensures
        v@.map_values(|s: String| s@) == ignored_dir_names(),
{
    let mut v: Vec<String> = Vec::new();
    v.push(".git".to_string());
    v.push(".hg".to_string());
    v.push(".svn".to_string());
    v.push("__pycache__".to_string());
    v.push("node_modules".to_string());
    v.push(".venv".to_string());
    v.push("venv".to_string());
    v.push(".tox".to_string());
    v.push(".mypy_cache".to_string());
    v.push(".pytest_cache".to_string());
    v.push(".ruff_cache".to_string());
    v.push(".cache".to_string());
    v.push(".semble".to_string());
    v.push(".next".to_string());
    v.push("dist".to_string());
    v.push("build".to_string());
    v.push(".eggs".to_string());
    assert(v@.map_values(|s: String| s@) =~= ignored_dir_names());
    v
}

/// The extensions of the table entries of category `Code`, and of
/// category `Document` too when `include_docs`, in table order.
pub open spec fn extensions_of(
    tab: Seq<(Seq<char>, Seq<char>, FileCategory)>,
    include_docs: bool,
) -> Seq<Seq<char>>
    decreases tab.len(),
{
    if tab.len() == 0 {
        Seq::empty()
    } else {
        let p = extensions_of(tab.drop_last(), include_docs);
        if tab.last().2 == FileCategory::Code || include_docs {
            p.push(tab.last().0)
        } else {
            p
        }
    }
}

/// The extensions to index: `extensions` when given (each once), else
/// those of code files, with those of text documents when
/// `include_text_files`.
pub fn filter_extensions(extensions: Option<&Vec<String>>, include_text_files: bool) -> (v: Vec<
    String,
>)
    ensures
        extensions matches Some(e) ==> v@.map_values(|s: String| s@) == dedup(
            e@.map_values(|s: String| s@),
        ),
        extensions is Some ==> v@.map_values(|s: String| s@).no_duplicates(),
        extensions is None ==> v@.map_values(|s: String| s@) == extensions_of(
            file_type_table(),
            include_text_files,
        ),
{
    if let Some(ext) = extensions {
        proof {
            crate::text::lemma_dedup(ext@.map_values(|s: String| s@));
        }
        return dedup_strings(ext);
    }
    let tab = file_types();
    let ghost tv = tab@.map_values(|e: (&'static str, FileType)| entry_view(e));
    let mut v: Vec<String> = Vec::new();
    let mut i: usize = 0;
    assert(tv.take(0) =~= Seq::<(Seq<char>, Seq<char>, FileCategory)>::empty());
    assert(v@.map_values(|s: String| s@) =~= Seq::<Seq<char>>::empty());
    while i < tab.len()
        invariant
            i <= tab@.len(),
            tv == tab@.map_values(|e: (&'static str, FileType)| entry_view(e)),
            tv == file_type_table(),
            v@.map_values(|s: String| s@) == extensions_of(tv.take(i as int), include_text_files),
        decreases tab@.len() - i,
    {
        assert(tv.take(i + 1).drop_last() =~= tv.take(i as int));
        assert(tv.take(i + 1).last() == entry_view(tab@[i as int]));
        let entry = &tab[i];
        let is_code = match entry.1.category {
            FileCategory::Code => true,
            FileCategory::Document => false,
        };
        if is_code || include_text_files {
            let ghost before = v@.map_values(|s: String| s@);
            let e: &str = entry.0;
            v.push(e.to_string());
            assert(v@.map_values(|s: String| s@) =~= before.push(entry.0@));
        }
        i = i + 1;
    }
    assert(tv.take(i as int) =~= tv);
    v
}

/// Every extension indexed by default is also indexed with text files.
pub proof fn lemma_code_extensions_within_all(
    tab: Seq<(Seq<char>, Seq<char>, FileCategory)>,
    e: Seq<char>,
)
    requires
        extensions_of(tab, false).contains(e),
    ensures
        extensions_of(tab, true).contains(e),
    decreases tab.len(),
{
    if tab.len() > 0 {
        let p = extensions_of(tab.drop_last(), false);
        let q = extensions_of(tab.drop_last(), true);
        if p.contains(e) {
            lemma_code_extensions_within_all(tab.drop_last(), e);
            let k = choose|k: int| 0 <= k < q.len() && q[k] == e;
            assert(extensions_of(tab, true)[k] == e);
        } else {
            assert(extensions_of(tab, true).last() == e);
        }
    }
}

} // verus!
