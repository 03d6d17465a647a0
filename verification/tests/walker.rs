use semble::stats::BucketStats;
use semble::walker::{
    default_ignored_dirs, file_types, filter_extensions, language_for_extension,
    language_for_path, FileCategory,
};

#[test]
fn languages_come_from_extensions_in_any_case() {
    assert_eq!(language_for_path("src/Main.RS"), Some("rust"));
    assert_eq!(language_for_path("docs/a.md"), Some("markdown"));
    assert_eq!(language_for_path("Makefile"), None);
    assert_eq!(language_for_path("archive.tar.gz"), None);
    assert_eq!(language_for_extension("PY"), Some("python"));
    assert_eq!(language_for_extension("kts"), Some("kotlin"));
}

#[test]
fn extension_table_has_code_and_documents() {
    let t = file_types();
    assert_eq!(t.len(), 34);
    assert_eq!(t[0].0, ".py");
    assert_eq!(t[0].1.language, "python");
    assert_eq!(t[33].1.category, FileCategory::Document);
}

#[test]
fn filtered_extensions_follow_the_table() {
    let code = filter_extensions(None, false);
    assert_eq!(code.len(), 29);
    assert!(code.contains(&".rs".to_string()));
    assert!(!code.contains(&".md".to_string()));
    let all = filter_extensions(None, true);
    assert_eq!(all.len(), 34);
    let given = vec![".x".to_string()];
    assert_eq!(filter_extensions(Some(&given), true), given);
}

#[test]
fn ignored_directories_are_listed_once() {
    let dirs = default_ignored_dirs();
    assert_eq!(dirs.len(), 17);
    assert!(dirs.contains(&".git".to_string()));
    assert!(dirs.contains(&"node_modules".to_string()));
}

#[test]
fn bucket_counts_saved_characters() {
    let mut b = BucketStats::default();
    b.add(10, 100);
    b.add(50, 20);
    assert_eq!(b.calls, 2);
    assert_eq!(b.snippet_chars, 60);
    assert_eq!(b.file_chars, 120);
    assert_eq!(b.saved_chars, 90);
}

#[test]
fn bare_file_names_follow_the_last_dot() {
    assert_eq!(language_for_path("lib.rs"), Some("rust"));
    assert_eq!(language_for_path("notes.old.py"), Some("python"));
    assert_eq!(language_for_path(".rs"), None);
    assert_eq!(language_for_path("README"), None);
    assert_eq!(language_for_path("trailing."), None);
}

#[test]
fn language_comes_from_the_last_path_component() {
    assert_eq!(language_for_path("src/Main.RS"), Some("rust"));
    assert_eq!(language_for_path("a/b.tsx"), Some("typescript"));
    assert_eq!(language_for_path("x.h"), Some("c"));
    assert_eq!(language_for_path("x.JSON"), Some("json"));
    assert_eq!(language_for_path("Makefile"), None);
    assert_eq!(language_for_path("x.xyz"), None);
    assert_eq!(language_for_path("src.rs/Makefile"), None);
    assert_eq!(language_for_path("lib/a.py/."), Some("python"));
    assert_eq!(language_for_path("a.rs/.."), None);
}

#[test]
fn given_extensions_are_kept_once_each() {
    let given = vec![".rs".to_string(), ".py".to_string(), ".rs".to_string()];
    assert_eq!(filter_extensions(Some(&given), false), vec![".rs".to_string(), ".py".to_string()]);
}
