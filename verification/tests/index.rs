use semble::chunking::Chunk;
use semble::index::{build_mappings, selector_for};
use semble::search::truncate_line;

fn chunk(path: &str, lang: Option<&str>) -> Chunk {
    Chunk::new(String::new(), path.to_string(), 1, 1, lang.map(|l| l.to_string()))
}

#[test]
fn mappings_group_chunks_by_file_and_language() {
    let chunks = vec![
        chunk("a.rs", Some("rust")),
        chunk("b.py", Some("python")),
        chunk("a.rs", Some("rust")),
        chunk("notes.txt", None),
    ];
    let (files, langs) = build_mappings(&chunks);
    assert_eq!(
        files,
        vec![
            ("a.rs".to_string(), vec![0, 2]),
            ("b.py".to_string(), vec![1]),
            ("notes.txt".to_string(), vec![3]),
        ]
    );
    assert_eq!(
        langs,
        vec![("rust".to_string(), vec![0, 2]), ("python".to_string(), vec![1])]
    );
}

#[test]
fn selector_merges_sorted_and_unique() {
    let chunks = vec![
        chunk("a.rs", Some("rust")),
        chunk("b.py", Some("python")),
        chunk("a.rs", Some("rust")),
        chunk("c.py", Some("python")),
    ];
    let (files, langs) = build_mappings(&chunks);
    let l = vec!["python".to_string()];
    let p = vec!["a.rs".to_string(), "c.py".to_string()];
    assert_eq!(selector_for(&files, &langs, Some(&l), Some(&p)), Some(vec![0, 1, 2, 3]));
    assert_eq!(selector_for(&files, &langs, Some(&l), None), Some(vec![1, 3]));
    let none = vec!["go".to_string()];
    assert_eq!(selector_for(&files, &langs, Some(&none), None), None);
    assert_eq!(selector_for(&files, &langs, None, None), None);
}

#[test]
fn long_lines_are_cut_with_dots() {
    assert_eq!(truncate_line("   short  ", 10), "short");
    assert_eq!(truncate_line("abcdefghij", 8), "abcde...");
    assert_eq!(truncate_line("éééé", 4), "é...");
}
