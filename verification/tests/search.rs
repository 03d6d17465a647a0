use semble::chunking::Chunk;
use semble::search::{find_match_lines, selector_to_mask};

#[test]
fn selector_mask_flags_listed_indices() {
    let mask = selector_to_mask(Some(&[1, 3, 7]), 5).unwrap();
    assert_eq!(mask, vec![false, true, false, true, false]);
    assert!(selector_to_mask(None, 5).is_none());
    assert_eq!(selector_to_mask(Some(&[]), 2).unwrap(), vec![false, false]);
}

#[test]
fn match_lines_report_file_line_numbers() {
    let c = Chunk::new(
        "fn a() {\n    Parse(x);\n}\n".to_string(),
        "a.rs".to_string(),
        10,
        12,
        None,
    );
    let m = find_match_lines(&c, "parse");
    assert_eq!(m.len(), 1);
    assert_eq!(m[0].line, 11);
    assert_eq!(m[0].content, "Parse(x);");
}

#[test]
fn one_letter_queries_match_nothing() {
    let c = Chunk::new("a\nb\n".to_string(), "a.txt".to_string(), 1, 3, None);
    assert!(find_match_lines(&c, "a").is_empty());
    assert!(find_match_lines(&c, "   ").is_empty());
}
