use semble::filter::{drop_comment_lines, smart_strip, strip_comments};

#[test]
fn test_strip_line_comments() {
    let code = "// comment\nfn main() {\n    println!(\"hello\");\n}\n";
    let result = strip_comments(code, Some("rust"));
    assert!(!result.contains("// comment"));
    assert!(result.contains("fn main()"));
}

#[test]
fn test_keep_doc_comments() {
    let code = "/// Doc comment\nfn main() {}\n";
    let result = strip_comments(code, Some("rust"));
    assert!(result.contains("/// Doc comment"));
}

#[test]
fn test_strip_block_comments() {
    let code = "/* block */\nfn main() {}\n";
    let result = strip_comments(code, Some("rust"));
    assert!(!result.contains("block"));
    assert!(result.contains("fn main()"));
}

#[test]
fn test_strip_python_comments() {
    let code = "# comment\ndef main():\n    pass\n";
    let result = strip_comments(code, Some("python"));
    assert!(!result.contains("# comment"));
    assert!(result.contains("def main():"));
}

#[test]
fn test_collapse_blank_lines() {
    let code = "a\n\n\n\n\nb\n";
    let result = strip_comments(code, None);
    assert!(!result.contains("\n\n\n"));
}

#[test]
fn test_smart_strip_keeps_signatures() {
    let code =
        "// comment\nfn main() {\n    let x = 1;\n    let y = 2;\n    println!(x + y);\n}\n";
    let result = smart_strip(code, Some("rust"));
    assert!(result.contains("fn main()"));
    assert!(result.contains("[..."));
    assert!(!result.contains("let x"));
}

#[test]
fn test_smart_strip_keeps_imports() {
    let code = "use std::io;\nimport foo from 'bar';\nfn main() {\n    body();\n}\n";
    let result = smart_strip(code, Some("rust"));
    assert!(result.contains("use std::io;"));
    assert!(result.contains("import foo"));
    assert!(result.contains("fn main()"));
}

#[test]
fn strip_comments_exact_output() {
    let code = "// a\nfn f() {}\n\n\n\n/* b\n c */\nlet y = 1; // tail\n";
    assert_eq!(strip_comments(code, Some("rust")), "fn f() {}\n\nlet y = 1; // tail");
}

#[test]
fn drop_comment_lines_keeps_blank_lines_as_breaks() {
    assert_eq!(drop_comment_lines("a\n   \n# c\nb", Some("bash")), "a\n\nb\n");
}

#[test]
fn smart_strip_notes_folded_line_count() {
    let code = "fn main() {\n    a();\n    b();\n    c();\n}\n";
    assert_eq!(
        smart_strip(code, Some("rust")),
        "fn main() {\n    [... 1 lines]\n    b();\n    c();\n}"
    );
}

#[test]
fn hash_languages_keep_slash_comments() {
    let code = "// not a comment here\nx = 1\n";
    assert_eq!(strip_comments(code, Some("ruby")), "// not a comment here\nx = 1");
}

#[test]
fn stripped_code_is_trimmed() {
    let out = strip_comments("\n\n   x = 1   \n\n", Some("python"));
    assert_eq!(out, out.trim());
    assert_eq!(out, "x = 1");
}
