use semble::outline::{extract_signature, extract_signature_near, is_well_formed};

#[test]
fn rust_fn_signature() {
    let code = "    pub fn login(email: &str, password: &str) -> Result<User> {\n        todo!()\n    }\n";
    let sig = extract_signature(code).unwrap();
    assert!(sig.contains("pub fn login"));
    assert!(!sig.contains("{"));
}

#[test]
fn rust_multiline_signature_joined() {
    let code = "pub fn rerank_topk(\n    scores: &HashMap<usize, f64>,\n    chunks: &[Chunk],\n    top_k: usize,\n) -> Vec<(usize, f64)> {\n    todo!()\n}\n";
    let sig = extract_signature(code).unwrap();
    assert!(sig.contains("pub fn rerank_topk"));
    assert!(sig.contains("scores"));
    assert!(sig.contains("top_k"));
    assert!(sig.contains("-> Vec<(usize, f64)>"));
    assert!(!sig.contains("todo!"));
}

#[test]
fn ts_export_function() {
    let code = "// header\nexport async function loginWithEmail(email: string, password: string): Promise<User> {\n  return {};\n}\n";
    let sig = extract_signature(code).unwrap();
    assert!(sig.contains("export async function loginWithEmail"));
}

#[test]
fn ts_arrow_const() {
    let code = "export const fetchUser = async (id: string): Promise<User> => {\n  return await api.get(id);\n};\n";
    let sig = extract_signature(code).unwrap();
    assert!(sig.contains("fetchUser"));
    assert!(sig.contains("=>"));
}

#[test]
fn python_def() {
    let code = "# comment\ndef compute_score(query, chunks):\n    return 0.0\n";
    let sig = extract_signature(code).unwrap();
    assert!(sig.starts_with("def compute_score"));
}

#[test]
fn fallback_first_code_line() {
    let code = "// only comments here\nlet x = 42;\n";
    let sig = extract_signature(code).unwrap();
    assert_eq!(sig, "let x = 42;");
}

#[test]
fn picks_definition_near_match_line() {
    let mut code = String::new();
    code.push_str("pub fn first_one(a: u32) -> u32 {\n");
    for _ in 0..18 {
        code.push_str("    let _x = 1;\n");
    }
    code.push_str("} // close first\n");
    code.push_str("pub fn second_one(b: u32) -> u32 {\n");
    for _ in 0..3 {
        code.push_str("    let _y = matching_pattern();\n");
    }
    code.push_str("}\n");

    let sig = extract_signature_near(&code, 100, &[125]).unwrap();
    assert!(
        sig.contains("second_one"),
        "expected second_one, got: {sig}"
    );
}

#[test]
fn picks_first_definition_when_no_match_lines() {
    let code = "pub fn first(a: u32) -> u32 {\n    todo!()\n}\npub fn second(b: u32) -> u32 {\n    todo!()\n}\n";
    let sig = extract_signature(code).unwrap();
    assert!(sig.contains("first"));
}

#[test]
fn multiline_signature_includes_return_type() {
    let code = "pub fn search_hybrid(\n    query: &str,\n    encoder: &StaticEncoder,\n    semantic_index: &SemanticIndex,\n    bm25_index: &Bm25Index,\n    chunks: &[Chunk],\n    top_k: usize,\n) -> Vec<SearchResult> {\n    todo!()\n}\n";
    let sig = extract_signature(code).unwrap();
    assert!(
        sig.contains("-> Vec<SearchResult>"),
        "missing return type: {sig}"
    );
    assert!(is_well_formed(&sig), "not well-formed: {sig}");
}

#[test]
fn well_formed_recognizes_complete_signatures() {
    assert!(is_well_formed("fn foo(x: u32) -> u32"));
    assert!(is_well_formed("pub async fn bar(a: T, b: U) -> Result<V>"));
    assert!(is_well_formed("const fetchUser = (id) =>"));
    assert!(is_well_formed("class Foo"));
}

#[test]
fn well_formed_rejects_truncated_signatures() {
    assert!(!is_well_formed("fn foo(x: u32,"));
    assert!(!is_well_formed("pub fn bar( a: T, b: U,"));
    assert!(!is_well_formed("fn baz(arg: T) -> R..."));
}

#[test]
fn empty_chunk_has_no_signature() {
    assert_eq!(extract_signature(""), None);
    assert_eq!(extract_signature("// only\n# comments\n\n"), None);
}

#[test]
fn single_line_signature_is_exact() {
    assert_eq!(
        extract_signature("fn add(a: i32, b: i32) -> i32 {\n    a + b\n}\n").unwrap(),
        "fn add(a: i32, b: i32) -> i32"
    );
}

#[test]
fn long_first_line_is_cut_with_ellipsis() {
    let code = format!("let x = \"{}\";\n", "a".repeat(600));
    let sig = extract_signature(&code).unwrap();
    assert_eq!(sig.chars().count(), 501);
    assert!(sig.ends_with('…'));
}

#[test]
fn match_before_every_definition_picks_first() {
    let code = "fn a() {\n}\nfn b() {\n}\n";
    let sig = extract_signature_near(code, 10, &[3]).unwrap();
    assert_eq!(sig, "fn a()");
}

#[test]
fn well_formed_rejects_unbalanced_close() {
    assert!(!is_well_formed("fn f) -> (x"));
    assert!(is_well_formed("x = \"(\" ;"));
}
