use semble::tokens::{split_identifier, tokenize};

#[test]
fn test_split_identifier_snake_case() {
    assert_eq!(split_identifier("my_func"), vec!["my_func", "my", "func"]);
}

#[test]
fn test_split_identifier_camel_case() {
    assert_eq!(
        split_identifier("HandlerStack"),
        vec!["handlerstack", "handler", "stack"]
    );
}

#[test]
fn test_split_identifier_simple() {
    assert_eq!(split_identifier("simple"), vec!["simple"]);
}

#[test]
fn test_tokenize() {
    let tokens = tokenize("my_func getFoo");
    assert!(tokens.contains(&"my_func".to_string()));
    assert!(tokens.contains(&"my".to_string()));
    assert!(tokens.contains(&"func".to_string()));
    assert!(tokens.contains(&"getfoo".to_string()));
    assert!(tokens.contains(&"get".to_string()));
    assert!(tokens.contains(&"foo".to_string()));
}

#[test]
fn test_tokenize_korean() {
    let tokens = tokenize("의존성 그래프 구축");
    assert!(tokens.contains(&"의존성".to_string()));
    assert!(tokens.contains(&"그래프".to_string()));
    assert!(tokens.contains(&"구축".to_string()));
}

#[test]
fn test_tokenize_mixed_korean_english() {
    let tokens = tokenize("Tree-sitter AST 기반 청킹");
    assert!(tokens.contains(&"tree".to_string()));
    assert!(tokens.contains(&"sitter".to_string()));
    assert!(tokens.contains(&"기반".to_string()));
    assert!(tokens.contains(&"청킹".to_string()));
}

#[test]
fn split_identifier_lowercases_first_and_splits_camel_runs() {
    assert_eq!(
        split_identifier("parseHTTPResponse"),
        vec!["parsehttpresponse", "parse", "http", "response"]
    );
}

#[test]
fn split_identifier_empty_gives_empty_token() {
    assert_eq!(split_identifier(""), vec![""]);
}

#[test]
fn tokenize_empty_text_has_no_tokens() {
    assert!(tokenize("").is_empty());
    assert!(tokenize("  -- ++ ").is_empty());
}
