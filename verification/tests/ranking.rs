use semble::chunking::Chunk;
use semble::ranking::{
    chunk_defines_symbol, count_keyword_matches, embedded_symbols, extract_symbol_name,
    file_stem_lower, is_symbol_query, stem_keywords, stem_matches, stem_names_symbol, stem_parts,
};

fn chunk(content: &str) -> Chunk {
    Chunk::new(content.to_string(), "f.rs".to_string(), 1, 1, None)
}

#[test]
fn symbol_queries_are_recognised() {
    assert!(is_symbol_query("Foo::bar"));
    assert!(is_symbol_query("  HandlerStack "));
    assert!(is_symbol_query("snake_case_name"));
    assert!(is_symbol_query("_private"));
    assert!(!is_symbol_query("how does it work"));
    assert!(!is_symbol_query("lowercase"));
}

#[test]
fn symbol_name_is_the_last_path_segment() {
    assert_eq!(extract_symbol_name("a::b::C"), "C");
    assert_eq!(extract_symbol_name("  foo.bar  "), "bar");
    assert_eq!(extract_symbol_name("x->y"), "y");
    assert_eq!(extract_symbol_name("App\\Http\\Kernel"), "Kernel");
    assert_eq!(extract_symbol_name("plain"), "plain");
}

#[test]
fn stems_match_plural_and_underscored_names() {
    assert!(stem_matches("user_models", "usermodel"));
    assert!(stem_matches("config", "config"));
    assert!(stem_matches("tokens", "token"));
    assert!(!stem_matches("parser", "parse"));
}

#[test]
fn keywords_count_exact_and_prefix_hits() {
    let keywords = vec!["parse".to_string(), "tok".to_string(), "xyz".to_string()];
    let parts = vec!["parser".to_string(), "tokens".to_string()];
    assert_eq!(count_keyword_matches(&keywords, &parts), 2);
    let short = vec!["ab".to_string()];
    let long = vec!["abc".to_string()];
    assert_eq!(count_keyword_matches(&short, &long), 0);
    assert_eq!(count_keyword_matches(&long, &long), 1);
}

#[test]
fn definitions_are_found_after_keywords() {
    assert!(chunk_defines_symbol(&chunk("pub struct Config {\n}\n"), "Config"));
    assert!(chunk_defines_symbol(&chunk("create table users (\n id int\n);"), "users"));
    assert!(chunk_defines_symbol(&chunk("class app.models.User:\n"), "User"));
    assert!(!chunk_defines_symbol(&chunk("let Config = 1;\n"), "Config"));
    assert!(!chunk_defines_symbol(&chunk("struct Configuration {}"), "Config"));
}

#[test]
fn stem_keywords_drop_short_and_common_words() {
    assert_eq!(
        stem_keywords("How does the Token parser handle tokens and the parser?"),
        vec!["token".to_string(), "parser".to_string(), "handle".to_string(), "tokens".to_string()]
    );
    assert!(stem_keywords("is it on").is_empty());
}

#[test]
fn stem_parts_come_from_stem_and_parent_directory() {
    assert_eq!(
        stem_parts("src/query_parser/QueryParser.rs"),
        vec![
            "queryparser".to_string(),
            "query".to_string(),
            "parser".to_string(),
            "query_parser".to_string()
        ]
    );
    assert_eq!(stem_parts("./main.rs"), vec!["main".to_string()]);
    assert_eq!(stem_parts("../lib.rs"), vec!["lib".to_string()]);
}

#[test]
fn file_stems_are_lowercased() {
    assert_eq!(file_stem_lower("src/HttpClient.rs"), "httpclient");
    assert_eq!(file_stem_lower("a/.bashrc"), ".bashrc");
    assert_eq!(file_stem_lower("a/archive.tar.gz"), "archive.tar");
    assert_eq!(file_stem_lower("/"), "");
}

#[test]
fn embedded_symbols_are_found_once() {
    assert_eq!(
        embedded_symbols("where is parseQuery called from HttpClient and parseQuery"),
        vec!["parseQuery".to_string(), "HttpClient".to_string()]
    );
}

#[test]
fn stems_name_symbols_exactly_or_as_long_prefixes() {
    assert!(stem_names_symbol("http_client", "httpclient"));
    assert!(stem_names_symbol("http", "httpclient"));
    assert!(!stem_names_symbol("htt", "httpclient"));
    assert!(stem_names_symbol("abc", "abc"));
    assert!(!stem_names_symbol("client", "httpclient"));
}
