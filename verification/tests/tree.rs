use semble::chunking::Chunk;
use semble::graph::{DependencyGraph, FileNode, Symbol};
use semble::tree::{render, TreeOptions};

fn chunk(path: &str, lang: Option<&str>) -> Chunk {
    Chunk::new(
        "x".to_string(),
        path.to_string(),
        1,
        1,
        lang.map(|l| l.to_string()),
    )
}

fn opts<'a>(dirs_only: bool, max_depth: Option<usize>, symbols: bool, langs: Option<&'a [String]>) -> TreeOptions<'a> {
    TreeOptions { dirs_only, max_depth, symbols, langs }
}

fn no_graph() -> DependencyGraph {
    DependencyGraph { files: Vec::new() }
}

#[test]
fn tree_lists_files_under_directories_in_name_order() {
    let chunks = vec![
        chunk("src/main.rs", Some("rust")),
        chunk("src/lib.rs", Some("rust")),
        chunk("README.md", Some("markdown")),
        chunk("src/main.rs", Some("rust")),
    ];
    let out = render(&chunks, &no_graph(), &opts(false, None, false, None));
    assert_eq!(out, "README.md\nsrc/\n├── lib.rs\n└── main.rs\n");
}

#[test]
fn tree_nested_directories_use_bars_and_corners() {
    let chunks = vec![
        chunk("a/b/c.rs", None),
        chunk("a/b/d.rs", None),
        chunk("a/e/f.rs", None),
        chunk("a/g.rs", None),
    ];
    let out = render(&chunks, &no_graph(), &opts(false, None, false, None));
    assert_eq!(
        out,
        "a/\n├── b/\n│   ├── c.rs\n│   └── d.rs\n├── e/\n│   └── f.rs\n└── g.rs\n"
    );
}

#[test]
fn tree_siblings_line_up_after_a_nested_directory() {
    let chunks = vec![
        chunk("a/b/c/x.rs", None),
        chunk("a/b/d.rs", None),
        chunk("a/z.rs", None),
    ];
    let out = render(&chunks, &no_graph(), &opts(false, None, false, None));
    assert_eq!(
        out,
        "a/\n├── b/\n│   ├── c/\n│   │   └── x.rs\n│   └── d.rs\n└── z.rs\n"
    );
}

#[test]
fn tree_dirs_only_hides_plain_files() {
    let chunks = vec![chunk("src/main.rs", None), chunk("top.rs", None)];
    let out = render(&chunks, &no_graph(), &opts(true, None, false, None));
    assert_eq!(out, "src/\n");
}

#[test]
fn tree_max_depth_stops_below_the_limit() {
    let chunks = vec![chunk("src/main.rs", None), chunk("top.rs", None)];
    let out = render(&chunks, &no_graph(), &opts(false, Some(0), false, None));
    assert_eq!(out, "src/\ntop.rs\n");
}

#[test]
fn tree_language_filter_keeps_listed_languages() {
    let chunks = vec![
        chunk("a.rs", Some("rust")),
        chunk("b.py", Some("python")),
        chunk("c.txt", None),
    ];
    let langs = vec!["python".to_string()];
    let out = render(&chunks, &no_graph(), &opts(false, None, false, Some(&langs)));
    assert_eq!(out, "b.py\n");
}

#[test]
fn tree_symbols_list_six_then_count_the_rest() {
    let mut symbols = Vec::new();
    for i in 0..8 {
        symbols.push(Symbol { name: format!("f{i}"), kind: "fn".to_string(), line: i + 1 });
    }
    symbols.push(Symbol { name: "x".to_string(), kind: "use".to_string(), line: 20 });
    let graph = DependencyGraph {
        files: vec![
            FileNode { path: "lib.rs".to_string(), symbols, depends_on: Vec::new() },
            FileNode {
                path: "one.rs".to_string(),
                symbols: vec![Symbol { name: "Config".to_string(), kind: "struct".to_string(), line: 1 }],
                depends_on: Vec::new(),
            },
        ],
    };
    let chunks = vec![chunk("lib.rs", None), chunk("one.rs", None), chunk("two.rs", None)];
    let out = render(&chunks, &graph, &opts(false, None, true, None));
    assert_eq!(
        out,
        "lib.rs  (f0, f1, f2, f3, f4, f5, +2)\none.rs  (Config)\ntwo.rs\n"
    );
}

#[test]
fn tree_empty_index_draws_nothing() {
    let chunks: Vec<Chunk> = Vec::new();
    assert_eq!(render(&chunks, &no_graph(), &opts(false, None, false, None)), "");
}

#[test]
fn tree_last_sibling_lines_up_under_its_directory() {
    let chunks = vec![chunk("r/a/b/x.rs", None), chunk("r/a/c.rs", None)];
    let out = render(&chunks, &no_graph(), &opts(false, None, false, None));
    assert_eq!(out, "r/\n└── a/\n    ├── b/\n    │   └── x.rs\n    └── c.rs\n");
}
