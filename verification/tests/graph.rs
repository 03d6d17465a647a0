use semble::graph::{DependencyGraph, FileNode};

fn node(path: &str, deps: &[&str]) -> FileNode {
    FileNode {
        path: path.to_string(),
        symbols: Vec::new(),
        depends_on: deps.iter().map(|d| d.to_string()).collect(),
    }
}

fn sample() -> DependencyGraph {
    DependencyGraph {
        files: vec![
            node("core.rs", &[]),
            node("util.rs", &["core.rs"]),
            node("api.rs", &["util.rs"]),
            node("main.rs", &["api.rs", "core.rs"]),
            node("other.rs", &[]),
        ],
    }
}

#[test]
fn deps_finds_the_file_node() {
    let g = sample();
    let n = g.deps("api.rs").expect("api.rs is in the graph");
    assert_eq!(n.depends_on, vec!["util.rs".to_string()]);
    assert!(g.deps("missing.rs").is_none());
}

#[test]
fn dependents_are_the_direct_users_in_graph_order() {
    let g = sample();
    assert_eq!(g.dependents("core.rs"), vec!["util.rs".to_string(), "main.rs".to_string()]);
    assert!(g.dependents("main.rs").is_empty());
}

#[test]
fn impact_follows_dependencies_transitively() {
    let g = sample();
    let mut affected = g.impact("core.rs");
    affected.sort();
    assert_eq!(
        affected,
        vec!["api.rs".to_string(), "main.rs".to_string(), "util.rs".to_string()]
    );
    assert!(g.impact("other.rs").is_empty());
}

#[test]
fn impact_leaves_out_the_changed_file_in_a_cycle() {
    let g = DependencyGraph { files: vec![node("a.rs", &["b.rs"]), node("b.rs", &["a.rs"])] };
    assert_eq!(g.impact("a.rs"), vec!["b.rs".to_string()]);
}
