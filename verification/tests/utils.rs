use semble::chunking::Chunk;
use semble::utils::{is_git_url, resolve_chunk};

#[test]
fn git_remotes_are_told_from_local_paths() {
    assert!(is_git_url("https://github.com/a/b"));
    assert!(is_git_url("http://host/repo"));
    assert!(is_git_url("git@github.com:a/b.git"));
    assert!(is_git_url("ssh://host/repo"));
    assert!(is_git_url("file://srv/repo.git"));
    assert!(!is_git_url("./repo.git"));
    assert!(!is_git_url("/home/me/project"));
}

#[test]
fn the_first_chunk_spanning_a_line_is_found() {
    let chunks = vec![
        Chunk::new("a".to_string(), "src/a.rs".to_string(), 1, 10, None),
        Chunk::new("b".to_string(), "src/a.rs".to_string(), 11, 20, None),
        Chunk::new("c".to_string(), "src/b.rs".to_string(), 1, 30, None),
    ];
    assert_eq!(resolve_chunk(&chunks, "src/a.rs", 15).map(|c| c.content.as_str()), Some("b"));
    assert_eq!(resolve_chunk(&chunks, "src/b.rs", 30).map(|c| c.content.as_str()), Some("c"));
    assert!(resolve_chunk(&chunks, "src/a.rs", 21).is_none());
    assert!(resolve_chunk(&chunks, "src/c.rs", 1).is_none());
}
