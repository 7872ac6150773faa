//! The key-expression grammar: what the constructors accept and reject.

use keyexpr_tree::keyexpr::OwnedKeyExpr;

fn k(s: &str) -> OwnedKeyExpr {
    OwnedKeyExpr::new(s).expect("valid key expression")
}

#[test]
fn accepts_literals() {
    assert_eq!(k("a/b/c").chunk_count(), 3);
    assert_eq!(k("sensor").chunk_count(), 1);
    assert_eq!(k("long-segment.name_01/x").chunk_count(), 2);
}

#[test]
fn accepts_wildcards() {
    assert_eq!(k("*").chunk_count(), 1);
    assert_eq!(k("**").chunk_count(), 1);
    assert_eq!(k("a/*/c").chunk_count(), 3);
    assert_eq!(k("a/**").chunk_count(), 2);
    assert_eq!(k("**/c").chunk_count(), 2);
    assert_eq!(k("a/**/b/**/c").chunk_count(), 5);
}

#[test]
fn rejects_empty_and_empty_chunks() {
    assert!(OwnedKeyExpr::new("").is_none());
    assert!(OwnedKeyExpr::new("a//b").is_none());
    assert!(OwnedKeyExpr::new("/a").is_none());
    assert!(OwnedKeyExpr::new("a/").is_none());
    assert!(OwnedKeyExpr::new("/").is_none());
}

#[test]
fn rejects_misplaced_wildcard_bytes() {
    assert!(OwnedKeyExpr::new("a*").is_none());
    assert!(OwnedKeyExpr::new("*a").is_none());
    assert!(OwnedKeyExpr::new("***").is_none());
    assert!(OwnedKeyExpr::new("a/$*/b").is_none());
    assert!(OwnedKeyExpr::new("a$b").is_none());
    assert!(OwnedKeyExpr::new("a#b").is_none());
    assert!(OwnedKeyExpr::new("a?b").is_none());
}

#[test]
fn rejects_adjacent_multi_level_wildcards() {
    assert!(OwnedKeyExpr::new("**/**").is_none());
    assert!(OwnedKeyExpr::new("a/**/**/b").is_none());
    assert!(OwnedKeyExpr::new("a/**/b/**").is_some());
}

#[test]
fn from_chunks_matches_parsing() {
    let parsed = k("a/b");
    let built = OwnedKeyExpr::from_chunks(vec![b"a".to_vec(), b"b".to_vec()]).unwrap();
    assert_eq!(parsed, built);
    assert!(parsed.keyexpr_eq(&built));
    assert!(OwnedKeyExpr::from_chunks(vec![]).is_none());
    assert!(OwnedKeyExpr::from_chunks(vec![b"a".to_vec(), vec![]]).is_none());
}

#[test]
fn keys_compare_by_content() {
    assert_eq!(k("a/b"), k("a/b"));
    assert_ne!(k("a/b"), k("a/c"));
    assert_ne!(k("a"), k("a/a"));
    assert!(!k("a/b").keyexpr_eq(&k("a")));
    let c = k("x/*/y").clone_key();
    assert_eq!(c, k("x/*/y"));
}

#[test]
fn chunks_are_exposed() {
    let key = k("a/*/c");
    let chunks = key.chunks();
    assert_eq!(chunks.len(), 3);
    assert_eq!(chunks[0], b"a".to_vec());
    assert_eq!(chunks[1], b"*".to_vec());
    assert_eq!(chunks[2], b"c".to_vec());
}
