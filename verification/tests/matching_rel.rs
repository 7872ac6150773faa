//! The intersection and inclusion relations between key expressions.

use keyexpr_tree::keyexpr::OwnedKeyExpr;
use keyexpr_tree::matching::{keyexpr_includes, keyexpr_intersects};

fn k(s: &str) -> OwnedKeyExpr {
    OwnedKeyExpr::new(s).expect("valid key expression")
}

#[test]
fn literal_intersection_is_equality() {
    assert!(keyexpr_intersects(&k("a/b/c"), &k("a/b/c")));
    assert!(!keyexpr_intersects(&k("a/b/c"), &k("a/b/d")));
    assert!(!keyexpr_intersects(&k("a/b"), &k("a/b/c")));
    assert!(!keyexpr_intersects(&k("a"), &k("b")));
}

#[test]
fn single_level_wildcard_intersects_one_chunk() {
    assert!(keyexpr_intersects(&k("a/*/c"), &k("a/b/c")));
    assert!(keyexpr_intersects(&k("*"), &k("a")));
    assert!(keyexpr_intersects(&k("*/*"), &k("a/b")));
    assert!(!keyexpr_intersects(&k("a/*/c"), &k("a/b/d")));
    assert!(!keyexpr_intersects(&k("*"), &k("a/b")));
}

#[test]
fn multi_level_wildcard_spans_levels() {
    assert!(keyexpr_intersects(&k("a/**"), &k("a")));
    assert!(keyexpr_intersects(&k("a/**"), &k("a/b/c/d")));
    assert!(keyexpr_intersects(&k("a/**/d"), &k("a/b/c/d")));
    assert!(keyexpr_intersects(&k("**"), &k("x/y/z")));
    assert!(keyexpr_intersects(&k("a/**/c"), &k("a/c")));
    assert!(!keyexpr_intersects(&k("a/**"), &k("b")));
    assert!(!keyexpr_intersects(&k("a/**/d"), &k("a/b/c")));
}

#[test]
fn wildcards_intersect_wildcards() {
    assert!(keyexpr_intersects(&k("a/*"), &k("a/**")));
    assert!(keyexpr_intersects(&k("**"), &k("*")));
    assert!(keyexpr_intersects(&k("a/**/c"), &k("*/c")));
    assert!(!keyexpr_intersects(&k("a/*"), &k("b/**")));
}

#[test]
fn intersection_is_symmetric_on_samples() {
    let samples = [
        ("a/b/c", "a/*/c"),
        ("a/**", "a/b"),
        ("**", "x"),
        ("a/*", "a/**"),
        ("a/b", "a/c"),
        ("a/**/d", "a/d"),
    ];
    for (x, y) in samples {
        assert_eq!(
            keyexpr_intersects(&k(x), &k(y)),
            keyexpr_intersects(&k(y), &k(x)),
            "symmetry broken for {x} and {y}"
        );
    }
}

#[test]
fn inclusion_is_one_directional() {
    assert!(keyexpr_includes(&k("a/**"), &k("a/b/c")));
    assert!(!keyexpr_includes(&k("a/b/c"), &k("a/**")));
    assert!(keyexpr_includes(&k("a/*"), &k("a/b")));
    assert!(!keyexpr_includes(&k("a/b"), &k("a/*")));
}

#[test]
fn inclusion_of_wildcards() {
    assert!(keyexpr_includes(&k("a/**"), &k("a/**")));
    assert!(keyexpr_includes(&k("**"), &k("a/*/c")));
    assert!(keyexpr_includes(&k("a/**"), &k("a")));
    assert!(!keyexpr_includes(&k("a/*"), &k("a/**")));
    assert!(!keyexpr_includes(&k("*"), &k("**")));
    assert!(keyexpr_includes(&k("*"), &k("*")));
    assert!(!keyexpr_includes(&k("a/**/c"), &k("a/**")));
}

#[test]
fn inclusion_implies_intersection_on_samples() {
    let samples = [
        ("a/**", "a/b/c"),
        ("a/*", "a/b"),
        ("**", "x/y"),
        ("a/**", "a/**"),
    ];
    for (p, key) in samples {
        assert!(keyexpr_includes(&k(p), &k(key)));
        assert!(keyexpr_intersects(&k(p), &k(key)));
    }
}
