//! The key-expression tree: insertion, lookup, removal, pruning, and the
//! wildcard queries.

use keyexpr_tree::keyexpr::OwnedKeyExpr;
use keyexpr_tree::traits::{AsNode, AsNodeMut, IKeyExprTreeNodeMut};
use keyexpr_tree::matching::{keyexpr_includes, keyexpr_intersects};
use keyexpr_tree::tree::{KeyExprTree, Node};

fn k(s: &str) -> OwnedKeyExpr {
    OwnedKeyExpr::new(s).expect("valid key expression")
}

fn same_keys(got: Vec<OwnedKeyExpr>, expected: &[&str]) {
    assert_eq!(got.len(), expected.len(), "got {got:?}");
    for e in expected {
        assert!(got.contains(&k(e)), "missing {e} in {got:?}");
    }
}

#[test]
fn round_trip_path() {
    let mut t: KeyExprTree<u32> = KeyExprTree::new();
    assert!(t.insert(&k("a/b/c"), 5).is_none());
    let node = t.node(&k("a/b/c")).expect("inserted path exists");
    assert_eq!(node.keyexpr(), k("a/b/c"));
    assert_eq!(t.weight_at(&k("a/b/c")), Some(&5));
}

#[test]
fn update_semantics() {
    let mut t: KeyExprTree<u32> = KeyExprTree::new();
    assert_eq!(t.insert(&k("a/b"), 1), None);
    assert_eq!(t.insert(&k("a/b"), 2), Some(1));
    assert_eq!(t.weight_at(&k("a/b")), Some(&2));
}

#[test]
fn intermediate_nodes_are_structural() {
    let mut t: KeyExprTree<u32> = KeyExprTree::new();
    t.insert(&k("a/b/c"), 9);
    let a = t.node(&k("a")).expect("structural node exists");
    assert!(a.weight().is_none());
    assert_eq!(a.keyexpr(), k("a"));
    assert!(t.weight_at(&k("a/b")).is_none());
    assert!(t.node(&k("a/b/d")).is_none());
}

#[test]
fn insert_reuses_prefix_nodes() {
    let mut t: KeyExprTree<u32> = KeyExprTree::new();
    t.insert(&k("a/b/c"), 1);
    t.insert(&k("a/b/d"), 2);
    t.insert(&k("a/b"), 3);
    assert_eq!(t.tree_iter().len(), 4);
    assert_eq!(t.weight_at(&k("a/b/c")), Some(&1));
    assert_eq!(t.weight_at(&k("a/b/d")), Some(&2));
    assert_eq!(t.weight_at(&k("a/b")), Some(&3));
}

#[test]
fn remove_keeps_structure() {
    let mut t: KeyExprTree<u32> = KeyExprTree::new();
    t.insert(&k("a/b"), 7);
    assert_eq!(t.remove(&k("a/b")), Some(7));
    assert_eq!(t.remove(&k("a/b")), None);
    assert_eq!(t.remove(&k("x")), None);
    assert!(t.node(&k("a/b")).is_some(), "removal is not structural");
    assert!(t.weight_at(&k("a/b")).is_none());
}

#[test]
fn structural_only_cleanup() {
    let mut t: KeyExprTree<u32> = KeyExprTree::new();
    t.insert(&k("a/b/c"), 1);
    assert_eq!(t.remove(&k("a/b/c")), Some(1));
    t.prune();
    assert!(t.node(&k("a")).is_none());
    assert!(t.node(&k("a/b")).is_none());
    assert!(t.node(&k("a/b/c")).is_none());
    assert_eq!(t.tree_iter().len(), 0);
}

#[test]
fn prune_keeps_weighted_branches() {
    let mut t: KeyExprTree<u32> = KeyExprTree::new();
    t.insert(&k("a/b/c"), 1);
    t.insert(&k("a/x"), 2);
    t.remove(&k("a/b/c"));
    t.prune();
    assert!(t.node(&k("a/b")).is_none());
    assert!(t.node(&k("a/b/c")).is_none());
    assert!(t.node(&k("a")).is_some(), "ancestor of a weighted node survives");
    assert_eq!(t.weight_at(&k("a/x")), Some(&2));
}

fn snapshot(t: &KeyExprTree<u32>) -> (Vec<OwnedKeyExpr>, Vec<(OwnedKeyExpr, u32)>) {
    let nodes = t.tree_iter().iter().map(|n| n.keyexpr()).collect();
    let pairs = t.key_value_pairs().into_iter().map(|(key, w)| (key, *w)).collect();
    (nodes, pairs)
}

#[test]
fn prune_is_idempotent() {
    let mut t: KeyExprTree<u32> = KeyExprTree::new();
    t.insert(&k("a/b/c"), 1);
    t.insert(&k("a/b/d"), 2);
    t.insert(&k("x/y"), 3);
    t.remove(&k("a/b/c"));
    t.remove(&k("x/y"));
    t.prune();
    let once = snapshot(&t);
    t.prune();
    let twice = snapshot(&t);
    assert_eq!(once, twice);
}

#[test]
fn wildcard_coverage() {
    let mut t: KeyExprTree<u32> = KeyExprTree::new();
    t.insert(&k("a/*/c"), 1);
    same_keys(t.intersecting_keys(&k("a/b/c")), &["a/*/c"]);

    let mut u: KeyExprTree<u32> = KeyExprTree::new();
    u.insert(&k("a/b/c"), 2);
    same_keys(u.intersecting_keys(&k("a/*/c")), &["a/b/c"]);
}

#[test]
fn multi_level_wildcard_queries() {
    let mut t: KeyExprTree<u32> = KeyExprTree::new();
    t.insert(&k("a/**"), 1);
    t.insert(&k("a/b/c"), 2);
    same_keys(t.included_keys(&k("a/**")), &["a/**", "a/b/c"]);
    same_keys(t.intersecting_keys(&k("x/y")), &[]);
}

#[test]
fn literal_only_intersection_queries() {
    let mut t: KeyExprTree<u32> = KeyExprTree::new();
    t.insert(&k("a/b"), 1);
    t.insert(&k("a/c"), 2);
    same_keys(t.intersecting_keys(&k("a/b")), &["a/b"]);
    same_keys(t.intersecting_keys(&k("a/d")), &[]);
}

#[test]
fn subscription_scenario() {
    let mut t: KeyExprTree<u32> = KeyExprTree::new();
    t.insert(&k("sensor/1/temp"), 10);
    t.insert(&k("sensor/*/temp"), 20);
    t.insert(&k("sensor/1/humidity"), 30);
    same_keys(
        t.intersecting_keys(&k("sensor/1/temp")),
        &["sensor/1/temp", "sensor/*/temp"],
    );
    assert_eq!(t.weight_at(&k("sensor/1/humidity")), Some(&30));
}

#[test]
fn intersecting_nodes_sees_structural_nodes() {
    let mut t: KeyExprTree<u32> = KeyExprTree::new();
    t.insert(&k("a/b"), 1);
    // the structural node `a` intersects `a/**`, but only weighted nodes
    // surface through intersecting_keys
    assert_eq!(t.intersecting_nodes(&k("a/**")).len(), 2);
    same_keys(t.intersecting_keys(&k("a/**")), &["a/b"]);
}

#[test]
fn included_nodes_respects_direction() {
    let mut t: KeyExprTree<u32> = KeyExprTree::new();
    t.insert(&k("a/**"), 1);
    t.insert(&k("a/b"), 2);
    // a/b does not cover a/**, so only a/b itself and the structural `a`
    // (which a/* would not cover either) are candidates
    same_keys(t.included_keys(&k("a/b")), &["a/b"]);
    same_keys(t.included_keys(&k("a/*")), &["a/b"]);
}

#[test]
fn key_value_pairs_lists_weighted_nodes() {
    let mut t: KeyExprTree<u32> = KeyExprTree::new();
    t.insert(&k("a/b/c"), 1);
    t.insert(&k("a"), 2);
    let mut pairs: Vec<(OwnedKeyExpr, u32)> =
        t.key_value_pairs().into_iter().map(|(key, w)| (key, *w)).collect();
    pairs.sort_by_key(|(_, w)| *w);
    assert_eq!(pairs, vec![(k("a/b/c"), 1), (k("a"), 2)]);
}

#[test]
fn children_container_operations() {
    let mut t: KeyExprTree<u32> = KeyExprTree::new();
    t.insert(&k("a/b"), 1);
    t.insert(&k("a/c"), 2);
    let a = t.node(&k("a")).unwrap();
    let children = a.children();
    assert_eq!(children.len(), 2);
    assert!(!children.is_empty());
    let b = children.child_at(&b"b".to_vec()).expect("child b");
    assert_eq!(b.keyexpr(), k("a/b"));
    assert!(children.child_at(&b"z".to_vec()).is_none());
    assert_eq!(children.intersection(&b"*".to_vec()).len(), 2);
    assert_eq!(children.intersection(&b"b".to_vec()).len(), 1);
    assert_eq!(children.inclusion(&b"b".to_vec()).len(), 1);
    assert_eq!(children.inclusion(&b"*".to_vec()).len(), 2);
}

#[test]
fn standalone_node_payload_edits() {
    let mut n: Node<u32> = Node::new(&k("a/b"), Some(1));
    assert_eq!(n.insert_weight(2), Some(1));
    assert_eq!(n.take_weight(), Some(2));
    assert_eq!(n.take_weight(), None);
    assert!(n.weight().is_none());
    assert_eq!(n.chunk(), &b"b".to_vec());
    assert_eq!(n.keyexpr(), k("a/b"));
    assert!(n.children().is_empty());
    assert!(n.children_mut().remove(&b"x".to_vec()).is_none());
}

#[test]
fn node_capability_adapters() {
    let mut n: Node<u32> = Node::new(&k("a"), None);
    assert!(n.as_node().weight().is_none());
    n.as_node_mut().insert_weight(4);
    assert_eq!(n.weight(), Some(&4));
}

#[test]
fn weights_need_not_be_copyable() {
    let mut t: KeyExprTree<String> = KeyExprTree::new();
    t.insert(&k("a"), "first".to_string());
    let prior = t.insert(&k("a"), "second".to_string());
    assert_eq!(prior.as_deref(), Some("first"));
    assert_eq!(t.weight_at(&k("a")).map(|s| s.as_str()), Some("second"));
}

#[test]
fn deep_wide_fixture() {
    let mut t: KeyExprTree<u32> = KeyExprTree::new();
    let mut weight = 0;
    for a in ["north", "south"] {
        for b in ["plant1", "plant2", "plant3"] {
            for c in ["line/cell", "line/head", "store"] {
                for d in ["temp", "speed"] {
                    weight += 1;
                    t.insert(&k(&format!("{a}/{b}/{c}/{d}")), weight);
                }
            }
        }
    }
    t.insert(&k("north/**/temp"), 100);
    t.insert(&k("**/speed"), 200);

    // one concrete publication matches its own key and the covering pattern
    same_keys(
        t.intersecting_keys(&k("north/plant2/line/cell/temp")),
        &["north/plant2/line/cell/temp", "north/**/temp"],
    );

    // a multi-level pattern covers a whole subtree of stored keys
    same_keys(
        t.included_keys(&k("south/plant1/**")),
        &[
            "south/plant1/line/cell/temp",
            "south/plant1/line/cell/speed",
            "south/plant1/line/head/temp",
            "south/plant1/line/head/speed",
            "south/plant1/store/temp",
            "south/plant1/store/speed",
        ],
    );

    // every key of the tree matches the catch-all pattern
    assert_eq!(t.included_keys(&k("**")).len(), 38);
}

#[test]
fn queries_agree_with_the_matcher() {
    let mut t: KeyExprTree<u32> = KeyExprTree::new();
    for (i, key) in ["a/b", "a/*", "a/**", "x", "a/b/c", "*/b"].iter().enumerate() {
        t.insert(&k(key), i as u32);
    }
    for query in ["a/b", "a/**", "x/*", "*/*", "a/b/c"] {
        let q = k(query);
        let by_filter: Vec<OwnedKeyExpr> = t
            .key_value_pairs()
            .into_iter()
            .map(|(key, _)| key)
            .filter(|key| keyexpr_intersects(key, &q))
            .collect();
        let direct = t.intersecting_keys(&q);
        assert_eq!(by_filter.len(), direct.len(), "query {query}");
        for key in &by_filter {
            assert!(direct.contains(key), "query {query} missing {key:?}");
        }
        let by_filter: Vec<OwnedKeyExpr> = t
            .key_value_pairs()
            .into_iter()
            .map(|(key, _)| key)
            .filter(|key| keyexpr_includes(&q, key))
            .collect();
        let direct = t.included_keys(&q);
        assert_eq!(by_filter.len(), direct.len(), "query {query}");
        for key in &by_filter {
            assert!(direct.contains(key), "query {query} missing {key:?}");
        }
    }
}
