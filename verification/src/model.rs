//! The mathematical model of the key-expression tree.
//!
//! A tree is modelled as a forest of [`GNode`] values: each node carries
//! the full chunk path from the root (its reconstructed key expression),
//! an optional weight, and its children. Every executable tree operation
//! is specified as an equation over this model, and the laws of the tree
//! (round trips, update semantics, prune idempotence) are proved here.

use vstd::prelude::*;
use crate::keyexpr::valid_keyexpr;
use crate::matching::{ke_intersects, lemma_literal_intersects, literal_keyexpr};

verus! {

/// The model of one tree node: its full path from the root, its optional
/// weight, and its children.
#[verifier::ext_equal]
pub ghost struct GNode<W> {
    pub path: Seq<Seq<u8>>,
    pub weight: Option<W>,
    pub children: Seq<GNode<W>>,
}

/// The chunk a node answers to: the last chunk of its path.
pub open spec fn gchunk<W>(n: GNode<W>) -> Seq<u8> {
    n.path.last()
}

/// Well-formedness of a node: its path is a non-empty valid key
/// expression and its children form a well-formed sibling forest under it.
pub open spec fn gnode_wf<W>(n: GNode<W>) -> bool
    decreases n,
{
    &&& n.path.len() >= 1
    &&& valid_keyexpr(n.path)
    &&& gsiblings_wf(n.children, n.path)
}

/// Well-formedness of a sibling forest under the path `prefix`: every
/// node extends `prefix` by its own chunk, the chunks are pairwise
/// distinct (the forest is a trie level), and every node is well-formed.
pub open spec fn gsiblings_wf<W>(s: Seq<GNode<W>>, prefix: Seq<Seq<u8>>) -> bool
    decreases s,
{
    &&& forall|i: int| 0 <= i < s.len() ==> (#[trigger] s[i]).path == prefix.push(gchunk(s[i]))
    &&& forall|i: int, j: int|
        #![trigger gchunk(s[i]), gchunk(s[j])]
        0 <= i < j < s.len() ==> gchunk(s[i]) != gchunk(s[j])
    &&& forall|i: int| 0 <= i < s.len() ==> gnode_wf(#[trigger] s[i])
}

/// Whether a sibling forest has a node for the chunk `c`.
pub open spec fn ghas_child<W>(s: Seq<GNode<W>>, c: Seq<u8>) -> bool {
    exists|i: int| 0 <= i < s.len() && gchunk(#[trigger] s[i]) == c
}

/// The position of the node for the chunk `c` in a sibling forest.
pub open spec fn gchild_idx<W>(s: Seq<GNode<W>>, c: Seq<u8>) -> int {
    choose|i: int| 0 <= i < s.len() && gchunk(#[trigger] s[i]) == c
}

/// Descends from the sibling forest `s` along the chunks `ks[i..]` and
/// returns the node reached, if the whole path exists.
pub open spec fn glookup<W>(s: Seq<GNode<W>>, ks: Seq<Seq<u8>>, i: int) -> Option<GNode<W>>
    recommends
        0 <= i < ks.len(),
    decreases ks.len() - i,
{
    if i < 0 || i >= ks.len() || !ghas_child(s, ks[i]) {
        None
    } else {
        let n = s[gchild_idx(s, ks[i])];
        if i == ks.len() - 1 {
            Some(n)
        } else {
            glookup(n.children, ks, i + 1)
        }
    }
}

/// The weight stored at the end of the path `ks[i..]`, if any.
pub open spec fn gweight_from<W>(s: Seq<GNode<W>>, ks: Seq<Seq<u8>>, i: int) -> Option<W> {
    match glookup(s, ks, i) {
        Some(n) => n.weight,
        None => None,
    }
}

/// Whether the full path `ks` names a node of the forest.
pub open spec fn ghas_path<W>(s: Seq<GNode<W>>, ks: Seq<Seq<u8>>) -> bool {
    glookup(s, ks, 0) is Some
}

/// The weight stored at the full path `ks`, if any.
pub open spec fn gweight<W>(s: Seq<GNode<W>>, ks: Seq<Seq<u8>>) -> Option<W> {
    gweight_from(s, ks, 0)
}

/// A fresh chain of nodes for the chunks `ks[i..]`, carrying the weight
/// `w` at its deepest node; the intermediate nodes are structural only.
pub open spec fn gchain<W>(ks: Seq<Seq<u8>>, i: int, w: W) -> GNode<W>
    recommends
        0 <= i < ks.len(),
    decreases ks.len() - i,
{
    if i >= ks.len() - 1 {
        GNode { path: ks.take(i + 1), weight: Some(w), children: Seq::empty() }
    } else {
        GNode { path: ks.take(i + 1), weight: None, children: seq![gchain(ks, i + 1, w)] }
    }
}

/// Inserts the weight `w` at the path `ks[i..]` below the sibling forest
/// `s`, creating the missing nodes and replacing the weight of an
/// existing node.
pub open spec fn ginsert<W>(s: Seq<GNode<W>>, ks: Seq<Seq<u8>>, i: int, w: W) -> Seq<GNode<W>>
    recommends
        0 <= i < ks.len(),
    decreases ks.len() - i,
{
    if i < 0 || i >= ks.len() {
        s
    } else if !ghas_child(s, ks[i]) {
        s.push(gchain(ks, i, w))
    } else {
        let idx = gchild_idx(s, ks[i]);
        let n = s[idx];
        if i == ks.len() - 1 {
            s.update(idx, GNode { weight: Some(w), ..n })
        } else {
            s.update(idx, GNode { children: ginsert(n.children, ks, i + 1, w), ..n })
        }
    }
}

/// Removes the weight at the path `ks[i..]`, leaving the structure of the
/// forest unchanged (structural removal is pruning's job).
pub open spec fn gremove<W>(s: Seq<GNode<W>>, ks: Seq<Seq<u8>>, i: int) -> Seq<GNode<W>>
    recommends
        0 <= i < ks.len(),
    decreases ks.len() - i,
{
    if i < 0 || i >= ks.len() || !ghas_child(s, ks[i]) {
        s
    } else {
        let idx = gchild_idx(s, ks[i]);
        let n = s[idx];
        if i == ks.len() - 1 {
            s.update(idx, GNode { weight: None::<W>, ..n })
        } else {
            s.update(idx, GNode { children: gremove(n.children, ks, i + 1), ..n })
        }
    }
}

/// Whether a node must survive pruning: it carries a weight or still has
/// children.
pub open spec fn glive<W>(n: GNode<W>) -> bool {
    n.weight is Some || n.children.len() > 0
}

/// Prunes a sibling forest: children are pruned first (post-order), and a
/// node is dropped when it carries no weight and has no surviving child.
/// The relative order of the surviving nodes is preserved.
pub open spec fn gprune<W>(s: Seq<GNode<W>>) -> Seq<GNode<W>>
    decreases s,
{
    if s.len() == 0 {
        Seq::empty()
    } else {
        let rest = gprune(s.drop_last());
        let n = gprune_node(s.last());
        if glive(n) {
            rest.push(n)
        } else {
            rest
        }
    }
}

/// Prunes the subtree of one node.
pub open spec fn gprune_node<W>(n: GNode<W>) -> GNode<W>
    decreases n,
{
    GNode { path: n.path, weight: n.weight, children: gprune(n.children) }
}

/// Membership of a node value in a forest, at any depth.
pub open spec fn gcontains<W>(s: Seq<GNode<W>>, gn: GNode<W>) -> bool
    decreases s,
{
    exists|i: int|
        0 <= i < s.len() && (#[trigger] s[i] == gn || gcontains(s[i].children, gn))
}

/// Every node found in the subtree rooted at a well-formed node `c`
/// extends `c`'s path, and is itself well-formed.
pub proof fn lemma_gcontains_extends<W>(c: GNode<W>, gn: GNode<W>)
    requires
        gnode_wf(c),
        c == gn || gcontains(c.children, gn),
    ensures
        gn.path.len() >= c.path.len(),
        gn.path.take(c.path.len() as int) == c.path,
        c != gn ==> gn.path.len() > c.path.len(),
        gnode_wf(gn),
    decreases c,
{
    if c == gn {
        assert(gn.path.take(c.path.len() as int) =~= c.path);
    } else {
        let i = choose|i: int|
            0 <= i < c.children.len() && (c.children[i] == gn || gcontains(
                c.children[i].children,
                gn,
            ));
        let child = c.children[i];
        assert(child.path == c.path.push(gchunk(child)));
        lemma_gcontains_extends(child, gn);
        assert(gn.path.take(c.path.len() as int) =~= c.path) by {
            assert forall|m: int| 0 <= m < c.path.len() implies gn.path.take(
                c.path.len() as int,
            )[m] == c.path[m] by {
                assert(gn.path.take(child.path.len() as int)[m] == child.path[m]);
                assert(child.path[m] == c.path[m]);
            }
        }
    }
}

/// In a well-formed forest no two distinct nodes reconstruct the same key
/// expression: the tree is a correct trie.
pub proof fn lemma_distinct_paths<W>(
    s: Seq<GNode<W>>,
    prefix: Seq<Seq<u8>>,
    gn1: GNode<W>,
    gn2: GNode<W>,
)
    requires
        gsiblings_wf(s, prefix),
        gcontains(s, gn1),
        gcontains(s, gn2),
        gn1.path == gn2.path,
    ensures
        gn1 == gn2,
    decreases s,
{
    let i1 = choose|i: int|
        0 <= i < s.len() && (s[i] == gn1 || gcontains(s[i].children, gn1));
    let i2 = choose|i: int|
        0 <= i < s.len() && (s[i] == gn2 || gcontains(s[i].children, gn2));
    lemma_gcontains_extends(s[i1], gn1);
    lemma_gcontains_extends(s[i2], gn2);
    assert(s[i1].path == prefix.push(gchunk(s[i1])));
    assert(s[i2].path == prefix.push(gchunk(s[i2])));
    let d = prefix.len() as int;
    assert(gn1.path[d] == gchunk(s[i1])) by {
        assert(gn1.path.take(d + 1)[d] == s[i1].path[d]);
    }
    assert(gn2.path[d] == gchunk(s[i2])) by {
        assert(gn2.path.take(d + 1)[d] == s[i2].path[d]);
    }
    if i1 != i2 {
        assert(gchunk(s[i1]) != gchunk(s[i2]));
        assert(false);
    } else {
        let c = s[i1];
        if c == gn1 && c == gn2 {
        } else if c == gn1 {
            assert(gn2.path.len() > c.path.len());
            assert(false);
        } else if c == gn2 {
            assert(gn1.path.len() > c.path.len());
            assert(false);
        } else {
            lemma_distinct_paths(c.children, c.path, gn1, gn2);
        }
    }
}

/// In a well-formed forest, a contained node lies in the subtree of
/// exactly the top-level child its path names.
pub proof fn lemma_gcontains_at<W>(s: Seq<GNode<W>>, prefix: Seq<Seq<u8>>, gn: GNode<W>)
    requires
        gsiblings_wf(s, prefix),
        gcontains(s, gn),
    ensures
        gn.path.len() > prefix.len(),
        gn.path.take(prefix.len() as int) == prefix,
        gnode_wf(gn),
        ghas_child(s, gn.path[prefix.len() as int]),
        ({
            let t = gchild_idx(s, gn.path[prefix.len() as int]);
            &&& 0 <= t < s.len()
            &&& (s[t] == gn || gcontains(s[t].children, gn))
            &&& (s[t] == gn <==> gn.path.len() == prefix.len() + 1)
        }),
{
    let i = choose|i: int| 0 <= i < s.len() && (s[i] == gn || gcontains(s[i].children, gn));
    assert(s[i].path == prefix.push(gchunk(s[i])));
    lemma_gcontains_extends(s[i], gn);
    let d = prefix.len() as int;
    assert(gn.path[d] == gchunk(s[i])) by {
        assert(gn.path.take(d + 1)[d] == s[i].path[d]);
    }
    assert(gn.path.take(d) =~= prefix) by {
        assert forall|m: int| 0 <= m < d implies gn.path.take(d)[m] == prefix[m] by {
            assert(gn.path.take(d + 1)[m] == s[i].path[m]);
        }
    }
    assert(ghas_child(s, gn.path[d]));
    let t = gchild_idx(s, gn.path[d]);
    assert(0 <= t < s.len() && gchunk(s[t]) == gn.path[d]);
    assert(t == i) by {
        if t != i {
            assert(gchunk(s[t]) != gchunk(s[i]));
        }
    }
    if s[i] == gn {
        assert(gn.path.len() == prefix.len() + 1);
    } else {
        assert(gn.path.len() > s[i].path.len());
    }
}

/// A node found by descent stands in the forest.
pub proof fn lemma_glookup_gcontains<W>(s: Seq<GNode<W>>, ks: Seq<Seq<u8>>, i: int)
    requires
        glookup(s, ks, i) is Some,
    ensures
        gcontains(s, glookup(s, ks, i)->0),
    decreases ks.len() - i,
{
    let idx = gchild_idx(s, ks[i]);
    assert(0 <= idx < s.len());
    if i == ks.len() - 1 {
        assert(s[idx] == glookup(s, ks, i)->0);
    } else {
        lemma_glookup_gcontains(s[idx].children, ks, i + 1);
    }
}

/// A node contained in a well-formed forest is found by descending along
/// its own path.
pub proof fn lemma_gcontains_glookup<W>(s: Seq<GNode<W>>, prefix: Seq<Seq<u8>>, gn: GNode<W>)
    requires
        gsiblings_wf(s, prefix),
        gcontains(s, gn),
    ensures
        glookup(s, gn.path, prefix.len() as int) == Some(gn),
    decreases s,
{
    lemma_gcontains_at(s, prefix, gn);
    let d = prefix.len() as int;
    let t = gchild_idx(s, gn.path[d]);
    if s[t] == gn {
        assert(d == gn.path.len() - 1);
    } else {
        assert(gn.path.len() > d + 1);
        assert(s[t].path =~= gn.path.take(d + 1)) by {
            assert(s[t].path == prefix.push(gchunk(s[t])));
            assert(gchunk(s[t]) == gn.path[d]);
            assert forall|m: int| 0 <= m < d + 1 implies s[t].path[m] == gn.path.take(d + 1)[m] by {
                if m < d {
                    assert(s[t].path[m] == prefix[m]);
                    assert(gn.path.take(d)[m] == prefix[m]);
                }
            }
        }
        assert(gnode_wf(s[t]));
        lemma_gcontains_glookup(s[t].children, s[t].path, gn);
        assert(s[t].path.len() == d + 1);
    }
}

/// A node found by descending a well-formed forest along a path
/// reconstructs exactly that path, and is well-formed.
pub proof fn lemma_glookup_path<W>(s: Seq<GNode<W>>, ks: Seq<Seq<u8>>, i: int)
    requires
        0 <= i < ks.len(),
        gsiblings_wf(s, ks.take(i)),
        glookup(s, ks, i) is Some,
    ensures
        glookup(s, ks, i)->0.path == ks,
        gnode_wf(glookup(s, ks, i)->0),
    decreases ks.len() - i,
{
    let idx = gchild_idx(s, ks[i]);
    assert(0 <= idx < s.len() && gchunk(s[idx]) == ks[i]);
    let n = s[idx];
    assert(n.path == ks.take(i).push(gchunk(n)));
    if i == ks.len() - 1 {
        assert(n.path =~= ks);
    } else {
        assert(n.path =~= ks.take(i + 1)) by {
            assert(ks.take(i + 1) =~= ks.take(i).push(ks[i]));
        }
        lemma_glookup_path(n.children, ks, i + 1);
    }
}

/// A fresh chain is a well-formed node for the path `ks.take(i + 1)`.
proof fn lemma_gchain_wf<W>(ks: Seq<Seq<u8>>, i: int, w: W)
    requires
        valid_keyexpr(ks),
        0 <= i < ks.len(),
    ensures
        gnode_wf(gchain(ks, i, w)),
        gchain(ks, i, w).path == ks.take(i + 1),
        gchunk(gchain(ks, i, w)) == ks[i],
    decreases ks.len() - i,
{
    crate::keyexpr::lemma_take_valid(ks, i + 1);
    let n = gchain(ks, i, w);
    assert(n.path.last() == ks[i]);
    if i >= ks.len() - 1 {
    } else {
        lemma_gchain_wf(ks, i + 1, w);
        let c = gchain(ks, i + 1, w);
        assert(n.children[0] == c);
        assert(c.path =~= n.path.push(gchunk(c)));
    }
}

/// Descending a fresh chain along its own chunks reaches the node that
/// carries the inserted weight.
proof fn lemma_gchain_lookup<W>(ks: Seq<Seq<u8>>, i: int, w: W)
    requires
        0 <= i < ks.len(),
    ensures
        glookup(seq![gchain(ks, i, w)], ks, i) is Some,
        glookup(seq![gchain(ks, i, w)], ks, i)->0.weight == Some(w),
        glookup(seq![gchain(ks, i, w)], ks, i)->0.path == ks,
    decreases ks.len() - i,
{
    let s = seq![gchain(ks, i, w)];
    let n = gchain(ks, i, w);
    assert(gchunk(s[0]) == ks[i]) by {
        assert(n.path.last() == ks[i]);
    }
    assert(ghas_child(s, ks[i]));
    let idx = gchild_idx(s, ks[i]);
    assert(idx == 0);
    if i == ks.len() - 1 {
        assert(n.path =~= ks);
    } else {
        lemma_gchain_lookup(ks, i + 1, w);
        assert(n.children =~= seq![gchain(ks, i + 1, w)]);
    }
}

/// Inserting below a well-formed sibling forest keeps it well-formed.
pub proof fn lemma_ginsert_wf<W>(s: Seq<GNode<W>>, ks: Seq<Seq<u8>>, i: int, w: W)
    requires
        valid_keyexpr(ks),
        0 <= i < ks.len(),
        gsiblings_wf(s, ks.take(i)),
    ensures
        gsiblings_wf(ginsert(s, ks, i, w), ks.take(i)),
    decreases ks.len() - i,
{
    let s2 = ginsert(s, ks, i, w);
    let prefix = ks.take(i);
    if !ghas_child(s, ks[i]) {
        lemma_gchain_wf(ks, i, w);
        let c = gchain(ks, i, w);
        assert(c.path =~= prefix.push(ks[i]));
        assert(s2 == s.push(c));
        assert forall|k: int| 0 <= k < s2.len() implies (#[trigger] s2[k]).path == prefix.push(
            gchunk(s2[k]),
        ) && gnode_wf(s2[k]) by {
            if k < s.len() {
                assert(s2[k] == s[k]);
            } else {
                assert(s2[k] == c);
            }
        }
        assert forall|k: int, m: int|
            #![trigger gchunk(s2[k]), gchunk(s2[m])]
        0 <= k < m < s2.len() implies gchunk(s2[k]) != gchunk(s2[m]) by {
            if m < s.len() {
                assert(s2[k] == s[k] && s2[m] == s[m]);
            } else {
                assert(s2[k] == s[k] && s2[m] == c);
                assert(gchunk(s[k]) != ks[i]) by {
                    if gchunk(s[k]) == ks[i] {
                        assert(ghas_child(s, ks[i]));
                    }
                }
            }
        }
    } else {
        let idx = gchild_idx(s, ks[i]);
        assert(0 <= idx < s.len() && gchunk(s[idx]) == ks[i]);
        let n = s[idx];
        let n2 = if i == ks.len() - 1 {
            GNode { weight: Some(w), ..n }
        } else {
            GNode { children: ginsert(n.children, ks, i + 1, w), ..n }
        };
        assert(s2 == s.update(idx, n2));
        assert(n2.path == n.path && gchunk(n2) == gchunk(n));
        assert(gnode_wf(n2)) by {
            if i < ks.len() - 1 {
                assert(n.path =~= ks.take(i + 1)) by {
                    assert(n.path == prefix.push(gchunk(n)));
                    assert(ks.take(i + 1) =~= prefix.push(ks[i]));
                }
                lemma_ginsert_wf(n.children, ks, i + 1, w);
            }
        }
        assert forall|k: int| 0 <= k < s2.len() implies (#[trigger] s2[k]).path == prefix.push(
            gchunk(s2[k]),
        ) && gnode_wf(s2[k]) by {
            if k != idx {
                assert(s2[k] == s[k]);
            } else {
                assert(s2[k] == n2);
            }
        }
        assert forall|k: int, m: int|
            #![trigger gchunk(s2[k]), gchunk(s2[m])]
        0 <= k < m < s2.len() implies gchunk(s2[k]) != gchunk(s2[m]) by {
            assert(gchunk(s2[k]) == gchunk(s[k]) && gchunk(s2[m]) == gchunk(s[m]));
        }
    }
}

/// After an insert, looking the same path up finds a node that carries the
/// inserted weight and reconstructs exactly that path.
pub proof fn lemma_ginsert_lookup<W>(s: Seq<GNode<W>>, ks: Seq<Seq<u8>>, i: int, w: W)
    requires
        valid_keyexpr(ks),
        0 <= i < ks.len(),
        gsiblings_wf(s, ks.take(i)),
    ensures
        glookup(ginsert(s, ks, i, w), ks, i) is Some,
        glookup(ginsert(s, ks, i, w), ks, i)->0.weight == Some(w),
        glookup(ginsert(s, ks, i, w), ks, i)->0.path == ks,
    decreases ks.len() - i,
{
    let s2 = ginsert(s, ks, i, w);
    let prefix = ks.take(i);
    if !ghas_child(s, ks[i]) {
        lemma_gchain_wf(ks, i, w);
        let c = gchain(ks, i, w);
        assert(s2 == s.push(c));
        assert(gchunk(s2[s.len() as int]) == ks[i]) by {
            assert(s2[s.len() as int] == c);
        }
        assert(ghas_child(s2, ks[i]));
        let idx2 = gchild_idx(s2, ks[i]);
        assert(idx2 == s.len()) by {
            if idx2 < s.len() {
                assert(s2[idx2] == s[idx2]);
                assert(ghas_child(s, ks[i]));
            }
        }
        if i == ks.len() - 1 {
            assert(c.path =~= ks);
        } else {
            lemma_gchain_lookup(ks, i + 1, w);
            assert(c.children =~= seq![gchain(ks, i + 1, w)]);
        }
    } else {
        let idx = gchild_idx(s, ks[i]);
        assert(0 <= idx < s.len() && gchunk(s[idx]) == ks[i]);
        let n = s[idx];
        let n2 = if i == ks.len() - 1 {
            GNode { weight: Some(w), ..n }
        } else {
            GNode { children: ginsert(n.children, ks, i + 1, w), ..n }
        };
        assert(s2 == s.update(idx, n2));
        assert(gchunk(s2[idx]) == ks[i]);
        assert(ghas_child(s2, ks[i]));
        let idx2 = gchild_idx(s2, ks[i]);
        assert(idx2 == idx) by {
            assert(gchunk(s2[idx2]) == ks[i]);
            if idx2 != idx {
                assert(s2[idx2] == s[idx2]);
                assert(gchunk(s[idx2]) != gchunk(s[idx]));
            }
        }
        if i == ks.len() - 1 {
            assert(n2.path =~= ks) by {
                assert(n.path == prefix.push(gchunk(n)));
            }
        } else {
            assert(n.path =~= ks.take(i + 1)) by {
                assert(n.path == prefix.push(gchunk(n)));
                assert(ks.take(i + 1) =~= prefix.push(ks[i]));
            }
            lemma_ginsert_lookup(n.children, ks, i + 1, w);
        }
    }
}

/// After `insert(k, w)`, the node at `k` exists, reconstructs `k`, and
/// carries the weight `w`: the round-trip law of insertion.
pub proof fn lemma_insert_round_trip<W>(s: Seq<GNode<W>>, ks: Seq<Seq<u8>>, w: W)
    requires
        valid_keyexpr(ks),
        gsiblings_wf(s, Seq::empty()),
    ensures
        glookup(ginsert(s, ks, 0, w), ks, 0) is Some,
        glookup(ginsert(s, ks, 0, w), ks, 0)->0.path == ks,
        gweight(ginsert(s, ks, 0, w), ks) == Some(w),
        gsiblings_wf(ginsert(s, ks, 0, w), Seq::empty()),
{
    assert(ks.take(0) =~= Seq::<Seq<u8>>::empty());
    lemma_ginsert_lookup(s, ks, 0, w);
    lemma_ginsert_wf(s, ks, 0, w);
}

/// Removing a weight below a well-formed sibling forest keeps it
/// well-formed, and afterwards the path carries no weight.
pub proof fn lemma_gremove_wf<W>(s: Seq<GNode<W>>, ks: Seq<Seq<u8>>, i: int)
    requires
        valid_keyexpr(ks),
        0 <= i < ks.len(),
        gsiblings_wf(s, ks.take(i)),
    ensures
        gsiblings_wf(gremove(s, ks, i), ks.take(i)),
        gweight_from(gremove(s, ks, i), ks, i) is None,
    decreases ks.len() - i,
{
    let s2 = gremove(s, ks, i);
    let prefix = ks.take(i);
    if !ghas_child(s, ks[i]) {
        assert(!ghas_child(s2, ks[i]));
    } else {
        let idx = gchild_idx(s, ks[i]);
        assert(0 <= idx < s.len() && gchunk(s[idx]) == ks[i]);
        let n = s[idx];
        let n2 = if i == ks.len() - 1 {
            GNode { weight: None::<W>, ..n }
        } else {
            GNode { children: gremove(n.children, ks, i + 1), ..n }
        };
        assert(s2 == s.update(idx, n2));
        assert(n2.path == n.path && gchunk(n2) == gchunk(n));
        if i < ks.len() - 1 {
            assert(n.path =~= ks.take(i + 1)) by {
                assert(n.path == prefix.push(gchunk(n)));
                assert(ks.take(i + 1) =~= prefix.push(ks[i]));
            }
            lemma_gremove_wf(n.children, ks, i + 1);
        }
        assert(gnode_wf(n2));
        assert forall|k: int| 0 <= k < s2.len() implies (#[trigger] s2[k]).path == prefix.push(
            gchunk(s2[k]),
        ) && gnode_wf(s2[k]) by {
            if k != idx {
                assert(s2[k] == s[k]);
            } else {
                assert(s2[k] == n2);
            }
        }
        assert forall|k: int, m: int|
            #![trigger gchunk(s2[k]), gchunk(s2[m])]
        0 <= k < m < s2.len() implies gchunk(s2[k]) != gchunk(s2[m]) by {
            assert(gchunk(s2[k]) == gchunk(s[k]) && gchunk(s2[m]) == gchunk(s[m]));
        }
        assert(gchunk(s2[idx]) == ks[i]);
        assert(ghas_child(s2, ks[i]));
        let idx2 = gchild_idx(s2, ks[i]);
        assert(idx2 == idx) by {
            assert(gchunk(s2[idx2]) == ks[i]);
            if idx2 != idx {
                assert(s2[idx2] == s[idx2]);
                assert(gchunk(s[idx2]) != gchunk(s[idx]));
            }
        }
    }
}

/// A well-formed sibling forest stays well-formed when its last node is
/// dropped.
proof fn lemma_wf_drop_last<W>(s: Seq<GNode<W>>, prefix: Seq<Seq<u8>>)
    requires
        gsiblings_wf(s, prefix),
        s.len() > 0,
    ensures
        gsiblings_wf(s.drop_last(), prefix),
{
    let d = s.drop_last();
    assert forall|k: int| 0 <= k < d.len() implies (#[trigger] d[k]).path == prefix.push(
        gchunk(d[k]),
    ) && gnode_wf(d[k]) by {
        assert(d[k] == s[k]);
    }
    assert forall|k: int, m: int|
        #![trigger gchunk(d[k]), gchunk(d[m])]
    0 <= k < m < d.len() implies gchunk(d[k]) != gchunk(d[m]) by {
        assert(d[k] == s[k] && d[m] == s[m]);
    }
}

/// Pruning keeps a sibling forest well-formed; every surviving node keeps
/// its chunk from the original forest.
pub proof fn lemma_gprune_wf<W>(s: Seq<GNode<W>>, prefix: Seq<Seq<u8>>)
    requires
        gsiblings_wf(s, prefix),
    ensures
        gsiblings_wf(gprune(s), prefix),
        forall|k: int|
            0 <= k < gprune(s).len() ==> exists|m: int|
                0 <= m < s.len() && gchunk(#[trigger] gprune(s)[k]) == gchunk(s[m]),
    decreases s, 1int,
{
    let p = gprune(s);
    if s.len() == 0 {
    } else {
        lemma_wf_drop_last(s, prefix);
        lemma_gprune_wf(s.drop_last(), prefix);
        let rest = gprune(s.drop_last());
        let n = gprune_node(s.last());
        lemma_gprune_node_wf(s.last());
        assert(n.path == s.last().path && gchunk(n) == gchunk(s.last()));
        if glive(n) {
            assert(p == rest.push(n));
            assert forall|k: int| 0 <= k < p.len() implies (#[trigger] p[k]).path == prefix.push(
                gchunk(p[k]),
            ) && gnode_wf(p[k]) by {
                if k < rest.len() {
                    assert(p[k] == rest[k]);
                } else {
                    assert(p[k] == n);
                    assert(s.last().path == prefix.push(gchunk(s.last())));
                }
            }
            assert forall|k: int|
                0 <= k < p.len() implies exists|m: int|
                0 <= m < s.len() && gchunk(#[trigger] p[k]) == gchunk(s[m]) by {
                if k < rest.len() {
                    assert(p[k] == rest[k]);
                    let m = choose|m: int|
                        0 <= m < s.drop_last().len() && gchunk(rest[k]) == gchunk(
                            s.drop_last()[m],
                        );
                    assert(s.drop_last()[m] == s[m]);
                    assert(gchunk(p[k]) == gchunk(s[m]));
                } else {
                    assert(p[k] == n);
                    assert(gchunk(p[k]) == gchunk(s[s.len() - 1]));
                }
            }
            assert forall|k: int, m: int|
                #![trigger gchunk(p[k]), gchunk(p[m])]
            0 <= k < m < p.len() implies gchunk(p[k]) != gchunk(p[m]) by {
                if m < rest.len() {
                    assert(p[k] == rest[k] && p[m] == rest[m]);
                } else {
                    assert(p[k] == rest[k] && p[m] == n);
                    let q = choose|q: int|
                        0 <= q < s.drop_last().len() && gchunk(rest[k]) == gchunk(
                            s.drop_last()[q],
                        );
                    assert(s.drop_last()[q] == s[q]);
                    assert(gchunk(s[q]) != gchunk(s[s.len() - 1]));
                }
            }
        } else {
            assert(p == rest);
            assert forall|k: int|
                0 <= k < p.len() implies exists|m: int|
                0 <= m < s.len() && gchunk(#[trigger] p[k]) == gchunk(s[m]) by {
                let m = choose|m: int|
                    0 <= m < s.drop_last().len() && gchunk(rest[k]) == gchunk(s.drop_last()[m]);
                assert(s.drop_last()[m] == s[m]);
                assert(gchunk(p[k]) == gchunk(s[m]));
            }
        }
    }
}

/// Pruning keeps a well-formed node well-formed; its path is unchanged.
proof fn lemma_gprune_node_wf<W>(n: GNode<W>)
    requires
        gnode_wf(n),
    ensures
        gnode_wf(gprune_node(n)),
    decreases n, 0int,
{
    lemma_gprune_wf(n.children, n.path);
}

/// Pruning a forest twice is the same as pruning it once: the idempotence
/// law of pruning.
pub proof fn lemma_gprune_idempotent<W>(s: Seq<GNode<W>>)
    ensures
        gprune(gprune(s)) == gprune(s),
    decreases s, 1int,
{
    if s.len() == 0 {
        assert(gprune(gprune(s)) =~= gprune(s));
    } else {
        let rest = gprune(s.drop_last());
        let n = gprune_node(s.last());
        lemma_gprune_idempotent(s.drop_last());
        lemma_gprune_node_idempotent(s.last());
        if glive(n) {
            let p = rest.push(n);
            assert(p.drop_last() =~= rest);
            assert(p.last() == n);
            assert(gprune(p) == gprune(rest).push(gprune_node(n)));
            assert(gprune(p) =~= p);
        }
    }
}

/// Pruning one node's subtree twice is the same as pruning it once.
pub proof fn lemma_gprune_node_idempotent<W>(n: GNode<W>)
    ensures
        gprune_node(gprune_node(n)) == gprune_node(n),
    decreases n, 0int,
{
    lemma_gprune_idempotent(n.children);
    assert(gprune_node(gprune_node(n)) =~= gprune_node(n));
}

/// Inserting `w1` and then `w2` at the same path leaves the weight `w2`
/// there, and the second insertion finds `w1` as the prior weight: the
/// update-semantics law of insertion.
pub proof fn lemma_insert_update<W>(s: Seq<GNode<W>>, ks: Seq<Seq<u8>>, w1: W, w2: W)
    requires
        valid_keyexpr(ks),
        gsiblings_wf(s, Seq::empty()),
    ensures
        gweight(ginsert(s, ks, 0, w1), ks) == Some(w1),
        gweight(ginsert(ginsert(s, ks, 0, w1), ks, 0, w2), ks) == Some(w2),
{
    lemma_insert_round_trip(s, ks, w1);
    lemma_insert_round_trip(ginsert(s, ks, 0, w1), ks, w2);
}

/// Whether a node carries a weight, or some node below it does.
pub open spec fn ghas_weight_below<W>(n: GNode<W>) -> bool
    decreases n,
{
    n.weight is Some || exists|i: int|
        0 <= i < n.children.len() && ghas_weight_below(#[trigger] n.children[i])
}

/// If some node of a forest survives pruning, the pruned forest is not
/// empty.
proof fn lemma_some_live_survives<W>(s: Seq<GNode<W>>, m: int)
    requires
        0 <= m < s.len(),
        glive(gprune_node(s[m])),
    ensures
        gprune(s).len() > 0,
    decreases s,
{
    if m == s.len() - 1 {
    } else {
        lemma_some_live_survives(s.drop_last(), m);
        assert(s.drop_last()[m] == s[m]);
    }
}

/// If a pruned forest is empty, no node of the original forest survived.
proof fn lemma_empty_prune_all_dead<W>(s: Seq<GNode<W>>, m: int)
    requires
        0 <= m < s.len(),
        gprune(s).len() == 0,
    ensures
        !glive(gprune_node(s[m])),
    decreases s,
{
    if glive(gprune_node(s[m])) {
        lemma_some_live_survives(s, m);
    }
}

/// A node survives pruning exactly when it carries a weight or some node
/// below it does: pruning reclaims every node that carries no payload and
/// is not an ancestor of a weighted node, and nothing else.
pub proof fn lemma_glive_prune<W>(n: GNode<W>)
    ensures
        glive(gprune_node(n)) <==> ghas_weight_below(n),
    decreases n, 1int,
{
    if n.weight is Some {
    } else {
        if glive(gprune_node(n)) {
            assert(gprune(n.children).len() > 0);
            lemma_live_prune_forest(n.children);
            let i = choose|i: int|
                0 <= i < n.children.len() && glive(gprune_node(#[trigger] n.children[i]));
            lemma_glive_prune(n.children[i]);
            assert(ghas_weight_below(n.children[i]));
        }
        if ghas_weight_below(n) {
            let i = choose|i: int|
                0 <= i < n.children.len() && ghas_weight_below(#[trigger] n.children[i]);
            lemma_glive_prune(n.children[i]);
            lemma_some_live_survives(n.children, i);
        }
    }
}

/// A non-empty pruned forest means some original node survived.
proof fn lemma_live_prune_forest<W>(s: Seq<GNode<W>>)
    requires
        gprune(s).len() > 0,
    ensures
        exists|i: int| 0 <= i < s.len() && glive(gprune_node(#[trigger] s[i])),
    decreases s, 0int,
{
    if s.len() == 0 {
    } else if glive(gprune_node(s.last())) {
        assert(glive(gprune_node(s[s.len() - 1])));
    } else {
        lemma_live_prune_forest(s.drop_last());
        let i = choose|i: int|
            0 <= i < s.drop_last().len() && glive(gprune_node(#[trigger] s.drop_last()[i]));
        assert(s.drop_last()[i] == s[i]);
        assert(glive(gprune_node(s[i])));
    }
}

/// Every chunk of a pruned forest is the chunk of some original node, and
/// the surviving node for it is the pruned original.
proof fn lemma_gprune_chunks<W>(s: Seq<GNode<W>>, k: int)
    requires
        0 <= k < gprune(s).len(),
    ensures
        exists|m: int|
            0 <= m < s.len() && gprune(s)[k] == gprune_node(#[trigger] s[m]),
    decreases s,
{
    if s.len() == 0 {
    } else {
        let rest = gprune(s.drop_last());
        if glive(gprune_node(s.last())) && k == rest.len() {
            assert(gprune(s)[k] == gprune_node(s[s.len() - 1]));
        } else {
            lemma_gprune_chunks(s.drop_last(), k);
            let m = choose|m: int|
                0 <= m < s.drop_last().len() && gprune(s.drop_last())[k] == gprune_node(
                    #[trigger] s.drop_last()[m],
                );
            assert(s.drop_last()[m] == s[m]);
            assert(gprune(s)[k] == gprune_node(s[m]));
        }
    }
}

/// Every node of a pruned forest is live.
proof fn lemma_gprune_all_live<W>(s: Seq<GNode<W>>, k: int)
    requires
        0 <= k < gprune(s).len(),
    ensures
        glive(gprune(s)[k]),
    decreases s,
{
    if s.len() == 0 {
    } else {
        let rest = gprune(s.drop_last());
        if glive(gprune_node(s.last())) && k == rest.len() {
        } else {
            lemma_gprune_all_live(s.drop_last(), k);
        }
    }
}

/// How the child for a chunk fares under pruning: it survives, as its own
/// pruned subtree, exactly when it is live after pruning; chunks that had
/// no child still have none.
proof fn lemma_gprune_child<W>(s: Seq<GNode<W>>, prefix: Seq<Seq<u8>>, c: Seq<u8>)
    requires
        gsiblings_wf(s, prefix),
    ensures
        !ghas_child(s, c) ==> !ghas_child(gprune(s), c),
        ghas_child(s, c) && glive(gprune_node(s[gchild_idx(s, c)])) ==> ghas_child(gprune(s), c)
            && gprune(s)[gchild_idx(gprune(s), c)] == gprune_node(s[gchild_idx(s, c)]),
        ghas_child(s, c) && !glive(gprune_node(s[gchild_idx(s, c)])) ==> !ghas_child(gprune(s), c),
{
    let p = gprune(s);
    if !ghas_child(s, c) {
        if ghas_child(p, c) {
            let k = gchild_idx(p, c);
            assert(0 <= k < p.len() && gchunk(p[k]) == c);
            lemma_gprune_chunks(s, k);
            let m = choose|m: int|
                0 <= m < s.len() && p[k] == gprune_node(#[trigger] s[m]);
            assert(gchunk(s[m]) == c);
        }
    } else {
        let idx = gchild_idx(s, c);
        assert(0 <= idx < s.len() && gchunk(s[idx]) == c);
        let pn = gprune_node(s[idx]);
        assert(gchunk(pn) == c);
        if glive(pn) {
            lemma_prune_keeps_live(s, idx);
            let k = choose|k: int| 0 <= k < p.len() && #[trigger] p[k] == pn;
            assert(ghas_child(p, c));
            let k2 = gchild_idx(p, c);
            assert(0 <= k2 < p.len() && gchunk(p[k2]) == c);
            assert(p[k2] == pn) by {
                lemma_gprune_chunks(s, k2);
                let m2 = choose|m2: int|
                    0 <= m2 < s.len() && p[k2] == gprune_node(#[trigger] s[m2]);
                assert(gchunk(s[m2]) == c);
                assert(m2 == idx) by {
                    if m2 != idx {
                        assert(gchunk(s[m2]) != gchunk(s[idx]));
                    }
                }
            }
        } else {
            if ghas_child(p, c) {
                let k = gchild_idx(p, c);
                assert(0 <= k < p.len() && gchunk(p[k]) == c);
                lemma_gprune_chunks(s, k);
                let m = choose|m: int|
                    0 <= m < s.len() && p[k] == gprune_node(#[trigger] s[m]);
                assert(gchunk(s[m]) == c);
                assert(m == idx) by {
                    if m != idx {
                        assert(gchunk(s[m]) != gchunk(s[idx]));
                    }
                }
                lemma_gprune_all_live(s, k);
                assert(glive(p[k]));
            }
        }
    }
}

/// A node that survives pruning stands, pruned, in the pruned forest.
proof fn lemma_prune_keeps_live<W>(s: Seq<GNode<W>>, m: int)
    requires
        0 <= m < s.len(),
        glive(gprune_node(s[m])),
    ensures
        exists|k: int| 0 <= k < gprune(s).len() && #[trigger] gprune(s)[k] == gprune_node(s[m]),
    decreases s,
{
    let rest = gprune(s.drop_last());
    if m == s.len() - 1 {
        assert(gprune(s)[rest.len() as int] == gprune_node(s[m]));
    } else {
        lemma_prune_keeps_live(s.drop_last(), m);
        assert(s.drop_last()[m] == s[m]);
        let k = choose|k: int|
            0 <= k < rest.len() && #[trigger] rest[k] == gprune_node(s[m]);
        if glive(gprune_node(s.last())) {
            assert(gprune(s)[k] == gprune_node(s[m]));
        } else {
            assert(gprune(s)[k] == gprune_node(s[m]));
        }
    }
}

/// A forest whose pruning is empty carries no weight anywhere.
proof fn lemma_empty_prune_no_weight<W>(s: Seq<GNode<W>>, ks: Seq<Seq<u8>>, i: int)
    requires
        gprune(s).len() == 0,
    ensures
        gweight_from(s, ks, i) is None,
    decreases ks.len() - i,
{
    if i < 0 || i >= ks.len() || !ghas_child(s, ks[i]) {
    } else {
        let idx = gchild_idx(s, ks[i]);
        assert(0 <= idx < s.len());
        lemma_empty_prune_all_dead(s, idx);
        let n = s[idx];
        assert(n.weight is None);
        if i < ks.len() - 1 {
            if gprune(n.children).len() > 0 {
                lemma_live_prune_forest(n.children);
                let t = choose|t: int|
                    0 <= t < n.children.len() && glive(gprune_node(#[trigger] n.children[t]));
                lemma_some_live_survives(n.children, t);
                assert(glive(gprune_node(n)));
            }
            lemma_empty_prune_no_weight(n.children, ks, i + 1);
        }
    }
}

/// Pruning never changes the weight stored at any path: it removes only
/// structural nodes.
pub proof fn lemma_gprune_weight_from<W>(
    s: Seq<GNode<W>>,
    prefix: Seq<Seq<u8>>,
    ks: Seq<Seq<u8>>,
    i: int,
)
    requires
        gsiblings_wf(s, prefix),
    ensures
        gweight_from(gprune(s), ks, i) == gweight_from(s, ks, i),
    decreases ks.len() - i,
{
    if i < 0 || i >= ks.len() {
    } else {
        lemma_gprune_child(s, prefix, ks[i]);
        if !ghas_child(s, ks[i]) {
        } else {
            let idx = gchild_idx(s, ks[i]);
            let n = s[idx];
            assert(gnode_wf(n));
            let pn = gprune_node(n);
            if glive(pn) {
                let k = gchild_idx(gprune(s), ks[i]);
                assert(gprune(s)[k] == pn);
                if i == ks.len() - 1 {
                } else {
                    lemma_gprune_weight_from(n.children, n.path, ks, i + 1);
                }
            } else {
                assert(n.weight is None);
                if i < ks.len() - 1 {
                    if gprune(n.children).len() > 0 {
                        lemma_live_prune_forest(n.children);
                        let t = choose|t: int|
                            0 <= t < n.children.len() && glive(
                                gprune_node(#[trigger] n.children[t]),
                            );
                        lemma_some_live_survives(n.children, t);
                    }
                    lemma_empty_prune_no_weight(n.children, ks, i + 1);
                }
            }
        }
    }
}

/// Pruning a well-formed tree keeps every stored weight: the weight at
/// any key expression is the same before and after a prune.
pub proof fn lemma_gprune_weight<W>(s: Seq<GNode<W>>, ks: Seq<Seq<u8>>)
    requires
        gsiblings_wf(s, Seq::empty()),
    ensures
        gweight(gprune(s), ks) == gweight(s, ks),
{
    lemma_gprune_weight_from(s, Seq::empty(), ks, 0);
}

/// For wildcard-free key expressions, a stored key is among the keys
/// that intersect a queried key exactly when it is the queried key: the
/// membership predicate of an intersection query collapses to equality.
pub proof fn lemma_literal_query<W>(s: Seq<GNode<W>>, a: Seq<Seq<u8>>, b: Seq<Seq<u8>>)
    requires
        literal_keyexpr(a),
        literal_keyexpr(b),
        gweight(s, a) is Some,
    ensures
        (gweight(s, a) is Some && ke_intersects(a, b)) <==> a == b,
{
    lemma_literal_intersects(a, b);
}

} // verus!
