//! The executable key-expression tree: a chunk-wise trie.
//!
//! Every operation is specified as an equation over the mathematical model
//! of [`crate::model`]: the view of a tree is the forest of [`GNode`]
//! values it stores.

use vstd::prelude::*;
use crate::keyexpr::{
    chunks_view,
    chunk_eq,
    copy_chunk_prefix,
    is_dbl_star,
    is_star,
    valid_keyexpr,
    OwnedKeyExpr,
};
use crate::matching::{chunk_includes, chunk_intersects, ke_includes, ke_intersects};
use crate::traits::{AsNode, AsNodeMut, IChildrenProvider, IKeyExprTreeNodeMut};
use crate::model::{
    gchain,
    gchild_idx,
    gchunk,
    ghas_child,
    ginsert,
    glive,
    glookup,
    gnode_wf,
    gprune,
    gprune_node,
    gremove,
    gsiblings_wf,
    gweight,
    gweight_from,
    GNode,
};
use crate::model::{gcontains, lemma_gcontains_at, lemma_gcontains_extends};
use crate::model::{lemma_gcontains_glookup, lemma_glookup_gcontains};
use crate::model::{
    lemma_ginsert_lookup,
    lemma_ginsert_wf,
    lemma_glookup_path,
    lemma_gprune_weight,
    lemma_gprune_wf,
    lemma_gremove_wf,
};

verus! {

/// One vertex of the tree: the full chunk path from the root (its
/// reconstructed key expression), an optional weight, and its children.
pub struct Node<W> {
    chunks: Vec<Vec<u8>>,
    weight: Option<W>,
    children: Children<W>,
}

/// The children container of one tree level: a set of nodes with pairwise
/// distinct chunks.
pub struct Children<W> {
    nodes: Vec<Node<W>>,
}

/// The key-expression tree: a root children container. Its view is the
/// forest of model nodes it stores, and it is well-formed at all times.
pub struct KeyExprTree<W> {
    children: Children<W>,
}

impl<W> Node<W> {
    /// The model of this node and its subtree.
    pub(crate) closed spec fn gview(self) -> GNode<W>
        decreases self,
    {
        GNode {
            path: chunks_view(self.chunks@),
            weight: self.weight,
            children: views_of(self.children.nodes@),
        }
    }
}

/// The models of a list of nodes, in order.
pub(crate) closed spec fn views_of<W>(s: Seq<Node<W>>) -> Seq<GNode<W>>
    decreases s,
{
    if s.len() == 0 {
        Seq::empty()
    } else {
        views_of(s.drop_last()).push(s.last().gview())
    }
}

/// A list of node models is as long as the list of nodes.
pub(crate) broadcast proof fn lemma_views_of_len<W>(s: Seq<Node<W>>)
    ensures
        #[trigger] views_of(s).len() == s.len(),
    decreases s,
{
    if s.len() == 0 {
    } else {
        lemma_views_of_len(s.drop_last());
    }
}

/// The model of the `i`-th node stands at position `i` of the model list.
pub(crate) broadcast proof fn lemma_views_of_index<W>(s: Seq<Node<W>>, i: int)
    requires
        0 <= i < s.len(),
    ensures
        #[trigger] views_of(s)[i] == s[i].gview(),
    decreases s,
{
    lemma_views_of_len(s.drop_last());
    if i == s.len() - 1 {
    } else {
        lemma_views_of_index(s.drop_last(), i);
        assert(s.drop_last()[i] == s[i]);
    }
}

/// All index and length facts about one list of node models.
pub(crate) proof fn views_facts<W>(s: Seq<Node<W>>)
    ensures
        views_of(s).len() == s.len(),
        forall|i: int| 0 <= i < s.len() ==> #[trigger] views_of(s)[i] == s[i].gview(),
{
    lemma_views_of_len(s);
    assert forall|i: int| 0 <= i < s.len() implies #[trigger] views_of(s)[i] == s[i].gview() by {
        lemma_views_of_index(s, i);
    }
}

impl<W> View for Node<W> {
    type V = GNode<W>;

    closed spec fn view(&self) -> GNode<W> {
        self.gview()
    }
}

impl<W> View for Children<W> {
    type V = Seq<GNode<W>>;

    closed spec fn view(&self) -> Seq<GNode<W>> {
        views_of(self.nodes@)
    }
}

impl<W> View for KeyExprTree<W> {
    type V = Seq<GNode<W>>;

    closed spec fn view(&self) -> Seq<GNode<W>> {
        self.children@
    }
}

impl<W> Node<W> {
    /// The chunk this node answers to: the last chunk of its path.
    pub fn chunk(&self) -> (r: &Vec<u8>)
        requires
            self@.path.len() >= 1,
        ensures
            r@ == gchunk(self@),
    {
        &self.chunks[self.chunks.len() - 1]
    }

    /// The weight stored at this node, if any.
    pub fn weight(&self) -> (r: Option<&W>)
        ensures
            r is Some <==> self@.weight is Some,
            r is Some ==> *r->0 == self@.weight->0,
    {
        self.weight.as_ref()
    }
}

/// Finds the position of the child answering to the chunk `c`, if any.
fn find_child_idx<W>(nodes: &Children<W>, c: &Vec<u8>) -> (r: Option<usize>)
    requires
        forall|m: int| 0 <= m < nodes@.len() ==> (#[trigger] nodes@[m]).path.len() >= 1,
    ensures
        match r {
            Some(j) => j < nodes@.len() && gchunk(nodes@[j as int]) == c@,
            None => !ghas_child(nodes@, c@),
        },
{
    proof {
        views_facts(nodes.nodes@);
    }
    let mut j: usize = 0;
    while j < nodes.nodes.len()
        invariant
            0 <= j <= nodes@.len(),
            nodes@.len() == nodes.nodes@.len(),
            forall|m: int| 0 <= m < nodes@.len() ==> (#[trigger] nodes@[m]).path.len() >= 1,
            forall|m: int| 0 <= m < j ==> gchunk(#[trigger] nodes@[m]) != c@,
        decreases nodes.nodes@.len() - j,
    {
        proof {
            views_facts(nodes.nodes@);
            assert(nodes@[j as int] == nodes.nodes@[j as int]@);
        }
        let node = &nodes.nodes[j];
        if chunk_eq(node.chunk(), c) {
            return Some(j);
        }
        j += 1;
    }
    None
}

/// Builds the fresh chain of nodes for the chunks `ks[i..]`, carrying the
/// weight at its deepest node.
fn new_chain<W>(ks: &Vec<Vec<u8>>, i: usize, weight: W) -> (r: Node<W>)
    requires
        i < ks@.len(),
    ensures
        r@ == gchain(chunks_view(ks@), i as int, weight),
    decreases ks@.len() - i,
{
    let n = ks.len();
    let chunks = copy_chunk_prefix(ks, i + 1);
    if i == n - 1 {
        let r = Node { chunks, weight: Some(weight), children: Children { nodes: Vec::new() } };
        proof {
            views_facts(r.children.nodes@);
            assert(r@.children =~= Seq::<GNode<W>>::empty());
            assert(r@ =~~= gchain(chunks_view(ks@), i as int, weight));
        }
        r
    } else {
        let child = new_chain(ks, i + 1, weight);
        let mut nodes: Vec<Node<W>> = Vec::new();
        nodes.push(child);
        let r = Node { chunks, weight: None, children: Children { nodes } };
        proof {
            views_facts(r.children.nodes@);
            assert(r@.children =~= seq![gchain(chunks_view(ks@), i as int + 1, weight)]);
            assert(r@ =~~= gchain(chunks_view(ks@), i as int, weight));
        }
        r
    }
}

/// Inserts the weight at the path `ks[i..]` below the sibling forest,
/// creating missing nodes, and returns the prior weight of the target
/// node.
fn insert_rec<W>(nodes: &mut Children<W>, ks: &Vec<Vec<u8>>, i: usize, weight: W) -> (prior: Option<
    W,
>)
    requires
        valid_keyexpr(chunks_view(ks@)),
        i < ks@.len(),
        gsiblings_wf(old(nodes)@, chunks_view(ks@).take(i as int)),
    ensures
        final(nodes)@ == ginsert(old(nodes)@, chunks_view(ks@), i as int, weight),
        prior == gweight_from(old(nodes)@, chunks_view(ks@), i as int),
    decreases ks@.len() - i,
{
    let ghost ksv = chunks_view(ks@);
    let ghost s = nodes@;
    let ghost svec = nodes.nodes@;
    proof {
        views_facts(svec);
    }
    match find_child_idx(nodes, &ks[i]) {
        None => {
            let chain = new_chain(ks, i, weight);
            nodes.nodes.push(chain);
            proof {
                views_facts(nodes.nodes@);
                assert(nodes.nodes@.drop_last() =~= svec);
                assert(nodes.nodes@.last() == chain);
                assert(nodes@ =~= s.push(gchain(ksv, i as int, weight)));
            }
            None
        },
        Some(j) => {
            proof {
                assert(ghas_child(s, ksv[i as int]));
                let idx = gchild_idx(s, ksv[i as int]);
                assert(gchunk(s[idx]) == ksv[i as int]);
                assert(idx == j) by {
                    if idx != j {
                        assert(gchunk(s[idx]) != gchunk(s[j as int]));
                    }
                }
            }
            if i == ks.len() - 1 {
                let node = &mut nodes.nodes[j];
                let prior = node.weight.take();
                node.weight = Some(weight);
                proof {
                    let fvec = nodes.nodes@;
                    views_facts(fvec);
                    assert(fvec[j as int].gview() =~~= GNode {
                        weight: Some(weight),
                        ..s[j as int]
                    });
                    assert(nodes@ =~= s.update(
                        j as int,
                        GNode { weight: Some(weight), ..s[j as int] },
                    ));
                }
                prior
            } else {
                proof {
                    assert(gnode_wf(s[j as int]));
                    assert(s[j as int].path =~= ksv.take(i as int + 1)) by {
                        assert(s[j as int].path == ksv.take(i as int).push(gchunk(s[j as int])));
                        assert(ksv.take(i as int + 1) =~= ksv.take(i as int).push(ksv[i as int]));
                    }
                }
                let node = &mut nodes.nodes[j];
                proof {
                    assert(node.gview() == s[j as int]);
                    assert(node.children@ == s[j as int].children);
                }
                let prior = insert_rec(&mut node.children, ks, i + 1, weight);
                proof {
                    let fvec = nodes.nodes@;
                    views_facts(fvec);
                    assert(fvec[j as int].gview() =~~= GNode {
                        children: ginsert(s[j as int].children, ksv, i as int + 1, weight),
                        ..s[j as int]
                    });
                    assert(nodes@ =~= s.update(
                        j as int,
                        GNode {
                            children: ginsert(s[j as int].children, ksv, i as int + 1, weight),
                            ..s[j as int]
                        },
                    ));
                }
                prior
            }
        },
    }
}


/// Descends from the sibling forest along the chunks `ks[i..]` and
/// returns a reference to the node reached, if the whole path exists.
fn find_node<'a, W>(nodes: &'a Children<W>, ks: &Vec<Vec<u8>>, i: usize) -> (r: Option<
    &'a Node<W>,
>)
    requires
        i < ks@.len(),
        gsiblings_wf(nodes@, chunks_view(ks@).take(i as int)),
    ensures
        r is Some <==> glookup(nodes@, chunks_view(ks@), i as int) is Some,
        r is Some ==> r->0@ == glookup(nodes@, chunks_view(ks@), i as int)->0,
    decreases ks@.len() - i,
{
    let ghost ksv = chunks_view(ks@);
    let ghost s = nodes@;
    proof {
        views_facts(nodes.nodes@);
    }
    match find_child_idx(nodes, &ks[i]) {
        None => None,
        Some(j) => {
            proof {
                assert(ghas_child(s, ksv[i as int]));
                let idx = gchild_idx(s, ksv[i as int]);
                assert(gchunk(s[idx]) == ksv[i as int]);
                assert(idx == j) by {
                    if idx != j {
                        assert(gchunk(s[idx]) != gchunk(s[j as int]));
                    }
                }
            }
            if i == ks.len() - 1 {
                Some(&nodes.nodes[j])
            } else {
                proof {
                    assert(gnode_wf(s[j as int]));
                    assert(s[j as int].path =~= ksv.take(i as int + 1)) by {
                        assert(s[j as int].path == ksv.take(i as int).push(gchunk(s[j as int])));
                        assert(ksv.take(i as int + 1) =~= ksv.take(i as int).push(ksv[i as int]));
                    }
                    assert(nodes.nodes@[j as int].children@ == s[j as int].children);
                }
                find_node(&nodes.nodes[j].children, ks, i + 1)
            }
        },
    }
}

/// Removes the weight at the path `ks[i..]` below the sibling forest,
/// leaving the structure unchanged, and returns the removed weight.
fn remove_rec<W>(nodes: &mut Children<W>, ks: &Vec<Vec<u8>>, i: usize) -> (removed: Option<W>)
    requires
        valid_keyexpr(chunks_view(ks@)),
        i < ks@.len(),
        gsiblings_wf(old(nodes)@, chunks_view(ks@).take(i as int)),
    ensures
        final(nodes)@ == gremove(old(nodes)@, chunks_view(ks@), i as int),
        removed == gweight_from(old(nodes)@, chunks_view(ks@), i as int),
    decreases ks@.len() - i,
{
    let ghost ksv = chunks_view(ks@);
    let ghost s = nodes@;
    let ghost svec = nodes.nodes@;
    proof {
        views_facts(svec);
    }
    match find_child_idx(nodes, &ks[i]) {
        None => None,
        Some(j) => {
            proof {
                assert(ghas_child(s, ksv[i as int]));
                let idx = gchild_idx(s, ksv[i as int]);
                assert(gchunk(s[idx]) == ksv[i as int]);
                assert(idx == j) by {
                    if idx != j {
                        assert(gchunk(s[idx]) != gchunk(s[j as int]));
                    }
                }
            }
            if i == ks.len() - 1 {
                let node = &mut nodes.nodes[j];
                let removed = node.weight.take();
                proof {
                    let fvec = nodes.nodes@;
                    views_facts(fvec);
                    assert(fvec[j as int].gview() =~~= GNode {
                        weight: None::<W>,
                        ..s[j as int]
                    });
                    assert(nodes@ =~= s.update(
                        j as int,
                        GNode { weight: None::<W>, ..s[j as int] },
                    ));
                }
                removed
            } else {
                proof {
                    assert(gnode_wf(s[j as int]));
                    assert(s[j as int].path =~= ksv.take(i as int + 1)) by {
                        assert(s[j as int].path == ksv.take(i as int).push(gchunk(s[j as int])));
                        assert(ksv.take(i as int + 1) =~= ksv.take(i as int).push(ksv[i as int]));
                    }
                }
                let node = &mut nodes.nodes[j];
                proof {
                    assert(node.gview() == s[j as int]);
                    assert(node.children@ == s[j as int].children);
                }
                let removed = remove_rec(&mut node.children, ks, i + 1);
                proof {
                    let fvec = nodes.nodes@;
                    views_facts(fvec);
                    assert(fvec[j as int].gview() =~~= GNode {
                        children: gremove(s[j as int].children, ksv, i as int + 1),
                        ..s[j as int]
                    });
                    assert(nodes@ =~= s.update(
                        j as int,
                        GNode {
                            children: gremove(s[j as int].children, ksv, i as int + 1),
                            ..s[j as int]
                        },
                    ));
                }
                removed
            }
        },
    }
}

/// Prunes a forest in place, post-order: children first, then every node
/// that carries no weight and has no surviving child is dropped.
fn prune_forest<W>(nodes: &mut Vec<Node<W>>)
    ensures
        views_of(final(nodes)@) == gprune(views_of(old(nodes)@)),
    decreases old(nodes)@,
{
    let ghost svec = old(nodes)@;
    match nodes.pop() {
        None => {
            proof {
                assert(views_of(svec) =~= Seq::<GNode<W>>::empty());
                assert(gprune(views_of(svec)) =~= Seq::<GNode<W>>::empty());
            }
        },
        Some(mut last) => {
            let ghost glast = last.gview();
            proof {
                assert(decreases_to!(svec => svec[svec.len() - 1]));
                assert(svec[svec.len() - 1] == last);
            }
            prune_forest(&mut last.children.nodes);
            proof {
                assert(last.gview() =~~= gprune_node(glast));
            }
            prune_forest(nodes);
            let ghost rest = nodes@;
            let live = last.weight.is_some() || last.children.nodes.len() > 0;
            proof {
                views_facts(last.children.nodes@);
                assert(live == glive(gprune_node(glast)));
            }
            if live {
                nodes.push(last);
                proof {
                    assert(nodes@.drop_last() =~= rest);
                    assert(nodes@.last() == last);
                }
            }
            proof {
                assert(views_of(svec).len() == svec.len()) by {
                    lemma_views_of_len(svec);
                }
                assert(views_of(svec).drop_last() =~= views_of(svec.drop_last())) by {
                    views_facts(svec);
                    views_facts(svec.drop_last());
                    assert forall|m: int| 0 <= m < svec.len() - 1 implies views_of(
                        svec.drop_last(),
                    )[m] == views_of(svec)[m] by {
                        assert(svec.drop_last()[m] == svec[m]);
                    }
                }
                assert(views_of(svec).last() == glast) by {
                    views_facts(svec);
                }
                assert(views_of(nodes@) =~= gprune(views_of(svec)));
            }
        },
    }
}

/// Collects references to every node of the sibling forest, depth-first:
/// each node of the forest appears exactly once among the appended
/// entries.
fn collect_all<'a, W>(
    nodes: &'a Vec<Node<W>>,
    Ghost(prefix): Ghost<Seq<Seq<u8>>>,
    out: &mut Vec<&'a Node<W>>,
)
    requires
        gsiblings_wf(views_of(nodes@), prefix),
    ensures
        final(out)@.len() >= old(out)@.len(),
        forall|m: int| 0 <= m < old(out)@.len() ==> final(out)@[m] == old(out)@[m],
        forall|m: int|
            old(out)@.len() <= m < final(out)@.len() ==> gcontains(
                views_of(nodes@),
                (#[trigger] final(out)@[m])@,
            ) && gnode_wf(final(out)@[m]@),
        forall|gn: GNode<W>|
            gcontains(views_of(nodes@), gn) ==> exists|m: int|
                old(out)@.len() <= m < final(out)@.len() && (#[trigger] final(out)@[m])@ == gn,
        forall|m1: int, m2: int|
            old(out)@.len() <= m1 < m2 < final(out)@.len() ==> (#[trigger] final(out)@[m1])@.path
                != (#[trigger] final(out)@[m2])@.path,
    decreases nodes@,
{
    let ghost vs = views_of(nodes@);
    let ghost base = out@;
    proof {
        views_facts(nodes@);
    }
    let mut j: usize = 0;
    while j < nodes.len()
        invariant
            0 <= j <= nodes@.len(),
            vs == views_of(nodes@),
            vs.len() == nodes@.len(),
            forall|m: int| 0 <= m < nodes@.len() ==> vs[m] == (#[trigger] nodes@[m])@,
            gsiblings_wf(vs, prefix),
            out@.len() >= base.len(),
            forall|m: int| 0 <= m < base.len() ==> out@[m] == base[m],
            forall|m: int|
                base.len() <= m < out@.len() ==> gcontains(
                    vs.take(j as int),
                    (#[trigger] out@[m])@,
                ) && gnode_wf(out@[m]@),
            forall|gn: GNode<W>|
                gcontains(vs.take(j as int), gn) ==> exists|m: int|
                    base.len() <= m < out@.len() && (#[trigger] out@[m])@ == gn,
            forall|m1: int, m2: int|
                base.len() <= m1 < m2 < out@.len() ==> (#[trigger] out@[m1])@.path != (
                #[trigger] out@[m2])@.path,
        decreases nodes@.len() - j,
    {
        let ghost out_mid = out@;
        let ghost jj = j as int;
        let node = &nodes[j];
        proof {
            assert(node@ == vs[jj]);
            assert(gnode_wf(vs[jj]));
            assert(decreases_to!(nodes@ => nodes@[jj]));
        }
        out.push(node);
        let ghost out_pushed = out@;
        collect_all(&node.children.nodes, Ghost(node@.path), out);
        proof {
            let cs = views_of(node.children.nodes@);
            assert(cs == vs[jj].children);
            let d = prefix.len() as int;
            // the take-prefix of the forest grows by one subtree
            assert(vs.take(jj + 1).drop_last() =~= vs.take(jj));
            assert(vs.take(jj + 1).last() == vs[jj]);
            // soundness of every appended entry, over the grown prefix
            assert forall|m: int|
                base.len() <= m < out@.len() implies gcontains(
                vs.take(jj + 1),
                (#[trigger] out@[m])@,
            ) && gnode_wf(out@[m]@) by {
                if m < out_mid.len() {
                    assert(out@[m] == out_mid[m]);
                    assert(gcontains(vs.take(jj), out@[m]@));
                    let t = choose|t: int|
                        0 <= t < vs.take(jj).len() && (vs.take(jj)[t] == out@[m]@ || gcontains(
                            vs.take(jj)[t].children,
                            out@[m]@,
                        ));
                    assert(vs.take(jj + 1)[t] == vs.take(jj)[t]);
                    assert(gcontains(vs.take(jj + 1), out@[m]@));
                } else if m == out_mid.len() {
                    assert(out@[m] == node);
                    assert(vs.take(jj + 1)[jj] == vs[jj]);
                    assert(gcontains(vs.take(jj + 1), out@[m]@));
                } else {
                    assert(gcontains(cs, out@[m]@));
                    assert(vs.take(jj + 1)[jj] == vs[jj]);
                    assert(gcontains(vs.take(jj + 1), out@[m]@));
                }
            }
            // completeness over the grown prefix
            assert forall|gn: GNode<W>| #[trigger]
            gcontains(vs.take(jj + 1), gn) implies exists|m: int|
                base.len() <= m < out@.len() && (#[trigger] out@[m])@ == gn by {
                let t = choose|t: int|
                    #![trigger vs.take(jj + 1)[t]]
                    0 <= t < vs.take(jj + 1).len() && (vs.take(jj + 1)[t] == gn || gcontains(
                        vs.take(jj + 1)[t].children,
                        gn,
                    ));
                if t < jj {
                    assert(vs.take(jj)[t] == vs.take(jj + 1)[t]);
                    assert(gcontains(vs.take(jj), gn));
                    let m = choose|m: int|
                        base.len() <= m < out_mid.len() && (#[trigger] out_mid[m])@ == gn;
                    assert(out@[m] == out_mid[m]);
                } else {
                    assert(vs.take(jj + 1)[t] == vs[jj]);
                    if vs[jj] == gn {
                        assert((out@[out_mid.len() as int])@ == gn);
                    } else {
                        assert(gcontains(cs, gn));
                        let m = choose|m: int|
                            out_pushed.len() <= m < out@.len() && (#[trigger] out@[m])@ == gn;
                        assert((out@[m])@ == gn);
                    }
                }
            }
            // pairwise distinct paths among the appended entries
            assert forall|m1: int, m2: int|
                base.len() <= m1 < m2 < out@.len() implies (#[trigger] out@[m1])@.path != (
            #[trigger] out@[m2])@.path by {
                if m2 < out_mid.len() {
                    assert(out@[m1] == out_mid[m1] && out@[m2] == out_mid[m2]);
                } else if m1 >= out_pushed.len() {
                } else if m1 == out_mid.len() && m2 >= out_pushed.len() {
                    // the node itself against one of its descendants
                    assert(gcontains(cs, out@[m2]@));
                    lemma_gcontains_at(cs, vs[jj].path, out@[m2]@);
                    assert(out@[m2]@.path.len() > vs[jj].path.len());
                } else {
                    // an entry of an earlier subtree against one of this round
                    assert(out@[m1] == out_mid[m1]);
                    assert(gcontains(vs.take(jj), out@[m1]@));
                    assert(gsiblings_wf(vs.take(jj), prefix)) by {
                        assert forall|k: int| 0 <= k < jj implies (#[trigger] vs.take(jj)[k]).path
                            == prefix.push(gchunk(vs.take(jj)[k])) && gnode_wf(vs.take(jj)[k]) by {
                            assert(vs.take(jj)[k] == vs[k]);
                        }
                        assert forall|k: int, l: int|
                            #![trigger gchunk(vs.take(jj)[k]), gchunk(vs.take(jj)[l])]
                        0 <= k < l < jj implies gchunk(vs.take(jj)[k]) != gchunk(
                            vs.take(jj)[l],
                        ) by {
                            assert(vs.take(jj)[k] == vs[k] && vs.take(jj)[l] == vs[l]);
                        }
                    }
                    lemma_gcontains_at(vs.take(jj), prefix, out@[m1]@);
                    let t1 = gchild_idx(vs.take(jj), out@[m1]@.path[d]);
                    assert(vs.take(jj)[t1] == vs[t1]);
                    assert(out@[m1]@.path[d] == gchunk(vs[t1]));
                    assert(gchunk(vs[t1]) != gchunk(vs[jj]));
                    if m2 == out_mid.len() {
                        assert(out@[m2]@ == vs[jj]);
                        assert(out@[m2]@.path == prefix.push(gchunk(vs[jj])));
                        assert(out@[m2]@.path[d] == gchunk(vs[jj]));
                    } else {
                        assert(gcontains(cs, out@[m2]@));
                        lemma_gcontains_extends(vs[jj], out@[m2]@);
                        assert(out@[m2]@.path[d] == gchunk(vs[jj])) by {
                            assert(out@[m2]@.path.take(vs[jj].path.len() as int)[d] == vs[
                                jj
                            ].path[d]);
                        }
                    }
                    assert(out@[m1]@.path[d] != out@[m2]@.path[d]);
                }
            }
        }
        j += 1;
    }
    proof {
        assert(vs.take(nodes@.len() as int) =~= vs);
    }
}

impl<W> Node<W> {
    /// The full key expression this node stands for, reconstructed from
    /// its stored path; equals the expression used when the node was
    /// created by an insertion.
    pub fn keyexpr(&self) -> (r: OwnedKeyExpr)
        requires
            valid_keyexpr(self@.path),
        ensures
            r@ == self@.path,
    {
        let chunks = copy_chunk_prefix(&self.chunks, self.chunks.len());
        proof {
            assert(chunks_view(chunks@) =~= self@.path);
        }
        OwnedKeyExpr::from_valid_chunks(chunks)
    }

    /// Read access to this node's children container.
    pub fn children(&self) -> (r: &Children<W>)
        ensures
            r@ == self@.children,
    {
        &self.children
    }

    /// Exclusive access to this node's children container.
    pub fn children_mut(&mut self) -> (r: &mut Children<W>)
        ensures
            r@ == old(self)@.children,
            final(self)@ == (GNode { children: final(r)@, ..old(self)@ }),
            final(self)@.path == old(self)@.path,
            final(self)@.weight == old(self)@.weight,
    {
        &mut self.children
    }
}

impl<W> Node<W> {
    /// A standalone node for the key expression `at`, carrying `weight`
    /// and no children; the unit from which trees are grown, and the form
    /// in which a detached child is handed back.
    pub fn new(at: &OwnedKeyExpr, weight: Option<W>) -> (r: Node<W>)
        ensures
            r@ == (GNode { path: at@, weight, children: Seq::<GNode<W>>::empty() }),
            gnode_wf(r@),
    {
        let ks = at.chunks();
        let chunks = copy_chunk_prefix(ks, ks.len());
        let r = Node { chunks, weight, children: Children { nodes: Vec::new() } };
        proof {
            assert(chunks_view(chunks@) =~= at@);
            assert(r@.children =~= Seq::<GNode<W>>::empty());
            assert(r@ =~~= (GNode { path: at@, weight, children: Seq::<GNode<W>>::empty() }));
        }
        r
    }
}

impl<W> IKeyExprTreeNodeMut<W> for Node<W> {
    open spec fn node_model(&self) -> GNode<W> {
        self@
    }

    fn take_weight(&mut self) -> (r: Option<W>) {
        self.weight.take()
    }

    fn insert_weight(&mut self, weight: W) -> (r: Option<W>) {
        let prior = self.weight.take();
        self.weight = Some(weight);
        prior
    }
}

impl<W> AsNode<Node<W>> for Node<W> {
    open spec fn as_node_spec(&self) -> Node<W> {
        *self
    }

    fn as_node(&self) -> (r: &Node<W>) {
        self
    }
}

impl<W> AsNodeMut<Node<W>> for Node<W> {
    fn as_node_mut(&mut self) -> (r: &mut Node<W>) {
        self
    }
}

impl<W> Default for Children<W> {
    /// An empty children container.
    fn default() -> (r: Self)
        ensures
            r@ == Seq::<GNode<W>>::empty(),
    {
        let r = Children { nodes: Vec::new() };
        proof {
            assert(r@ =~= Seq::<GNode<W>>::empty());
        }
        r
    }
}

/// The default storage strategy: one flat vector of children per level.
pub struct DefaultChildrenProvider;

impl<W> IChildrenProvider<Node<W>> for DefaultChildrenProvider {
    type Assoc = Children<W>;
}

impl<W> Children<W> {
    /// The number of direct children.
    pub fn len(&self) -> (n: usize)
        ensures
            n == self@.len(),
    {
        proof {
            views_facts(self.nodes@);
        }
        self.nodes.len()
    }

    /// Whether there is no child.
    pub fn is_empty(&self) -> (r: bool)
        ensures
            r <==> self@.len() == 0,
    {
        self.len() == 0
    }


    /// References to all direct children, in storage order.
    pub fn children(&self) -> (r: Vec<&Node<W>>)
        ensures
            r@.len() == self@.len(),
            forall|m: int| 0 <= m < r@.len() ==> (#[trigger] r@[m])@ == self@[m],
    {
        proof {
            views_facts(self.nodes@);
        }
        let mut r: Vec<&Node<W>> = Vec::new();
        let mut j: usize = 0;
        while j < self.nodes.len()
            invariant
                0 <= j <= self.nodes@.len(),
                self@.len() == self.nodes@.len(),
                forall|m: int| 0 <= m < self@.len() ==> self@[m] == (#[trigger] self.nodes@[m])@,
                r@.len() == j,
                forall|m: int| 0 <= m < j ==> (#[trigger] r@[m])@ == self@[m],
            decreases self.nodes@.len() - j,
        {
            r.push(&self.nodes[j]);
            j += 1;
        }
        r
    }

    /// The child answering to exactly the literal chunk `chunk`, if any.
    /// No wildcard interpretation happens here.
    pub fn child_at(&self, chunk: &Vec<u8>) -> (r: Option<&Node<W>>)
        requires
            forall|m: int| 0 <= m < self@.len() ==> (#[trigger] self@[m]).path.len() >= 1,
        ensures
            r is Some <==> ghas_child(self@, chunk@),
            r is Some ==> gchunk(r->0@) == chunk@ && exists|t: int|
                0 <= t < self@.len() && (#[trigger] self@[t]) == r->0@,
    {
        proof {
            views_facts(self.nodes@);
        }
        match find_child_idx(self, chunk) {
            None => None,
            Some(j) => {
                proof {
                    assert(self@[j as int] == self.nodes@[j as int]@);
                }
                Some(&self.nodes[j])
            },
        }
    }

    /// Detaches and returns the child answering to the chunk `chunk`.
    /// This does not recurse: any cascading cleanup is the caller's
    /// business.
    pub fn remove(&mut self, chunk: &Vec<u8>) -> (r: Option<Node<W>>)
        requires
            forall|m: int| 0 <= m < old(self)@.len() ==> (#[trigger] old(self)@[m]).path.len()
                >= 1,
        ensures
            r is Some <==> ghas_child(old(self)@, chunk@),
            r is None ==> final(self)@ == old(self)@,
            r is Some ==> gchunk(r->0@) == chunk@ && exists|t: int|
                0 <= t < old(self)@.len() && old(self)@[t] == r->0@ && final(self)@ == old(
                    self,
                )@.remove(t),
    {
        let ghost svec = self.nodes@;
        proof {
            views_facts(svec);
        }
        match find_child_idx(self, chunk) {
            None => None,
            Some(j) => {
                let node = self.nodes.remove(j);
                proof {
                    views_facts(self.nodes@);
                    assert(node == svec[j as int]);
                    assert(views_of(self.nodes@) =~= views_of(svec).remove(j as int)) by {
                        assert forall|m: int|
                            0 <= m < self.nodes@.len() implies views_of(self.nodes@)[m]
                            == views_of(svec).remove(j as int)[m] by {
                            if m < j {
                                assert(self.nodes@[m] == svec[m]);
                            } else {
                                assert(self.nodes@[m] == svec[m + 1]);
                            }
                        }
                    }
                }
                Some(node)
            },
        }
    }

    /// The children whose chunk intersects the single chunk `chunk` under
    /// chunk-intersection semantics: `*` intersects every chunk, a
    /// literal chunk intersects only itself. Multi-level wildcards are
    /// resolved at the tree layer, never here.
    pub fn intersection(&self, chunk: &Vec<u8>) -> (r: Vec<&Node<W>>)
        requires
            forall|m: int| 0 <= m < self@.len() ==> (#[trigger] self@[m]).path.len() >= 1,
        ensures
            forall|m: int|
                0 <= m < r@.len() ==> chunk_intersects(gchunk((#[trigger] r@[m])@), chunk@)
                    && exists|t: int| 0 <= t < self@.len() && (#[trigger] self@[t]) == r@[m]@,
            forall|t: int|
                0 <= t < self@.len() && chunk_intersects(gchunk(#[trigger] self@[t]), chunk@)
                    ==> exists|m: int| 0 <= m < r@.len() && (#[trigger] r@[m])@ == self@[t],
    {
        proof {
            views_facts(self.nodes@);
        }
        let mut r: Vec<&Node<W>> = Vec::new();
        let mut j: usize = 0;
        while j < self.nodes.len()
            invariant
                0 <= j <= self.nodes@.len(),
                self@.len() == self.nodes@.len(),
                forall|m: int| 0 <= m < self@.len() ==> (#[trigger] self@[m]).path.len() >= 1,
                forall|m: int| 0 <= m < self@.len() ==> self@[m] == (#[trigger] self.nodes@[m])@,
                forall|m: int|
                    0 <= m < r@.len() ==> chunk_intersects(gchunk((#[trigger] r@[m])@), chunk@)
                        && exists|t: int| 0 <= t < self@.len() && (#[trigger] self@[t]) == r@[m]@,
                forall|t: int|
                    0 <= t < j && chunk_intersects(gchunk(#[trigger] self@[t]), chunk@)
                        ==> exists|m: int| 0 <= m < r@.len() && (#[trigger] r@[m])@ == self@[t],
            decreases self.nodes@.len() - j,
        {
            let ghost r0 = r@;
            let ghost jj = j as int;
            let node = &self.nodes[j];
            if chunk_eq(node.chunk(), chunk) || is_star(node.chunk()) || is_star(chunk) {
                r.push(node);
            }
            proof {
                assert forall|t: int|
                    0 <= t < jj + 1 && chunk_intersects(
                        gchunk(#[trigger] self@[t]),
                        chunk@,
                    ) implies exists|m: int|
                    0 <= m < r@.len() && (#[trigger] r@[m])@ == self@[t] by {
                    if t < jj {
                        let m = choose|m: int|
                            0 <= m < r0.len() && (#[trigger] r0[m])@ == self@[t];
                        assert(r@[m] == r0[m]);
                    } else {
                        assert(r@[r0.len() as int]@ == self@[jj]);
                    }
                }
            }
            j += 1;
        }
        r
    }

    /// The children whose chunk is covered by the single pattern chunk
    /// `chunk` under chunk-inclusion semantics: `*` covers every chunk
    /// that spans one level, a literal chunk covers only itself.
    pub fn inclusion(&self, chunk: &Vec<u8>) -> (r: Vec<&Node<W>>)
        requires
            forall|m: int| 0 <= m < self@.len() ==> (#[trigger] self@[m]).path.len() >= 1,
        ensures
            forall|m: int|
                0 <= m < r@.len() ==> chunk_includes(chunk@, gchunk((#[trigger] r@[m])@))
                    && exists|t: int| 0 <= t < self@.len() && (#[trigger] self@[t]) == r@[m]@,
            forall|t: int|
                0 <= t < self@.len() && chunk_includes(chunk@, gchunk(#[trigger] self@[t]))
                    ==> exists|m: int| 0 <= m < r@.len() && (#[trigger] r@[m])@ == self@[t],
    {
        proof {
            views_facts(self.nodes@);
        }
        let mut r: Vec<&Node<W>> = Vec::new();
        let mut j: usize = 0;
        while j < self.nodes.len()
            invariant
                0 <= j <= self.nodes@.len(),
                self@.len() == self.nodes@.len(),
                forall|m: int| 0 <= m < self@.len() ==> (#[trigger] self@[m]).path.len() >= 1,
                forall|m: int| 0 <= m < self@.len() ==> self@[m] == (#[trigger] self.nodes@[m])@,
                forall|m: int|
                    0 <= m < r@.len() ==> chunk_includes(chunk@, gchunk((#[trigger] r@[m])@))
                        && exists|t: int| 0 <= t < self@.len() && (#[trigger] self@[t]) == r@[m]@,
                forall|t: int|
                    0 <= t < j && chunk_includes(chunk@, gchunk(#[trigger] self@[t]))
                        ==> exists|m: int| 0 <= m < r@.len() && (#[trigger] r@[m])@ == self@[t],
            decreases self.nodes@.len() - j,
        {
            let ghost r0 = r@;
            let ghost jj = j as int;
            let node = &self.nodes[j];
            if chunk_eq(node.chunk(), chunk) || (is_star(chunk) && !is_dbl_star(node.chunk())) {
                r.push(node);
            }
            proof {
                assert forall|t: int|
                    0 <= t < jj + 1 && chunk_includes(
                        chunk@,
                        gchunk(#[trigger] self@[t]),
                    ) implies exists|m: int|
                    0 <= m < r@.len() && (#[trigger] r@[m])@ == self@[t] by {
                    if t < jj {
                        let m = choose|m: int|
                            0 <= m < r0.len() && (#[trigger] r0[m])@ == self@[t];
                        assert(r@[m] == r0[m]);
                    } else {
                        assert(r@[r0.len() as int]@ == self@[jj]);
                    }
                }
            }
            j += 1;
        }
        r
    }
}

impl<W> KeyExprTree<W> {
    /// The tree's well-formedness: it is a trie of valid key-expression
    /// paths. Established by construction and preserved by every
    /// operation.
    #[verifier::type_invariant]
    closed spec fn inv(self) -> bool {
        gsiblings_wf(self@, Seq::empty())
    }

    /// An empty tree.
    pub fn new() -> (r: Self)
        ensures
            r@ == Seq::<GNode<W>>::empty(),
    {
        let r = KeyExprTree { children: Children { nodes: Vec::new() } };
        proof {
            assert(r@ =~= Seq::<GNode<W>>::empty());
        }
        r
    }

    /// Inserts `weight` at the key expression `at`, creating the missing
    /// nodes of the path, and returns the weight previously stored there,
    /// if any (update semantics: replace, not merge).
    pub fn insert(&mut self, at: &OwnedKeyExpr, weight: W) -> (prior: Option<W>)
        ensures
            final(self)@ == ginsert(old(self)@, at@, 0, weight),
            prior == gweight(old(self)@, at@),
            gweight(final(self)@, at@) == Some(weight),
    {
        proof {
            use_type_invariant(&*self);
        }
        let ghost s = self@;
        let ks = at.chunks();
        let mut ch = Children { nodes: Vec::new() };
        proof {
            assert(views_of(ch.nodes@) =~= Seq::<GNode<W>>::empty());
        }
        core::mem::swap(&mut ch, &mut self.children);
        proof {
            assert(at@.take(0) =~= Seq::<Seq<u8>>::empty());
        }
        let prior = insert_rec(&mut ch, ks, 0, weight);
        proof {
            lemma_ginsert_wf(s, at@, 0, weight);
            lemma_ginsert_lookup(s, at@, 0, weight);
        }
        self.children = ch;
        prior
    }

    /// The node at the key expression `at`, if that exact path exists in
    /// the tree (no wildcard interpretation: a purely literal descent).
    pub fn node(&self, at: &OwnedKeyExpr) -> (r: Option<&Node<W>>)
        ensures
            r is Some <==> glookup(self@, at@, 0) is Some,
            r is Some ==> r->0@ == glookup(self@, at@, 0)->0,
            r is Some ==> r->0@.path == at@ && gnode_wf(r->0@),
    {
        proof {
            use_type_invariant(&*self);
        }
        let ks = at.chunks();
        proof {
            assert(at@.take(0) =~= Seq::<Seq<u8>>::empty());
        }
        let r = find_node(&self.children, ks, 0);
        proof {
            if glookup(self@, at@, 0) is Some {
                lemma_glookup_path(self@, at@, 0);
            }
        }
        r
    }

    /// The weight stored at the key expression `at`, if any.
    pub fn weight_at(&self, at: &OwnedKeyExpr) -> (r: Option<&W>)
        ensures
            r is Some <==> gweight(self@, at@) is Some,
            r is Some ==> *r->0 == gweight(self@, at@)->0,
    {
        match self.node(at) {
            None => None,
            Some(n) => n.weight(),
        }
    }

    /// Removes and returns the weight at the key expression `at`. The
    /// node itself is kept, as a structural node: reclaiming dead
    /// branches is [`KeyExprTree::prune`]'s job, and never implicit.
    pub fn remove(&mut self, at: &OwnedKeyExpr) -> (removed: Option<W>)
        ensures
            final(self)@ == gremove(old(self)@, at@, 0),
            removed == gweight(old(self)@, at@),
            gweight(final(self)@, at@) is None,
    {
        proof {
            use_type_invariant(&*self);
        }
        let ghost s = self@;
        let ks = at.chunks();
        let mut ch = Children { nodes: Vec::new() };
        proof {
            assert(views_of(ch.nodes@) =~= Seq::<GNode<W>>::empty());
        }
        core::mem::swap(&mut ch, &mut self.children);
        proof {
            assert(at@.take(0) =~= Seq::<Seq<u8>>::empty());
        }
        let removed = remove_rec(&mut ch, ks, 0);
        proof {
            lemma_gremove_wf(s, at@, 0);
        }
        self.children = ch;
        removed
    }

    /// Prunes the tree: removes, bottom-up, every node that carries no
    /// weight and has no surviving child. Weighted nodes and their
    /// ancestors survive; pruning twice is the same as pruning once.
    pub fn prune(&mut self)
        ensures
            final(self)@ == gprune(old(self)@),
            forall|p: Seq<Seq<u8>>| #[trigger]
                gweight(final(self)@, p) == gweight(old(self)@, p),
    {
        proof {
            use_type_invariant(&*self);
        }
        let ghost s = self@;
        let mut ch = Children { nodes: Vec::new() };
        proof {
            assert(views_of(ch.nodes@) =~= Seq::<GNode<W>>::empty());
        }
        core::mem::swap(&mut ch, &mut self.children);
        prune_forest(&mut ch.nodes);
        proof {
            lemma_gprune_wf(s, Seq::empty());
            assert forall|p: Seq<Seq<u8>>| #[trigger]
                gweight(gprune(s), p) == gweight(s, p) by {
                lemma_gprune_weight(s, p);
            }
        }
        self.children = ch;
    }

    /// References to every node of the tree, in depth-first order: both
    /// weighted and structural nodes, each exactly once.
    pub fn tree_iter(&self) -> (r: Vec<&Node<W>>)
        ensures
            forall|m: int|
                0 <= m < r@.len() ==> gcontains(self@, (#[trigger] r@[m])@) && gnode_wf(r@[m]@),
            forall|gn: GNode<W>|
                gcontains(self@, gn) ==> exists|m: int|
                    0 <= m < r@.len() && (#[trigger] r@[m])@ == gn,
            forall|m1: int, m2: int|
                0 <= m1 < m2 < r@.len() ==> (#[trigger] r@[m1])@.path != (#[trigger] r@[
                    m2
                ])@.path,
    {
        proof {
            use_type_invariant(&*self);
        }
        let mut r: Vec<&Node<W>> = Vec::new();
        collect_all(&self.children.nodes, Ghost(Seq::empty()), &mut r);
        r
    }

    /// References to every node of the tree whose reconstructed key
    /// expression intersects `key`, under full multi-chunk intersection
    /// semantics (`**` spans any number of levels on either side).
    #[verifier::rlimit(50)]
    pub fn intersecting_nodes(&self, key: &OwnedKeyExpr) -> (r: Vec<&Node<W>>)
        ensures
            forall|m: int|
                0 <= m < r@.len() ==> gcontains(self@, (#[trigger] r@[m])@) && gnode_wf(r@[m]@)
                    && ke_intersects(r@[m]@.path, key@),
            forall|gn: GNode<W>|
                gcontains(self@, gn) && ke_intersects(gn.path, key@) ==> exists|m: int|
                    0 <= m < r@.len() && (#[trigger] r@[m])@ == gn,
            forall|m1: int, m2: int|
                0 <= m1 < m2 < r@.len() ==> (#[trigger] r@[m1])@.path != (#[trigger] r@[
                    m2
                ])@.path,
    {
        let all = self.tree_iter();
        let kchunks = key.chunks();
        let mut r: Vec<&Node<W>> = Vec::new();
        let mut j: usize = 0;
        while j < all.len()
            invariant
                0 <= j <= all@.len(),
                forall|m: int|
                    0 <= m < all@.len() ==> gcontains(self@, (#[trigger] all@[m])@) && gnode_wf(
                        all@[m]@,
                    ),
                forall|m1: int, m2: int|
                    0 <= m1 < m2 < all@.len() ==> (#[trigger] all@[m1])@.path != (#[trigger] all@[
                        m2
                    ])@.path,
                chunks_view(kchunks@) == key@,
                forall|m: int|
                    0 <= m < r@.len() ==> ke_intersects((#[trigger] r@[m])@.path, key@)
                        && exists|t: int| 0 <= t < j && (#[trigger] all@[t]) == r@[m],
                forall|t: int|
                    0 <= t < j && ke_intersects((#[trigger] all@[t])@.path, key@) ==> exists|
                        m: int,
                    |
                        0 <= m < r@.len() && (#[trigger] r@[m]) == all@[t],
                forall|m1: int, m2: int|
                    0 <= m1 < m2 < r@.len() ==> (#[trigger] r@[m1])@.path != (#[trigger] r@[
                        m2
                    ])@.path,
            decreases all@.len() - j,
        {
            let ghost r0 = r@;
            let ghost jj = j as int;
            let node = all[j];
            if crate::matching::ke_intersects_at(&node.chunks, kchunks, 0, 0) {
                r.push(node);
            }
            proof {
                assert forall|t: int|
                    0 <= t < jj + 1 && ke_intersects(
                        (#[trigger] all@[t])@.path,
                        key@,
                    ) implies exists|m: int| 0 <= m < r@.len() && (#[trigger] r@[m]) == all@[t] by {
                    if t < jj {
                        let m = choose|m: int|
                            0 <= m < r0.len() && (#[trigger] r0[m]) == all@[t];
                        assert(r@[m] == r0[m]);
                    } else {
                        assert(r@[r0.len() as int] == all@[jj]);
                    }
                }
                assert forall|m1: int, m2: int|
                    0 <= m1 < m2 < r@.len() implies (#[trigger] r@[m1])@.path != (#[trigger] r@[
                    m2
                ])@.path by {
                    if m2 < r0.len() {
                        assert(r@[m1] == r0[m1] && r@[m2] == r0[m2]);
                    } else {
                        assert(r@[m1] == r0[m1]);
                        let t1 = choose|t: int| 0 <= t < jj && (#[trigger] all@[t]) == r0[m1];
                        assert(r@[m2] == all@[jj]);
                        assert(all@[t1]@.path != all@[jj]@.path);
                    }
                }
            }
            j += 1;
        }
        r
    }

    /// References to every node of the tree whose reconstructed key
    /// expression is covered by the pattern `key` (the key acts as the
    /// covering pattern).
    #[verifier::rlimit(50)]
    pub fn included_nodes(&self, key: &OwnedKeyExpr) -> (r: Vec<&Node<W>>)
        ensures
            forall|m: int|
                0 <= m < r@.len() ==> gcontains(self@, (#[trigger] r@[m])@) && gnode_wf(r@[m]@)
                    && ke_includes(key@, r@[m]@.path),
            forall|gn: GNode<W>|
                gcontains(self@, gn) && ke_includes(key@, gn.path) ==> exists|m: int|
                    0 <= m < r@.len() && (#[trigger] r@[m])@ == gn,
            forall|m1: int, m2: int|
                0 <= m1 < m2 < r@.len() ==> (#[trigger] r@[m1])@.path != (#[trigger] r@[
                    m2
                ])@.path,
    {
        let all = self.tree_iter();
        let kchunks = key.chunks();
        let mut r: Vec<&Node<W>> = Vec::new();
        let mut j: usize = 0;
        while j < all.len()
            invariant
                0 <= j <= all@.len(),
                forall|m: int|
                    0 <= m < all@.len() ==> gcontains(self@, (#[trigger] all@[m])@) && gnode_wf(
                        all@[m]@,
                    ),
                forall|m1: int, m2: int|
                    0 <= m1 < m2 < all@.len() ==> (#[trigger] all@[m1])@.path != (#[trigger] all@[
                        m2
                    ])@.path,
                chunks_view(kchunks@) == key@,
                forall|m: int|
                    0 <= m < r@.len() ==> ke_includes(key@, (#[trigger] r@[m])@.path)
                        && exists|t: int| 0 <= t < j && (#[trigger] all@[t]) == r@[m],
                forall|t: int|
                    0 <= t < j && ke_includes(key@, (#[trigger] all@[t])@.path) ==> exists|m: int|
                        0 <= m < r@.len() && (#[trigger] r@[m]) == all@[t],
                forall|m1: int, m2: int|
                    0 <= m1 < m2 < r@.len() ==> (#[trigger] r@[m1])@.path != (#[trigger] r@[
                        m2
                    ])@.path,
            decreases all@.len() - j,
        {
            let ghost r0 = r@;
            let ghost jj = j as int;
            let node = all[j];
            if crate::matching::ke_includes_at(kchunks, &node.chunks, 0, 0) {
                r.push(node);
            }
            proof {
                assert forall|t: int|
                    0 <= t < jj + 1 && ke_includes(
                        key@,
                        (#[trigger] all@[t])@.path,
                    ) implies exists|m: int| 0 <= m < r@.len() && (#[trigger] r@[m]) == all@[t] by {
                    if t < jj {
                        let m = choose|m: int|
                            0 <= m < r0.len() && (#[trigger] r0[m]) == all@[t];
                        assert(r@[m] == r0[m]);
                    } else {
                        assert(r@[r0.len() as int] == all@[jj]);
                    }
                }
                assert forall|m1: int, m2: int|
                    0 <= m1 < m2 < r@.len() implies (#[trigger] r@[m1])@.path != (#[trigger] r@[
                    m2
                ])@.path by {
                    if m2 < r0.len() {
                        assert(r@[m1] == r0[m1] && r@[m2] == r0[m2]);
                    } else {
                        assert(r@[m1] == r0[m1]);
                        let t1 = choose|t: int| 0 <= t < jj && (#[trigger] all@[t]) == r0[m1];
                        assert(r@[m2] == all@[jj]);
                        assert(all@[t1]@.path != all@[jj]@.path);
                    }
                }
            }
            j += 1;
        }
        r
    }

    /// The key expressions of every weighted node whose key intersects
    /// `key`, each exactly once.
    #[verifier::rlimit(50)]
    pub fn intersecting_keys(&self, key: &OwnedKeyExpr) -> (r: Vec<OwnedKeyExpr>)
        ensures
            forall|m: int|
                0 <= m < r@.len() ==> gweight(self@, (#[trigger] r@[m])@) is Some && ke_intersects(
                    r@[m]@,
                    key@,
                ),
            forall|p: Seq<Seq<u8>>|
                gweight(self@, p) is Some && ke_intersects(p, key@) ==> exists|m: int|
                    0 <= m < r@.len() && (#[trigger] r@[m])@ == p,
            forall|m1: int, m2: int|
                0 <= m1 < m2 < r@.len() ==> (#[trigger] r@[m1])@ != (#[trigger] r@[m2])@,
    {
        proof {
            use_type_invariant(&*self);
        }
        let nodes = self.intersecting_nodes(key);
        let mut r: Vec<OwnedKeyExpr> = Vec::new();
        let mut j: usize = 0;
        while j < nodes.len()
            invariant
                0 <= j <= nodes@.len(),
                gsiblings_wf(self@, Seq::empty()),
                forall|m: int|
                    0 <= m < nodes@.len() ==> gcontains(self@, (#[trigger] nodes@[m])@)
                        && gnode_wf(nodes@[m]@) && ke_intersects(nodes@[m]@.path, key@),
                forall|m1: int, m2: int|
                    0 <= m1 < m2 < nodes@.len() ==> (#[trigger] nodes@[m1])@.path != (
                    #[trigger] nodes@[m2])@.path,
                forall|m: int|
                    0 <= m < r@.len() ==> gweight(self@, (#[trigger] r@[m])@) is Some
                        && ke_intersects(r@[m]@, key@),
                forall|t: int|
                    0 <= t < j && (#[trigger] nodes@[t])@.weight is Some ==> exists|m: int|
                        0 <= m < r@.len() && (#[trigger] r@[m])@ == nodes@[t]@.path,
                forall|m1: int, m2: int|
                    0 <= m1 < m2 < r@.len() ==> (#[trigger] r@[m1])@ != (#[trigger] r@[m2])@,
                forall|m: int|
                    0 <= m < r@.len() ==> exists|t: int|
                        0 <= t < j && (#[trigger] r@[m])@ == nodes@[t]@.path,
            decreases nodes@.len() - j,
        {
            let ghost r0 = r@;
            let ghost jj = j as int;
            let node = nodes[j];
            if node.weight.is_some() {
                r.push(node.keyexpr());
                proof {
                    lemma_gcontains_glookup(self@, Seq::empty(), node@);
                }
            }
            proof {
                assert forall|t: int|
                    0 <= t < jj + 1 && (#[trigger] nodes@[t])@.weight is Some implies exists|
                    m: int,
                |
                    0 <= m < r@.len() && (#[trigger] r@[m])@ == nodes@[t]@.path by {
                    if t < jj {
                        let m = choose|m: int|
                            0 <= m < r0.len() && (#[trigger] r0[m])@ == nodes@[t]@.path;
                        assert(r@[m] == r0[m]);
                    } else {
                        assert(r@[r0.len() as int]@ == nodes@[jj]@.path);
                    }
                }
                assert forall|m1: int, m2: int|
                    0 <= m1 < m2 < r@.len() implies (#[trigger] r@[m1])@ != (#[trigger] r@[
                    m2
                ])@ by {
                    if m2 < r0.len() {
                        assert(r@[m1] == r0[m1] && r@[m2] == r0[m2]);
                    } else {
                        assert(r@[m1] == r0[m1]);
                        let t1 = choose|t: int|
                            0 <= t < jj && (#[trigger] r0[m1])@ == nodes@[t]@.path;
                        assert(r@[m2]@ == nodes@[jj]@.path);
                        assert(nodes@[t1]@.path != nodes@[jj]@.path);
                    }
                }
                assert forall|m: int| 0 <= m < r@.len() implies exists|t: int|
                    0 <= t < jj + 1 && (#[trigger] r@[m])@ == nodes@[t]@.path by {
                    if m < r0.len() {
                        let t = choose|t: int|
                            0 <= t < jj && (#[trigger] r0[m])@ == nodes@[t]@.path;
                        assert(r@[m] == r0[m]);
                        assert(r@[m]@ == nodes@[t]@.path);
                    } else {
                        assert(r@[m]@ == nodes@[jj]@.path);
                    }
                }
            }
            j += 1;
        }
        proof {
            assert forall|p: Seq<Seq<u8>>|
                gweight(self@, p) is Some && ke_intersects(p, key@) implies exists|m: int|
                0 <= m < r@.len() && (#[trigger] r@[m])@ == p by {
                assert(p.len() > 0);
                assert(p.take(0) =~= Seq::<Seq<u8>>::empty());
                let n = glookup(self@, p, 0)->0;
                lemma_glookup_gcontains(self@, p, 0);
                lemma_glookup_path(self@, p, 0);
                let t = choose|t: int| 0 <= t < nodes@.len() && (#[trigger] nodes@[t])@ == n;
            }
        }
        r
    }

    /// The key expressions of every weighted node whose key is covered by
    /// the pattern `key`, each exactly once.
    #[verifier::rlimit(50)]
    pub fn included_keys(&self, key: &OwnedKeyExpr) -> (r: Vec<OwnedKeyExpr>)
        ensures
            forall|m: int|
                0 <= m < r@.len() ==> gweight(self@, (#[trigger] r@[m])@) is Some && ke_includes(
                    key@,
                    r@[m]@,
                ),
            forall|p: Seq<Seq<u8>>|
                gweight(self@, p) is Some && ke_includes(key@, p) ==> exists|m: int|
                    0 <= m < r@.len() && (#[trigger] r@[m])@ == p,
            forall|m1: int, m2: int|
                0 <= m1 < m2 < r@.len() ==> (#[trigger] r@[m1])@ != (#[trigger] r@[m2])@,
    {
        proof {
            use_type_invariant(&*self);
        }
        let nodes = self.included_nodes(key);
        let mut r: Vec<OwnedKeyExpr> = Vec::new();
        let mut j: usize = 0;
        while j < nodes.len()
            invariant
                0 <= j <= nodes@.len(),
                gsiblings_wf(self@, Seq::empty()),
                forall|m: int|
                    0 <= m < nodes@.len() ==> gcontains(self@, (#[trigger] nodes@[m])@)
                        && gnode_wf(nodes@[m]@) && ke_includes(key@, nodes@[m]@.path),
                forall|m1: int, m2: int|
                    0 <= m1 < m2 < nodes@.len() ==> (#[trigger] nodes@[m1])@.path != (
                    #[trigger] nodes@[m2])@.path,
                forall|m: int|
                    0 <= m < r@.len() ==> gweight(self@, (#[trigger] r@[m])@) is Some
                        && ke_includes(key@, r@[m]@),
                forall|t: int|
                    0 <= t < j && (#[trigger] nodes@[t])@.weight is Some ==> exists|m: int|
                        0 <= m < r@.len() && (#[trigger] r@[m])@ == nodes@[t]@.path,
                forall|m1: int, m2: int|
                    0 <= m1 < m2 < r@.len() ==> (#[trigger] r@[m1])@ != (#[trigger] r@[m2])@,
                forall|m: int|
                    0 <= m < r@.len() ==> exists|t: int|
                        0 <= t < j && (#[trigger] r@[m])@ == nodes@[t]@.path,
            decreases nodes@.len() - j,
        {
            let ghost r0 = r@;
            let ghost jj = j as int;
            let node = nodes[j];
            if node.weight.is_some() {
                r.push(node.keyexpr());
                proof {
                    lemma_gcontains_glookup(self@, Seq::empty(), node@);
                }
            }
            proof {
                assert forall|t: int|
                    0 <= t < jj + 1 && (#[trigger] nodes@[t])@.weight is Some implies exists|
                    m: int,
                |
                    0 <= m < r@.len() && (#[trigger] r@[m])@ == nodes@[t]@.path by {
                    if t < jj {
                        let m = choose|m: int|
                            0 <= m < r0.len() && (#[trigger] r0[m])@ == nodes@[t]@.path;
                        assert(r@[m] == r0[m]);
                    } else {
                        assert(r@[r0.len() as int]@ == nodes@[jj]@.path);
                    }
                }
                assert forall|m1: int, m2: int|
                    0 <= m1 < m2 < r@.len() implies (#[trigger] r@[m1])@ != (#[trigger] r@[
                    m2
                ])@ by {
                    if m2 < r0.len() {
                        assert(r@[m1] == r0[m1] && r@[m2] == r0[m2]);
                    } else {
                        assert(r@[m1] == r0[m1]);
                        let t1 = choose|t: int|
                            0 <= t < jj && (#[trigger] r0[m1])@ == nodes@[t]@.path;
                        assert(r@[m2]@ == nodes@[jj]@.path);
                        assert(nodes@[t1]@.path != nodes@[jj]@.path);
                    }
                }
                assert forall|m: int| 0 <= m < r@.len() implies exists|t: int|
                    0 <= t < jj + 1 && (#[trigger] r@[m])@ == nodes@[t]@.path by {
                    if m < r0.len() {
                        let t = choose|t: int|
                            0 <= t < jj && (#[trigger] r0[m])@ == nodes@[t]@.path;
                        assert(r@[m] == r0[m]);
                        assert(r@[m]@ == nodes@[t]@.path);
                    } else {
                        assert(r@[m]@ == nodes@[jj]@.path);
                    }
                }
            }
            j += 1;
        }
        proof {
            assert forall|p: Seq<Seq<u8>>|
                gweight(self@, p) is Some && ke_includes(key@, p) implies exists|m: int|
                0 <= m < r@.len() && (#[trigger] r@[m])@ == p by {
                assert(p.len() > 0);
                assert(p.take(0) =~= Seq::<Seq<u8>>::empty());
                let n = glookup(self@, p, 0)->0;
                lemma_glookup_gcontains(self@, p, 0);
                lemma_glookup_path(self@, p, 0);
                let t = choose|t: int| 0 <= t < nodes@.len() && (#[trigger] nodes@[t])@ == n;
            }
        }
        r
    }

    /// Every (key expression, weight) pair stored in the tree, each key
    /// exactly once.
    #[verifier::rlimit(50)]
    pub fn key_value_pairs(&self) -> (r: Vec<(OwnedKeyExpr, &W)>)
        ensures
            forall|m: int|
                0 <= m < r@.len() ==> gweight(self@, (#[trigger] r@[m]).0@) == Some(*r@[m].1),
            forall|p: Seq<Seq<u8>>|
                gweight(self@, p) is Some ==> exists|m: int|
                    0 <= m < r@.len() && (#[trigger] r@[m]).0@ == p,
            forall|m1: int, m2: int|
                0 <= m1 < m2 < r@.len() ==> (#[trigger] r@[m1]).0@ != (#[trigger] r@[m2]).0@,
    {
        proof {
            use_type_invariant(&*self);
        }
        let nodes = self.tree_iter();
        let mut r: Vec<(OwnedKeyExpr, &W)> = Vec::new();
        let mut j: usize = 0;
        while j < nodes.len()
            invariant
                0 <= j <= nodes@.len(),
                gsiblings_wf(self@, Seq::empty()),
                forall|m: int|
                    0 <= m < nodes@.len() ==> gcontains(self@, (#[trigger] nodes@[m])@)
                        && gnode_wf(nodes@[m]@),
                forall|m1: int, m2: int|
                    0 <= m1 < m2 < nodes@.len() ==> (#[trigger] nodes@[m1])@.path != (
                    #[trigger] nodes@[m2])@.path,
                forall|m: int|
                    0 <= m < r@.len() ==> gweight(self@, (#[trigger] r@[m]).0@) == Some(*r@[m].1),
                forall|t: int|
                    0 <= t < j && (#[trigger] nodes@[t])@.weight is Some ==> exists|m: int|
                        0 <= m < r@.len() && (#[trigger] r@[m]).0@ == nodes@[t]@.path,
                forall|m1: int, m2: int|
                    0 <= m1 < m2 < r@.len() ==> (#[trigger] r@[m1]).0@ != (#[trigger] r@[m2]).0@,
                forall|m: int|
                    0 <= m < r@.len() ==> exists|t: int|
                        0 <= t < j && (#[trigger] r@[m]).0@ == nodes@[t]@.path,
            decreases nodes@.len() - j,
        {
            let ghost r0 = r@;
            let ghost jj = j as int;
            let node = nodes[j];
            match node.weight() {
                Some(w) => {
                    r.push((node.keyexpr(), w));
                    proof {
                        lemma_gcontains_glookup(self@, Seq::empty(), node@);
                    }
                },
                None => {},
            }
            proof {
                assert forall|t: int|
                    0 <= t < jj + 1 && (#[trigger] nodes@[t])@.weight is Some implies exists|
                    m: int,
                |
                    0 <= m < r@.len() && (#[trigger] r@[m]).0@ == nodes@[t]@.path by {
                    if t < jj {
                        let m = choose|m: int|
                            0 <= m < r0.len() && (#[trigger] r0[m]).0@ == nodes@[t]@.path;
                        assert(r@[m] == r0[m]);
                    } else {
                        assert(r@[r0.len() as int].0@ == nodes@[jj]@.path);
                    }
                }
                assert forall|m1: int, m2: int|
                    0 <= m1 < m2 < r@.len() implies (#[trigger] r@[m1]).0@ != (#[trigger] r@[
                    m2
                ]).0@ by {
                    if m2 < r0.len() {
                        assert(r@[m1] == r0[m1] && r@[m2] == r0[m2]);
                    } else {
                        assert(r@[m1] == r0[m1]);
                        let t1 = choose|t: int|
                            0 <= t < jj && (#[trigger] r0[m1]).0@ == nodes@[t]@.path;
                        assert(r@[m2].0@ == nodes@[jj]@.path);
                        assert(nodes@[t1]@.path != nodes@[jj]@.path);
                    }
                }
                assert forall|m: int| 0 <= m < r@.len() implies exists|t: int|
                    0 <= t < jj + 1 && (#[trigger] r@[m]).0@ == nodes@[t]@.path by {
                    if m < r0.len() {
                        let t = choose|t: int|
                            0 <= t < jj && (#[trigger] r0[m]).0@ == nodes@[t]@.path;
                        assert(r@[m] == r0[m]);
                        assert(r@[m].0@ == nodes@[t]@.path);
                    } else {
                        assert(r@[m].0@ == nodes@[jj]@.path);
                    }
                }
            }
            j += 1;
        }
        proof {
            assert forall|p: Seq<Seq<u8>>| gweight(self@, p) is Some implies exists|m: int|
                0 <= m < r@.len() && (#[trigger] r@[m]).0@ == p by {
                assert(p.len() > 0);
                assert(p.take(0) =~= Seq::<Seq<u8>>::empty());
                let n = glookup(self@, p, 0)->0;
                lemma_glookup_gcontains(self@, p, 0);
                lemma_glookup_path(self@, p, 0);
                let t = choose|t: int| 0 <= t < nodes@.len() && (#[trigger] nodes@[t])@ == n;
            }
        }
        r
    }
}

} // verus!



