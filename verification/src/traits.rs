//! Capability traits for generic access to tree nodes.
//!
//! The tree algorithms of this crate work on [`crate::tree::Node`]
//! directly; these traits let embedding code (routing tables, dispatch
//! layers) abstract over how a node is reached: a wrapper type that can
//! hand out the node it stands for implements [`AsNode`] and
//! [`AsNodeMut`], and a node whose payload may be edited in place
//! implements [`IKeyExprTreeNodeMut`].

use vstd::prelude::*;
use crate::model::GNode;

verus! {

/// Mutable access to a tree node's payload. The node's place in the tree
/// (its path and children) is never changed through this trait.
pub trait IKeyExprTreeNodeMut<Weight>: Sized {
    /// The model of the node this value gives access to.
    spec fn node_model(&self) -> GNode<Weight>;

    /// Removes and returns the payload; the node stays, structural only.
    fn take_weight(&mut self) -> (r: Option<Weight>)
        ensures
            r == old(self).node_model().weight,
            final(self).node_model() == (GNode {
                weight: None::<Weight>,
                ..old(self).node_model()
            }),
    ;

    /// Sets the payload and returns the previous one, if any (replace
    /// semantics, not merge).
    fn insert_weight(&mut self, weight: Weight) -> (r: Option<Weight>)
        ensures
            r == old(self).node_model().weight,
            final(self).node_model() == (GNode {
                weight: Some(weight),
                ..old(self).node_model()
            }),
    ;
}

/// Selects the children-container type used for nodes of type `T`, so
/// that storage strategies can be swapped without changing the tree
/// algorithms.
pub trait IChildrenProvider<T> {
    /// The container type, constructible empty.
    type Assoc: Default;
}

/// Shared access to the node a value stands for.
pub trait AsNode<T> {
    /// The node this value stands for.
    spec fn as_node_spec(&self) -> T;

    /// Borrows the node this value stands for.
    fn as_node(&self) -> (r: &T)
        ensures
            *r == self.as_node_spec(),
    ;
}

/// Exclusive access to the node a value stands for.
pub trait AsNodeMut<T>: AsNode<T> {
    /// Borrows the node exclusively; what the caller makes of the node is
    /// what this value stands for afterwards.
    fn as_node_mut(&mut self) -> (r: &mut T)
        ensures
            *r == old(self).as_node_spec(),
            final(self).as_node_spec() == *final(r),
    ;
}

} // verus!
