//! A key-expression tree: a chunk-wise trie that maps hierarchical,
//! wildcard-capable routing keys (`a/b/*/d`) to caller-supplied weights,
//! and answers intersection and inclusion queries in either direction
//! (pattern against stored keys, key against stored patterns).
//!
//! The crate is organised bottom-up:
//! - [`keyexpr`] defines the key-expression grammar and the validated
//!   [`keyexpr::OwnedKeyExpr`] type;
//! - [`matching`] defines the intersection and inclusion relations between
//!   key expressions, with verified executable deciders;
//! - [`model`] is the mathematical model of the tree, over which every
//!   tree operation is specified;
//! - [`tree`] holds the executable trie and its operations;
//! - [`traits`] holds the capability traits through which nodes are
//!   accessed generically;
//! - [`link`] holds the decision kernel of the transport-link message
//!   dispatcher that embeds the tree.

pub mod keyexpr;
pub mod link;
pub mod matching;
pub mod model;
pub mod traits;
pub mod tree;

