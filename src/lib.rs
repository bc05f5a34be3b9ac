//! A disjoint-set (union-find) structure with full path compression and a
//! size-summing union, so that the rank of a representative is the size of
//! its set.

pub mod disjoint_sets;
pub mod laws;
pub mod node;
pub mod union_find;

pub use disjoint_sets::DisjointSets;
pub use node::Node;
pub use union_find::{Error, UnionFind};
