//! A disjoint-set (union-find) structure with path compression and union by
//! rank, verified against a mathematical model of its parent forest.
pub mod forest;
pub mod laws;
pub mod union_find;

pub use union_find::{UnionFind, UnionFindTrait};
