//! A persistent, metric-indexed B-tree: the storage engine of a text rope.
//!
//! The tree stores leaves of any type that implements [`tree::Leaf`], caches
//! an aggregated summary in every node and answers position queries in any
//! [`tree::Metric`] defined over those summaries.
pub mod rope;
pub mod tree;
