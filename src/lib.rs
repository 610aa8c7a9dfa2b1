//! A lazily evaluated, memoizing computation graph.
//!
//! Nodes live in an arena and are addressed by index. Interior nodes read
//! one or two upstream nodes, cache their last result, and are told by their
//! upstream nodes when that result goes stale.

pub mod cache;
pub mod graph;
pub mod node;

pub use cache::Cache;
pub use graph::Graph;
pub use node::{Args, Dependencies, NodeKind};
