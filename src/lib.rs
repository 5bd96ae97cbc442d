//! General data structures.
//!
//! - [`dependency_graph`]: "must come before" edges between dense integer
//!   indices, and a topological sort of any subset of them that is
//!   deterministic and breaks cycles on the smallest index; the order it
//!   produces is stated in [`topo_order`].
//! - [`interval_tree`]: a set of integers stored as sorted, merged intervals.
//! - [`hash_tree`]: a tree whose nodes are reached by paths of keys.
//! - [`log_entry`]: the content of a log entry.

pub mod dependency_graph;
pub mod node_records;
pub mod occurrences;
pub mod sorted_keys;
pub mod topo_order;
pub mod interval_tree;
pub mod hash_tree;
pub mod log_entry;
