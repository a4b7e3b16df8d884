//! The dependency graph: nodes, and the graph that owns them.

pub mod graph;
pub mod node;
