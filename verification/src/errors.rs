//! Structured errors for graph construction and job resolution.

use vstd::prelude::*;

verus! {

/// An error raised while building a graph.
#[derive(Debug, PartialEq, Eq)]
pub enum GraphError {
    /// A node with this key is already in the graph.
    DuplicateNodeKey { key: String },
    /// A declared parent key is not in the graph.
    MissingParent { key: String },
}

/// An error raised while resolving or executing a job.
#[derive(Debug, PartialEq, Eq)]
pub enum JobError {
    /// Dependency keys that no asset of the job carries, with the job's name.
    MissingDependency { job: String, keys: Vec<String> },
    /// The dependencies contain a cycle; carries a key on the cycle.
    CycleDetected { key: String },
    /// Two assets of the job share one key.
    DuplicateNodeKey { key: String },
    /// An asset's compute function failed; carries the asset's identifier.
    ComputeFailure { asset_id: String },
}

} // verus!
