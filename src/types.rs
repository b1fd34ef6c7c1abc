use vstd::prelude::*;

verus! {

/// Position of a configuration modifier in the modifier list of a synthesis run.
pub type ConfigId = usize;

/// Index of a device in a network.
pub type RouterId = usize;

/// Errors raised by the dependency graph.
#[derive(Debug, Clone, Copy, PartialEq, Eq, Structural)]
pub enum DagError {
    /// The node is already part of the graph.
    NodeAlreadyExists(usize),
    /// The node is not part of the graph.
    NodeDoesNotExist(usize),
    /// The graph contains a cycle.
    DagHasCycle,
}

/// Errors raised while executing a dependency graph.
#[derive(Debug, Clone, Copy, PartialEq, Eq, Structural)]
pub enum ExecutorError {
    /// The graph itself is unsound.
    DagError(DagError),
    /// No node is ready to run, or execution failed otherwise.
    ExecutionFailed,
}

/// Errors of synthesis.
#[derive(Debug, Clone, Copy, PartialEq, Eq, Structural)]
pub enum Error {
    /// Zone binding or zone ordering is inconsistent.
    ZoneSegmentationFailed,
    /// A condition is violated before any change.
    InvalidInitialState,
    /// The policy asks for more than reachability at every step.
    NotImplemented,
    /// The assembled graph cannot run.
    ExecutionFailed,
    /// The assembled graph is unsound.
    Dag(DagError),
    /// The time budget ran out before an order was found.
    Timeout,
}

} // verus!
