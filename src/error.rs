//! Errors reported by the graph engine.
use vstd::prelude::*;

verus! {

/// What went wrong in a graph operation.
#[derive(Debug, Clone, Copy, PartialEq, Eq, Structural)]
pub enum DagError {
    /// The parent function is not well-founded on the vertexes to add.
    CycleDetected,
    /// The same vertex was given different parent lists.
    InconsistentParents,
    /// A vertex or id is absent, locally and remotely.
    NotFound,
    /// The remote resolver failed or gave an answer that does not fit.
    RemoteProtocolFailure,
    /// Durable storage could not be read or written.
    PersistenceFailure,
    /// Clone or pull data is malformed or does not fit this graph.
    ImportError,
    /// A pull was asked for between two heads that are not in ancestry order.
    FastForwardAssumptionViolated,
}

} // verus!
