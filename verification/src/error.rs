//! Errors of the engine's graph handling.

use vstd::prelude::*;

verus! {

/// Why a flowsheet cannot be evaluated.
#[derive(Debug, Clone)]
pub enum EngineError {
    /// The flowsheet has a cycle.
    CycleDetected,
    /// An input port of `node` has no upstream connection.
    MissingInput { node: String, port: String },
    /// A component is not in the component database.
    UnknownComponent(String),
    /// The component database failed.
    Database(String),
    /// A node could not be computed.
    Computation(String),
    /// A connection into `node` comes from `upstream`, which has not been
    /// computed.
    UpstreamNotComputed { node: String, upstream: String },
}

} // verus!
