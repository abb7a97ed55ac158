//! The ways in which the engine refuses to go on.

use vstd::prelude::*;

verus! {

/// A fatal condition; none of them is ever retried or recovered from.
#[derive(Clone, Copy, Debug, PartialEq, Eq, Structural)]
pub enum Error {
    /// An endpoint asks for a method that the executor cannot send.
    InvalidMethod,
    /// A run or a verdict names an endpoint that the configuration lacks.
    EndpointNotFound,
    /// The latest snapshot holds no verdict for an endpoint of this run.
    SnapshotEntryNotFound,
    /// The stored history exists but cannot be read as a list of snapshots.
    MalformedHistory,
    /// The system clock gave no time since the epoch.
    Timestamp,
}

} // verus!
