//! The errors of the send and receive sides.
use vstd::prelude::*;

verus! {

/// Error from pushing a chunk to one fork.
#[derive(Debug, Clone, Copy, PartialEq, Eq, Structural)]
pub enum BodyForkPushError {
    /// The queue has reached `max_chunks` pending chunks.
    Full,
    /// The configured mapper rejected the chunk.
    Rejected,
}

/// Error from pushing a chunk to all the forks of a multi sender.
#[derive(Debug, Clone, PartialEq, Eq)]
pub enum BodyMultiForkPushError {
    /// The configured mapper rejected the chunk. No fork was touched.
    Rejected,
    /// No fork is left. Holds the errors of the forks that failed in this push, in fork order.
    AllErrored(Vec<BodyForkPushError>),
}

/// Error from receiving on a fork whose sender went away without finishing.
#[derive(Debug, Clone, Copy, PartialEq, Eq, Structural)]
pub struct BodyForkAborted;

} // verus!
