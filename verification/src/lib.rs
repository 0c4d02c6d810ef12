//! Bounded in-memory tee of request body bytes.
//!
//! A *fork* is a queue of body chunks that one [`BodyForkSender`] fills and one
//! [`BodyForkReceiver`] drains. The queue holds at most `max_chunks` chunks, and a receive takes
//! everything that is queued.
//!
//! Two ways to close the sender:
//!
//! - **Clean EOF**: [`BodyForkSender::finish`] (consumes the sender). Pending chunks are kept for
//!   the receiver to drain.
//! - **Abort**: drop the sender without `finish`. Pending chunks are discarded at once, and the
//!   receiver is told of the abort.
//!
//! [`BodyMultiForkSender`] feeds one mapped chunk to several forks.
//!
//! What a fork does is decided by [`BodyForkState`], a value with no lock around it. Each of its
//! operations has an exact contract over [`ForkModel`](state::ForkModel). [`BoundedFork`] adds the
//! limit. The handles put it behind a lock and wake waiting tasks after each change. Each handle
//! holds the right to its own operations on the fork: a sender pushes and closes, a receiver
//! drains. A multi sender keeps with each of its senders a record of what was pushed through it.
//!
//! A push through a shared handle does not show in the handle. What keeps stray chunks out is that
//! a push takes its chunk, together with how functions are marked: one that is marked
//! `opens_invariants none` calls only functions that are marked so, and no function that makes or
//! copies a chunk is. So such a function pushes no chunk but those that it is given, each no more
//! than once. All functions of the two handles of a fork are marked so, and those of a multi
//! sender.
//!
//! Waiting itself is left to the caller: [`BodyForkReceiver::recv`] and
//! [`BodyForkReceiver::wait_for_abort`] each make one attempt, and hand out what to await where
//! there is nothing to report yet.
pub mod error;
pub mod fork;
pub mod laws;
pub mod multi;
pub mod outside;
pub mod record;
pub mod state;

pub use error::{BodyForkAborted, BodyForkPushError, BodyMultiForkPushError};
pub use fork::{
    body_fork_pair_with, AbortStep, BodyForkReceiver, BodyForkSender, RecvStep,
};
pub use multi::{body_multi_fork_pair_with, push_mapped, BodyMultiForkSender};
pub use state::{BodyForkState, BoundedFork, RecvPoll};
