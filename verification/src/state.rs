//! One fork as a plain value: its mathematical model and the operations on it.
use crate::error::{BodyForkAborted, BodyForkPushError};
use bytes::Bytes;
use std::collections::VecDeque;
use vstd::prelude::*;

verus! {

/// What a queue of chunks holds, as bytes.
pub open spec fn chunk_contents(chunks: Seq<Bytes>) -> Seq<Seq<u8>> {
    chunks.map_values(|b: Bytes| crate::outside::contents(b))
}

/// A fork as mathematics: whether its sender is still there and how it left, and the chunks that
/// wait for the receiver, oldest first.
pub enum ForkModel {
    Open(Seq<Seq<u8>>),
    Finished(Seq<Seq<u8>>),
    Aborted,
}

/// What one receive attempt finds.
pub enum RecvModel {
    /// Nothing yet; the sender may still push.
    Wait,
    /// All the chunks that were pending.
    Chunks(Seq<Seq<u8>>),
    /// The body is complete and fully drained.
    End,
    /// The sender went away without finishing.
    Aborted,
}

impl ForkModel {
    /// A fork that was just made.
    pub open spec fn fresh() -> Self {
        ForkModel::Open(Seq::empty())
    }

    /// The chunks that wait for the receiver.
    pub open spec fn pending(self) -> Seq<Seq<u8>> {
        match self {
            ForkModel::Open(pending) => pending,
            ForkModel::Finished(pending) => pending,
            ForkModel::Aborted => Seq::empty(),
        }
    }

    /// Whether a push is admitted.
    pub open spec fn has_room(self, max_chunks: nat) -> bool {
        self is Open && self.pending().len() < max_chunks
    }

    /// The fork after a push of `chunk`: appended where there is room, else unchanged.
    pub open spec fn pushed(self, max_chunks: nat, chunk: Seq<u8>) -> Self {
        if self.has_room(max_chunks) {
            ForkModel::Open(self.pending().push(chunk))
        } else {
            self
        }
    }

    /// What a push on this fork returns. A fork that is closed has no room.
    pub open spec fn push_result(self, max_chunks: nat) -> Result<(), BodyForkPushError> {
        if self.has_room(max_chunks) {
            Ok(())
        } else {
            Err(BodyForkPushError::Full)
        }
    }

    /// The fork after its sender declared the body complete.
    pub open spec fn finished(self) -> Self {
        if self is Open {
            ForkModel::Finished(self.pending())
        } else {
            self
        }
    }

    /// The fork after its sender went away.
    pub open spec fn sender_dropped(self) -> Self {
        if self is Open {
            ForkModel::Aborted
        } else {
            self
        }
    }

    /// The fork after a receive attempt: nothing pending, otherwise as before.
    pub open spec fn drained(self) -> Self {
        match self {
            ForkModel::Open(_) => ForkModel::Open(Seq::empty()),
            ForkModel::Finished(_) => ForkModel::Finished(Seq::empty()),
            ForkModel::Aborted => ForkModel::Aborted,
        }
    }

    /// What a receive attempt returns.
    pub open spec fn recv_result(self) -> RecvModel {
        if self is Aborted {
            RecvModel::Aborted
        } else if self.pending().len() > 0 {
            RecvModel::Chunks(self.pending())
        } else if self is Open {
            RecvModel::Wait
        } else {
            RecvModel::End
        }
    }
}

/// The result of one receive attempt on a fork.
#[derive(Debug, PartialEq, Eq)]
pub enum RecvPoll {
    /// The attempt is over: chunks, the clean end of the body, or an abort.
    Ready(Result<Option<VecDeque<Bytes>>, BodyForkAborted>),
    /// Nothing to report yet.
    Wait,
}

impl View for RecvPoll {
    type V = RecvModel;

    open spec fn view(&self) -> RecvModel {
        match self {
            RecvPoll::Wait => RecvModel::Wait,
            RecvPoll::Ready(Ok(Some(chunks))) => RecvModel::Chunks(chunk_contents(chunks@)),
            RecvPoll::Ready(Ok(None)) => RecvModel::End,
            RecvPoll::Ready(Err(_)) => RecvModel::Aborted,
        }
    }
}

/// The state of one fork.
pub enum BodyForkState {
    /// The sender is there. Holds the pending chunks, oldest first.
    Open(VecDeque<Bytes>),
    /// The sender finished cleanly. Holds what the receiver has not drained yet.
    Finished(VecDeque<Bytes>),
    /// The sender went away without finishing. The pending chunks are gone.
    Aborted,
}

impl View for BodyForkState {
    type V = ForkModel;

    open spec fn view(&self) -> ForkModel {
        match self {
            BodyForkState::Open(pending) => ForkModel::Open(chunk_contents(pending@)),
            BodyForkState::Finished(pending) => ForkModel::Finished(chunk_contents(pending@)),
            BodyForkState::Aborted => ForkModel::Aborted,
        }
    }
}

impl BodyForkState {
    /// An open fork with nothing pending.
    pub fn new() -> (state: Self)
        ensures
            state@ == ForkModel::fresh(),
    {
        let pending: VecDeque<Bytes> = VecDeque::new();
        assert(chunk_contents(pending@) =~= Seq::empty());
        BodyForkState::Open(pending)
    }

    /// Whether the sender has neither finished nor gone away.
    pub fn is_open(&self) -> (open: bool)
        ensures
            open == (self@ is Open),
    {
        match self {
            BodyForkState::Open(_) => true,
            _ => false,
        }
    }

    /// Whether the sender went away without finishing.
    pub fn is_aborted(&self) -> (aborted: bool)
        ensures
            aborted == (self@ is Aborted),
    {
        match self {
            BodyForkState::Aborted => true,
            _ => false,
        }
    }

    /// Queues `chunk` unless `max_chunks` chunks are pending already. Hands back a chunk that is
    /// refused.
    pub fn try_push(&mut self, max_chunks: usize, chunk: Bytes) -> (res: Result<(), Bytes>)
        requires
            old(self)@ is Open,
        ensures
            res == if old(self)@.has_room(max_chunks as nat) {
                Ok(())
            } else {
                Err(chunk)
            },
            final(self)@ == old(self)@.pushed(
                max_chunks as nat,
                crate::outside::contents(chunk),
            ),
    {
        match self {
            BodyForkState::Open(pending) => {
                if pending.len() >= max_chunks {
                    return Err(chunk);
                }
                assert(chunk_contents(pending@.push(chunk)) =~= chunk_contents(pending@).push(
                    crate::outside::contents(chunk),
                ));
                pending.push_back(chunk);
                Ok(())
            },
            _ => Err(chunk),
        }
    }

    /// Marks the body as complete. The pending chunks stay for the receiver.
    pub fn finish(&mut self)
        requires
            old(self)@ is Open,
        ensures
            final(self)@ == old(self)@.finished(),
    {
        let mut rest: VecDeque<Bytes> = VecDeque::new();
        if let BodyForkState::Open(pending) = self {
            std::mem::swap(pending, &mut rest);
        }
        *self = BodyForkState::Finished(rest);
    }

    /// Records that the sender is gone: an open fork is aborted and loses what is pending, any
    /// other fork stays as it is.
    pub fn drop_sender(&mut self)
        ensures
            final(self)@ == old(self)@.sender_dropped(),
        opens_invariants none
        no_unwind
    {
        if let BodyForkState::Open(_) = self {
            *self = BodyForkState::Aborted;
        }
    }

    /// Takes everything that is pending, or says why there is nothing.
    pub fn poll_recv(&mut self) -> (poll: RecvPoll)
        ensures
            poll@ == old(self)@.recv_result(),
            final(self)@ == old(self)@.drained(),
    {
        let mut batch: VecDeque<Bytes> = VecDeque::new();
        assert(chunk_contents(batch@) =~= Seq::empty());
        match self {
            BodyForkState::Open(pending) => {
                if pending.len() == 0 {
                    assert(chunk_contents(pending@) =~= Seq::empty());
                    RecvPoll::Wait
                } else {
                    std::mem::swap(pending, &mut batch);
                    RecvPoll::Ready(Ok(Some(batch)))
                }
            },
            BodyForkState::Finished(pending) => {
                if pending.len() == 0 {
                    assert(chunk_contents(pending@) =~= Seq::empty());
                    RecvPoll::Ready(Ok(None))
                } else {
                    std::mem::swap(pending, &mut batch);
                    RecvPoll::Ready(Ok(Some(batch)))
                }
            },
            BodyForkState::Aborted => RecvPoll::Ready(Err(BodyForkAborted)),
        }
    }
}

/// A fork with its limit, as mathematics.
pub struct BoundedForkModel {
    pub max_chunks: nat,
    pub fork: ForkModel,
}

impl BoundedForkModel {
    /// A fork that was just made.
    pub open spec fn fresh(max_chunks: nat) -> Self {
        BoundedForkModel { max_chunks, fork: ForkModel::fresh() }
    }

    /// Whether `next` is `self` after one push, or unchanged.
    pub open spec fn pushes_to(self, next: Self) -> bool {
        &&& next.max_chunks == self.max_chunks
        &&& {
            ||| next.fork == self.fork
            ||| self.fork is Open && exists|chunk: Seq<u8>|
                next.fork == #[trigger] self.fork.pushed(self.max_chunks, chunk)
        }
    }

    /// Whether `next` is `self` after its sender finished or went away.
    pub open spec fn closes_to(self, next: Self) -> bool {
        &&& next.max_chunks == self.max_chunks
        &&& next.fork == self.fork.finished() || next.fork == self.fork.sender_dropped()
    }

    /// Whether `next` is `self` after a receive.
    pub open spec fn drains_to(self, next: Self) -> bool {
        &&& next.max_chunks == self.max_chunks
        &&& next.fork == self.fork.drained()
    }

    /// Whether the handles of a fork can take it from `self` to `next` in one step.
    pub open spec fn can_become(self, next: Self) -> bool {
        self.pushes_to(next) || self.closes_to(next) || self.drains_to(next)
    }

    /// Whether any number of such steps leads from `self` to `later`.
    pub open spec fn leads_to(self, later: Self) -> bool {
        exists|path: Seq<BoundedForkModel>| #[trigger]
            is_path(path) && path.first() == self && path.last() == later
    }

    /// Whether any number of pushes and closes, without a receive, leads from `self` to `later`.
    pub open spec fn leads_by_sender(self, later: Self) -> bool {
        exists|path: Seq<BoundedForkModel>| #[trigger]
            is_sender_path(path) && path.first() == self && path.last() == later
    }
}

/// Whether each fork of `path` can become the one after it.
pub open spec fn is_path(path: Seq<BoundedForkModel>) -> bool {
    &&& path.len() > 0
    &&& forall|i: int| 0 < i < path.len() ==> path[i - 1].can_become(#[trigger] path[i])
}

/// Whether each fork of `path` becomes the one after it by a push or a close.
pub open spec fn is_sender_path(path: Seq<BoundedForkModel>) -> bool {
    &&& path.len() > 0
    &&& forall|i: int|
        0 < i < path.len() ==> path[i - 1].pushes_to(#[trigger] path[i]) || path[i - 1].closes_to(
            path[i],
        )
}

/// A fork with its limit: what the two handles of the fork share under a lock.
pub struct BoundedFork {
    max_chunks: usize,
    state: BodyForkState,
}

impl View for BoundedFork {
    type V = BoundedForkModel;

    closed spec fn view(&self) -> BoundedForkModel {
        BoundedForkModel { max_chunks: self.max_chunks as nat, fork: self.state@ }
    }
}

impl BoundedFork {
    /// An open fork with nothing pending, that holds at most `max_chunks` chunks.
    pub fn new(max_chunks: usize) -> (fork: Self)
        ensures
            fork@ == BoundedForkModel::fresh(max_chunks as nat),
    {
        BoundedFork { max_chunks, state: BodyForkState::new() }
    }

    /// Queues `chunk` where there is room. Hands back a chunk that is refused.
    pub fn try_push(&mut self, chunk: Bytes) -> (res: Result<(), Bytes>)
        requires
            old(self)@.fork is Open,
        ensures
            res == if old(self)@.fork.has_room(old(self)@.max_chunks) {
                Ok(())
            } else {
                Err(chunk)
            },
            final(self)@.max_chunks == old(self)@.max_chunks,
            final(self)@.fork == old(self)@.fork.pushed(
                old(self)@.max_chunks,
                crate::outside::contents(chunk),
            ),
    {
        self.state.try_push(self.max_chunks, chunk)
    }

    /// Marks the body as complete.
    pub fn finish(&mut self)
        requires
            old(self)@.fork is Open,
        ensures
            final(self)@.max_chunks == old(self)@.max_chunks,
            final(self)@.fork == old(self)@.fork.finished(),
    {
        self.state.finish();
    }

    /// Records that the sender is gone.
    pub fn drop_sender(&mut self)
        ensures
            final(self)@.max_chunks == old(self)@.max_chunks,
            final(self)@.fork == old(self)@.fork.sender_dropped(),
        opens_invariants none
        no_unwind
    {
        self.state.drop_sender();
    }

    /// Takes everything that is pending, or says why there is nothing.
    pub fn poll_recv(&mut self) -> (poll: RecvPoll)
        ensures
            poll@ == old(self)@.fork.recv_result(),
            final(self)@.max_chunks == old(self)@.max_chunks,
            final(self)@.fork == old(self)@.fork.drained(),
    {
        self.state.poll_recv()
    }

    /// Whether the sender went away without finishing.
    pub fn is_aborted(&self) -> (aborted: bool)
        ensures
            aborted == (self@.fork is Aborted),
    {
        self.state.is_aborted()
    }
}

} // verus!
