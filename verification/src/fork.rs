//! The two handles of one fork.
use crate::error::{BodyForkAborted, BodyForkPushError};
#[allow(unused_imports)]
use crate::laws::{
    is_step_of_a_run, law_recv_frees_capacity, law_steps_make_a_run, pushed_all, same_status,
};
#[allow(unused_imports)]
use crate::outside::{
    lemma_unrecorded, new_fork_lock, new_notify, notified, notify_waiters, notify_waiters_in_drop, with_fork_close,
    with_fork_drain, with_fork_look, with_fork_push, RecvRight, SendRight,
};
use crate::record::RecordingSender;
use crate::state::{BoundedFork, BoundedForkModel, ForkModel, RecvModel, RecvPoll};
use bytes::Bytes;
use parking_lot::Mutex;
use std::collections::VecDeque;
use std::sync::Arc;
use tokio::sync::futures::Notified;
use tokio::sync::Notify;
use vstd::prelude::*;

verus! {

/// What the two handles of a fork share.
struct BodyForkShared {
    fork: Arc<Mutex<BoundedFork>>,
    notify: Arc<Notify>,
}

impl BodyForkShared {
    /// The fork as it was made.
    spec fn start(&self) -> BoundedForkModel {
        crate::outside::initial_fork(*self.fork)
    }
}

/// Send side: call [`try_push`](BodyForkSender::try_push) for each body chunk, then
/// [`finish`](BodyForkSender::finish) when the body is fully read. Dropping without `finish`
/// aborts the fork and discards what is pending.
///
/// While a sender exists, its fork is open: only `finish` and the loss of the sender close it, and
/// both take the sender away.
pub struct BodyForkSender {
    end: SendEnd,
}

/// The part of a sender that tells the receiver when it goes away.
struct SendEnd {
    inner: BodyForkShared,
    right: SendRight,
}

/// Receive side: [`recv`](BodyForkReceiver::recv) drains all queued chunks.
pub struct BodyForkReceiver {
    inner: BodyForkShared,
    right: RecvRight,
}

/// The result of one receive attempt through a [`BodyForkReceiver`].
pub enum RecvStep<'a> {
    /// The attempt is over: chunks, the clean end of the body, or an abort.
    Ready(Result<Option<VecDeque<Bytes>>, BodyForkAborted>),
    /// Nothing to report yet. Await the registration, then try again. It was made before the
    /// attempt, so a push or close after the attempt completes it.
    Wait(Notified<'a>),
}

/// The result of one look at whether a fork was aborted.
pub enum AbortStep<'a> {
    /// The sender went away without finishing.
    Aborted,
    /// Not aborted. Await the registration, then look again. It was made before the look, so an
    /// abort after the look completes it.
    Wait(Notified<'a>),
}

/// A sender through which nothing was pushed yet. It cannot be pushed to before it is turned into one
/// that can.
pub struct FreshSender {
    sender: BodyForkSender,
}

impl FreshSender {
    /// Nothing is noted on the right of the sender.
    #[verifier::type_invariant]
    closed spec fn nothing_noted(self) -> bool {
        self.sender.record().len() == 0
    }

    /// The sender.
    pub closed spec fn sender(self) -> BodyForkSender {
        self.sender
    }

    /// Turns it into a sender that can be pushed to.
    pub(crate) fn into_sender(self) -> (sender: BodyForkSender)
        ensures
            sender == self.sender(),
            sender.record() == Seq::<Seq<u8>>::empty(),
            sender.unrecorded() == sender,
        opens_invariants none
    {
        proof {
            use_type_invariant(&self);
            lemma_unrecorded(self.sender.end.right);
        }
        self.sender
    }
}

/// Creates a bounded body fork pair. At most `max_chunks` chunks wait for the receiver.
///
/// The fork is empty and open when the pair is returned: a push takes a chunk, and a function that is
/// marked `opens_invariants none` makes none.
pub fn body_fork_pair_with(max_chunks: usize) -> (pair: (BodyForkSender, BodyForkReceiver))
    ensures
        pair.0.feeds(pair.1),
        pair.0.max_chunks() == max_chunks,
        pair.0.fork_at_start() == ForkModel::fresh(),
        pair.1.seen() == BoundedForkModel::fresh(max_chunks as nat),
    opens_invariants none
{
    let (fresh, receiver) = new_pair(max_chunks, None);
    (fresh.into_sender(), receiver)
}

/// Creates a body fork pair whose fork is none of those that `others` feed.
pub(crate) fn new_pair(max_chunks: usize, others: Option<&Vec<RecordingSender>>) -> (pair: (
    FreshSender,
    BodyForkReceiver,
))
    ensures
        pair.0.sender().feeds(pair.1),
        pair.0.sender().max_chunks() == max_chunks,
        pair.0.sender().fork_at_start() == ForkModel::fresh(),
        pair.1.seen() == BoundedForkModel::fresh(max_chunks as nat),
        forall|i: int|
            others is Some && 0 <= i < (others->0)@.len() ==> !(
            #[trigger] (others->0)@[i]).sender().shares_fork_with(pair.0.sender()),
    opens_invariants none
{
    let (fork, send, recv) = new_fork_lock(max_chunks, BoundedFork::new, others);
    let notify = new_notify();
    let end = SendEnd {
        inner: BodyForkShared { fork: fork.clone(), notify: notify.clone() },
        right: send,
    };
    let sender = BodyForkSender { end };
    (
        FreshSender { sender },
        BodyForkReceiver { inner: BodyForkShared { fork, notify }, right: recv },
    )
}

impl SendEnd {
    /// The fork was made empty and open, and the right is to that fork.
    #[verifier::type_invariant]
    spec fn made_fresh(self) -> bool {
        &&& self.inner.start().fork == ForkModel::fresh()
        &&& self.right.lock() == *self.inner.fork
    }

    spec fn max_chunks(&self) -> nat {
        self.inner.start().max_chunks
    }

    spec fn accessed(&self, found: ForkModel, left: ForkModel) -> bool {
        crate::outside::was_accessed(*self.inner.fork, found, left)
    }

    spec fn step(&self, found: ForkModel, left: ForkModel) -> bool {
        self.accessed(found, left) && is_step_of_a_run(self.max_chunks(), found, left)
    }

    spec fn woke_after(&self, found: ForkModel, left: ForkModel) -> bool {
        crate::outside::woken_after(*self.inner.notify, *self.inner.fork, found, left, ())
    }

    /// Whether some operation with the right of this sender, as it is, found the fork as `found` and
    /// left it as `left`.
    spec fn accessed_with_right(&self, found: ForkModel, left: ForkModel) -> bool {
        crate::outside::fork_access(*self.inner.fork, Some(self.right.record()), found, left)
    }

    /// Whether the loss of the sender was recorded, and whoever waits was woken then. A fork that
    /// was not closed before was open, and is aborted by this.
    pub closed spec fn was_lost(&self) -> bool {
        exists|found: ForkModel, left: ForkModel|
            {
                &&& #[trigger] self.step(found, left)
                &&& self.accessed_with_right(found, left)
                &&& self.right.live() ==> found is Open
                &&& left == found.sender_dropped()
                &&& self.woke_after(found, left)
            }
    }

    /// Notes a chunk on the right.
    fn note(&mut self, chunk: Ghost<Seq<u8>>)
        ensures
            final(self).inner == old(self).inner,
            final(self).right.live() == old(self).right.live(),
            final(self).right.record() == old(self).right.record().push(chunk@),
            final(self).right.unrecorded() == old(self).right.unrecorded(),
        opens_invariants none
        no_unwind
    {
        proof {
            use_type_invariant(&*self);
        }
        self.right.note(chunk);
    }

    /// Marks the body as complete, and wakes whoever waits.
    fn finish(&mut self)
        requires
            old(self).right.live(),
        ensures
            exists|found: ForkModel, left: ForkModel|
                {
                    &&& #[trigger] old(self).step(found, left)
                    &&& old(self).accessed_with_right(found, left)
                    &&& found is Open
                    &&& left == found.finished()
                    &&& old(self).woke_after(found, left)
                },
        opens_invariants none
    {
        proof {
            use_type_invariant(&*self);
        }
        let (_done, access) = with_fork_close(
            &*self.inner.fork,
            &mut self.right,
            BoundedFork::finish,
        );
        proof {
            law_steps_make_a_run(old(self).max_chunks(), access.found());
            assert(old(self).step(access.found().fork, access.left().fork));
        }
        notify_waiters(&*self.inner.notify, access);
    }

    /// Records that the sender goes away, and wakes whoever waits.
    fn close(&mut self)
        ensures
            old(self).was_lost(),
        opens_invariants none
        no_unwind
    {
        proof {
            use_type_invariant(&*self);
        }
        let (_done, access) = with_fork_close(
            &*self.inner.fork,
            &mut self.right,
            BoundedFork::drop_sender,
        );
        proof {
            law_steps_make_a_run(old(self).max_chunks(), access.found());
            assert(old(self).step(access.found().fork, access.left().fork));
        }
        notify_waiters_in_drop(&*self.inner.notify, access);
    }
}

impl Drop for SendEnd {
    /// Aborts the fork unless it was finished, and wakes whoever waits.
    fn drop(&mut self)
        ensures
            old(self).was_lost(),
        opens_invariants none
        no_unwind
    {
        self.close();
    }
}

impl BodyForkSender {
    /// The fork is not closed.
    #[verifier::type_invariant]
    pub closed spec fn is_live(self) -> bool {
        self.end.right.live()
    }

    /// Whether the destructor ran: what it ensures holds.
    pub closed spec fn was_dropped(self) -> bool {
        self.end.was_lost()
    }

    /// The chunks that were noted on this sender, in their order.
    pub closed spec fn record(self) -> Seq<Seq<u8>> {
        self.end.right.record()
    }

    /// The same sender with nothing noted on it.
    pub closed spec fn unrecorded(self) -> Self {
        BodyForkSender {
            end: SendEnd { inner: self.end.inner, right: self.end.right.unrecorded() },
        }
    }

    /// Notes a chunk. Only [`RecordingSender`] does.
    pub(crate) fn note(&mut self, chunk: Ghost<Seq<u8>>)
        ensures
            final(self).record() == old(self).record().push(chunk@),
            final(self).unrecorded() == old(self).unrecorded(),
        opens_invariants none
        no_unwind
    {
        proof {
            use_type_invariant(&*self);
        }
        self.end.note(chunk);
    }

    /// How many chunks can be pending.
    pub closed spec fn max_chunks(self) -> nat {
        self.end.max_chunks()
    }

    /// The fork as it was made.
    pub closed spec fn fork_at_start(self) -> ForkModel {
        self.end.inner.start().fork
    }

    /// The lock of the fork.
    pub closed spec fn fork_lock(self) -> Mutex<BoundedFork> {
        *self.end.inner.fork
    }

    /// Whether `receiver` drains the fork that this sender fills.
    pub closed spec fn feeds(self, receiver: BodyForkReceiver) -> bool {
        self.end.inner == receiver.inner
    }

    /// Whether `other` fills the same fork as this sender.
    pub closed spec fn shares_fork_with(self, other: BodyForkSender) -> bool {
        self.fork_lock() == other.fork_lock()
    }

    /// Whether some holder of the fork's lock found it as `found` and left it as `left`.
    pub closed spec fn accessed(self, found: ForkModel, left: ForkModel) -> bool {
        self.end.accessed(found, left)
    }

    /// Whether some operation found the fork as `found` and left it as `left`. What it found is what
    /// the operations before it made of a fresh fork, and what it left is what one operation makes of
    /// that.
    pub open spec fn step(self, found: ForkModel, left: ForkModel) -> bool {
        self.accessed(found, left) && is_step_of_a_run(self.max_chunks(), found, left)
    }

    /// Whether the registrations with the fork were completed after some operation found it as
    /// `found` and left it as `left`: all those that were made before they were.
    pub closed spec fn woke_after(self, found: ForkModel, left: ForkModel) -> bool {
        self.end.woke_after(found, left)
    }

    /// Whether the open fork was declared complete, and whoever waits was woken then.
    pub open spec fn was_finished(self) -> bool {
        exists|found: ForkModel, left: ForkModel|
            {
                &&& #[trigger] self.step(found, left)
                &&& found is Open
                &&& left == found.finished()
                &&& self.woke_after(found, left)
            }
    }

    /// Whether the open fork was aborted, and whoever waits was woken then.
    pub open spec fn was_aborted(self) -> bool {
        exists|found: ForkModel, left: ForkModel|
            {
                &&& #[trigger] self.step(found, left)
                &&& found is Open
                &&& left is Aborted
                &&& self.woke_after(found, left)
            }
    }

    /// Whether some operation of the sender, with these chunks noted on it, found the fork as `found`
    /// and left it as `left`.
    pub closed spec fn accessed_with(
        self,
        noted: Seq<Seq<u8>>,
        found: ForkModel,
        left: ForkModel,
    ) -> bool {
        crate::outside::fork_access(*self.end.inner.fork, Some(noted), found, left)
    }

    /// Whether the sender, with these chunks noted on it, declared the open fork complete, and
    /// whoever waits was woken then.
    pub open spec fn was_finished_with(self, noted: Seq<Seq<u8>>) -> bool {
        exists|found: ForkModel, left: ForkModel|
            {
                &&& #[trigger] self.step(found, left)
                &&& self.accessed_with(noted, found, left)
                &&& found is Open
                &&& left == found.finished()
                &&& self.woke_after(found, left)
            }
    }

    /// Whether the sender, with these chunks noted on it, aborted the open fork, and whoever waits
    /// was woken then.
    pub open spec fn was_aborted_with(self, noted: Seq<Seq<u8>>) -> bool {
        exists|found: ForkModel, left: ForkModel|
            {
                &&& #[trigger] self.step(found, left)
                &&& self.accessed_with(noted, found, left)
                &&& found is Open
                &&& left is Aborted
                &&& self.woke_after(found, left)
            }
    }

    /// Whether `res` is how the open fork answered a push of a chunk with these bytes: queued where
    /// there was room, and whoever waits was woken then, else refused.
    pub open spec fn answered_push(
        self,
        chunk: Seq<u8>,
        res: Result<(), BodyForkPushError>,
    ) -> bool {
        exists|found: ForkModel, left: ForkModel|
            {
                &&& #[trigger] self.step(found, left)
                &&& found is Open
                &&& res == found.push_result(self.max_chunks())
                &&& left == found.pushed(self.max_chunks(), chunk)
                &&& res is Ok ==> self.woke_after(found, left)
            }
    }

    /// Tries to queue a body chunk, and wakes whoever waits where that succeeds. A chunk that is
    /// refused is dropped.
    ///
    /// The chunk is queued no more than once, and nothing else is: a push takes its chunk, and a
    /// function that is marked `opens_invariants none` makes no other.
    pub fn try_push(&self, chunk: Bytes) -> (res: Result<(), BodyForkPushError>)
        ensures
            self.answered_push(crate::outside::contents(chunk), res),
        opens_invariants none
    {
        proof {
            use_type_invariant(self);
            use_type_invariant(&self.end);
        }
        let (res, access) = with_fork_push(
            &*self.end.inner.fork,
            &self.end.right,
            chunk,
            BoundedFork::try_push,
        );
        proof {
            law_steps_make_a_run(self.max_chunks(), access.found());
            assert(self.step(access.found().fork, access.left().fork));
        }
        match res {
            Ok(()) => {
                notify_waiters(&*self.end.inner.notify, access);
                Ok(())
            },
            Err(_) => Err(BodyForkPushError::Full),
        }
    }

    /// Marks the body as complete, and wakes whoever waits. Pending chunks are kept for the
    /// receiver. Consumes the sender, so no further pushes are possible.
    pub fn finish(self)
        ensures
            self.was_finished(),
            self.was_finished_with(self.record()),
        opens_invariants none
    {
        proof {
            use_type_invariant(&self);
        }
        let ghost sender = self;
        let mut end = self.end;
        end.finish();
        proof {
            let (found, left) = choose|found: ForkModel, left: ForkModel|
                {
                    &&& #[trigger] sender.end.step(found, left)
                    &&& sender.end.accessed_with_right(found, left)
                    &&& found is Open
                    &&& left == found.finished()
                    &&& sender.end.woke_after(found, left)
                };
            assert(sender.step(found, left));
        }
    }

    /// Aborts the fork, and wakes whoever waits. Consumes the sender.
    pub(crate) fn abort(self)
        ensures
            self.was_aborted(),
            self.was_aborted_with(self.record()),
        opens_invariants none
    {
        proof {
            use_type_invariant(&self);
        }
        let ghost sender = self;
        let mut end = self.end;
        end.close();
        proof {
            let (found, left) = choose|found: ForkModel, left: ForkModel|
                {
                    &&& #[trigger] sender.end.step(found, left)
                    &&& sender.end.accessed_with_right(found, left)
                    &&& found is Open
                    &&& left == found.sender_dropped()
                    &&& sender.end.woke_after(found, left)
                };
            assert(sender.step(found, left));
        }
    }
}

/// A new pair carries just what is pushed through its sender: whatever is pushed, as long as there is
/// room, the first receive gives out those chunks and no other, in their order, and after a finish
/// that is the whole body. With nothing pushed there is nothing to receive, and a finish gives the
/// clean end.
pub proof fn law_new_pair_carries_just_what_is_pushed(
    max_chunks: usize,
    pair: (BodyForkSender, BodyForkReceiver),
    chunks: Seq<Seq<u8>>,
)
    requires
        call_ensures(body_fork_pair_with, (max_chunks,), pair),
        chunks.len() <= max_chunks,
    ensures
        ({
            let fork = pushed_all(pair.1.seen().fork, pair.1.seen().max_chunks, chunks);
            &&& fork.recv_result() == if chunks.len() == 0 {
                RecvModel::Wait
            } else {
                RecvModel::Chunks(chunks)
            }
            &&& fork.finished().recv_result() == if chunks.len() == 0 {
                RecvModel::End
            } else {
                RecvModel::Chunks(chunks)
            }
            &&& fork.finished().drained().recv_result() is End
            &&& fork.push_result(pair.0.max_chunks()) is Ok <==> chunks.len() < max_chunks
        }),
{
    assert(ForkModel::fresh().drained() == ForkModel::fresh());
    law_recv_frees_capacity(ForkModel::fresh(), max_chunks as nat, chunks);
}

/// What is noted on a sender does not change which fork it fills.
pub(crate) proof fn lemma_same_fork(sender: BodyForkSender)
    ensures
        ({
            let plain = sender.unrecorded();
            &&& plain.max_chunks() == sender.max_chunks()
            &&& plain.fork_lock() == sender.fork_lock()
            &&& forall|found: ForkModel, left: ForkModel| #[trigger]
                plain.step(found, left) == sender.step(found, left)
            &&& forall|found: ForkModel, left: ForkModel| #[trigger]
                plain.woke_after(found, left) == sender.woke_after(found, left)
            &&& forall|noted: Seq<Seq<u8>>, found: ForkModel, left: ForkModel| #[trigger]
                plain.accessed_with(noted, found, left) == sender.accessed_with(noted, found, left)
        }),
{
}

/// The two handles of a fork see the same steps of the same fork.
pub proof fn law_handles_share_their_fork(sender: BodyForkSender, receiver: BodyForkReceiver)
    requires
        sender.feeds(receiver),
    ensures
        sender.max_chunks() == receiver.max_chunks(),
        sender.fork_at_start() == receiver.fork_at_start(),
        forall|found: ForkModel, left: ForkModel| #[trigger]
            sender.step(found, left) == receiver.step(found, left),
{
}

/// The status of a fork moves once: no operation of its handles takes it from finished or from aborted
/// to anything else.
pub proof fn law_closed_fork_stays_closed(
    sender: BodyForkSender,
    found: ForkModel,
    left: ForkModel,
)
    requires
        sender.step(found, left),
        !(found is Open),
    ensures
        same_status(found, left),
{
}

/// To drop a sender is to abort its fork: while it is there its fork is open, and the destructor
/// aborts an open fork and wakes whoever waits.
pub proof fn law_dropped_sender_aborts(sender: BodyForkSender)
    requires
        sender.is_live(),
        sender.was_dropped(),
    ensures
        sender.was_aborted(),
{
    let (found, left) = choose|found: ForkModel, left: ForkModel|
        {
            &&& #[trigger] sender.end.step(found, left)
            &&& sender.end.right.live() ==> found is Open
            &&& left == found.sender_dropped()
            &&& sender.end.woke_after(found, left)
        };
    assert(sender.step(found, left));
}

/// A receiver is fed by one fork: senders that feed it share that fork.
pub proof fn law_receiver_has_one_fork(
    sender: BodyForkSender,
    other: BodyForkSender,
    receiver: BodyForkReceiver,
)
    requires
        sender.feeds(receiver),
        other.feeds(receiver),
    ensures
        sender.shares_fork_with(other),
{
}

/// One receive attempt on the fork behind the lock, of a waiter that has registered.
fn poll_recv_available(
    shared: &BodyForkShared,
    right: &mut RecvRight,
    registration: &Notified<'_>,
) -> (poll: RecvPoll)
    requires
        shared.start().fork == ForkModel::fresh(),
        old(right).lock() == *shared.fork,
    ensures
        exists|found: ForkModel, left: ForkModel|
            {
                &&& #[trigger] crate::outside::was_accessed(*shared.fork, found, left)
                &&& is_step_of_a_run(shared.start().max_chunks, found, left)
                &&& crate::outside::fork_access_since(*shared.fork, *registration, found, left)
                &&& old(right).seen().leads_by_sender(
                    BoundedForkModel { max_chunks: shared.start().max_chunks, fork: found },
                )
                &&& final(right).seen() == (BoundedForkModel {
                    max_chunks: shared.start().max_chunks,
                    fork: left,
                })
                &&& poll@ == found.recv_result()
                &&& left == found.drained()
            },
        final(right).lock() == old(right).lock(),
    opens_invariants none
    no_unwind
{
    let (poll, access) = with_fork_drain(
        &*shared.fork,
        right,
        registration,
        BoundedFork::poll_recv,
    );
    proof {
        let max_chunks = shared.start().max_chunks;
        law_steps_make_a_run(max_chunks, access.found());
        let (found, left) = (access.found().fork, access.left().fork);
        assert(access.found() == (BoundedForkModel { max_chunks, fork: found }));
        assert(access.left() == (BoundedForkModel { max_chunks, fork: left }));
        assert(crate::outside::was_accessed(*shared.fork, found, left));
    }
    poll
}

impl RecvStep<'_> {
    /// What the attempt found. Of the registration that comes with nothing to report,
    /// [`BodyForkReceiver::completes`] and [`BodyForkReceiver::step_since`] speak.
    pub open spec fn outcome(self) -> RecvModel {
        match self {
            RecvStep::Ready(result) => RecvPoll::Ready(result)@,
            RecvStep::Wait(_) => RecvModel::Wait,
        }
    }
}

impl BodyForkReceiver {
    /// The fork was made empty and open, and the right is to that fork.
    #[verifier::type_invariant]
    closed spec fn made_fresh(self) -> bool {
        &&& self.inner.start().fork == ForkModel::fresh()
        &&& self.right.lock() == *self.inner.fork
    }

    /// How many chunks can be pending.
    pub closed spec fn max_chunks(self) -> nat {
        self.inner.start().max_chunks
    }

    /// The fork as it was made.
    pub closed spec fn fork_at_start(self) -> ForkModel {
        self.inner.start().fork
    }

    /// The fork as the latest receive of this receiver left it, or as it was made.
    pub closed spec fn seen(self) -> BoundedForkModel {
        self.right.seen()
    }

    /// Whether the sender alone can have made `found` of what this receiver has seen: no chunk was
    /// taken out in between.
    pub open spec fn may_find(self, found: ForkModel) -> bool {
        self.seen().leads_by_sender(
            BoundedForkModel { max_chunks: self.max_chunks(), fork: found },
        )
    }

    /// Whether some holder of the fork's lock found it as `found` and left it as `left`.
    pub closed spec fn accessed(self, found: ForkModel, left: ForkModel) -> bool {
        crate::outside::was_accessed(*self.inner.fork, found, left)
    }

    /// Whether some operation found the fork as `found` and left it as `left`. What it found is what
    /// the operations before it made of a fresh fork, and what it left is what one operation makes of
    /// that.
    pub open spec fn step(self, found: ForkModel, left: ForkModel) -> bool {
        self.accessed(found, left) && is_step_of_a_run(self.max_chunks(), found, left)
    }

    /// Whether some operation that came after `registration` was made found the fork as `found` and
    /// left it as `left`.
    pub closed spec fn step_since(
        self,
        registration: Notified<'_>,
        found: ForkModel,
        left: ForkModel,
    ) -> bool {
        crate::outside::fork_access_since(*self.inner.fork, registration, found, left)
    }

    /// Whether `registration` is with this fork: a wake-up of its waiters completes it.
    pub closed spec fn completes(self, registration: Notified<'_>) -> bool {
        crate::outside::registered_with(registration) == *self.inner.notify
    }

    /// Whether this receiver drains the same fork as `other`, whatever each has seen.
    pub closed spec fn drains_the_fork_of(self, other: Self) -> bool {
        self.inner == other.inner
    }

    /// Takes all queued body chunks, if there is anything to report.
    ///
    /// `Ready(Ok(None))` comes after the clean end of the body, `Ready(Err(_))` if the sender
    /// aborted.
    pub fn recv(&mut self) -> (res: RecvStep<'_>)
        ensures
            exists|found: ForkModel, left: ForkModel|
                {
                    &&& #[trigger] old(self).step(found, left)
                    &&& old(self).may_find(found)
                    &&& res.outcome() == found.recv_result()
                    &&& left == found.drained()
                    &&& final(self).seen() == (BoundedForkModel {
                        max_chunks: old(self).max_chunks(),
                        fork: left,
                    })
                    &&& res matches RecvStep::Wait(registration) ==> old(self).step_since(
                        registration,
                        found,
                        left,
                    )
                },
            res matches RecvStep::Wait(registration) ==> old(self).completes(registration),
            final(self).drains_the_fork_of(*old(self)),
        opens_invariants none
    {
        proof {
            use_type_invariant(&*self);
        }
        let registration = notified(&*self.inner.notify);
        let poll = poll_recv_available(&self.inner, &mut self.right, &registration);
        proof {
            let (found, left) = choose|found: ForkModel, left: ForkModel|
                {
                    &&& #[trigger] crate::outside::was_accessed(*old(self).inner.fork, found, left)
                    &&& is_step_of_a_run(old(self).max_chunks(), found, left)
                    &&& crate::outside::fork_access_since(
                        *old(self).inner.fork,
                        registration,
                        found,
                        left,
                    )
                    &&& old(self).may_find(found)
                    &&& self.right.seen() == (BoundedForkModel {
                        max_chunks: old(self).max_chunks(),
                        fork: left,
                    })
                    &&& poll@ == found.recv_result()
                    &&& left == found.drained()
                };
            assert(old(self).step(found, left));
        }
        match poll {
            RecvPoll::Ready(result) => RecvStep::Ready(result),
            RecvPoll::Wait => RecvStep::Wait(registration),
        }
    }

    /// Looks whether the sender aborted. A clean finish is not an abort. The fork stays as it is.
    pub fn wait_for_abort(&self) -> (res: AbortStep<'_>)
        ensures
            exists|found: ForkModel|
                {
                    &&& #[trigger] self.step(found, found)
                    &&& self.may_find(found)
                    &&& res is Aborted <==> found is Aborted
                    &&& res matches AbortStep::Wait(registration) ==> self.step_since(
                        registration,
                        found,
                        found,
                    )
                },
            res matches AbortStep::Wait(registration) ==> self.completes(registration),
        opens_invariants none
    {
        proof {
            use_type_invariant(self);
        }
        let registration = notified(&*self.inner.notify);
        let look = |fork: &mut BoundedFork| -> (aborted: bool)
            ensures
                aborted == (old(fork)@.fork is Aborted),
                final(fork)@ == old(fork)@,
            { fork.is_aborted() };
        let (aborted, access) = with_fork_look(
            &*self.inner.fork,
            &self.right,
            &registration,
            look,
        );
        proof {
            law_steps_make_a_run(self.max_chunks(), access.found());
            let found = access.found().fork;
            assert(access.found() == (BoundedForkModel { max_chunks: self.max_chunks(), fork: found }));
            assert(self.step(found, found));
        }
        if aborted {
            AbortStep::Aborted
        } else {
            AbortStep::Wait(registration)
        }
    }
}

/// What a receiver can come to find after its latest receive: nothing that waits for it is lost, and
/// both ends are final. After an abort it finds the abort, and after the clean end, with all chunks
/// taken, it finds the clean end.
pub proof fn law_receiver_loses_nothing(receiver: BodyForkReceiver, found: ForkModel)
    requires
        receiver.may_find(found),
    ensures
        receiver.seen().fork is Aborted ==> found.recv_result() is Aborted,
        receiver.seen().fork == ForkModel::Finished(Seq::empty()) ==> found.recv_result() is End,
        receiver.seen().fork is Finished ==> found == receiver.seen().fork,
        !(found is Aborted) ==> receiver.seen().fork.pending().is_prefix_of(found.pending()),
{
    crate::laws::law_sender_only_adds(
        receiver.seen(),
        BoundedForkModel { max_chunks: receiver.max_chunks(), fork: found },
    );
}

/// Receivers that drain the same fork are fed by the same sender and see the same steps: a receive
/// does not move a receiver to another fork.
pub proof fn law_receiver_keeps_its_fork(
    sender: BodyForkSender,
    before: BodyForkReceiver,
    after: BodyForkReceiver,
)
    requires
        after.drains_the_fork_of(before),
    ensures
        sender.feeds(after) == sender.feeds(before),
        after.max_chunks() == before.max_chunks(),
        after.fork_at_start() == before.fork_at_start(),
        forall|found: ForkModel, left: ForkModel| #[trigger]
            after.step(found, left) == before.step(found, left),
{
}

} // verus!
