//! The outside types and functions that the library rests on, and what it believes of them.
use crate::error::{BodyForkPushError, BodyMultiForkPushError};
#[allow(unused_imports)]
use crate::multi::{all_finished, multi_push};
#[allow(unused_imports)]
use crate::record::{plain, RecordingSender};
#[allow(unused_imports)]
use crate::state::{BoundedFork, BoundedForkModel, ForkModel, RecvPoll};
use bytes::Bytes;
use parking_lot::Mutex;
use std::sync::Arc;
use tokio::sync::futures::Notified;
use tokio::sync::Notify;
use vstd::prelude::*;

verus! {

/// Whether `part` is `whole` with some items left out.
pub open spec fn is_part_of<S>(part: Seq<S>, whole: Seq<S>) -> bool {
    exists|at: Seq<int>| #[trigger] picks(part, whole, at)
}

/// Whether `part` is made of the items of `whole` at the places `at`, in their order.
pub open spec fn picks<S>(part: Seq<S>, whole: Seq<S>, at: Seq<int>) -> bool {
    &&& at.len() == part.len()
    &&& forall|i: int|
        0 <= i < at.len() ==> 0 <= #[trigger] at[i] < whole.len() && part[i] == whole[at[i]]
    &&& forall|i: int, j: int| 0 <= i < j < at.len() ==> #[trigger] at[i] < #[trigger] at[j]
}

/// `bytes::Bytes`: an immutable run of bytes, cheap to clone.
#[verifier::external_type_specification]
#[verifier::external_body]
pub struct ExBytes(bytes::Bytes);

/// `parking_lot::RawMutex`: the raw lock that the `Mutex` of that crate is built on. Declared
/// only because it is a type argument of that `Mutex`.
#[verifier::external_type_specification]
#[verifier::external_body]
pub struct ExRawMutex(parking_lot::RawMutex);

/// The type behind `parking_lot::Mutex`: a lock with the value that it protects.
#[verifier::external_type_specification]
#[verifier::external_body]
#[verifier::reject_recursive_types(R)]
#[verifier::reject_recursive_types(T)]
pub struct ExMutex<R, T: ?Sized>(parking_lot::lock_api::Mutex<R, T>);

/// `tokio::sync::Notify`: wakes the tasks that registered with it.
#[verifier::external_type_specification]
#[verifier::external_body]
pub struct ExNotify(tokio::sync::Notify);

/// `tokio::sync::futures::Notified`: the registration of a task with a `Notify`, as a future.
#[verifier::external_type_specification]
#[verifier::external_body]
pub struct ExNotified<'a>(tokio::sync::futures::Notified<'a>);

/// The bytes that a `Bytes` holds. They never change while the value is there.
pub uninterp spec fn contents(b: Bytes) -> Seq<u8>;

/// `Bytes::is_empty` tells whether there are no bytes.
pub assume_specification[ bytes::Bytes::is_empty ](b: &Bytes) -> (empty: bool)
    ensures
        empty == (contents(*b).len() == 0),
;

/// `Bytes::clone` hands out another value that holds the same bytes. Functions that are marked
/// `opens_invariants none` cannot call it.
pub assume_specification[ <bytes::Bytes as Clone>::clone ](b: &Bytes) -> (copy: Bytes)
    ensures
        contents(copy) == contents(*b),
;

/// The fork that a lock was made around.
pub uninterp spec fn initial_fork(m: Mutex<BoundedFork>) -> BoundedForkModel;

/// The senders that a lock was made around.
pub uninterp spec fn initial_senders(m: Mutex<Vec<RecordingSender>>) -> Seq<RecordingSender>;

/// The right to push to the fork behind a lock, and to close it. It comes with the lock and is not
/// copied, so that there is one for each lock.
///
/// Whoever holds it alone can note on it what was pushed with it.
pub struct SendRight {
    lock: Ghost<Mutex<BoundedFork>>,
    live: Ghost<bool>,
    record: Ghost<Seq<Seq<u8>>>,
}

impl SendRight {
    /// The lock of the fork.
    pub closed spec fn lock(self) -> Mutex<BoundedFork> {
        self.lock@
    }

    /// Whether the fork was not closed yet.
    pub closed spec fn live(self) -> bool {
        self.live@
    }

    /// The chunks that were noted on it, in their order.
    pub closed spec fn record(self) -> Seq<Seq<u8>> {
        self.record@
    }

    /// The same right with nothing noted on it.
    pub closed spec fn unrecorded(self) -> Self {
        SendRight { lock: self.lock, live: self.live, record: Ghost(Seq::empty()) }
    }

    /// Notes a chunk.
    pub(crate) fn note(&mut self, chunk: Ghost<Seq<u8>>)
        ensures
            final(self).lock() == old(self).lock(),
            final(self).live() == old(self).live(),
            final(self).record() == old(self).record().push(chunk@),
            final(self).unrecorded() == old(self).unrecorded(),
        opens_invariants none
        no_unwind
    {
        self.record = Ghost(self.record@.push(chunk@));
    }
}

/// What is noted on a right does not change what it is a right to.
pub(crate) proof fn lemma_unrecorded(right: SendRight)
    ensures
        right.unrecorded().lock() == right.lock(),
        right.unrecorded().live() == right.live(),
        right.record().len() == 0 ==> right.unrecorded() == right,
{
    if right.record().len() == 0 {
        assert(right.record@ =~= Seq::empty());
    }
}

/// The right to drain the fork behind a lock. It comes with the lock and is not copied, so that
/// there is one for each lock.
pub struct RecvRight {
    lock: Ghost<Mutex<BoundedFork>>,
    seen: Ghost<BoundedForkModel>,
}

impl RecvRight {
    /// The lock of the fork.
    pub closed spec fn lock(self) -> Mutex<BoundedFork> {
        self.lock@
    }

    /// The fork as the latest drain left it, or as it was made.
    pub closed spec fn seen(self) -> BoundedForkModel {
        self.seen@
    }
}

/// `parking_lot::Mutex::new` makes an unlocked lock around the fork that `f` makes, here in an `Arc`
/// for the two handles. With the lock come the rights to that fork. The lock is a new one, so it is not
/// that of a sender that is there already.
#[verifier::external_body]
#[allow(unused_variables)]
pub(crate) fn new_fork_lock<F: FnOnce(usize) -> BoundedFork + Copy + 'static>(
    max_chunks: usize,
    f: F,
    others: Option<&Vec<RecordingSender>>,
) -> (res: (Arc<Mutex<BoundedFork>>, SendRight, RecvRight))
    requires
        f.requires((max_chunks,)),
        forall|fork: BoundedFork| #[trigger]
            f.ensures((max_chunks,), fork) ==> fork@ == BoundedForkModel::fresh(max_chunks as nat),
    ensures
        initial_fork(*res.0) == BoundedForkModel::fresh(max_chunks as nat),
        forall|i: int|
            others is Some && 0 <= i < (others->0)@.len() ==> (
            #[trigger] (others->0)@[i]).sender().fork_lock() != *res.0,
        res.1.lock() == *res.0,
        res.1.live(),
        res.1.record() == Seq::<Seq<u8>>::empty(),
        res.2.lock() == *res.0,
        res.2.seen() == BoundedForkModel::fresh(max_chunks as nat),
    opens_invariants none
{
    let (lock, live, record) = (Ghost(arbitrary()), Ghost(arbitrary()), Ghost(arbitrary()));
    let send = SendRight { lock, live, record };
    let recv = RecvRight { lock: Ghost(arbitrary()), seen: Ghost(arbitrary()) };
    (Arc::new(Mutex::new(f(max_chunks))), send, recv)
}

/// The right to push to the forks of the senders behind a lock, and to finish them. It comes with the
/// lock and is not copied, so that there is one for each lock. It keeps the mapper of the senders.
pub struct SendersRight<M> {
    lock: Ghost<Mutex<Vec<RecordingSender>>>,
    mapper: M,
}

impl<M> SendersRight<M> {
    /// The lock of the senders.
    pub closed spec fn lock(self) -> Mutex<Vec<RecordingSender>> {
        self.lock@
    }

    /// What each chunk is put through before it is pushed.
    pub closed spec fn mapper(self) -> M {
        self.mapper
    }
}

/// A chunk with the mapper that it is to be put through, once.
pub struct Unmapped<G> {
    chunk: Bytes,
    mapper: G,
}

impl<G> Unmapped<G> {
    /// The chunk.
    pub closed spec fn chunk(self) -> Bytes {
        self.chunk
    }

    /// The mapper.
    pub closed spec fn mapper(self) -> G {
        self.mapper
    }
}

impl<G: FnOnce(Bytes) -> Option<Bytes>> Unmapped<G> {
    /// Puts the chunk through the mapper. Nothing else runs the mapper, and it cannot run twice here.
    pub(crate) fn run(self) -> (mapped: Option<Bytes>)
        requires
            self.mapper().requires((self.chunk(),)),
        ensures
            self.mapper().ensures((self.chunk(),), mapped),
    {
        (self.mapper)(self.chunk)
    }
}

/// What is done in one hold of the lock of some senders.
pub(crate) enum SendersTask<'a, M> {
    /// Pushes what the mapper makes of a chunk.
    Push(&'a SendersRight<M>, Bytes),
    /// Finishes all forks. The right is used up by this.
    Finish(SendersRight<M>),
}

impl<'a, M> SendersTask<'a, M> {
    /// The lock of the senders.
    pub(crate) open spec fn lock(self) -> Mutex<Vec<RecordingSender>> {
        match self {
            SendersTask::Push(right, _) => right.lock(),
            SendersTask::Finish(right) => right.lock(),
        }
    }

    /// The chunk to push, with its mapper, or nothing where there is none to push.
    pub(crate) closed spec fn handed(self) -> Option<Unmapped<&'a M>> {
        match self {
            SendersTask::Push(right, chunk) => Some(Unmapped { chunk, mapper: &right.mapper }),
            SendersTask::Finish(_) => None,
        }
    }
}

/// What is handed out for a push is the chunk and the mapper of the senders.
pub(crate) proof fn lemma_handed<'a, M>(task: SendersTask<'a, M>)
    ensures
        task matches SendersTask::Push(right, chunk) ==> {
            &&& task.handed() matches Some(unmapped)
            &&& unmapped.chunk() == chunk
            &&& *unmapped.mapper() == right.mapper()
        },
{
}

/// `parking_lot::Mutex::new` makes an unlocked lock around the given senders. With it comes the right
/// to them.
#[verifier::external_body]
pub(crate) fn new_senders_lock<M>(senders: Vec<RecordingSender>, mapper: M) -> (res: (
    Mutex<Vec<RecordingSender>>,
    SendersRight<M>,
))
    ensures
        initial_senders(res.0) == senders@,
        res.1.lock() == res.0,
        res.1.mapper() == mapper,
{
    (Mutex::new(senders), SendersRight { lock: Ghost(arbitrary()), mapper })
}

/// Whether some holder of this lock found the fork `found` behind it and left the fork `left`. `record`
/// is what was noted on the sender's right that it came with, if it came with that.
pub uninterp spec fn fork_access(
    m: Mutex<BoundedFork>,
    record: Option<Seq<Seq<u8>>>,
    found: ForkModel,
    left: ForkModel,
) -> bool;

/// Whether some holder of this lock found the fork `found` behind it and left the fork `left`,
/// whoever it was.
pub open spec fn was_accessed(m: Mutex<BoundedFork>, found: ForkModel, left: ForkModel) -> bool {
    exists|record: Option<Seq<Seq<u8>>>| #[trigger] fork_access(m, record, found, left)
}

/// Whether some holder of this lock found the fork `found` behind it and left the fork `left`, and
/// took the lock when `registration` was there already.
pub uninterp spec fn fork_access_since(
    m: Mutex<BoundedFork>,
    registration: Notified<'_>,
    found: ForkModel,
    left: ForkModel,
) -> bool;

/// Whether some holder of this lock found the senders `found` behind it and left the senders
/// `left`.
pub uninterp spec fn senders_access(
    m: Mutex<Vec<RecordingSender>>,
    found: Seq<RecordingSender>,
    left: Seq<RecordingSender>,
) -> bool;

/// What remains of having held the lock of a fork: which lock, what was found behind it and what was
/// left there. Only the wrappers of `lock` make one, so to have one is to have held the lock before.
pub struct ForkAccess {
    lock: Ghost<Mutex<BoundedFork>>,
    found: Ghost<BoundedForkModel>,
    left: Ghost<BoundedForkModel>,
}

impl ForkAccess {
    /// The lock that was held.
    pub closed spec fn lock(self) -> Mutex<BoundedFork> {
        self.lock@
    }

    /// The fork that was found.
    pub closed spec fn found(self) -> BoundedForkModel {
        self.found@
    }

    /// The fork that was left.
    pub closed spec fn left(self) -> BoundedForkModel {
        self.left@
    }
}

/// What remains of having held the lock of some senders: what was found behind it and what was left
/// there.
pub struct SendersAccess {
    found: Ghost<Seq<RecordingSender>>,
    left: Ghost<Seq<RecordingSender>>,
}

impl SendersAccess {
    /// The senders that were found.
    pub closed spec fn found(self) -> Seq<RecordingSender> {
        self.found@
    }

    /// The senders that were left.
    pub closed spec fn left(self) -> Seq<RecordingSender> {
        self.left@
    }
}

/// `parking_lot::Mutex::lock` blocks until no other thread holds the lock. The guard that it hands
/// out gives access to the protected value and releases the lock when it goes out of scope. Here
/// `f` is called once, with that access, and the lock is released before this returns. It does not
/// return where `f` locks `m` again. `f` is `Copy` and `'static`, so it carries no handle along.
///
/// What `f` finds is what the holder before it left, or what the lock was made around. Every holder
/// does no more than one step of a fork, as asked of the `f` of each of these functions, so what `f`
/// finds has come about by such steps.
///
/// This one is for pushing `chunk`, once: it is handed to `f`, and comes back only where `f` refuses
/// it. The right to close the fork was not used yet, so the fork is open.
#[verifier::external_body]
#[allow(unused_variables)]
pub(crate) fn with_fork_push<
    F: FnOnce(&mut BoundedFork, Bytes) -> Result<(), Bytes> + Copy + 'static,
>(
    m: &Mutex<BoundedFork>,
    right: &SendRight,
    chunk: Bytes,
    f: F,
) -> (res: (Result<(), Bytes>, ForkAccess))
    requires
        right.lock() == *m,
        right.live(),
        forall|fork: &mut BoundedFork|
            fork@.fork is Open ==> #[trigger] f.requires((fork, chunk)),
        forall|fork: &mut BoundedFork, r: Result<(), Bytes>|
            fork@.fork is Open && #[trigger] f.ensures((fork, chunk), r) ==> {
                &&& final(fork)@.max_chunks == fork@.max_chunks
                &&& final(fork)@.fork == fork@.fork.pushed(fork@.max_chunks, contents(chunk))
                &&& r == if fork@.fork.has_room(fork@.max_chunks) {
                    Ok(())
                } else {
                    Err(chunk)
                }
            },
    ensures
        exists|fork: &mut BoundedFork| #[trigger]
            f.ensures((fork, chunk), res.0) && res.1.found() == fork@
                && res.1.left() == final(fork)@,
        initial_fork(*m).leads_to(res.1.found()),
        fork_access(*m, Some(right.record()), res.1.found().fork, res.1.left().fork),
        res.1.found().fork is Open,
        res.1.lock() == *m,
    opens_invariants none
{
    let r = f(&mut m.lock(), chunk);
    let (lock, found, left) = (Ghost(arbitrary()), Ghost(arbitrary()), Ghost(arbitrary()));
    (r, ForkAccess { lock, found, left })
}

/// `parking_lot::Mutex::lock`, as for [`with_fork_push`], for closing the fork. It is open where the
/// right to close it was not used yet. The right is used up by this.
///
/// Locking does not panic, so this does not unwind as long as `f` does not.
#[verifier::external_body]
#[allow(unused_variables)]
pub(crate) fn with_fork_close<F: FnOnce(&mut BoundedFork) + Copy + 'static>(
    m: &Mutex<BoundedFork>,
    right: &mut SendRight,
    f: F,
) -> (res: ((), ForkAccess))
    requires
        old(right).lock() == *m,
        forall|fork: &mut BoundedFork|
            (old(right).live() ==> fork@.fork is Open) ==> #[trigger] f.requires((fork,)),
        forall|fork: &mut BoundedFork, r: ()|
            (old(right).live() ==> fork@.fork is Open) && #[trigger] f.ensures((fork,), r)
                ==> fork@.closes_to(final(fork)@),
    ensures
        exists|fork: &mut BoundedFork| #[trigger]
            f.ensures((fork,), res.0) && res.1.found() == fork@ && res.1.left() == final(fork)@,
        initial_fork(*m).leads_to(res.1.found()),
        fork_access(*m, Some(old(right).record()), res.1.found().fork, res.1.left().fork),
        old(right).live() ==> res.1.found().fork is Open,
        res.1.lock() == *m,
        final(right).lock() == old(right).lock(),
        final(right).record() == old(right).record(),
        !final(right).live(),
    opens_invariants none
    no_unwind
{
    let r = f(&mut m.lock());
    let (lock, found, left) = (Ghost(arbitrary()), Ghost(arbitrary()), Ghost(arbitrary()));
    (r, ForkAccess { lock, found, left })
}

/// `parking_lot::Mutex::lock`, as for [`with_fork_push`], for draining the fork on behalf of a waiter
/// that has registered before: `registration` is borrowed, so it was there before the lock was taken.
/// No one else drains the fork, so what is found came about by the sender's steps alone since the
/// latest drain.
///
/// Locking does not panic, so this does not unwind as long as `f` does not.
#[verifier::external_body]
#[allow(unused_variables)]
pub(crate) fn with_fork_drain<F: FnOnce(&mut BoundedFork) -> RecvPoll + Copy + 'static>(
    m: &Mutex<BoundedFork>,
    right: &mut RecvRight,
    registration: &Notified<'_>,
    f: F,
) -> (res: (RecvPoll, ForkAccess))
    requires
        old(right).lock() == *m,
        forall|fork: &mut BoundedFork| #[trigger] f.requires((fork,)),
        forall|fork: &mut BoundedFork, r: RecvPoll| #[trigger]
            f.ensures((fork,), r) ==> fork@.drains_to(final(fork)@) && r@
                == fork@.fork.recv_result(),
    ensures
        exists|fork: &mut BoundedFork| #[trigger]
            f.ensures((fork,), res.0) && res.1.found() == fork@ && res.1.left() == final(fork)@,
        initial_fork(*m).leads_to(res.1.found()),
        fork_access(*m, None, res.1.found().fork, res.1.left().fork),
        fork_access_since(*m, *registration, res.1.found().fork, res.1.left().fork),
        old(right).seen().leads_by_sender(res.1.found()),
        res.1.lock() == *m,
        final(right).lock() == old(right).lock(),
        final(right).seen() == res.1.left(),
    opens_invariants none
    no_unwind
{
    let r = f(&mut m.lock());
    let (lock, found, left) = (Ghost(arbitrary()), Ghost(arbitrary()), Ghost(arbitrary()));
    (r, ForkAccess { lock, found, left })
}

/// `parking_lot::Mutex::lock`, as for [`with_fork_drain`], for looking at the fork without changing
/// it.
#[verifier::external_body]
#[allow(unused_variables)]
pub(crate) fn with_fork_look<F: FnOnce(&mut BoundedFork) -> bool + Copy + 'static>(
    m: &Mutex<BoundedFork>,
    right: &RecvRight,
    registration: &Notified<'_>,
    f: F,
) -> (res: (bool, ForkAccess))
    requires
        right.lock() == *m,
        forall|fork: &mut BoundedFork| #[trigger] f.requires((fork,)),
        forall|fork: &mut BoundedFork, r: bool| #[trigger]
            f.ensures((fork,), r) ==> final(fork)@ == fork@,
    ensures
        exists|fork: &mut BoundedFork| #[trigger]
            f.ensures((fork,), res.0) && res.1.found() == fork@ && res.1.left() == final(fork)@,
        initial_fork(*m).leads_to(res.1.found()),
        fork_access(*m, None, res.1.found().fork, res.1.left().fork),
        fork_access_since(*m, *registration, res.1.found().fork, res.1.left().fork),
        right.seen().leads_by_sender(res.1.found()),
        res.1.lock() == *m,
    opens_invariants none
{
    let r = f(&mut m.lock());
    let (lock, found, left) = (Ghost(arbitrary()), Ghost(arbitrary()), Ghost(arbitrary()));
    (r, ForkAccess { lock, found, left })
}

/// `parking_lot::Mutex::lock`, as for [`with_fork_push`], on a lock around senders. Every holder only
/// lets go of senders, as asked of `f`, so what `f` finds is a part of what the lock was made
/// around.
///
/// One hold pushes what the mapper makes of one chunk, or finishes all forks.
#[verifier::external_body]
pub(crate) fn with_senders<'a, M: Send + Sync, F>(
    m: &Mutex<Vec<RecordingSender>>,
    task: SendersTask<'a, M>,
    f: F,
) -> (res: (Result<Vec<BodyForkPushError>, BodyMultiForkPushError>, SendersAccess)) where
    F: FnOnce(&mut Vec<RecordingSender>, Option<Unmapped<&'a M>>) -> Result<
        Vec<BodyForkPushError>,
        BodyMultiForkPushError,
    > + Copy + 'static,

    requires
        task.lock() == *m,
        forall|senders: &mut Vec<RecordingSender>| #[trigger]
            f.requires((senders, task.handed())),
        forall|
            senders: &mut Vec<RecordingSender>,
            r: Result<Vec<BodyForkPushError>, BodyMultiForkPushError>,
        | #[trigger]
            f.ensures((senders, task.handed()), r) ==> {
                &&& is_part_of(plain(final(senders)@), plain(senders@))
                &&& task is Push ==> exists|mapped: Option<Bytes>| #[trigger]
                    multi_push(mapped, senders@, final(senders)@, r)
                &&& task is Finish ==> all_finished(senders@) && final(senders)@.len() == 0
            },
    ensures
        exists|senders: &mut Vec<RecordingSender>| #[trigger]
            f.ensures((senders, task.handed()), res.0) && res.1.found() == senders@
                && res.1.left() == final(senders)@,
        is_part_of(plain(res.1.found()), plain(initial_senders(*m))),
        senders_access(*m, res.1.found(), res.1.left()),
    opens_invariants none
{
    let handed = match task {
        SendersTask::Push(right, chunk) => Some(Unmapped { chunk, mapper: &right.mapper }),
        SendersTask::Finish(_) => None,
    };
    let r = f(&mut m.lock(), handed);
    (r, SendersAccess { found: Ghost(arbitrary()), left: Ghost(arbitrary()) })
}

/// `Notify::new` makes a `Notify` with which nothing is registered, here in an `Arc` for the two
/// handles.
#[verifier::external_body]
pub(crate) fn new_notify() -> Arc<Notify>
    opens_invariants none
{
    Arc::new(Notify::new())
}

/// Whether the waiters of this `Notify` were woken by a call that came after some holder of the
/// lock `m` found the fork `found` and left the fork `left`. `done` is what the call returned.
pub uninterp spec fn woken_after(
    notify: Notify,
    m: Mutex<BoundedFork>,
    found: ForkModel,
    left: ForkModel,
    done: (),
) -> bool;

/// `Notify::notify_waiters` completes every `Notified` that was made from this `Notify` before
/// the call, polled or not. The call comes after the access that `access` is left of.
#[verifier::external_body]
#[allow(unused_variables)]
pub(crate) fn notify_waiters(notify: &Notify, access: ForkAccess) -> (done: ())
    ensures
        woken_after(*notify, access.lock(), access.found().fork, access.left().fork, done),
    opens_invariants none
{
    notify.notify_waiters()
}

/// `Notify::notify_waiters`, as for [`notify_waiters`], where a sender goes away. A destructor must
/// not unwind, and the call does not as long as the wakers of the waiting tasks do not panic.
#[verifier::external_body]
#[allow(unused_variables)]
pub(crate) fn notify_waiters_in_drop(notify: &Notify, access: ForkAccess) -> (done: ())
    ensures
        woken_after(*notify, access.lock(), access.found().fork, access.left().fork, done),
    opens_invariants none
    no_unwind
{
    notify.notify_waiters()
}

/// The `Notify` that a registration is with.
pub uninterp spec fn registered_with(registration: Notified<'_>) -> Notify;

/// `Notify::notified` registers with `notify`: the future that it returns completes on any
/// `notify_waiters` from now on. When that will be is not claimed.
#[verifier::external_body]
pub(crate) fn notified(notify: &Notify) -> (registration: Notified<'_>)
    ensures
        registered_with(registration) == *notify,
    opens_invariants none
{
    notify.notified()
}

} // verus!
