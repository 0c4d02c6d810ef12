//! What holds of a fork over its whole life, and of several forks that carry one body.
use crate::error::BodyForkPushError;
#[allow(unused_imports)]
use crate::multi::{errors, lemma_survivors_of_front, survivors};
use crate::state::{is_path, is_sender_path, BoundedForkModel, ForkModel, RecvModel};
use vstd::prelude::*;

verus! {

/// Something that happens to a fork.
pub enum ForkEvent {
    /// The sender pushes a chunk.
    Push(Seq<u8>),
    /// The sender declares the body complete.
    Finish,
    /// The sender goes away.
    DropSender,
    /// The receiver makes an attempt.
    Recv,
}

/// A fork together with what it has taken and given so far.
pub struct ForkHistory {
    pub fork: ForkModel,
    /// The chunks whose push succeeded, in push order.
    pub accepted: Seq<Seq<u8>>,
    /// The chunks that the receiver got, in the order it got them.
    pub delivered: Seq<Seq<u8>>,
}

impl ForkHistory {
    /// Before anything happened.
    pub open spec fn fresh() -> Self {
        ForkHistory {
            fork: ForkModel::fresh(),
            accepted: Seq::empty(),
            delivered: Seq::empty(),
        }
    }

    /// Whether `event` can happen now: a sender that has finished or gone away does nothing more.
    /// A finished sender is still dropped.
    pub open spec fn allows(self, event: ForkEvent) -> bool {
        match event {
            ForkEvent::Push(_) => self.fork is Open,
            ForkEvent::Finish => self.fork is Open,
            ForkEvent::DropSender => !(self.fork is Aborted),
            ForkEvent::Recv => true,
        }
    }

    /// What `event` makes of it.
    pub open spec fn after(self, max_chunks: nat, event: ForkEvent) -> Self {
        match event {
            ForkEvent::Push(chunk) => ForkHistory {
                fork: self.fork.pushed(max_chunks, chunk),
                accepted: if self.fork.push_result(max_chunks) is Ok {
                    self.accepted.push(chunk)
                } else {
                    self.accepted
                },
                delivered: self.delivered,
            },
            ForkEvent::Finish => ForkHistory { fork: self.fork.finished(), ..self },
            ForkEvent::DropSender => ForkHistory { fork: self.fork.sender_dropped(), ..self },
            ForkEvent::Recv => ForkHistory {
                fork: self.fork.drained(),
                accepted: self.accepted,
                delivered: match self.fork.recv_result() {
                    RecvModel::Chunks(chunks) => self.delivered + chunks,
                    _ => self.delivered,
                },
            },
        }
    }

    /// What a run of events makes of it.
    pub open spec fn after_all(self, max_chunks: nat, events: Seq<ForkEvent>) -> Self
        decreases events.len(),
    {
        if events.len() == 0 {
            self
        } else {
            self.after_all(max_chunks, events.drop_last()).after(max_chunks, events.last())
        }
    }

    /// Whether a run of events can happen, each where it comes.
    pub open spec fn allows_all(self, max_chunks: nat, events: Seq<ForkEvent>) -> bool
        decreases events.len(),
    {
        events.len() > 0 ==> {
            &&& self.allows_all(max_chunks, events.drop_last())
            &&& self.after_all(max_chunks, events.drop_last()).allows(events.last())
        }
    }
}

/// Whether nothing got lost, doubled or out of order: what the receiver got, followed by what is
/// pending, is exactly what the sender got accepted. Of an aborted fork the receiver got a
/// beginning of it.
pub open spec fn conserved(h: ForkHistory) -> bool {
    &&& !(h.fork is Aborted) ==> h.delivered + h.fork.pending() == h.accepted
    &&& h.fork is Aborted ==> h.delivered.is_prefix_of(h.accepted)
}

proof fn lemma_conserved_after(h: ForkHistory, max_chunks: nat, event: ForkEvent)
    requires
        conserved(h),
        h.allows(event),
    ensures
        conserved(h.after(max_chunks, event)),
{
    let next = h.after(max_chunks, event);
    if !(next.fork is Aborted) {
        assert(next.delivered + next.fork.pending() =~= next.accepted);
    } else if !(h.fork is Aborted) {
        assert(next.delivered.is_prefix_of(h.delivered + h.fork.pending()));
    }
}

/// In order, without loss or duplication: as long as the fork is not aborted, what the receiver
/// got, followed by what is pending, is exactly what the sender got accepted. Of an aborted fork the
/// receiver got a beginning of it.
pub proof fn law_delivery(max_chunks: nat, events: Seq<ForkEvent>)
    requires
        ForkHistory::fresh().allows_all(max_chunks, events),
    ensures
        conserved(ForkHistory::fresh().after_all(max_chunks, events)),
    decreases events.len(),
{
    if events.len() == 0 {
        let h = ForkHistory::fresh();
        assert(h.delivered + h.fork.pending() =~= h.accepted);
    } else {
        law_delivery(max_chunks, events.drop_last());
        lemma_conserved_after(
            ForkHistory::fresh().after_all(max_chunks, events.drop_last()),
            max_chunks,
            events.last(),
        );
    }
}

/// A fork is open until its sender finishes or goes away: pushes and receives, in any number and
/// order, leave it open, and can all happen.
pub proof fn law_open_until_the_sender_leaves(
    max_chunks: nat,
    start: ForkHistory,
    events: Seq<ForkEvent>,
)
    requires
        start.fork is Open,
        forall|i: int|
            0 <= i < events.len() ==> #[trigger] events[i] is Push || events[i] is Recv,
    ensures
        start.after_all(max_chunks, events).fork is Open,
        start.allows_all(max_chunks, events),
    decreases events.len(),
{
    if events.len() > 0 {
        let front = events.drop_last();
        assert forall|i: int| 0 <= i < front.len() implies #[trigger] front[i] is Push
            || front[i] is Recv by {
            assert(events[i] is Push || events[i] is Recv);
        }
        law_open_until_the_sender_leaves(max_chunks, start, front);
    }
}

/// A fork never holds more than `max_chunks` chunks.
pub proof fn law_bounded(max_chunks: nat, events: Seq<ForkEvent>)
    requires
        ForkHistory::fresh().allows_all(max_chunks, events),
    ensures
        ForkHistory::fresh().after_all(max_chunks, events).fork.pending().len() <= max_chunks,
    decreases events.len(),
{
    if events.len() > 0 {
        law_bounded(max_chunks, events.drop_last());
    }
}

/// The end of the body is reported only once the receiver has got everything that was accepted,
/// and only after the sender finished.
pub proof fn law_end_means_complete(max_chunks: nat, events: Seq<ForkEvent>)
    requires
        ForkHistory::fresh().allows_all(max_chunks, events),
        ForkHistory::fresh().after_all(max_chunks, events).fork.recv_result() is End,
    ensures
        ({
            let h = ForkHistory::fresh().after_all(max_chunks, events);
            &&& h.fork is Finished
            &&& h.delivered == h.accepted
        }),
{
    law_delivery(max_chunks, events);
    let h = ForkHistory::fresh().after_all(max_chunks, events);
    assert(h.delivered + h.fork.pending() =~= h.delivered);
}

/// Once a fork is aborted it stays so, whatever comes after: every later receive reports the
/// abort, and none hands out a chunk.
pub proof fn law_abort_is_persistent(max_chunks: nat, start: ForkHistory, events: Seq<ForkEvent>)
    requires
        start.fork is Aborted,
        start.allows_all(max_chunks, events),
    ensures
        ({
            let h = start.after_all(max_chunks, events);
            &&& h.fork is Aborted
            &&& h.fork.recv_result() is Aborted
            &&& h.delivered == start.delivered
        }),
    decreases events.len(),
{
    if events.len() > 0 {
        law_abort_is_persistent(max_chunks, start, events.drop_last());
    }
}

/// A fork that was finished is never aborted afterwards, so waiting for an abort never ends, not
/// even when the sender that finished is dropped.
pub proof fn law_finish_is_no_abort(max_chunks: nat, start: ForkHistory, events: Seq<ForkEvent>)
    requires
        start.fork is Finished,
        start.allows_all(max_chunks, events),
    ensures
        start.after_all(max_chunks, events).fork is Finished,
    decreases events.len(),
{
    if events.len() > 0 {
        law_finish_is_no_abort(max_chunks, start, events.drop_last());
    }
}

/// The clean end is final: once a finished fork is drained, nothing that comes after changes it.
pub proof fn law_clean_end_is_final(max_chunks: nat, start: ForkHistory, events: Seq<ForkEvent>)
    requires
        start.fork == ForkModel::Finished(Seq::empty()),
        start.allows_all(max_chunks, events),
    ensures
        start.after_all(max_chunks, events).fork == start.fork,
        start.after_all(max_chunks, events).fork.recv_result() is End,
        start.after_all(max_chunks, events).delivered == start.delivered,
    decreases events.len(),
{
    if events.len() > 0 {
        law_clean_end_is_final(max_chunks, start, events.drop_last());
    }
}

/// Whether two forks have the same status, whatever they hold.
pub open spec fn same_status(a: ForkModel, b: ForkModel) -> bool {
    &&& a is Open <==> b is Open
    &&& a is Finished <==> b is Finished
    &&& a is Aborted <==> b is Aborted
}

/// The status of a fork moves from open to finished, by a finish, or from open to aborted, by the
/// loss of its sender. A push or a receive never moves it, and from finished or aborted nothing does.
pub proof fn law_status_moves_once(max_chunks: nat, h: ForkHistory, event: ForkEvent)
    requires
        h.allows(event),
    ensures
        ({
            let next = h.after(max_chunks, event).fork;
            &&& event is Push || event is Recv || !(h.fork is Open) ==> same_status(h.fork, next)
            &&& h.fork is Open && event is Finish ==> next is Finished
            &&& h.fork is Open && event is DropSender ==> next is Aborted
        }),
{
}

/// After a clean finish the receiver gets what is pending in one piece, and from then on the end.
/// Dropping the sender that finished changes nothing.
pub proof fn law_finish_keeps_pending(fork: ForkModel)
    requires
        fork is Open,
    ensures
        fork.finished().sender_dropped() == fork.finished(),
        fork.pending().len() > 0 ==> fork.finished().recv_result() == RecvModel::Chunks(
            fork.pending(),
        ),
        fork.pending().len() == 0 ==> fork.finished().recv_result() is End,
        fork.finished().drained().recv_result() is End,
        fork.finished().drained().drained() == fork.finished().drained(),
{
}

/// Dropping the sender of an open fork discards what is pending at once, and the receiver is told
/// of the abort.
pub proof fn law_abort_discards(fork: ForkModel)
    requires
        fork is Open,
    ensures
        fork.sender_dropped().pending().len() == 0,
        fork.sender_dropped().recv_result() is Aborted,
{
}

/// A push is refused exactly where `max_chunks` chunks are pending, and then changes nothing.
pub proof fn law_full_push_changes_nothing(fork: ForkModel, max_chunks: nat, chunk: Seq<u8>)
    requires
        fork is Open,
    ensures
        fork.push_result(max_chunks) == Err::<(), _>(BodyForkPushError::Full) <==> max_chunks
            <= fork.pending().len(),
        fork.push_result(max_chunks) is Err ==> fork.pushed(max_chunks, chunk) == fork,
{
}

/// The fork after the chunks are pushed one after another.
pub open spec fn pushed_all(fork: ForkModel, max_chunks: nat, chunks: Seq<Seq<u8>>) -> ForkModel
    decreases chunks.len(),
{
    if chunks.len() == 0 {
        fork
    } else {
        pushed_all(fork, max_chunks, chunks.drop_last()).pushed(max_chunks, chunks.last())
    }
}

/// A receive on an open fork frees all its room: any `max_chunks` chunks can be pushed after it,
/// and the next receive hands out exactly those, in order, without waiting for the end.
pub proof fn law_recv_frees_capacity(fork: ForkModel, max_chunks: nat, chunks: Seq<Seq<u8>>)
    requires
        fork is Open,
        chunks.len() <= max_chunks,
    ensures
        pushed_all(fork.drained(), max_chunks, chunks) == ForkModel::Open(chunks),
        chunks.len() < max_chunks ==> pushed_all(fork.drained(), max_chunks, chunks).push_result(
            max_chunks,
        ) is Ok,
        chunks.len() > 0 ==> pushed_all(fork.drained(), max_chunks, chunks).recv_result()
            == RecvModel::Chunks(chunks),
    decreases chunks.len(),
{
    if chunks.len() == 0 {
        assert(chunks =~= Seq::empty());
    } else {
        law_recv_frees_capacity(fork, max_chunks, chunks.drop_last());
        assert(chunks.drop_last().push(chunks.last()) =~= chunks);
    }
}

/// A receive hands out everything that is pending, so a second one right after it finds nothing.
pub proof fn law_recv_takes_all(fork: ForkModel)
    ensures
        fork.drained().pending().len() == 0,
        !(fork.drained().recv_result() is Chunks),
        fork is Aborted <==> fork.drained() is Aborted,
        fork is Open <==> fork.drained() is Open,
{
}

impl ForkHistory {
    /// What `event` makes of a fork of a multi sender: a sender whose push is refused is let go of.
    pub open spec fn after_in_multi(self, max_chunks: nat, event: ForkEvent) -> Self {
        let next = self.after(max_chunks, event);
        if event is Push && self.fork.push_result(max_chunks) is Err {
            next.after(max_chunks, ForkEvent::DropSender)
        } else {
            next
        }
    }

    /// What a run of events makes of a fork of a multi sender.
    pub open spec fn after_all_in_multi(self, max_chunks: nat, events: Seq<ForkEvent>) -> Self
        decreases events.len(),
    {
        if events.len() == 0 {
            self
        } else {
            self.after_all_in_multi(max_chunks, events.drop_last()).after_in_multi(
                max_chunks,
                events.last(),
            )
        }
    }

    /// Whether a run of events can happen to a fork of a multi sender, each where it comes.
    pub open spec fn allows_all_in_multi(self, max_chunks: nat, events: Seq<ForkEvent>) -> bool
        decreases events.len(),
    {
        events.len() > 0 ==> {
            &&& self.allows_all_in_multi(max_chunks, events.drop_last())
            &&& self.after_all_in_multi(max_chunks, events.drop_last()).allows(events.last())
        }
    }
}

/// All the chunks that a run of events pushes, refused ones too.
pub open spec fn pushes(events: Seq<ForkEvent>) -> Seq<Seq<u8>>
    decreases events.len(),
{
    if events.len() == 0 {
        Seq::empty()
    } else {
        match events.last() {
            ForkEvent::Push(chunk) => pushes(events.drop_last()).push(chunk),
            _ => pushes(events.drop_last()),
        }
    }
}

/// A fork of a multi sender has no gaps: as long as it is not aborted, it has taken every chunk
/// that was pushed, and the receiver got a beginning of them with the rest pending. It never holds
/// more than `max_chunks` chunks.
pub proof fn law_multi_fork_has_no_gaps(max_chunks: nat, events: Seq<ForkEvent>)
    requires
        ForkHistory::fresh().allows_all_in_multi(max_chunks, events),
    ensures
        ({
            let h = ForkHistory::fresh().after_all_in_multi(max_chunks, events);
            &&& conserved(h)
            &&& !(h.fork is Aborted) ==> h.accepted == pushes(events)
            &&& h.accepted.is_prefix_of(pushes(events))
            &&& h.fork.pending().len() <= max_chunks
        }),
    decreases events.len(),
{
    let fresh = ForkHistory::fresh();
    if events.len() == 0 {
        assert(fresh.delivered + fresh.fork.pending() =~= fresh.accepted);
    } else {
        let prev = fresh.after_all_in_multi(max_chunks, events.drop_last());
        law_multi_fork_has_no_gaps(max_chunks, events.drop_last());
        lemma_conserved_after(prev, max_chunks, events.last());
        let next = prev.after(max_chunks, events.last());
        if events.last() is Push && prev.fork.push_result(max_chunks) is Err {
            lemma_conserved_after(next, max_chunks, ForkEvent::DropSender);
        }
    }
}

/// A receiver of a multi sender that reaches the end of the body got all of it: every chunk that
/// was pushed, in order.
pub proof fn law_multi_end_means_whole_body(max_chunks: nat, events: Seq<ForkEvent>)
    requires
        ForkHistory::fresh().allows_all_in_multi(max_chunks, events),
        ForkHistory::fresh().after_all_in_multi(max_chunks, events).fork.recv_result() is End,
    ensures
        ForkHistory::fresh().after_all_in_multi(max_chunks, events).delivered == pushes(events),
{
    law_multi_fork_has_no_gaps(max_chunks, events);
    let h = ForkHistory::fresh().after_all_in_multi(max_chunks, events);
    assert(h.delivered + h.fork.pending() =~= h.delivered);
}

/// Something that happens to the forks of a multi sender.
pub enum MultiEvent {
    /// A call begins to push a chunk that the mapper left bytes in. (A call whose chunk the mapper
    /// rejected, or left no bytes in, changes nothing.)
    Begin(Seq<u8>),
    /// The call that is under way pushes to the next fork.
    PushNext,
    /// The receiver of the fork of that number makes an attempt, whether or not a call is under way.
    Recv(int),
    /// The multi sender finishes the next fork.
    FinishNext,
}

/// The forks of a multi sender, in fork order, and what they were sent.
pub struct MultiHistory {
    pub forks: Seq<ForkHistory>,
    /// The forks whose sender is left and that the latest call has served, in their order.
    pub served: Seq<int>,
    /// The forks whose sender is left and that the call that is under way has yet to serve.
    pub unserved: Seq<int>,
    /// The chunks of all calls, in call order.
    pub sent: Seq<Seq<u8>>,
    /// Whether finishing has begun: the multi sender is used up then.
    pub finishing: bool,
}

impl MultiHistory {
    /// Before anything happened.
    pub open spec fn fresh(forks: nat) -> Self {
        MultiHistory {
            forks: Seq::new(forks, |i: int| ForkHistory::fresh()),
            served: Seq::new(forks, |i: int| i),
            unserved: Seq::empty(),
            sent: Seq::empty(),
            finishing: false,
        }
    }

    /// The forks whose sender is left.
    pub open spec fn live(self) -> Seq<int> {
        self.served + self.unserved
    }

    /// Whether `event` can happen now. Calls come one after the other.
    pub open spec fn allows(self, event: MultiEvent) -> bool {
        match event {
            MultiEvent::Begin(_) => self.unserved.len() == 0 && !self.finishing,
            MultiEvent::PushNext => self.unserved.len() > 0,
            MultiEvent::Recv(i) => 0 <= i < self.forks.len(),
            MultiEvent::FinishNext => self.unserved.len() == 0 && self.served.len() > 0,
        }
    }

    /// The forks after `event` happened to fork `i`.
    pub open spec fn forks_after(self, max_chunks: nat, i: int, event: ForkEvent) -> Seq<
        ForkHistory,
    > {
        self.forks.update(i, self.forks[i].after_in_multi(max_chunks, event))
    }

    /// What `event` makes of it.
    pub open spec fn after(self, max_chunks: nat, event: MultiEvent) -> Self {
        match event {
            MultiEvent::Begin(chunk) => MultiHistory {
                served: Seq::empty(),
                unserved: self.served,
                sent: self.sent.push(chunk),
                ..self
            },
            MultiEvent::PushNext => {
                let i = self.unserved.first();
                MultiHistory {
                    forks: self.forks_after(max_chunks, i, ForkEvent::Push(self.sent.last())),
                    served: if self.forks[i].fork.push_result(max_chunks) is Ok {
                        self.served.push(i)
                    } else {
                        self.served
                    },
                    unserved: self.unserved.drop_first(),
                    ..self
                }
            },
            MultiEvent::Recv(i) => MultiHistory {
                forks: self.forks_after(max_chunks, i, ForkEvent::Recv),
                ..self
            },
            MultiEvent::FinishNext => MultiHistory {
                forks: self.forks_after(max_chunks, self.served.first(), ForkEvent::Finish),
                served: self.served.drop_first(),
                finishing: true,
                ..self
            },
        }
    }

    /// What a run of events makes of it.
    pub open spec fn after_all(self, max_chunks: nat, events: Seq<MultiEvent>) -> Self
        decreases events.len(),
    {
        if events.len() == 0 {
            self
        } else {
            self.after_all(max_chunks, events.drop_last()).after(max_chunks, events.last())
        }
    }

    /// Whether a run of events can happen, each where it comes.
    pub open spec fn allows_all(self, max_chunks: nat, events: Seq<MultiEvent>) -> bool
        decreases events.len(),
    {
        events.len() > 0 ==> {
            &&& self.allows_all(max_chunks, events.drop_last())
            &&& self.after_all(max_chunks, events.drop_last()).allows(events.last())
        }
    }

    /// What the receiver of fork `i` got, followed by what waits for it.
    pub open spec fn carried(self, i: int) -> Seq<Seq<u8>> {
        self.forks[i].delivered + self.forks[i].fork.pending()
    }

    /// What has come of fork `i`: it carries all that was sent, or all but the chunk of the call
    /// that has yet to serve it, or it was let go of.
    pub open spec fn fork_in_step(self, i: int) -> bool {
        let h = self.forks[i];
        &&& self.served.contains(i) ==> h.fork is Open && self.carried(i) == self.sent
        &&& self.unserved.contains(i) ==> h.fork is Open && self.sent.len() > 0 && self.carried(i)
            == self.sent.drop_last()
        &&& !self.live().contains(i) ==> {
            ||| h.fork is Aborted
            ||| self.finishing && h.fork is Finished && self.carried(i) == self.sent
        }
    }

    /// Whether all forks are in step.
    pub open spec fn in_step(self) -> bool {
        &&& self.live().no_duplicates()
        &&& self.finishing ==> self.unserved.len() == 0
        &&& forall|k: int|
            0 <= k < self.live().len() ==> 0 <= #[trigger] self.live()[k] < self.forks.len()
        &&& forall|i: int|
            0 <= i < self.forks.len() ==> #[trigger] self.fork_in_step(i)
    }
}

proof fn lemma_in_step_after(h: MultiHistory, max_chunks: nat, event: MultiEvent)
    requires
        h.in_step(),
        h.allows(event),
    ensures
        h.after(max_chunks, event).in_step(),
        h.after(max_chunks, event).forks.len() == h.forks.len(),
{
    let next = h.after(max_chunks, event);
    let (live, next_live) = (h.live(), next.live());
    match event {
        MultiEvent::Begin(chunk) => {
            assert(next_live =~= live);
            assert(next.sent.drop_last() =~= h.sent);
            assert forall|i: int| 0 <= i < next.forks.len() implies #[trigger] next.fork_in_step(
                i,
            ) by {
                assert(h.fork_in_step(i));
            }
        },
        MultiEvent::PushNext => {
            let j = h.unserved.first();
            let n = h.served.len() as int;
            assert(live[n] == j);
            assert(h.unserved[0] == j);
            assert(h.unserved.contains(j));
            assert(h.fork_in_step(j));
            let room = h.forks[j].fork.push_result(max_chunks) is Ok;
            if room {
                assert(next_live =~= live);
                assert(next.carried(j) =~= h.carried(j).push(h.sent.last()));
                assert(h.sent.drop_last().push(h.sent.last()) =~= h.sent);
            } else {
                assert(next_live =~= live.remove(n));
            }
            assert forall|i: int| 0 <= i < next.forks.len() implies #[trigger] next.fork_in_step(
                i,
            ) by {
                assert(h.fork_in_step(i));
                if i == j {
                    if room {
                        assert(next.served[n] == j);
                        assert(next_live[n] == j);
                        lemma_not_in_tail(live, n);
                        assert(next.unserved =~= live.skip(n + 1));
                    } else {
                        lemma_not_in_rest(live, n);
                        assert(next_live =~= next.served + next.unserved);
                        lemma_contains_in_sum(next.served, next.unserved, j);
                    }
                } else {
                    lemma_contains_in_sum(h.served, h.unserved, i);
                    lemma_contains_in_sum(next.served, next.unserved, i);
                    lemma_contains_but_first(h.unserved, i);
                    if room {
                        lemma_contains_but_pushed(h.served, j, i);
                    }
                }
            }
        },
        MultiEvent::Recv(j) => {
            assert(next_live =~= live);
            assert(h.fork_in_step(j));
            assert(next.carried(j) =~= h.carried(j));
            assert forall|i: int| 0 <= i < next.forks.len() implies #[trigger] next.fork_in_step(
                i,
            ) by {
                assert(h.fork_in_step(i));
            }
        },
        MultiEvent::FinishNext => {
            let j = h.served.first();
            assert(live[0] == j);
            assert(h.served[0] == j);
            assert(h.served.contains(j));
            assert(h.fork_in_step(j));
            assert(next_live =~= live.remove(0));
            assert(next.carried(j) =~= h.carried(j));
            assert(live =~= h.served);
            assert forall|i: int| 0 <= i < next.forks.len() implies #[trigger] next.fork_in_step(
                i,
            ) by {
                assert(h.fork_in_step(i));
                lemma_contains_in_sum(h.served, h.unserved, i);
                lemma_contains_in_sum(next.served, next.unserved, i);
                if i == j {
                    lemma_not_in_rest(live, 0);
                    assert(next.served =~= live.remove(0));
                } else {
                    lemma_contains_but_first(h.served, i);
                }
            }
        },
    }
}

proof fn lemma_contains_in_sum(a: Seq<int>, b: Seq<int>, x: int)
    ensures
        (a + b).contains(x) <==> a.contains(x) || b.contains(x),
{
    if a.contains(x) {
        let k = choose|k: int| 0 <= k < a.len() && a[k] == x;
        assert((a + b)[k] == x);
    }
    if b.contains(x) {
        let k = choose|k: int| 0 <= k < b.len() && b[k] == x;
        assert((a + b)[a.len() + k] == x);
    }
}

proof fn lemma_contains_but_first(s: Seq<int>, x: int)
    requires
        s.len() > 0,
        s.first() != x,
    ensures
        s.drop_first().contains(x) <==> s.contains(x),
{
    if s.contains(x) {
        let k = choose|k: int| 0 <= k < s.len() && s[k] == x;
        assert(s.drop_first()[k - 1] == x);
    }
}

proof fn lemma_contains_but_pushed(s: Seq<int>, y: int, x: int)
    requires
        x != y,
    ensures
        s.push(y).contains(x) <==> s.contains(x),
{
    if s.contains(x) {
        let k = choose|k: int| 0 <= k < s.len() && s[k] == x;
        assert(s.push(y)[k] == x);
    }
}

proof fn lemma_not_in_tail(s: Seq<int>, n: int)
    requires
        s.no_duplicates(),
        0 <= n < s.len(),
    ensures
        !s.skip(n + 1).contains(s[n]),
{
}

proof fn lemma_not_in_rest(s: Seq<int>, n: int)
    requires
        s.no_duplicates(),
        0 <= n < s.len(),
    ensures
        !s.remove(n).contains(s[n]),
{
}

/// All live forks carry the same body: after any run of calls and receives, in whatever order they
/// come, what each receiver got, followed by what waits for it, is the chunks of all calls in call
/// order, the same for all. A fork that the call under way has yet to serve lacks that call's chunk
/// only. A fork that is not live was aborted, or finished with the whole body.
pub proof fn law_live_forks_carry_the_same_body(
    max_chunks: nat,
    forks: nat,
    events: Seq<MultiEvent>,
)
    requires
        MultiHistory::fresh(forks).allows_all(max_chunks, events),
    ensures
        MultiHistory::fresh(forks).after_all(max_chunks, events).in_step(),
        ({
            let h = MultiHistory::fresh(forks).after_all(max_chunks, events);
            forall|i: int, j: int| #[trigger]
                h.served.contains(i) && #[trigger] h.served.contains(j) && 0 <= i < h.forks.len()
                    && 0 <= j < h.forks.len() ==> h.carried(i) == h.carried(j)
        }),
    decreases events.len(),
{
    let fresh = MultiHistory::fresh(forks);
    if events.len() == 0 {
        assert(fresh.live() =~= fresh.served);
        assert forall|i: int| 0 <= i < fresh.forks.len() implies #[trigger] fresh.fork_in_step(
            i,
        ) by {
            assert(fresh.served[i] == i);
            assert(fresh.live()[i] == i);
            assert(fresh.carried(i) =~= fresh.sent);
        }
    } else {
        law_live_forks_carry_the_same_body(max_chunks, forks, events.drop_last());
        lemma_in_step_after(
            fresh.after_all(max_chunks, events.drop_last()),
            max_chunks,
            events.last(),
        );
    }
    let h = fresh.after_all(max_chunks, events);
    assert forall|i: int, j: int| #[trigger]
        h.served.contains(i) && #[trigger] h.served.contains(j) && 0 <= i < h.forks.len() && 0 <= j
            < h.forks.len() implies h.carried(i) == h.carried(j) by {
        assert(h.fork_in_step(i) && h.fork_in_step(j));
    }
}

/// A fork that has failed once is never live again and never delivers another chunk, whatever comes
/// after.
pub proof fn law_failed_fork_stays_failed(
    max_chunks: nat,
    start: MultiHistory,
    events: Seq<MultiEvent>,
    i: int,
)
    requires
        start.in_step(),
        start.allows_all(max_chunks, events),
        0 <= i < start.forks.len(),
        start.forks[i].fork is Aborted,
    ensures
        ({
            let h = start.after_all(max_chunks, events);
            &&& !h.live().contains(i)
            &&& h.forks.len() == start.forks.len()
            &&& h.forks[i].fork is Aborted
            &&& h.forks[i].fork.recv_result() is Aborted
            &&& h.forks[i].delivered == start.forks[i].delivered
        }),
    decreases events.len(),
{
    lemma_stays_in_step(max_chunks, start, events);
    let h = start.after_all(max_chunks, events);
    if events.len() > 0 {
        law_failed_fork_stays_failed(max_chunks, start, events.drop_last(), i);
        lemma_stays_in_step(max_chunks, start, events.drop_last());
        let prev = start.after_all(max_chunks, events.drop_last());
        lemma_contains_in_sum(prev.served, prev.unserved, i);
        if events.last() is PushNext {
            assert(prev.unserved.contains(prev.unserved[0]));
            assert(prev.live()[prev.served.len() as int] == prev.unserved[0]);
        }
        if events.last() is FinishNext {
            assert(prev.served.contains(prev.served[0]));
            assert(prev.live()[0] == prev.served[0]);
        }
    }
    assert(h.fork_in_step(i));
    lemma_contains_in_sum(h.served, h.unserved, i);
}

proof fn lemma_stays_in_step(max_chunks: nat, start: MultiHistory, events: Seq<MultiEvent>)
    requires
        start.in_step(),
        start.allows_all(max_chunks, events),
    ensures
        start.after_all(max_chunks, events).in_step(),
        start.after_all(max_chunks, events).forks.len() == start.forks.len(),
    decreases events.len(),
{
    if events.len() > 0 {
        lemma_stays_in_step(max_chunks, start, events.drop_last());
        lemma_in_step_after(
            start.after_all(max_chunks, events.drop_last()),
            max_chunks,
            events.last(),
        );
    }
}

/// A push to one fork touches no other: whatever the next fork makes of the chunk, every other fork
/// stays as it is, and a fork with room is kept, open.
pub proof fn law_push_touches_one_fork(max_chunks: nat, h: MultiHistory)
    requires
        h.in_step(),
        h.unserved.len() > 0,
    ensures
        ({
            let next = h.after(max_chunks, MultiEvent::PushNext);
            let i = h.unserved.first();
            &&& forall|j: int|
                0 <= j < h.forks.len() && j != i ==> #[trigger] next.forks[j] == h.forks[j]
            &&& h.forks[i].fork.pending().len() < max_chunks ==> next.forks[i].fork
                == ForkModel::Open(h.forks[i].fork.pending().push(h.sent.last()))
                && next.live() == h.live()
            &&& max_chunks <= h.forks[i].fork.pending().len() ==> next.forks[i].fork is Aborted
        }),
{
    let next = h.after(max_chunks, MultiEvent::PushNext);
    let i = h.unserved.first();
    assert(h.live()[h.served.len() as int] == i);
    assert(h.unserved.contains(h.unserved[0]));
    assert(h.fork_in_step(i));
    if h.forks[i].fork.pending().len() < max_chunks {
        assert(next.live() =~= h.live());
    }
}

/// Something that happens between a fork and a task that waits on it.
pub enum WaitEvent {
    /// The waiter registers, to try again.
    Register,
    /// The waiter makes a receive attempt with its registration.
    Attempt,
    /// The waiter looks for an abort with its registration.
    Look,
    /// The sender pushes, finishes or goes away, under the lock. The wake-up comes later.
    Sender(ForkEvent),
    /// Someone makes a wake-up that is due.
    Wake,
    /// Another receive attempt on the fork.
    OtherRecv,
}

/// A fork and a task that waits on it.
pub struct WaitHistory {
    pub fork: ForkModel,
    /// How many wake-ups are due: those of operations that have let go of the lock and not woken
    /// anyone yet.
    pub due: nat,
    /// Whether the waiter has a registration, and whether it is completed.
    pub registered: bool,
    pub completed: bool,
    /// Whether the attempt with this registration found nothing to report.
    pub awaits_recv: bool,
    /// Whether the look with this registration found no abort.
    pub awaits_abort: bool,
}

impl WaitHistory {
    /// Before anything happened.
    pub open spec fn fresh() -> Self {
        WaitHistory {
            fork: ForkModel::fresh(),
            due: 0,
            registered: false,
            completed: false,
            awaits_recv: false,
            awaits_abort: false,
        }
    }

    /// Whether `event` can happen now. The waiter registers before it looks.
    pub open spec fn allows(self, event: WaitEvent) -> bool {
        match event {
            WaitEvent::Attempt => self.registered,
            WaitEvent::Look => self.registered,
            WaitEvent::Sender(ForkEvent::Recv) => false,
            WaitEvent::Sender(ForkEvent::DropSender) => true,
            WaitEvent::Sender(_) => self.fork is Open,
            WaitEvent::Wake => self.due > 0,
            _ => true,
        }
    }

    /// What `event` makes of it. A wake-up completes the registration that is there.
    pub open spec fn after(self, max_chunks: nat, event: WaitEvent) -> Self {
        match event {
            WaitEvent::Register => WaitHistory {
                registered: true,
                completed: false,
                awaits_recv: false,
                awaits_abort: false,
                ..self
            },
            WaitEvent::Attempt => WaitHistory {
                fork: self.fork.drained(),
                awaits_recv: self.fork.recv_result() is Wait,
                ..self
            },
            WaitEvent::Look => WaitHistory { awaits_abort: !(self.fork is Aborted), ..self },
            WaitEvent::Sender(ForkEvent::Push(chunk)) => WaitHistory {
                fork: self.fork.pushed(max_chunks, chunk),
                due: if self.fork.push_result(max_chunks) is Ok {
                    self.due + 1
                } else {
                    self.due
                },
                ..self
            },
            WaitEvent::Sender(ForkEvent::Finish) => WaitHistory {
                fork: self.fork.finished(),
                due: self.due + 1,
                ..self
            },
            WaitEvent::Sender(ForkEvent::DropSender) => WaitHistory {
                fork: self.fork.sender_dropped(),
                due: self.due + 1,
                ..self
            },
            WaitEvent::Sender(ForkEvent::Recv) => self,
            WaitEvent::Wake => WaitHistory {
                due: (self.due - 1) as nat,
                completed: self.registered,
                ..self
            },
            WaitEvent::OtherRecv => WaitHistory { fork: self.fork.drained(), ..self },
        }
    }

    /// What a run of events makes of it.
    pub open spec fn after_all(self, max_chunks: nat, events: Seq<WaitEvent>) -> Self
        decreases events.len(),
    {
        if events.len() == 0 {
            self
        } else {
            self.after_all(max_chunks, events.drop_last()).after(max_chunks, events.last())
        }
    }

    /// Whether a run of events can happen, each where it comes.
    pub open spec fn allows_all(self, max_chunks: nat, events: Seq<WaitEvent>) -> bool
        decreases events.len(),
    {
        events.len() > 0 ==> {
            &&& self.allows_all(max_chunks, events.drop_last())
            &&& self.after_all(max_chunks, events.drop_last()).allows(events.last())
        }
    }
}

/// No wake-up is lost: a task that registers, then tries, and waits where there is nothing, waits in
/// vain at no time. As long as its registration is not completed, either there is still nothing for
/// it, or the wake-up that completes the registration is due. So it is for a receive and for a wait
/// for an abort, however the sender's operations and their wake-ups fall between.
pub proof fn law_no_wakeup_is_lost(max_chunks: nat, events: Seq<WaitEvent>)
    requires
        WaitHistory::fresh().allows_all(max_chunks, events),
    ensures
        ({
            let h = WaitHistory::fresh().after_all(max_chunks, events);
            &&& (h.awaits_recv || h.awaits_abort) ==> h.registered
            &&& h.awaits_recv && !h.completed ==> h.fork.recv_result() is Wait || h.due > 0
            &&& h.awaits_abort && !h.completed ==> !(h.fork is Aborted) || h.due > 0
        }),
    decreases events.len(),
{
    if events.len() > 0 {
        law_no_wakeup_is_lost(max_chunks, events.drop_last());
    }
}

/// The results of pushing one chunk to each of several forks.
pub open spec fn push_results(forks: Seq<ForkModel>, max_chunks: nat) -> Seq<
    Result<(), BodyForkPushError>,
> {
    forks.map_values(|fork: ForkModel| fork.push_result(max_chunks))
}

/// One slow fork does not hurt the others: of several open forks the survivors of a push are those
/// with room, in their order, whatever the others hold, and each of the others is reported as full.
pub proof fn law_partial_failure_keeps_healthy_forks(forks: Seq<ForkModel>, max_chunks: nat)
    requires
        forall|i: int| 0 <= i < forks.len() ==> #[trigger] forks[i] is Open,
    ensures
        survivors(forks, push_results(forks, max_chunks)) == forks.filter(
            |fork: ForkModel| fork.pending().len() < max_chunks,
        ),
        forall|i: int|
            0 <= i < errors(push_results(forks, max_chunks)).len() ==> #[trigger] errors(
                push_results(forks, max_chunks),
            )[i] == BodyForkPushError::Full,
    decreases forks.len(),
{
    reveal(Seq::filter);
    let results = push_results(forks, max_chunks);
    if forks.len() > 0 {
        let front = forks.drop_last();
        law_partial_failure_keeps_healthy_forks(front, max_chunks);
        assert(push_results(front, max_chunks) =~= results.drop_last());
        lemma_survivors_of_front(forks, results.drop_last());
        assert(forks.last() is Open);
    }
}

/// The sender of a fork without room is let go of, so its receiver is told of an abort and what
/// was pending is discarded at once.
pub proof fn law_failed_fork_is_aborted(h: ForkHistory, max_chunks: nat, chunk: Seq<u8>)
    requires
        h.fork is Open,
        max_chunks <= h.fork.pending().len(),
    ensures
        ({
            let next = h.after_in_multi(max_chunks, ForkEvent::Push(chunk));
            &&& next.fork.pending().len() == 0
            &&& next.fork.recv_result() is Aborted
            &&& next.delivered == h.delivered
        }),
{
}

/// Every sender is accounted for: it is either among the survivors or has its error in the report.
pub proof fn law_each_fork_is_kept_or_reported<S>(
    senders: Seq<S>,
    results: Seq<Result<(), BodyForkPushError>>,
)
    requires
        senders.len() == results.len(),
    ensures
        survivors(senders, results).len() + errors(results).len() == senders.len(),
        forall|i: int|
            0 <= i < senders.len() && #[trigger] results[i] is Ok ==> survivors(
                senders,
                results,
            ).contains(senders[i]),
        forall|i: int|
            0 <= i < results.len() && #[trigger] results[i] is Err ==> errors(results).contains(
                results[i]->Err_0,
            ),
    decreases results.len(),
{
    if results.len() > 0 {
        let front = results.drop_last();
        law_each_fork_is_kept_or_reported(senders.drop_last(), front);
        lemma_survivors_of_front(senders, front);
        let kept = survivors(senders, front);
        let errs = errors(front);
        assert forall|i: int| 0 <= i < results.len() && #[trigger] results[i] is Ok implies survivors(
            senders,
            results,
        ).contains(senders[i]) by {
            if i < front.len() {
                assert(front[i] is Ok);
                assert(senders.drop_last()[i] == senders[i]);
                let k = choose|k: int| 0 <= k < kept.len() && kept[k] == senders[i];
                assert(survivors(senders, results)[k] == senders[i]);
            } else {
                assert(survivors(senders, results)[kept.len() as int] == senders[i]);
            }
        }
        assert forall|i: int|
            0 <= i < results.len() && #[trigger] results[i] is Err implies errors(
            results,
        ).contains(results[i]->Err_0) by {
            if i < front.len() {
                assert(front[i] is Err);
                let k = choose|k: int| 0 <= k < errs.len() && errs[k] == front[i]->Err_0;
                assert(errors(results)[k] == front[i]->Err_0);
            } else {
                assert(errors(results)[errs.len() as int] == results[i]->Err_0);
            }
        }
    }
}

/// No step of a fork changes its limit.
proof fn lemma_limit_along(path: Seq<BoundedForkModel>, i: int)
    requires
        is_path(path),
        0 <= i < path.len(),
    ensures
        path[i].max_chunks == path.first().max_chunks,
    decreases i,
{
    if i > 0 {
        lemma_limit_along(path, i - 1);
        assert(path[i - 1].can_become(path[i]));
    }
}

/// Without a receive nothing is taken out of a fork: what was pending stays in front of what comes
/// after it, unless the fork is aborted. A finished fork and an aborted one stay as they are.
pub proof fn law_sender_only_adds(start: BoundedForkModel, later: BoundedForkModel)
    requires
        start.leads_by_sender(later),
    ensures
        later.max_chunks == start.max_chunks,
        start.fork is Aborted ==> later.fork is Aborted,
        start.fork is Finished ==> later.fork == start.fork,
        !(later.fork is Aborted) ==> start.fork.pending().is_prefix_of(later.fork.pending()),
{
    let path = choose|path: Seq<BoundedForkModel>| #[trigger]
        is_sender_path(path) && path.first() == start && path.last() == later;
    lemma_sender_only_adds_along(path, path.len() - 1);
}

proof fn lemma_sender_only_adds_along(path: Seq<BoundedForkModel>, i: int)
    requires
        is_sender_path(path),
        0 <= i < path.len(),
    ensures
        path[i].max_chunks == path.first().max_chunks,
        path.first().fork is Aborted ==> path[i].fork is Aborted,
        path.first().fork is Finished ==> path[i].fork == path.first().fork,
        !(path[i].fork is Aborted) ==> path.first().fork.pending().is_prefix_of(
            path[i].fork.pending(),
        ),
    decreases i,
{
    if i > 0 {
        lemma_sender_only_adds_along(path, i - 1);
        assert(path[i - 1].pushes_to(path[i]) || path[i - 1].closes_to(path[i]));
    }
}

/// Whether some run of events makes this of a fresh fork.
pub open spec fn is_result_of_a_run(max_chunks: nat, fork: ForkModel) -> bool {
    exists|events: Seq<ForkEvent>|
        {
            &&& #[trigger] ForkHistory::fresh().allows_all(max_chunks, events)
            &&& ForkHistory::fresh().after_all(max_chunks, events).fork == fork
        }
}

/// Whether a run of operations of the handles of a fork leads from a fresh fork to `found`, and one
/// more operation from there to `left`.
pub open spec fn is_step_of_a_run(max_chunks: nat, found: ForkModel, left: ForkModel) -> bool {
    &&& is_result_of_a_run(max_chunks, found)
    &&& (BoundedForkModel { max_chunks, fork: found }).can_become(
        BoundedForkModel { max_chunks, fork: left },
    )
}

/// No run of events takes a fork over its limit.
pub proof fn law_runs_stay_bounded(max_chunks: nat, fork: ForkModel)
    requires
        is_result_of_a_run(max_chunks, fork),
    ensures
        fork.pending().len() <= max_chunks,
{
    let events = choose|events: Seq<ForkEvent>|
        {
            &&& #[trigger] ForkHistory::fresh().allows_all(max_chunks, events)
            &&& ForkHistory::fresh().after_all(max_chunks, events).fork == fork
        };
    law_bounded(max_chunks, events);
}

/// Whatever the handles of a fork do, in whatever order: what they make of a fresh fork is what some
/// run of events makes of it, so all that is said of runs holds of it.
pub proof fn law_steps_make_a_run(max_chunks: nat, later: BoundedForkModel)
    requires
        BoundedForkModel::fresh(max_chunks).leads_to(later),
    ensures
        later.max_chunks == max_chunks,
        is_result_of_a_run(max_chunks, later.fork),
{
    let path = choose|path: Seq<BoundedForkModel>| #[trigger]
        is_path(path) && path.first() == BoundedForkModel::fresh(max_chunks) && path.last()
            == later;
    let events = lemma_run_along(max_chunks, path, path.len() - 1);
    lemma_limit_along(path, path.len() - 1);
}

proof fn lemma_run_along(max_chunks: nat, path: Seq<BoundedForkModel>, i: int) -> (events: Seq<
    ForkEvent,
>)
    requires
        is_path(path),
        path.first() == BoundedForkModel::fresh(max_chunks),
        0 <= i < path.len(),
    ensures
        ForkHistory::fresh().allows_all(max_chunks, events),
        ForkHistory::fresh().after_all(max_chunks, events).fork == path[i].fork,
    decreases i,
{
    if i == 0 {
        Seq::empty()
    } else {
        let before = lemma_run_along(max_chunks, path, i - 1);
        lemma_limit_along(path, i - 1);
        let (prev, next) = (path[i - 1].fork, path[i].fork);
        assert(path[i - 1].can_become(path[i]));
        if next == prev {
            before
        } else {
            let event = if prev is Open && exists|chunk: Seq<u8>|
                next == #[trigger] prev.pushed(max_chunks, chunk) {
                ForkEvent::Push(choose|chunk: Seq<u8>| next == #[trigger] prev.pushed(max_chunks, chunk))
            } else if next == prev.finished() {
                ForkEvent::Finish
            } else if next == prev.sender_dropped() {
                ForkEvent::DropSender
            } else {
                ForkEvent::Recv
            };
            let events = before.push(event);
            assert(events.drop_last() =~= before);
            events
        }
    }
}

} // verus!
