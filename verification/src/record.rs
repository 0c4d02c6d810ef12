//! A sender that shows what was pushed through it.
use crate::error::BodyForkPushError;
#[allow(unused_imports)]
use crate::fork::{lemma_same_fork, BodyForkSender, FreshSender};
#[allow(unused_imports)]
use crate::state::ForkModel;
use bytes::Bytes;
use vstd::prelude::*;

verus! {

/// A sender together with a record of the chunks that were pushed through it, refused ones too.
///
/// The record is not there at run time. It starts with a sender that was not pushed to. A push takes
/// the sender and gives it back with a longer record, and there is no other way to push through it.
/// So a sender with the same record was not pushed to.
pub struct RecordingSender {
    sender: BodyForkSender,
}

/// The plain senders behind `senders`.
pub open spec fn plain(senders: Seq<RecordingSender>) -> Seq<BodyForkSender> {
    senders.map_values(|s: RecordingSender| s.sender())
}

impl RecordingSender {
    /// The plain sender, without the record.
    pub closed spec fn sender(self) -> BodyForkSender {
        self.sender.unrecorded()
    }

    /// What was pushed through this sender, in push order.
    pub closed spec fn pushes(self) -> Seq<Seq<u8>> {
        self.sender.record()
    }

    /// Whether the open fork was declared complete after just the pushes of the record, and whoever
    /// waits was woken then.
    pub open spec fn was_finished(self) -> bool {
        self.sender().was_finished_with(self.pushes())
    }

    /// Whether the open fork was aborted after just the pushes of the record, and whoever waits was
    /// woken then.
    pub open spec fn was_aborted(self) -> bool {
        self.sender().was_aborted_with(self.pushes())
    }

    /// Starts the record of a sender.
    pub(crate) fn new(fresh: FreshSender) -> (recording: Self)
        ensures
            recording.sender() == fresh.sender(),
            recording.pushes() == Seq::<Seq<u8>>::empty(),
        opens_invariants none
    {
        RecordingSender { sender: fresh.into_sender() }
    }

    /// Tries to queue a body chunk, as [`BodyForkSender::try_push`] does, and records it.
    pub(crate) fn push(self, chunk: Bytes) -> (res: (Self, Result<(), BodyForkPushError>))
        ensures
            res.0.sender() == self.sender(),
            res.0.pushes() == self.pushes().push(crate::outside::contents(chunk)),
            self.sender().answered_push(crate::outside::contents(chunk), res.1),
        opens_invariants none
    {
        let mut sender = self.sender;
        proof {
            lemma_same_fork(sender);
        }
        let ghost pushed = crate::outside::contents(chunk);
        let ghost before = sender;
        let res = sender.try_push(chunk);
        proof {
            let (found, left) = choose|found: ForkModel, left: ForkModel|
                {
                    &&& #[trigger] before.step(found, left)
                    &&& found is Open
                    &&& res == found.push_result(before.max_chunks())
                    &&& left == found.pushed(before.max_chunks(), pushed)
                    &&& res is Ok ==> before.woke_after(found, left)
                };
            assert(before.unrecorded().step(found, left));
            assert(before.unrecorded().answered_push(pushed, res));
        }
        sender.note(Ghost(pushed));
        (RecordingSender { sender }, res)
    }

    /// Marks the body as complete, as [`BodyForkSender::finish`] does.
    pub(crate) fn finish(self)
        ensures
            self.was_finished(),
            self.sender().was_finished(),
        opens_invariants none
    {
        proof {
            lemma_same_fork(self.sender);
        }
        let ghost sender = self.sender;
        self.sender.finish();
        proof {
            let (found, left) = choose|found: ForkModel, left: ForkModel|
                {
                    &&& #[trigger] sender.step(found, left)
                    &&& sender.accessed_with(sender.record(), found, left)
                    &&& found is Open
                    &&& left == found.finished()
                    &&& sender.woke_after(found, left)
                };
            assert(sender.unrecorded().step(found, left));
        }
    }

    /// Aborts the fork. Consumes the sender.
    pub(crate) fn abort(self)
        ensures
            self.was_aborted(),
            self.sender().was_aborted(),
        opens_invariants none
    {
        proof {
            lemma_same_fork(self.sender);
        }
        let ghost sender = self.sender;
        self.sender.abort();
        proof {
            let (found, left) = choose|found: ForkModel, left: ForkModel|
                {
                    &&& #[trigger] sender.step(found, left)
                    &&& sender.accessed_with(sender.record(), found, left)
                    &&& found is Open
                    &&& left is Aborted
                    &&& sender.woke_after(found, left)
                };
            assert(sender.unrecorded().step(found, left));
        }
    }
}

} // verus!
