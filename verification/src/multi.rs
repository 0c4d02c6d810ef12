//! One mapped chunk to several forks.
use crate::error::{BodyForkPushError, BodyMultiForkPushError};
#[allow(unused_imports)]
use crate::fork::{law_receiver_has_one_fork, new_pair, BodyForkReceiver, BodyForkSender};
#[allow(unused_imports)]
use crate::laws::{
    law_partial_failure_keeps_healthy_forks, law_recv_frees_capacity, push_results, pushed_all, ForkEvent, ForkHistory,
};
#[allow(unused_imports)]
use crate::outside::{
    is_part_of, lemma_handed, new_senders_lock, picks, with_senders, SendersRight, SendersTask, Unmapped,
};
#[allow(unused_imports)]
use crate::record::{plain, RecordingSender};
#[allow(unused_imports)]
use crate::state::{BoundedForkModel, ForkModel, RecvModel};
use bytes::Bytes;
use parking_lot::Mutex;
use vstd::prelude::*;

verus! {

/// The senders whose push succeeded, in their order. `results[i]` is the result of `senders[i]`.
pub open spec fn survivors<S>(
    senders: Seq<S>,
    results: Seq<Result<(), BodyForkPushError>>,
) -> Seq<S>
    decreases results.len(),
{
    if results.len() == 0 {
        Seq::empty()
    } else {
        let rest = survivors(senders, results.drop_last());
        match results.last() {
            Ok(()) => rest.push(senders[results.len() - 1]),
            Err(_) => rest,
        }
    }
}

/// The errors among `results`, in their order.
pub open spec fn errors(results: Seq<Result<(), BodyForkPushError>>) -> Seq<BodyForkPushError>
    decreases results.len(),
{
    if results.len() == 0 {
        Seq::empty()
    } else {
        let rest = errors(results.drop_last());
        match results.last() {
            Ok(()) => rest,
            Err(e) => rest.push(e),
        }
    }
}

/// Whether `res` is what a push to several forks returns where the push to each fork gave
/// `results`: the errors, as a failure where no fork succeeded.
pub open spec fn reports(
    res: Result<Vec<BodyForkPushError>, BodyMultiForkPushError>,
    results: Seq<Result<(), BodyForkPushError>>,
) -> bool {
    match res {
        Ok(errs) => errs@ == errors(results) && exists|i: int|
            0 <= i < results.len() && #[trigger] results[i] is Ok,
        Err(BodyMultiForkPushError::AllErrored(errs)) => errs@ == errors(results) && forall|i: int|
            0 <= i < results.len() ==> #[trigger] results[i] is Err,
        Err(BodyMultiForkPushError::Rejected) => false,
    }
}

/// Whether `push` took each of `senders`, with a copy of `chunk`, and gave back `after` and
/// `results`.
pub open spec fn each_pushed<S, P: Fn(S, Bytes) -> (S, Result<(), BodyForkPushError>)>(
    push: P,
    senders: Seq<S>,
    after: Seq<S>,
    chunk: Bytes,
    copies: Seq<Bytes>,
    results: Seq<Result<(), BodyForkPushError>>,
) -> bool {
    &&& after.len() == senders.len()
    &&& copies.len() == senders.len()
    &&& results.len() == senders.len()
    &&& forall|i: int|
        0 <= i < copies.len() ==> crate::outside::contents(#[trigger] copies[i])
            == crate::outside::contents(chunk)
    &&& forall|i: int|
        0 <= i < results.len() ==> push.ensures(
            (senders[i], copies[i]),
            (after[i], #[trigger] results[i]),
        )
}

/// Whether `abort` was called on each of `senders` whose result is an error. It takes the sender, so
/// a sender that is still there was not aborted.
pub open spec fn failed_aborted<S, A: Fn(S)>(
    abort: A,
    senders: Seq<S>,
    results: Seq<Result<(), BodyForkPushError>>,
) -> bool {
    forall|i: int|
        0 <= i < results.len() && #[trigger] results[i] is Err ==> abort.ensures(
            (senders[i],),
            (),
        )
}

/// No sender survives exactly where every result is an error.
proof fn lemma_survivors_empty<S>(
    senders: Seq<S>,
    results: Seq<Result<(), BodyForkPushError>>,
)
    ensures
        survivors(senders, results).len() == 0 <==> forall|i: int|
            0 <= i < results.len() ==> #[trigger] results[i] is Err,
    decreases results.len(),
{
    if results.len() > 0 {
        let front = results.drop_last();
        lemma_survivors_empty(senders, front);
        if results.last() is Err && survivors(senders, front).len() == 0 {
            assert forall|i: int| 0 <= i < results.len() implies #[trigger] results[i] is Err by {
                if i < front.len() {
                    assert(front[i] is Err);
                }
            }
        }
        if forall|i: int| 0 <= i < results.len() ==> #[trigger] results[i] is Err {
            assert forall|i: int| 0 <= i < front.len() implies #[trigger] front[i] is Err by {
                assert(results[i] is Err);
            }
        }
    }
}

/// The survivors are a part of the senders.
proof fn lemma_survivors_are_part<S>(
    senders: Seq<S>,
    results: Seq<Result<(), BodyForkPushError>>,
)
    requires
        results.len() <= senders.len(),
    ensures
        is_part_of(survivors(senders, results), senders),
        is_part_of(senders, senders),
{
    let at = survivors(Seq::new(senders.len(), |i: int| i), results);
    lemma_survivors_at(senders, results);
    assert(picks(survivors(senders, results), senders, at));
    assert(picks(senders, senders, Seq::new(senders.len(), |i: int| i)));
}

/// Where the survivors stand among the senders.
proof fn lemma_survivors_at<S>(senders: Seq<S>, results: Seq<Result<(), BodyForkPushError>>)
    requires
        results.len() <= senders.len(),
    ensures
        ({
            let at = survivors(Seq::new(senders.len(), |i: int| i), results);
            &&& picks(survivors(senders, results), senders, at)
            &&& forall|i: int| 0 <= i < at.len() ==> #[trigger] at[i] < results.len()
        }),
    decreases results.len(),
{
    if results.len() > 0 {
        lemma_survivors_at(senders, results.drop_last());
    }
}

/// Hands what the mapper made of a chunk to each sender in turn, with `push`. Lets go of the
/// senders that fail, and aborts their forks, with `abort`.
///
/// Nothing is pushed where the mapper rejected the chunk, nor where it left no bytes. Both `push`
/// and `abort` take the sender, so what was done with each sender shows in what becomes of it.
pub fn push_mapped<S, P, A>(
    senders: &mut Vec<S>,
    mapped: Option<Bytes>,
    push: P,
    abort: A,
) -> (res: Result<Vec<BodyForkPushError>, BodyMultiForkPushError>) where
    P: Fn(S, Bytes) -> (S, Result<(), BodyForkPushError>),
    A: Fn(S),

    requires
        forall|sender: S, chunk: Bytes| #[trigger] push.requires((sender, chunk)),
        forall|sender: S| #[trigger] abort.requires((sender,)),
    ensures
        mapped is None ==> {
            &&& res == Err::<Vec<BodyForkPushError>, _>(BodyMultiForkPushError::Rejected)
            &&& final(senders)@ == old(senders)@
        },
        mapped matches Some(chunk) ==> crate::outside::contents(chunk).len() == 0 ==> {
            &&& res matches Ok(errs)
            &&& errs@.len() == 0
            &&& final(senders)@ == old(senders)@
        },
        mapped matches Some(chunk) ==> crate::outside::contents(chunk).len() > 0 ==> exists|
            after: Seq<S>,
            copies: Seq<Bytes>,
            results: Seq<Result<(), BodyForkPushError>>,
        |
            {
                &&& #[trigger] each_pushed(push, old(senders)@, after, chunk, copies, results)
                &&& failed_aborted(abort, after, results)
                &&& final(senders)@ == survivors(after, results)
                &&& reports(res, results)
            },
{
    let chunk = match mapped {
        Some(chunk) => chunk,
        None => {
            return Err(BodyMultiForkPushError::Rejected);
        },
    };
    if chunk.is_empty() {
        return Ok(Vec::new());
    }
    let ghost before = senders@;
    let ghost mut after: Seq<S> = Seq::empty();
    let ghost mut copies: Seq<Bytes> = Seq::empty();
    let ghost mut results: Seq<Result<(), BodyForkPushError>> = Seq::empty();
    let mut taken: Vec<S> = Vec::new();
    std::mem::swap(senders, &mut taken);
    let mut errs: Vec<BodyForkPushError> = Vec::new();
    for sender in it: taken
        invariant
            it.seq() == before,
            it.index() == results.len(),
            after.len() == results.len(),
            copies.len() == results.len(),
            forall|s: S, c: Bytes| #[trigger] push.requires((s, c)),
            forall|s: S| #[trigger] abort.requires((s,)),
            forall|i: int|
                0 <= i < copies.len() ==> crate::outside::contents(#[trigger] copies[i])
                    == crate::outside::contents(chunk),
            forall|i: int|
                0 <= i < results.len() ==> push.ensures(
                    (before[i], copies[i]),
                    (after[i], #[trigger] results[i]),
                ),
            failed_aborted(abort, after, results),
            senders@ == survivors(after, results),
            errs@ == errors(results),
    {
        let copy = chunk.clone();
        let ghost copied = copy;
        let (sender, res) = push(sender, copy);
        proof {
            let (earlier, served) = (results, after);
            after = after.push(sender);
            copies = copies.push(copied);
            results = results.push(res);
            assert(results.drop_last() =~= earlier);
            assert(after.drop_last() =~= served);
            lemma_survivors_of_front(after, earlier);
        }
        match res {
            Ok(()) => {
                senders.push(sender);
            },
            Err(e) => {
                errs.push(e);
                abort(sender);
            },
        }
    }
    proof {
        lemma_survivors_empty(after, results);
        assert(each_pushed(push, before, after, chunk, copies, results));
    }
    if senders.len() == 0 {
        Err(BodyMultiForkPushError::AllErrored(errs))
    } else {
        Ok(errs)
    }
}

/// Senders beyond the results do not matter.
pub(crate) proof fn lemma_survivors_of_front<S>(
    senders: Seq<S>,
    results: Seq<Result<(), BodyForkPushError>>,
)
    requires
        results.len() < senders.len(),
    ensures
        survivors(senders, results) == survivors(senders.drop_last(), results),
    decreases results.len(),
{
    if results.len() > 0 {
        lemma_survivors_of_front(senders, results.drop_last());
    }
}

/// The plain senders behind the survivors are the survivors of the plain senders.
proof fn lemma_plain_survivors(
    senders: Seq<RecordingSender>,
    results: Seq<Result<(), BodyForkPushError>>,
)
    requires
        results.len() <= senders.len(),
    ensures
        plain(survivors(senders, results)) == survivors(plain(senders), results),
    decreases results.len(),
{
    if results.len() > 0 {
        lemma_plain_survivors(senders, results.drop_last());
    }
    assert(plain(survivors(senders, results)) =~= survivors(plain(senders), results));
}

/// Whether no two of `senders` fill the same fork.
pub open spec fn have_their_own_forks(senders: Seq<BodyForkSender>) -> bool {
    forall|i: int, j: int|
        0 <= i < j < senders.len() ==> !(#[trigger] senders[i]).shares_fork_with(
            #[trigger] senders[j],
        )
}

/// The senders that any push or finish finds have their own forks, as those that were made have. So
/// what is done to one fork is done to no other.
pub proof fn law_parts_have_their_own_forks(
    part: Seq<BodyForkSender>,
    whole: Seq<BodyForkSender>,
)
    requires
        have_their_own_forks(whole),
        is_part_of(part, whole),
    ensures
        have_their_own_forks(part),
{
    let at = choose|at: Seq<int>| #[trigger] picks(part, whole, at);
    assert forall|i: int, j: int| 0 <= i < j < part.len() implies !(
    #[trigger] part[i]).shares_fork_with(#[trigger] part[j]) by {
        assert(at[i] < at[j]);
        assert(part[i] == whole[at[i]] && part[j] == whole[at[j]]);
    }
}

/// What a multi sender does where its mapper made `mapped` of a chunk: from the senders `found` to
/// the senders `left`, with the result `res`. The records of the senders tell what was pushed: one
/// chunk to each where there are bytes to push, else nothing.
pub open spec fn multi_push(
    mapped: Option<Bytes>,
    found: Seq<RecordingSender>,
    left: Seq<RecordingSender>,
    res: Result<Vec<BodyForkPushError>, BodyMultiForkPushError>,
) -> bool {
    match mapped {
        None => res == Err::<Vec<BodyForkPushError>, _>(BodyMultiForkPushError::Rejected) && left
            == found,
        Some(chunk) => if crate::outside::contents(chunk).len() == 0 {
            (res matches Ok(errs) && errs@.len() == 0) && left == found
        } else {
            exists|after: Seq<RecordingSender>, results: Seq<Result<(), BodyForkPushError>>|
                {
                    &&& #[trigger] fanned_out(
                        crate::outside::contents(chunk),
                        found,
                        after,
                        results,
                    )
                    &&& left == survivors(after, results)
                    &&& reports(res, results)
                }
        },
    }
}

/// Whether a chunk with these bytes was pushed once to each of the senders `found`, with `results`,
/// and each fork that failed was aborted. `after` are the senders with what was recorded.
pub open spec fn fanned_out(
    chunk: Seq<u8>,
    found: Seq<RecordingSender>,
    after: Seq<RecordingSender>,
    results: Seq<Result<(), BodyForkPushError>>,
) -> bool {
    &&& after.len() == found.len()
    &&& results.len() == found.len()
    &&& forall|i: int|
        0 <= i < found.len() ==> {
            &&& (#[trigger] after[i]).sender() == found[i].sender()
            &&& after[i].pushes() == found[i].pushes().push(chunk)
            &&& found[i].sender().answered_push(chunk, results[i])
            &&& results[i] is Err ==> found[i].sender().was_aborted() && after[i].was_aborted()
        }
}

/// Whether the forks of all `senders` were declared complete, each after just the pushes of its
/// record.
pub open spec fn all_finished(senders: Seq<RecordingSender>) -> bool {
    forall|i: int|
        0 <= i < senders.len() ==> {
            &&& (#[trigger] senders[i]).was_finished()
            &&& senders[i].sender().was_finished()
        }
}

/// A push only lets go of senders.
proof fn lemma_multi_push_lets_go(
    mapped: Option<Bytes>,
    found: Seq<RecordingSender>,
    left: Seq<RecordingSender>,
    res: Result<Vec<BodyForkPushError>, BodyMultiForkPushError>,
)
    requires
        multi_push(mapped, found, left, res),
    ensures
        is_part_of(plain(left), plain(found)),
{
    if mapped is Some && crate::outside::contents(mapped->0).len() > 0 {
        let (after, results) = choose|
            after: Seq<RecordingSender>,
            results: Seq<Result<(), BodyForkPushError>>,
        | #[trigger]
            fanned_out(crate::outside::contents(mapped->0), found, after, results) && left
                == survivors(after, results);
        lemma_plain_survivors(after, results);
        assert(plain(after) =~= plain(found));
        lemma_survivors_are_part(plain(found), results);
    } else {
        lemma_survivors_are_part(plain(found), Seq::empty());
    }
}

/// What a multi push does to its forks is what is said of several forks: it finds them open, as
/// `forks`, answers for each by its own queue, and takes each to what a push makes of a fork of a
/// multi sender. The senders that are left are those of the forks with room, and every error that is
/// reported is that a fork is full.
pub proof fn law_multi_push_fans_out(
    max_chunks: nat,
    chunk: Bytes,
    found: Seq<RecordingSender>,
    left: Seq<RecordingSender>,
    res: Result<Vec<BodyForkPushError>, BodyMultiForkPushError>,
) -> (forks: Seq<ForkModel>)
    requires
        crate::outside::contents(chunk).len() > 0,
        multi_push(Some(chunk), found, left, res),
        forall|i: int|
            0 <= i < found.len() ==> (#[trigger] found[i]).sender().max_chunks() == max_chunks,
    ensures
        forks.len() == found.len(),
        forall|i: int|
            0 <= i < found.len() ==> {
                let fork = #[trigger] forks[i];
                &&& fork is Open
                &&& found[i].sender().step(
                    fork,
                    fork.pushed(max_chunks, crate::outside::contents(chunk)),
                )
                &&& fork.push_result(max_chunks) is Err ==> found[i].sender().was_aborted()
            },
        forall|h: ForkHistory, i: int|
            0 <= i < found.len() && h.fork == #[trigger] forks[i] ==> (
            #[trigger] h.after_in_multi(
                max_chunks,
                ForkEvent::Push(crate::outside::contents(chunk)),
            )).fork == if h.fork.push_result(max_chunks) is Ok {
                h.fork.pushed(max_chunks, crate::outside::contents(chunk))
            } else {
                ForkModel::Aborted
            },
        plain(left) == survivors(plain(found), push_results(forks, max_chunks)),
        reports(res, push_results(forks, max_chunks)),
        res matches Ok(errs) ==> forall|i: int|
            0 <= i < errs@.len() ==> #[trigger] errs@[i] == BodyForkPushError::Full,
        res matches Err(BodyMultiForkPushError::AllErrored(errs)) ==> forall|i: int|
            0 <= i < errs@.len() ==> #[trigger] errs@[i] == BodyForkPushError::Full,
{
    let bytes = crate::outside::contents(chunk);
    let (after, results) = choose|
        after: Seq<RecordingSender>,
        results: Seq<Result<(), BodyForkPushError>>,
    |
        {
            &&& #[trigger] fanned_out(bytes, found, after, results)
            &&& left == survivors(after, results)
            &&& reports(res, results)
        };
    let forks = Seq::new(
        found.len(),
        |i: int|
            choose|fork: ForkModel| #[trigger]
                answers_as(found[i].sender(), fork, bytes, results[i]),
    );
    assert forall|i: int| 0 <= i < found.len() implies answers_as(
        found[i].sender(),
        #[trigger] forks[i],
        bytes,
        results[i],
    ) by {
        assert(after[i].sender() == found[i].sender());
        let sender = found[i].sender();
        let (fork, next) = choose|fork: ForkModel, next: ForkModel|
            {
                &&& #[trigger] sender.step(fork, next)
                &&& fork is Open
                &&& results[i] == fork.push_result(sender.max_chunks())
                &&& next == fork.pushed(sender.max_chunks(), bytes)
            };
        assert(answers_as(sender, fork, bytes, results[i]));
    }
    assert(push_results(forks, max_chunks) =~= results);
    assert forall|i: int|
        0 <= i < found.len() && (#[trigger] forks[i]).push_result(max_chunks)
            is Err implies found[i].sender().was_aborted() by {
        assert(after[i].sender() == found[i].sender());
        assert(answers_as(found[i].sender(), forks[i], bytes, results[i]));
    }
    lemma_plain_survivors(after, results);
    assert(plain(after) =~= plain(found));
    assert forall|i: int| 0 <= i < forks.len() implies #[trigger] forks[i] is Open by {
        assert(answers_as(found[i].sender(), forks[i], bytes, results[i]));
    }
    law_partial_failure_keeps_healthy_forks(forks, max_chunks);
    forks
}

/// Whether `fork` was open and answered `res` to a push of these bytes through `sender`.
spec fn answers_as(
    sender: BodyForkSender,
    fork: ForkModel,
    chunk: Seq<u8>,
    res: Result<(), BodyForkPushError>,
) -> bool {
    &&& fork is Open
    &&& res == fork.push_result(sender.max_chunks())
    &&& sender.step(fork, fork.pushed(sender.max_chunks(), chunk))
}

/// Send side of several forks that carry the same body.
///
/// The mapper is shared with whoever pushes, so pushing asks that it can be.
pub struct BodyMultiForkSender<F: Fn(Bytes) -> Option<Bytes>> {
    senders: Mutex<Vec<RecordingSender>>,
    right: SendersRight<F>,
}

/// Creates `forks` forks of at most `max_chunks` pending chunks each, fed by one sender.
///
/// The mapper runs before queue admission. Returning `None` rejects the chunk with
/// [`BodyMultiForkPushError::Rejected`]. A mapped chunk that cannot be queued is dropped before
/// its fork's [`BodyForkPushError::Full`] is reported.
pub fn body_multi_fork_pair_with<F>(max_chunks: usize, forks: usize, mapper: F) -> (pair: (
    BodyMultiForkSender<F>,
    Vec<BodyForkReceiver>,
)) where F: Fn(Bytes) -> Option<Bytes>
    requires
        forks > 0,
        forall|chunk: Bytes| #[trigger] mapper.requires((chunk,)),
    ensures
        pair.0.mapper() == mapper,
        pair.0.senders_at_start().len() == forks,
        pair.1@.len() == forks,
        forall|i: int|
            0 <= i < forks ==> {
                let sender = #[trigger] pair.0.senders_at_start()[i];
                &&& sender.feeds(pair.1@[i])
                &&& sender.max_chunks() == max_chunks
                &&& sender.fork_at_start() == ForkModel::fresh()
                &&& pair.1@[i].seen() == BoundedForkModel::fresh(max_chunks as nat)
            },
        forall|i: int|
            0 <= i < forks ==> (#[trigger] pair.0.records_at_start()[i]).len() == 0,
        have_their_own_forks(pair.0.senders_at_start()),
        forall|i: int, j: int|
            0 <= i < forks && 0 <= j < forks && i != j
                ==> !(#[trigger] pair.0.senders_at_start()[i]).feeds(#[trigger] pair.1@[j]),
{
    let mut senders: Vec<RecordingSender> = Vec::new();
    let mut receivers: Vec<BodyForkReceiver> = Vec::new();
    for made in 0..forks
        invariant
            senders@.len() == made,
            receivers@.len() == made,
            forall|i: int|
                0 <= i < made ==> {
                    let sender = (#[trigger] senders@[i]).sender();
                    &&& sender.feeds(receivers@[i])
                    &&& sender.max_chunks() == max_chunks
                    &&& sender.fork_at_start() == ForkModel::fresh()
                    &&& receivers@[i].seen() == BoundedForkModel::fresh(max_chunks as nat)
                },
            forall|i: int| 0 <= i < made ==> (#[trigger] senders@[i]).pushes().len() == 0,
            have_their_own_forks(plain(senders@)),
    {
        let ghost earlier = senders@;
        let others = Some(&senders);
        let (fresh, receiver) = new_pair(max_chunks, others);
        assert(others->0@ == earlier);
        let ghost newest = fresh.sender();
        senders.push(RecordingSender::new(fresh));
        proof {
            let (before, after) = (plain(earlier), plain(senders@));
            assert forall|i: int, j: int| 0 <= i < j < after.len() implies !(
            #[trigger] after[i]).shares_fork_with(#[trigger] after[j]) by {
                assert(after[i] == earlier[i].sender());
                if j < before.len() {
                    assert(before[i] == after[i] && before[j] == after[j]);
                } else {
                    assert(!earlier[i].sender().shares_fork_with(newest));
                    assert(after[j] == newest);
                }
            }
        }
        receivers.push(receiver);
    }
    proof {
        let made = plain(senders@);
        assert forall|i: int, j: int| 0 <= i < forks && 0 <= j < forks && i != j implies !(
        #[trigger] made[i]).feeds(#[trigger] receivers@[j]) by {
            if made[i].feeds(receivers@[j]) {
                assert(senders@[j].sender().feeds(receivers@[j]));
                law_receiver_has_one_fork(made[i], made[j], receivers@[j]);
                law_receiver_has_one_fork(made[j], made[i], receivers@[j]);
            }
        }
        assert forall|i: int| 0 <= i < forks implies #[trigger] made[i] == senders@[i].sender() by {
        }
    }
    let (senders, right) = new_senders_lock(senders, mapper);
    (BodyMultiForkSender { senders, right }, receivers)
}

/// Each new fork of a multi sender carries just what is pushed to it: nothing was pushed to any of
/// them, and whatever is pushed, as long as there is room, the first receive gives out those chunks
/// and no other, in their order.
pub proof fn law_new_forks_carry_just_what_is_pushed<F: Fn(Bytes) -> Option<Bytes>>(
    max_chunks: usize,
    forks: usize,
    mapper: F,
    pair: (BodyMultiForkSender<F>, Vec<BodyForkReceiver>),
    i: int,
    chunks: Seq<Seq<u8>>,
)
    requires
        call_ensures(body_multi_fork_pair_with::<F>, (max_chunks, forks, mapper), pair),
        0 <= i < forks,
        chunks.len() <= max_chunks,
    ensures
        pair.0.records_at_start()[i].len() == 0,
        ({
            let seen = pair.1@[i].seen();
            let fork = pushed_all(seen.fork, seen.max_chunks, chunks);
            &&& fork.recv_result() == if chunks.len() == 0 {
                RecvModel::Wait
            } else {
                RecvModel::Chunks(chunks)
            }
            &&& fork.finished().recv_result() == if chunks.len() == 0 {
                RecvModel::End
            } else {
                RecvModel::Chunks(chunks)
            }
        }),
{
    assert(pair.0.senders_at_start()[i].max_chunks() == max_chunks);
    assert(ForkModel::fresh().drained() == ForkModel::fresh());
    law_recv_frees_capacity(ForkModel::fresh(), max_chunks as nat, chunks);
}

impl<F: Fn(Bytes) -> Option<Bytes>> BodyMultiForkSender<F> {
    /// The mapper takes any chunk, and the right is to the senders.
    #[verifier::type_invariant]
    closed spec fn mapper_is_total(self) -> bool {
        &&& forall|chunk: Bytes| #[trigger] self.right.mapper().requires((chunk,))
        &&& self.right.lock() == self.senders
    }

    /// What each chunk is put through before it is pushed.
    pub closed spec fn mapper(self) -> F {
        self.right.mapper()
    }

    /// The senders of the forks as they were made, in fork order.
    pub closed spec fn senders_at_start(self) -> Seq<BodyForkSender> {
        plain(crate::outside::initial_senders(self.senders))
    }

    /// What was pushed through the senders as they were made, in fork order.
    pub closed spec fn records_at_start(self) -> Seq<Seq<Seq<u8>>> {
        crate::outside::initial_senders(self.senders).map_values(|s: RecordingSender| s.pushes())
    }

    /// Whether some holder of the lock found the senders `found` and left the senders `left`.
    pub closed spec fn accessed(
        self,
        found: Seq<RecordingSender>,
        left: Seq<RecordingSender>,
    ) -> bool {
        crate::outside::senders_access(self.senders, found, left)
    }

    /// Whether some operation found the senders `found` and left the senders `left`. Those that it
    /// found are some of those that were made, and those that it left are some of those, each time
    /// in their order.
    pub open spec fn step(self, found: Seq<RecordingSender>, left: Seq<RecordingSender>) -> bool {
        &&& self.accessed(found, left)
        &&& is_part_of(plain(found), self.senders_at_start())
        &&& is_part_of(plain(left), plain(found))
    }
}

impl<F: Fn(Bytes) -> Option<Bytes> + Send + Sync + 'static> BodyMultiForkSender<F> {
    /// Tries to push the same chunk of bytes to all forks that are left, calling the mapper once
    /// before pushing. A fork that fails is aborted.
    ///
    /// All of it happens in one hold of the lock: a hold takes its chunk, and a function that is
    /// marked `opens_invariants none` makes no other.
    pub fn try_push(&self, chunk: Bytes) -> (res: Result<
        Vec<BodyForkPushError>,
        BodyMultiForkPushError,
    >)
        ensures
            exists|
                mapped: Option<Bytes>,
                found: Seq<RecordingSender>,
                left: Seq<RecordingSender>,
            |
                {
                    &&& #[trigger] self.mapper().ensures((chunk,), mapped)
                    &&& #[trigger] self.step(found, left)
                    &&& multi_push(mapped, found, left, res)
                },
        opens_invariants none
    {
        proof {
            use_type_invariant(self);
        }
        let ghost mapper = self.mapper();
        let task = SendersTask::Push(&self.right, chunk);
        proof {
            lemma_handed(task);
        }
        let (res, access) = with_senders(&self.senders, task, map_and_push);
        proof {
            let mapped = choose|mapped: Option<Bytes>| #[trigger]
                mapper.ensures((chunk,), mapped) && multi_push(
                    mapped,
                    access.found(),
                    access.left(),
                    res,
                );
            assert(self.mapper().ensures((chunk,), mapped));
            assert(self.step(access.found(), access.left()));
        }
        res
    }

    /// Finishes all forks that are left.
    pub fn finish(self)
        ensures
            exists|found: Seq<RecordingSender>, left: Seq<RecordingSender>|
                {
                    &&& #[trigger] self.step(found, left)
                    &&& left.len() == 0
                    &&& forall|i: int|
                        0 <= i < found.len() ==> (#[trigger] found[i]).sender().was_finished()
                    &&& all_finished(found)
                },
        opens_invariants none
    {
        proof {
            use_type_invariant(&self);
        }
        let ghost sender = self;
        let BodyMultiForkSender { senders, right } = self;
        let (_done, access) = with_senders(&senders, SendersTask::Finish(right), finish_each);
        assert(sender.step(access.found(), access.left()));
    }
}

/// Pushes what the mapper makes of the chunk that is handed in to the forks of all `senders`.
fn map_and_push<F: Fn(Bytes) -> Option<Bytes>>(
    senders: &mut Vec<RecordingSender>,
    handed: Option<Unmapped<&F>>,
) -> (res: Result<Vec<BodyForkPushError>, BodyMultiForkPushError>)
    requires
        handed matches Some(unmapped) && unmapped.mapper().requires((unmapped.chunk(),)),
    ensures
        exists|mapped: Option<Bytes>| #[trigger]
            (handed->0).mapper().ensures(((handed->0).chunk(),), mapped) && multi_push(
                mapped,
                old(senders)@,
                final(senders)@,
                res,
            ),
        is_part_of(plain(final(senders)@), plain(old(senders)@)),
{
    let mapped = handed.unwrap().run();
    let res = push_to_forks(senders, mapped);
    assert((handed->0).mapper().ensures(((handed->0).chunk(),), mapped));
    res
}

/// Pushes what the mapper made of a chunk to the forks of all `senders`.
fn push_to_forks(senders: &mut Vec<RecordingSender>, mapped: Option<Bytes>) -> (res: Result<
    Vec<BodyForkPushError>,
    BodyMultiForkPushError,
>)
    ensures
        multi_push(mapped, old(senders)@, final(senders)@, res),
        is_part_of(plain(final(senders)@), plain(old(senders)@)),
{
    let ghost found = senders@;
    let res = push_mapped(senders, mapped, RecordingSender::push, RecordingSender::abort);
    proof {
        if mapped is Some && crate::outside::contents(mapped->0).len() > 0 {
            let (after, copies, results) = choose|
                after: Seq<RecordingSender>,
                copies: Seq<Bytes>,
                results: Seq<Result<(), BodyForkPushError>>,
            |
                {
                    &&& #[trigger] each_pushed(
                        RecordingSender::push,
                        found,
                        after,
                        mapped->0,
                        copies,
                        results,
                    )
                    &&& failed_aborted(RecordingSender::abort, after, results)
                    &&& senders@ == survivors(after, results)
                    &&& reports(res, results)
                };
            let bytes = crate::outside::contents(mapped->0);
            assert forall|i: int| 0 <= i < found.len() implies {
                &&& (#[trigger] after[i]).sender() == found[i].sender()
                &&& after[i].pushes() == found[i].pushes().push(bytes)
                &&& found[i].sender().answered_push(bytes, results[i])
                &&& results[i] is Err ==> found[i].sender().was_aborted() && after[i].was_aborted()
            } by {
                assert(crate::outside::contents(copies[i]) == bytes);
                assert(RecordingSender::push.ensures(
                    (found[i], copies[i]),
                    (after[i], results[i]),
                ));
            }
            assert(fanned_out(bytes, found, after, results));
        }
        lemma_multi_push_lets_go(mapped, found, senders@, res);
    }
    res
}

/// Finishes the forks of all `senders`. There is no chunk to push, and nothing to report.
fn finish_each<G>(senders: &mut Vec<RecordingSender>, _none: Option<Unmapped<G>>) -> (res: Result<
    Vec<BodyForkPushError>,
    BodyMultiForkPushError,
>)
    ensures
        final(senders)@.len() == 0,
        all_finished(old(senders)@),
        is_part_of(plain(final(senders)@), plain(old(senders)@)),
        res matches Ok(errs) && errs@.len() == 0,
{
    let ghost before = senders@;
    let mut taken: Vec<RecordingSender> = Vec::new();
    std::mem::swap(senders, &mut taken);
    for sender in it: taken
        invariant
            it.seq() == before,
            forall|i: int|
                0 <= i < it.index() ==> {
                    &&& (#[trigger] before[i]).was_finished()
                    &&& before[i].sender().was_finished()
                },
    {
        sender.finish();
    }
    assert(picks(plain(senders@), plain(before), Seq::empty()));
    Ok(Vec::new())
}

} // verus!
