//! One sender, several receivers.
use body_fork::{
    body_multi_fork_pair_with, push_mapped, AbortStep, BodyForkAborted, BodyForkPushError,
    BodyForkReceiver, BodyMultiForkPushError, RecvStep,
};
use bytes::Bytes;
use std::cell::RefCell;
use std::collections::VecDeque;
use std::sync::atomic::{AtomicUsize, Ordering};
use std::sync::Arc;

const CHUNKS_PER_BATCH: usize = 32;

/// Everything that these tests receive is there already.
fn recv(rx: &mut BodyForkReceiver) -> Result<Option<VecDeque<Bytes>>, BodyForkAborted> {
    match rx.recv() {
        RecvStep::Ready(result) => result,
        RecvStep::Wait(_) => panic!("nothing to receive"),
    }
}

/// Flatten a VecDeque<Bytes> for easy assertion.
fn flatten(chunks: VecDeque<Bytes>) -> Vec<u8> {
    chunks.into_iter().flat_map(|b| b.to_vec()).collect()
}

#[test]
fn multi_fork_partial_failure_keeps_healthy_fork() {
    let (tx, mut receivers) = body_multi_fork_pair_with(1, 2, Some);
    let mut healthy = receivers.remove(0);
    let mut stalled = receivers.remove(0);

    assert!(tx.try_push(Bytes::from_static(b"a")).unwrap().is_empty());
    assert_eq!(flatten(recv(&mut healthy).unwrap().unwrap()), b"a");

    assert_eq!(
        tx.try_push(Bytes::from_static(b"b")),
        Ok(vec![BodyForkPushError::Full])
    );
    assert_eq!(recv(&mut stalled), Err(BodyForkAborted));
    assert_eq!(flatten(recv(&mut healthy).unwrap().unwrap()), b"b");

    tx.finish();
    assert_eq!(recv(&mut healthy), Ok(None));
}

#[test]
fn multi_fork_errors_when_last_healthy_fork_fails() {
    let (tx, mut receivers) = body_multi_fork_pair_with(1, 2, Some);
    let mut healthy = receivers.remove(0);
    let mut stalled = receivers.remove(0);

    assert!(tx.try_push(Bytes::from_static(b"a")).unwrap().is_empty());
    assert_eq!(flatten(recv(&mut healthy).unwrap().unwrap()), b"a");
    assert_eq!(
        tx.try_push(Bytes::from_static(b"b")),
        Ok(vec![BodyForkPushError::Full])
    );

    assert_eq!(
        tx.try_push(Bytes::from_static(b"c")),
        Err(BodyMultiForkPushError::AllErrored(vec![
            BodyForkPushError::Full
        ]))
    );
    assert_eq!(recv(&mut healthy), Err(BodyForkAborted));
    assert_eq!(recv(&mut stalled), Err(BodyForkAborted));
}

struct TrackedBytes {
    bytes: Bytes,
    live_bytes: Arc<AtomicUsize>,
}

impl AsRef<[u8]> for TrackedBytes {
    fn as_ref(&self) -> &[u8] {
        self.bytes.as_ref()
    }
}

impl Drop for TrackedBytes {
    fn drop(&mut self) {
        self.live_bytes
            .fetch_sub(self.bytes.len(), Ordering::SeqCst);
    }
}

fn tracked_mapper(live_bytes: Arc<AtomicUsize>) -> impl Fn(Bytes) -> Option<Bytes> + Send + Sync {
    move |bytes| {
        live_bytes.fetch_add(bytes.len(), Ordering::SeqCst);
        Some(Bytes::from_owner(TrackedBytes {
            bytes,
            live_bytes: live_bytes.clone(),
        }))
    }
}

#[test]
fn mapper_rejection_aborts_when_sender_is_dropped() {
    let (tx, mut receivers) = body_multi_fork_pair_with(32, 1, |_| None);
    let mut rx = receivers.pop().unwrap();
    assert_eq!(
        tx.try_push(Bytes::from_static(b"rejected")),
        Err(BodyMultiForkPushError::Rejected)
    );
    drop(tx);
    assert_eq!(recv(&mut rx), Err(BodyForkAborted));
}

#[test]
fn full_drops_failed_fork_bytes_immediately() {
    let live_bytes = Arc::new(AtomicUsize::new(0));
    let (tx, mut rx_vec) = body_multi_fork_pair_with(1, 1, tracked_mapper(live_bytes.clone()));
    let mut rx = rx_vec.pop().expect("expected one fork");

    tx.try_push(Bytes::from_static(b"a")).unwrap();
    assert_eq!(live_bytes.load(Ordering::SeqCst), 1);
    assert_eq!(
        tx.try_push(Bytes::from_static(b"bc")),
        Err(BodyMultiForkPushError::AllErrored(vec![
            BodyForkPushError::Full
        ]))
    );
    assert_eq!(
        live_bytes.load(Ordering::SeqCst),
        0,
        "aborting the failed fork must drop its queued and rejected chunks"
    );

    tx.finish();
    assert_eq!(recv(&mut rx), Err(BodyForkAborted));
}

#[test]
fn mapped_bytes_live_across_drained_batch_and_refilled_queue() {
    let live_bytes = Arc::new(AtomicUsize::new(0));
    let (tx, mut rx_vec) =
        body_multi_fork_pair_with(CHUNKS_PER_BATCH, 1, tracked_mapper(live_bytes.clone()));
    let mut rx = rx_vec.pop().expect("expected one fork");

    for _ in 0..CHUNKS_PER_BATCH {
        tx.try_push(Bytes::from_static(b"x")).unwrap();
    }
    let Some(first_batch) = recv(&mut rx).unwrap() else {
        panic!("expected first batch");
    };
    for _ in 0..CHUNKS_PER_BATCH {
        tx.try_push(Bytes::from_static(b"x")).unwrap();
    }
    assert_eq!(
        live_bytes.load(Ordering::SeqCst),
        2 * CHUNKS_PER_BATCH,
        "the drained batch and refilled queue retain their owners"
    );

    drop(first_batch);
    assert_eq!(live_bytes.load(Ordering::SeqCst), CHUNKS_PER_BATCH);
    drop(tx);
    assert_eq!(
        live_bytes.load(Ordering::SeqCst),
        0,
        "aborting clears the refilled queue"
    );
    assert_eq!(recv(&mut rx), Err(BodyForkAborted));
}

#[test]
fn every_fork_gets_a_copy_of_the_mapped_chunk() {
    let calls = Arc::new(AtomicUsize::new(0));
    let seen = calls.clone();
    let (tx, mut receivers) = body_multi_fork_pair_with(4, 3, move |chunk: Bytes| {
        seen.fetch_add(1, Ordering::SeqCst);
        Some(chunk.slice(1..))
    });
    assert_eq!(receivers.len(), 3);
    assert_eq!(tx.try_push(Bytes::from_static(b"-ab")), Ok(vec![]));
    assert_eq!(tx.try_push(Bytes::from_static(b"-c")), Ok(vec![]));
    assert_eq!(calls.load(Ordering::SeqCst), 2);
    tx.finish();
    for rx in receivers.iter_mut() {
        assert_eq!(flatten(recv(rx).unwrap().unwrap()), b"abc");
        assert_eq!(recv(rx), Ok(None));
    }
}

#[test]
fn chunk_without_bytes_is_not_pushed() {
    let (tx, mut receivers) = body_multi_fork_pair_with(1, 1, Some);
    assert_eq!(tx.try_push(Bytes::new()), Ok(vec![]));
    assert!(matches!(receivers[0].recv(), RecvStep::Wait(_)));
    assert_eq!(tx.try_push(Bytes::from_static(b"a")), Ok(vec![]));
    // The queue is full, but there is nothing to push.
    assert_eq!(tx.try_push(Bytes::new()), Ok(vec![]));
    tx.finish();
    assert_eq!(flatten(recv(&mut receivers[0]).unwrap().unwrap()), b"a");
    assert_eq!(recv(&mut receivers[0]), Ok(None));
}

#[test]
fn push_with_no_fork_left_reports_no_errors() {
    let (tx, _receivers) = body_multi_fork_pair_with(0, 2, Some);
    assert_eq!(
        tx.try_push(Bytes::from_static(b"a")),
        Err(BodyMultiForkPushError::AllErrored(vec![
            BodyForkPushError::Full,
            BodyForkPushError::Full
        ]))
    );
    assert_eq!(
        tx.try_push(Bytes::from_static(b"a")),
        Err(BodyMultiForkPushError::AllErrored(vec![]))
    );
    assert_eq!(tx.try_push(Bytes::new()), Ok(vec![]));
}

/// Each push adds a hundred to the sender.
fn takes_multiples_of_four(sender: u32, chunk: Bytes) -> (u32, Result<(), BodyForkPushError>) {
    assert_eq!(&chunk[..], b"abc");
    let res = if sender % 4 == 0 {
        Ok(())
    } else if sender % 2 == 0 {
        Err(BodyForkPushError::Full)
    } else {
        Err(BodyForkPushError::Rejected)
    };
    (sender + 100, res)
}

#[test]
fn failing_senders_are_let_go_of_in_order() {
    let aborted = RefCell::new(Vec::new());
    let abort = |sender: u32| aborted.borrow_mut().push(sender);

    let mut senders: Vec<u32> = vec![4, 2, 8, 1, 6, 12];
    let chunk = Some(Bytes::from_static(b"abc"));
    let res = push_mapped(&mut senders, chunk, takes_multiples_of_four, abort);
    assert_eq!(
        res,
        Ok(vec![
            BodyForkPushError::Full,
            BodyForkPushError::Rejected,
            BodyForkPushError::Full
        ])
    );
    assert_eq!(senders, vec![104, 108, 112]);
    assert_eq!(aborted.take(), vec![102, 101, 106]);

    let mut senders: Vec<u32> = vec![1, 2];
    let chunk = Some(Bytes::from_static(b"abc"));
    let res = push_mapped(&mut senders, chunk, takes_multiples_of_four, abort);
    assert_eq!(
        res,
        Err(BodyMultiForkPushError::AllErrored(vec![
            BodyForkPushError::Rejected,
            BodyForkPushError::Full
        ]))
    );
    assert!(senders.is_empty());
    assert_eq!(aborted.take(), vec![101, 102]);
}

#[test]
fn rejected_or_empty_chunk_touches_no_sender() {
    let abort = |_: u32| panic!("no sender fails");
    let mut senders: Vec<u32> = vec![1, 2];
    assert_eq!(
        push_mapped(&mut senders, None, takes_multiples_of_four, abort),
        Err(BodyMultiForkPushError::Rejected)
    );
    let empty = Some(Bytes::new());
    assert_eq!(
        push_mapped(&mut senders, empty, takes_multiples_of_four, abort),
        Ok(vec![])
    );
    assert_eq!(senders, vec![1, 2]);
}

#[test]
fn only_the_drained_fork_of_three_survives() {
    let (tx, mut rxs) = body_multi_fork_pair_with(1, 3, Some);
    assert_eq!(tx.try_push(Bytes::from_static(b"a")), Ok(vec![]));
    assert_eq!(flatten(recv(&mut rxs[1]).unwrap().unwrap()), b"a");
    assert_eq!(
        tx.try_push(Bytes::from_static(b"b")),
        Ok(vec![BodyForkPushError::Full, BodyForkPushError::Full])
    );
    assert_eq!(flatten(recv(&mut rxs[1]).unwrap().unwrap()), b"b");
    assert_eq!(recv(&mut rxs[0]), Err(BodyForkAborted));
    assert_eq!(recv(&mut rxs[2]), Err(BodyForkAborted));
}

#[test]
fn abort_wait_of_a_healthy_fork_outlasts_the_failure_of_another() {
    let (tx, mut rxs) = body_multi_fork_pair_with(1, 2, Some);
    assert_eq!(tx.try_push(Bytes::from_static(b"a")), Ok(vec![]));
    assert_eq!(flatten(recv(&mut rxs[0]).unwrap().unwrap()), b"a");
    assert_eq!(
        tx.try_push(Bytes::from_static(b"b")),
        Ok(vec![BodyForkPushError::Full])
    );
    assert!(matches!(rxs[1].wait_for_abort(), AbortStep::Aborted));
    assert!(matches!(rxs[0].wait_for_abort(), AbortStep::Wait(_)));
    drop(tx);
    assert!(matches!(rxs[0].wait_for_abort(), AbortStep::Aborted));
}

#[test]
fn rejection_leaves_every_fork_open() {
    let (tx, mut rxs) = body_multi_fork_pair_with(1, 2, |chunk: Bytes| {
        if chunk.starts_with(b"!") {
            None
        } else {
            Some(chunk)
        }
    });
    assert_eq!(tx.try_push(Bytes::from_static(b"a")), Ok(vec![]));
    // The queues are full, but a rejected chunk is not pushed.
    assert_eq!(
        tx.try_push(Bytes::from_static(b"!")),
        Err(BodyMultiForkPushError::Rejected)
    );
    tx.finish();
    for rx in rxs.iter_mut() {
        assert!(matches!(rx.wait_for_abort(), AbortStep::Wait(_)));
        assert_eq!(flatten(recv(rx).unwrap().unwrap()), b"a");
        assert_eq!(recv(rx), Ok(None));
    }
}

#[test]
fn emptiness_is_judged_on_the_mapped_chunk() {
    let (tx, mut rxs) = body_multi_fork_pair_with(1, 1, |_| Some(Bytes::new()));
    assert_eq!(tx.try_push(Bytes::from_static(b"x")), Ok(vec![]));
    assert_eq!(tx.try_push(Bytes::from_static(b"y")), Ok(vec![]));
    assert!(matches!(rxs[0].recv(), RecvStep::Wait(_)));
    tx.finish();
    assert_eq!(recv(&mut rxs[0]), Ok(None));
}

#[test]
fn live_forks_carry_the_same_body_however_they_are_drained() {
    let (tx, mut rxs) = body_multi_fork_pair_with(3, 2, Some);
    let mut got: Vec<Vec<u8>> = vec![Vec::new(), Vec::new()];
    for (n, chunk) in [&b"a"[..], b"bc", b"d", b"ef", b"g"].into_iter().enumerate() {
        assert_eq!(tx.try_push(Bytes::copy_from_slice(chunk)), Ok(vec![]));
        got[0].extend(flatten(recv(&mut rxs[0]).unwrap().unwrap()));
        if n % 2 == 1 {
            got[1].extend(flatten(recv(&mut rxs[1]).unwrap().unwrap()));
        }
    }
    tx.finish();
    got[1].extend(flatten(recv(&mut rxs[1]).unwrap().unwrap()));
    assert_eq!(got, vec![b"abcdefg".to_vec(), b"abcdefg".to_vec()]);
    assert_eq!(recv(&mut rxs[0]), Ok(None));
    assert_eq!(recv(&mut rxs[1]), Ok(None));
}

#[test]
fn failed_fork_is_never_pushed_to_again() {
    let (tx, mut rxs) = body_multi_fork_pair_with(1, 2, Some);
    assert_eq!(tx.try_push(Bytes::from_static(b"a")), Ok(vec![]));
    let _ = recv(&mut rxs[0]).unwrap().unwrap();
    assert_eq!(
        tx.try_push(Bytes::from_static(b"b")),
        Ok(vec![BodyForkPushError::Full])
    );
    assert_eq!(recv(&mut rxs[1]), Err(BodyForkAborted));
    let _ = recv(&mut rxs[0]).unwrap().unwrap();
    // The failed fork would have room, but nothing reaches it, and it fails no more.
    assert_eq!(tx.try_push(Bytes::from_static(b"c")), Ok(vec![]));
    assert_eq!(recv(&mut rxs[1]), Err(BodyForkAborted));
    assert_eq!(flatten(recv(&mut rxs[0]).unwrap().unwrap()), b"c");
}

#[test]
fn forks_share_neither_queue_nor_status() {
    let (tx, mut rxs) = body_multi_fork_pair_with(2, 3, Some);
    assert_eq!(tx.try_push(Bytes::from_static(b"a")), Ok(vec![]));
    // Draining one fork, or dropping its receiver, leaves the others as they are.
    assert_eq!(flatten(recv(&mut rxs[0]).unwrap().unwrap()), b"a");
    drop(rxs.remove(2));
    assert_eq!(tx.try_push(Bytes::from_static(b"b")), Ok(vec![]));
    assert_eq!(flatten(recv(&mut rxs[1]).unwrap().unwrap()), b"ab");
    assert_eq!(flatten(recv(&mut rxs[0]).unwrap().unwrap()), b"b");
    // The fork without a receiver fills up and fails alone.
    assert_eq!(
        tx.try_push(Bytes::from_static(b"c")),
        Ok(vec![BodyForkPushError::Full])
    );
    tx.finish();
    for rx in rxs.iter_mut() {
        assert_eq!(flatten(recv(rx).unwrap().unwrap()), b"c");
        assert_eq!(recv(rx), Ok(None));
    }
}

#[test]
fn multi_push_queues_a_chunk_once_in_each_fork() {
    let (tx, mut rxs) = body_multi_fork_pair_with(4, 2, Some);
    assert_eq!(tx.try_push(Bytes::from_static(b"ab")), Ok(vec![]));
    assert_eq!(tx.try_push(Bytes::new()), Ok(vec![]));
    assert_eq!(tx.try_push(Bytes::from_static(b"c")), Ok(vec![]));
    for rx in rxs.iter_mut() {
        let chunks = recv(rx).unwrap().unwrap();
        let lengths: Vec<usize> = chunks.iter().map(|chunk| chunk.len()).collect();
        assert_eq!(lengths, vec![2, 1]);
        assert_eq!(flatten(chunks), b"abc");
    }
    tx.finish();
    for rx in rxs.iter_mut() {
        assert_eq!(recv(rx), Ok(None));
    }
}

#[test]
fn mapper_without_bytes_leaves_every_queue_empty() {
    let (tx, mut rxs) = body_multi_fork_pair_with(1, 2, |_: Bytes| Some(Bytes::new()));
    for _ in 0..3 {
        assert_eq!(tx.try_push(Bytes::from_static(b"a")), Ok(vec![]));
    }
    for rx in rxs.iter_mut() {
        assert!(matches!(rx.recv(), RecvStep::Wait(_)));
    }
    tx.finish();
    for rx in rxs.iter_mut() {
        assert_eq!(recv(rx), Ok(None));
    }
}
