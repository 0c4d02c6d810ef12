//! One sender, one receiver.
use body_fork::{
    body_fork_pair_with, AbortStep, BodyForkAborted, BodyForkPushError, BodyForkReceiver, RecvStep,
};
use bytes::Bytes;
use std::collections::VecDeque;
use std::future::Future;
use std::time::Duration;

fn block_on<T>(future: impl Future<Output = T>) -> T {
    let runtime = tokio::runtime::Builder::new_current_thread()
        .enable_time()
        .build()
        .unwrap();
    runtime.block_on(async {
        tokio::time::timeout(Duration::from_secs(5), future)
            .await
            .unwrap()
    })
}

async fn recv_async(
    rx: &mut BodyForkReceiver,
) -> Result<Option<VecDeque<Bytes>>, BodyForkAborted> {
    loop {
        match rx.recv() {
            RecvStep::Ready(result) => return result,
            RecvStep::Wait(registration) => registration.await,
        }
    }
}

async fn wait_for_abort(rx: &BodyForkReceiver) {
    loop {
        match rx.wait_for_abort() {
            AbortStep::Aborted => return,
            AbortStep::Wait(registration) => registration.await,
        }
    }
}

fn recv(rx: &mut BodyForkReceiver) -> Result<Option<VecDeque<Bytes>>, BodyForkAborted> {
    block_on(recv_async(rx))
}

/// Flatten a VecDeque<Bytes> for easy assertion.
fn flatten(chunks: VecDeque<Bytes>) -> Vec<u8> {
    chunks.into_iter().flat_map(|b| b.to_vec()).collect()
}

#[test]
fn push_finish_recv() {
    let (tx, mut rx) = body_fork_pair_with(32);
    tx.try_push(Bytes::from_static(b"a")).unwrap();
    tx.try_push(Bytes::from_static(b"bc")).unwrap();
    tx.finish();
    assert_eq!(flatten(recv(&mut rx).unwrap().unwrap()), b"abc");
    assert!(recv(&mut rx).unwrap().is_none());
}

#[test]
fn max_chunks_rejects_push() {
    let (tx, mut rx) = body_fork_pair_with(2);
    tx.try_push(Bytes::from_static(b"ab")).unwrap();
    tx.try_push(Bytes::from_static(b"cd")).unwrap();
    assert_eq!(
        tx.try_push(Bytes::from_static(b"ef")),
        Err(BodyForkPushError::Full)
    );
    tx.finish();
    assert_eq!(flatten(recv(&mut rx).unwrap().unwrap()), b"abcd");
    assert!(recv(&mut rx).unwrap().is_none());
}

#[test]
fn recv_frees_capacity() {
    let (tx, mut rx) = body_fork_pair_with(2);
    tx.try_push(Bytes::from_static(b"a")).unwrap();
    tx.try_push(Bytes::from_static(b"b")).unwrap();
    assert_eq!(
        tx.try_push(Bytes::from_static(b"c")),
        Err(BodyForkPushError::Full)
    );
    // Drain — frees both slots.
    let _ = recv(&mut rx).unwrap().unwrap();
    // Now we can push again.
    tx.try_push(Bytes::from_static(b"c")).unwrap();
    tx.try_push(Bytes::from_static(b"d")).unwrap();
    tx.finish();
    assert_eq!(flatten(recv(&mut rx).unwrap().unwrap()), b"cd");
    assert!(recv(&mut rx).unwrap().is_none());
}

#[test]
fn drop_without_finish_clears_bytes() {
    let (tx, mut rx) = body_fork_pair_with(32);
    tx.try_push(Bytes::from_static(b"x")).unwrap();
    drop(tx);
    assert_eq!(recv(&mut rx), Err(BodyForkAborted));
}

#[test]
fn finish_empty_body() {
    let (tx, mut rx) = body_fork_pair_with(32);
    tx.finish();
    assert_eq!(recv(&mut rx), Ok(None));
}

#[test]
fn recv_returns_available_without_waiting_for_end() {
    let (tx, mut rx) = body_fork_pair_with(32);
    tx.try_push(Bytes::from_static(b"a")).unwrap();
    tx.try_push(Bytes::from_static(b"b")).unwrap();
    let chunks = recv(&mut rx).unwrap().unwrap();
    assert_eq!(chunks.len(), 2);
    assert_eq!(flatten(chunks), b"ab");
    tx.try_push(Bytes::from_static(b"z")).unwrap();
    tx.finish();
    assert_eq!(flatten(recv(&mut rx).unwrap().unwrap()), b"z");
    assert!(recv(&mut rx).unwrap().is_none());
}

#[test]
fn abort_wait_is_persistent() {
    let (tx, mut rx) = body_fork_pair_with(1);
    tx.try_push(Bytes::from_static(b"x")).unwrap();
    let Some(batch) = recv(&mut rx).unwrap() else {
        panic!("expected queued chunk");
    };

    drop(tx);
    block_on(async { tokio::time::timeout(Duration::from_secs(1), wait_for_abort(&rx)).await })
        .expect("abort recorded before waiter registration must still be observed");
    drop(batch);
    assert_eq!(recv(&mut rx), Err(BodyForkAborted));
    assert_eq!(recv(&mut rx), Err(BodyForkAborted));
    block_on(wait_for_abort(&rx));
}

#[test]
fn clean_finish_is_not_an_abort() {
    let (tx, mut rx) = body_fork_pair_with(1);
    assert!(matches!(rx.wait_for_abort(), AbortStep::Wait(_)));
    tx.try_push(Bytes::from_static(b"x")).unwrap();
    tx.finish();
    assert!(matches!(rx.wait_for_abort(), AbortStep::Wait(_)));
    assert_eq!(flatten(recv(&mut rx).unwrap().unwrap()), b"x");
    assert_eq!(recv(&mut rx), Ok(None));
    assert_eq!(recv(&mut rx), Ok(None));
    assert!(matches!(rx.wait_for_abort(), AbortStep::Wait(_)));
}

#[test]
fn no_room_at_all_refuses_every_push() {
    let (tx, mut rx) = body_fork_pair_with(0);
    assert_eq!(
        tx.try_push(Bytes::from_static(b"a")),
        Err(BodyForkPushError::Full)
    );
    assert!(matches!(rx.recv(), RecvStep::Wait(_)));
    tx.finish();
    assert_eq!(recv(&mut rx), Ok(None));
}

#[test]
fn empty_chunks_take_a_slot() {
    let (tx, mut rx) = body_fork_pair_with(1);
    tx.try_push(Bytes::new()).unwrap();
    assert_eq!(
        tx.try_push(Bytes::from_static(b"a")),
        Err(BodyForkPushError::Full)
    );
    assert_eq!(recv(&mut rx).unwrap().unwrap().len(), 1);
}

#[test]
fn nothing_queued_makes_the_receiver_wait() {
    let (tx, mut rx) = body_fork_pair_with(4);
    assert!(matches!(rx.recv(), RecvStep::Wait(_)));
    tx.try_push(Bytes::from_static(b"a")).unwrap();
    assert!(matches!(rx.recv(), RecvStep::Ready(Ok(Some(_)))));
    assert!(matches!(rx.recv(), RecvStep::Wait(_)));
}

#[test]
fn push_completes_an_earlier_registration() {
    let (tx, mut rx) = body_fork_pair_with(4);
    let RecvStep::Wait(registration) = rx.recv() else {
        panic!("nothing was pushed yet");
    };
    tx.try_push(Bytes::from_static(b"late")).unwrap();
    block_on(registration);
    assert_eq!(flatten(recv(&mut rx).unwrap().unwrap()), b"late");
}

#[test]
fn finish_completes_an_earlier_registration() {
    let (tx, mut rx) = body_fork_pair_with(4);
    let RecvStep::Wait(registration) = rx.recv() else {
        panic!("nothing was pushed yet");
    };
    tx.finish();
    block_on(registration);
    assert_eq!(recv(&mut rx), Ok(None));
}

#[test]
fn abort_completes_an_earlier_registration() {
    let (tx, rx) = body_fork_pair_with(4);
    let AbortStep::Wait(registration) = rx.wait_for_abort() else {
        panic!("the sender is still there");
    };
    drop(tx);
    block_on(registration);
    assert!(matches!(rx.wait_for_abort(), AbortStep::Aborted));
}

#[test]
fn waiting_receiver_is_woken_by_a_push() {
    let (tx, mut rx) = body_fork_pair_with(4);
    let got = block_on(async {
        let task = tokio::spawn(async move { recv_async(&mut rx).await });
        tokio::task::yield_now().await;
        tx.try_push(Bytes::from_static(b"wake")).unwrap();
        task.await.unwrap()
    });
    assert_eq!(flatten(got.unwrap().unwrap()), b"wake");
}

#[test]
fn looking_for_an_abort_consumes_nothing() {
    let (tx, mut rx) = body_fork_pair_with(2);
    tx.try_push(Bytes::from_static(b"a")).unwrap();
    tx.try_push(Bytes::from_static(b"b")).unwrap();
    assert!(matches!(rx.wait_for_abort(), AbortStep::Wait(_)));
    // No slot was freed.
    assert_eq!(
        tx.try_push(Bytes::from_static(b"c")),
        Err(BodyForkPushError::Full)
    );
    tx.finish();
    assert!(matches!(rx.wait_for_abort(), AbortStep::Wait(_)));
    assert_eq!(flatten(recv(&mut rx).unwrap().unwrap()), b"ab");
    assert_eq!(recv(&mut rx), Ok(None));
}

#[test]
fn push_leaves_the_fork_open() {
    let (tx, mut rx) = body_fork_pair_with(1);
    for _ in 0..3 {
        tx.try_push(Bytes::from_static(b"a")).unwrap();
        assert_eq!(
            tx.try_push(Bytes::from_static(b"b")),
            Err(BodyForkPushError::Full)
        );
        assert_eq!(flatten(recv(&mut rx).unwrap().unwrap()), b"a");
        assert!(matches!(rx.recv(), RecvStep::Wait(_)));
    }
}
