//! One fork as a plain value.
use body_fork::{BodyForkAborted, BodyForkState, BoundedFork, RecvPoll};
use bytes::Bytes;
use std::collections::VecDeque;

fn batch(chunks: &[&'static [u8]]) -> RecvPoll {
    let chunks: VecDeque<Bytes> = chunks.iter().map(|c| Bytes::from_static(c)).collect();
    RecvPoll::Ready(Ok(Some(chunks)))
}

#[test]
fn fresh_fork_is_open_and_empty() {
    let mut state = BodyForkState::new();
    assert!(state.is_open());
    assert!(!state.is_aborted());
    assert_eq!(state.poll_recv(), RecvPoll::Wait);
}

#[test]
fn chunks_come_out_in_push_order() {
    let mut state = BodyForkState::new();
    assert_eq!(state.try_push(3, Bytes::from_static(b"1")), Ok(()));
    assert_eq!(state.try_push(3, Bytes::from_static(b"22")), Ok(()));
    assert_eq!(state.poll_recv(), batch(&[b"1", b"22"]));
    assert_eq!(state.try_push(3, Bytes::from_static(b"333")), Ok(()));
    state.finish();
    assert_eq!(state.poll_recv(), batch(&[b"333"]));
    assert_eq!(state.poll_recv(), RecvPoll::Ready(Ok(None)));
    assert_eq!(state.poll_recv(), RecvPoll::Ready(Ok(None)));
}

#[test]
fn refused_push_changes_nothing() {
    let mut state = BodyForkState::new();
    assert_eq!(state.try_push(1, Bytes::from_static(b"a")), Ok(()));
    assert_eq!(
        state.try_push(1, Bytes::from_static(b"b")),
        Err(Bytes::from_static(b"b"))
    );
    assert!(state.is_open());
    assert_eq!(state.poll_recv(), batch(&[b"a"]));
}

#[test]
fn dropping_a_finished_sender_keeps_the_rest() {
    let mut state = BodyForkState::new();
    assert_eq!(state.try_push(1, Bytes::from_static(b"a")), Ok(()));
    state.finish();
    state.drop_sender();
    assert!(!state.is_open());
    assert!(!state.is_aborted());
    assert_eq!(state.poll_recv(), batch(&[b"a"]));
    assert_eq!(state.poll_recv(), RecvPoll::Ready(Ok(None)));
}

#[test]
fn dropping_an_open_sender_discards_the_rest() {
    let mut state = BodyForkState::new();
    assert_eq!(state.try_push(1, Bytes::from_static(b"a")), Ok(()));
    state.drop_sender();
    assert!(state.is_aborted());
    assert_eq!(state.poll_recv(), RecvPoll::Ready(Err(BodyForkAborted)));
    state.drop_sender();
    assert_eq!(state.poll_recv(), RecvPoll::Ready(Err(BodyForkAborted)));
}

#[test]
fn bounded_fork_keeps_its_limit() {
    let mut fork = BoundedFork::new(2);
    assert_eq!(fork.try_push(Bytes::from_static(b"a")), Ok(()));
    assert_eq!(fork.try_push(Bytes::from_static(b"b")), Ok(()));
    let refused = Bytes::from_static(b"c");
    assert_eq!(fork.try_push(refused.clone()), Err(refused));
    assert_eq!(fork.poll_recv(), batch(&[b"a", b"b"]));
    assert_eq!(fork.try_push(Bytes::from_static(b"d")), Ok(()));
    assert!(!fork.is_aborted());
    fork.drop_sender();
    assert!(fork.is_aborted());
    assert_eq!(fork.poll_recv(), RecvPoll::Ready(Err(BodyForkAborted)));
}

#[test]
fn finished_bounded_fork_keeps_the_rest() {
    let mut fork = BoundedFork::new(2);
    assert_eq!(fork.try_push(Bytes::from_static(b"a")), Ok(()));
    fork.finish();
    fork.drop_sender();
    assert!(!fork.is_aborted());
    assert_eq!(fork.poll_recv(), batch(&[b"a"]));
    assert_eq!(fork.poll_recv(), RecvPoll::Ready(Ok(None)));
    assert_eq!(fork.poll_recv(), RecvPoll::Ready(Ok(None)));
}
