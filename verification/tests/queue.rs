use rsdirstat::queue::{QueueState, StallDetector, StallStep, TakeStep, Wake};

fn take(q: &mut QueueState<i32>) -> Option<i32> {
    match q.try_take() {
        TakeStep::Item(v) => Some(v),
        _ => None,
    }
}

#[test]
fn push_and_take_lifo() {
    let mut q = QueueState::new();
    q.push(vec![1, 2, 3]);
    assert_eq!(take(&mut q), Some(3));
    q.finish_one();
    assert_eq!(take(&mut q), Some(2));
    q.finish_one();
    assert_eq!(take(&mut q), Some(1));
    q.finish_one();
    assert!(matches!(q.try_take(), TakeStep::Finished));
}

#[test]
fn pending_count() {
    let mut q = QueueState::new();
    q.push(vec![10, 20, 30]);
    assert_eq!(q.pending(), 3);

    let _ = take(&mut q).unwrap();
    assert_eq!(q.pending(), 3);
    assert!(!q.finish_one());
    assert_eq!(q.pending(), 2);

    let _ = take(&mut q).unwrap();
    assert!(!q.finish_one());
    assert_eq!(q.pending(), 1);

    let _ = take(&mut q).unwrap();
    assert!(q.finish_one());
    assert_eq!(q.pending(), 0);
}

#[test]
fn push_empty_noop() {
    let mut q: QueueState<i32> = QueueState::new();
    assert!(matches!(q.push(vec![]), Wake::Nobody));
    assert_eq!(q.pending(), 0);
    assert_eq!(q.queue_len(), 0);
    assert!(matches!(q.push(vec![1]), Wake::One));
    assert!(matches!(q.push(vec![2, 3]), Wake::All));
}

#[test]
fn cancel_clears() {
    let mut q = QueueState::new();
    q.push(vec![1, 2, 3]);
    assert_eq!(q.pending(), 3);

    q.cancel();
    assert_eq!(q.pending(), 0);
    assert_eq!(q.queue_len(), 0);
    assert!(matches!(q.try_take(), TakeStep::Finished));
}

#[test]
fn take_returns_none_when_empty_and_no_pending() {
    let mut q: QueueState<i32> = QueueState::new();
    assert!(take(&mut q).is_none());
    assert!(matches!(q.try_take(), TakeStep::Finished));
}

#[test]
fn taking_with_work_in_progress_waits() {
    let mut q = QueueState::new();
    q.push(vec![1]);
    assert_eq!(take(&mut q), Some(1));
    assert!(matches!(q.try_take(), TakeStep::Wait));
    q.finish_one();
    assert!(matches!(q.try_take(), TakeStep::Finished));
}

#[test]
fn stall_detector_gives_up_after_fifteen_still_polls() {
    let mut d = StallDetector::new();
    assert!(matches!(d.observe(5), StallStep::Continue));
    for _ in 0..14 {
        assert!(matches!(d.observe(5), StallStep::Continue));
    }
    assert!(matches!(d.observe(5), StallStep::Stalled));
}

#[test]
fn stall_detector_resets_on_progress_and_stops_on_zero() {
    let mut d = StallDetector::new();
    for _ in 0..10 {
        d.observe(7);
    }
    assert!(matches!(d.observe(6), StallStep::Continue));
    assert_eq!(d.stall_count, 0);
    assert!(matches!(d.observe(0), StallStep::Done));
}
