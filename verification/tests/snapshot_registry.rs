use regolith::engine::snapshot_registry::SnapshotRegistry;

#[test]
fn register_release_refcounts_correctly() {
    let mut r = SnapshotRegistry::new();
    assert_eq!(r.oldest_live_seq(), u64::MAX);
    assert_eq!(r.pin_count(), 0);

    r.register(10, None);
    r.register(10, None);
    r.register(5, None);
    r.register(20, None);

    assert_eq!(r.oldest_live_seq(), 5);
    assert_eq!(r.pin_count(), 3);

    r.release(5);
    assert_eq!(r.oldest_live_seq(), 10);
    assert_eq!(r.pin_count(), 2);

    r.release(10);
    // Second pin at 10 still alive.
    assert_eq!(r.oldest_live_seq(), 10);
    assert_eq!(r.pin_count(), 2);

    r.release(10);
    assert_eq!(r.oldest_live_seq(), 20);
    assert_eq!(r.pin_count(), 1);

    r.release(20);
    assert_eq!(r.oldest_live_seq(), u64::MAX);
    assert_eq!(r.pin_count(), 0);
}

#[test]
fn release_unknown_seq_is_noop() {
    let mut r = SnapshotRegistry::new();
    r.release(42);
    assert_eq!(r.oldest_live_seq(), u64::MAX);
}

#[test]
fn live_count_tracks_refcount_total_not_distinct_seqs() {
    let mut r = SnapshotRegistry::new();
    r.register(5, None);
    r.register(5, None);
    r.register(9, None);
    assert_eq!(r.live_count(), 3);
    assert_eq!(r.pin_count(), 2);
    r.release(5);
    assert_eq!(r.live_count(), 2);
}

#[test]
fn oldest_snapshot_time_is_none_when_empty_and_some_when_pinned() {
    let mut r = SnapshotRegistry::new();
    assert!(r.oldest_snapshot_time_unix().is_none());
    r.register(7, Some(1_700_000_000));
    assert!(r.oldest_snapshot_time_unix().is_some());
    r.release(7);
    assert!(r.oldest_snapshot_time_unix().is_none());
}

#[test]
fn oldest_snapshot_time_is_that_of_the_first_pin_of_the_oldest_sequence() {
    let mut r = SnapshotRegistry::new();
    r.register(9, Some(50));
    r.register(4, Some(70));
    r.register(4, Some(90));
    assert_eq!(r.oldest_snapshot_time_unix(), Some(70));
    r.release(4);
    r.release(4);
    assert_eq!(r.oldest_snapshot_time_unix(), Some(50));
}

#[test]
fn concurrent_register_release_stays_consistent() {
    // Interleaved the way four workers would interleave them.
    let mut r = SnapshotRegistry::new();
    for i in 0..200u64 {
        for worker in 0..4u64 {
            r.register(worker * 200 + i + 1, None);
        }
        for worker in 0..4u64 {
            r.release(worker * 200 + i + 1);
        }
    }
    assert_eq!(r.pin_count(), 0);
    assert_eq!(r.live_count(), 0);
    assert_eq!(r.oldest_live_seq(), u64::MAX);
}

#[test]
fn release_wakes_a_registered_waiter() {
    let mut r = SnapshotRegistry::new();
    r.register(7, None);

    r.begin_wait();
    assert_eq!(r.waiting(), 1);
    assert!(!r.wait_over(false));

    r.release(7);
    assert_eq!(r.wakes_issued(), 1);
    assert!(r.wait_over(false));
    assert_eq!(r.end_wait(), 0, "the release must drain the last pin");
    assert_eq!(r.waiting(), 0);
}

#[test]
fn release_with_nobody_waiting_issues_no_wake() {
    let mut r = SnapshotRegistry::new();
    r.register(1, None);
    r.release(1);
    assert_eq!(r.wakes_issued(), 0);

    r.register(2, None);
    r.register(3, None);
    r.release(2);
    r.release(3);
    assert_eq!(r.wakes_issued(), 0);
}

#[test]
fn a_waiter_leaves_no_count_behind() {
    let mut r = SnapshotRegistry::new();
    r.register(3, None);
    r.begin_wait();
    assert!(r.wait_over(true));
    assert_eq!(
        r.end_wait(),
        1,
        "the pin is still live, so the wait must time out rather than drain"
    );
    assert_eq!(r.waiting(), 0);

    r.release(3);
    r.begin_wait();
    assert!(r.wait_over(false));
    assert_eq!(r.end_wait(), 0);
    assert_eq!(r.waiting(), 0);
}

#[test]
fn register_then_release_leaves_the_registry_as_it_was() {
    let mut r = SnapshotRegistry::new();
    r.register(3, Some(5));
    r.register(8, Some(6));
    let seq = r.register_at(5, Some(7));
    assert_eq!(seq, 5);
    assert_eq!((r.live_count(), r.pin_count()), (3, 3));
    r.release(seq);
    assert_eq!((r.live_count(), r.pin_count()), (2, 2));
    assert_eq!(r.oldest_live_seq(), 3);
    assert_eq!(r.oldest_snapshot_time_unix(), Some(5));
}

#[test]
fn live_count_is_the_sum_of_the_pin_counts() {
    let mut registry = SnapshotRegistry::new();
    for (seq, pins) in [(5u64, 3u64), (9, 1), (2, 2)] {
        for _ in 0..pins {
            registry.register(seq, None);
        }
    }
    assert_eq!(registry.live_count(), 6);
    registry.release(5);
    registry.release(7);
    assert_eq!(registry.live_count(), 5);
    assert_eq!(registry.oldest_live_seq(), 2);
}

#[test]
fn the_oldest_number_is_the_least_one_still_held() {
    let mut r = SnapshotRegistry::new();
    // Nothing is pinned here, so nothing is given back.
    r.release(3);
    r.register(3, None);
    r.register(7, None);
    r.register(3, None);
    r.release(3);
    assert_eq!(r.oldest_live_seq(), 3);
    r.release(3);
    assert_eq!(r.oldest_live_seq(), 7);
    r.release(3);
    r.release(7);
    assert_eq!(r.oldest_live_seq(), u64::MAX);
    assert_eq!(r.live_count(), 0);
}
