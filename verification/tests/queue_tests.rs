use twprs::queue::{compute_target, UserQueue, MAX_TARGET_SECONDS};
use twprs::scraper::{classify_batch, FetchOutcome};

#[test]
fn compute_target_exact_values() {
    assert_eq!(compute_target(1000, 2), 1000 + 432000);
    assert_eq!(compute_target(0, 1), MAX_TARGET_SECONDS as u32);
    assert_eq!(compute_target(0, 0), MAX_TARGET_SECONDS as u32);
    assert_eq!(compute_target(u64::MAX, 1), u32::MAX);
}

#[test]
fn bootstrap_orders_batches_by_target() {
    let mut q = UserQueue::new(&vec![(1, 1, 5000), (2, 10, 5000), (3, 5, 5000)]);
    let batch = q.next_batch(3);
    assert_eq!(batch, vec![2, 3, 1]);
}

#[test]
fn next_batch_respects_count_and_drains() {
    let mut q = UserQueue::new(&vec![(1, 1, 0), (2, 1, 10)]);
    let first = q.next_batch(1);
    assert_eq!(first, vec![1]);
    let rest = q.next_batch(10);
    assert_eq!(rest, vec![2]);
    assert!(q.next_batch(1).is_empty());
}

#[test]
fn consecutive_batches_are_disjoint() {
    let mut q = UserQueue::new(&vec![(1, 1, 0), (2, 1, 10), (3, 1, 20), (4, 1, 30)]);
    let a = q.next_batch(2);
    let b = q.next_batch(2);
    for id in &a {
        assert!(!b.contains(id));
    }
    assert_eq!(a.len(), 2);
    assert_eq!(b.len(), 2);
}

#[test]
fn addition_promotes_to_immediate_fetch() {
    // Bootstrapped at score 1 the user sits at a far-future target;
    // an observed addition must surface it at once.
    let mut q = UserQueue::new(&vec![(1, 1, 0), (9, 1, 1)]);
    q.process_additions(&vec![1]);
    let batch = q.next_batch(1);
    assert_eq!(batch, vec![1]);
}

#[test]
fn addition_bumps_score_and_absent_id_starts_at_one() {
    let mut q = UserQueue::new(&vec![(1, 3, 0)]);
    q.process_additions(&vec![1, 2]);
    assert_eq!(q.score_of(1), Some(4));
    assert_eq!(q.score_of(2), Some(1));
}

#[test]
fn removal_decrements_score_saturating() {
    let mut q = UserQueue::new(&vec![(1, 1, 0)]);
    q.process_removals_at(&vec![1, 2], 100);
    assert_eq!(q.score_of(1), Some(0));
    assert_eq!(q.score_of(2), Some(0));
    q.process_removals_at(&vec![1], 200);
    assert_eq!(q.score_of(1), Some(0));
}

#[test]
fn deactivation_recheck_skip_window() {
    // A removal within two hours of a recorded deactivation is not
    // promoted; the same removal after the window is.
    let t = 1_000_000;
    let mut q = UserQueue::new(&vec![(5, 1, t + 1000), (6, 1, t)]);
    q.process_deactivations_at(&vec![5], t);
    q.process_removals_at(&vec![5], t + 7000);
    let batch = q.next_batch(1);
    assert_eq!(batch, vec![6]);

    let mut q2 = UserQueue::new(&vec![(5, 1, t + 1000), (6, 1, t)]);
    q2.process_deactivations_at(&vec![5], t);
    q2.process_removals_at(&vec![5], t + 7201);
    let batch2 = q2.next_batch(1);
    assert_eq!(batch2, vec![5]);
}

#[test]
fn update_reschedules_at_score_target() {
    let t = 500_000;
    let mut q = UserQueue::new(&vec![(1, 2, 0)]);
    let drained = q.next_batch(10);
    assert_eq!(drained, vec![1]);
    q.process_updates_at(&vec![1], t);
    let batch = q.next_batch(10);
    assert_eq!(batch, vec![1]);
}

#[test]
fn classify_batch_partitions_outcomes() {
    let results = vec![
        (1, FetchOutcome::Updated),
        (2, FetchOutcome::Terminal(63)),
        (3, FetchOutcome::Skipped),
        (4, FetchOutcome::Updated),
    ];
    let (updated, deactivated) = classify_batch(&results);
    assert_eq!(updated, vec![1, 4]);
    assert_eq!(deactivated, vec![2]);
}
