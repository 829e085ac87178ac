//! End-to-end checks of the replay engine: slot partitioning, the
//! capability seed, frontier accounting, shutdown retraction, and message
//! ordering.

use tdiag::frontier::Frontier;
use tdiag::replay::Activation;
use tdiag::replay::Event;
use tdiag::replay::ReplayOperator;
use tdiag::slots::SlotArena;
use tdiag::slots::SlotError;
use tdiag::ConnectError;
use tdiag::DiagError;

fn arena_of(values: &[u64]) -> SlotArena<u64> {
    let mut a = SlotArena::new();
    for v in values {
        a.add(*v);
    }
    a
}

/// Adds each emitted (timestamp, delta) pair into a running per-timestamp sum.
fn accumulate(sums: &mut Vec<(u64, i64)>, progress: &[(u64, i64)]) {
    for (t, d) in progress {
        let mut found = false;
        for entry in sums.iter_mut() {
            if entry.0 == *t {
                entry.1 += *d;
                found = true;
                break;
            }
        }
        if !found {
            sums.push((*t, *d));
        }
    }
}

fn activate_expect(
    op: &mut ReplayOperator,
    running: bool,
    batches: Vec<Vec<Event<u64>>>,
) -> Activation<u64> {
    op.activate(running, batches)
        .expect("activation refused: counts out of range")
}

#[test]
fn three_sources_one_worker_claims_all_slots() {
    let mut arena = arena_of(&[100, 101, 102]);
    let claimed = arena.partition(0, 1).unwrap();
    assert_eq!(claimed, vec![100, 101, 102]);
    assert_eq!(arena.slot_count(), 3);
    for i in 0..3 {
        assert!(!arena.is_available(i));
    }
}

#[test]
fn first_activation_emits_capability_seed_once() {
    // Scenario: 3 sources, one local worker. The first activation emits a
    // single progress delta of +2 at the initial timestamp, and never again.
    let mut op = ReplayOperator::new(3);
    let act = activate_expect(&mut op, true, vec![vec![], vec![], vec![]]);
    assert_eq!(act.progress, vec![(0, 2)]);
    assert!(act.messages.is_empty());
    assert!(act.reactivate);
    assert_eq!(op.frontier.count(0), 2);

    let act2 = activate_expect(&mut op, true, vec![vec![], vec![], vec![]]);
    assert!(act2.progress.is_empty());
    assert!(act2.reactivate);
    assert_eq!(op.frontier.count(0), 2);
}

#[test]
fn three_workers_claim_one_slot_each() {
    // Scenario: 3 sources, 3 local workers. Worker k claims exactly slot k,
    // and each per-worker operator sees a capability delta of 0.
    let mut arena = arena_of(&[100, 101, 102]);
    let w0 = arena.partition(0, 3).unwrap();
    let w1 = arena.partition(1, 3).unwrap();
    let w2 = arena.partition(2, 3).unwrap();
    assert_eq!(w0, vec![100]);
    assert_eq!(w1, vec![101]);
    assert_eq!(w2, vec![102]);

    let mut op = ReplayOperator::new(w0.len());
    let act = activate_expect(&mut op, true, vec![vec![]]);
    assert_eq!(act.progress, vec![(0, 0)]);
}

#[test]
fn partition_covers_all_slots_disjointly() {
    // 7 slots, 3 workers: every slot is claimed by exactly one worker.
    let values: Vec<u64> = (0..7).collect();
    let mut arena = arena_of(&values);
    let mut seen: Vec<u64> = Vec::new();
    for w in 0..3 {
        let claimed = arena.partition(w, 3).unwrap();
        for v in &claimed {
            assert!(!seen.contains(v), "slot claimed twice");
            seen.push(*v);
        }
    }
    seen.sort_unstable();
    assert_eq!(seen, values);
}

#[test]
fn shutdown_retracts_frontier_and_then_stays_silent() {
    // Scenario: the frontier holds {t1: +1, t2: +1} when shutdown is
    // observed. The operator emits {t1: -1, t2: -1}, the frontier empties,
    // and later activations are no-ops.
    let mut op = ReplayOperator::new(1);
    let act = activate_expect(
        &mut op,
        true,
        vec![vec![Event::Progress(vec![(1, 1), (2, 1)])]],
    );
    assert_eq!(act.progress, vec![(0, 0), (1, 1), (2, 1)]);
    assert_eq!(op.frontier.count(1), 1);
    assert_eq!(op.frontier.count(2), 1);

    let down = activate_expect(&mut op, false, vec![vec![]]);
    assert_eq!(down.progress, vec![(1, -1), (2, -1)]);
    assert!(down.messages.is_empty());
    assert!(!down.reactivate);
    assert!(op.frontier.is_empty());

    let idle = activate_expect(&mut op, false, vec![vec![]]);
    assert!(idle.progress.is_empty());
    assert!(idle.messages.is_empty());
    assert!(!idle.reactivate);
}

#[test]
fn double_claim_fails_and_leaves_other_slots_intact() {
    // Scenario: a slot is claimed twice. The second claim fails, and the
    // first claim's resource (and every other slot) is unaffected.
    let mut arena = arena_of(&[100, 101, 102]);
    assert_eq!(arena.claim(0), Ok(100));
    assert_eq!(arena.claim(0), Err(SlotError::AlreadyClaimed));
    assert!(arena.is_available(1));
    assert!(arena.is_available(2));

    // A partitioner call against an overlapping range also fails without
    // touching the remaining slots.
    assert_eq!(arena.partition(0, 1), Err(SlotError::AlreadyClaimed));
    assert!(arena.is_available(1));
    assert!(arena.is_available(2));
    assert_eq!(arena.claim(1), Ok(101));
}

#[test]
fn lifetime_deltas_sum_to_zero_per_timestamp() {
    // Progress flows in over several activations; after shutdown, the sum
    // of everything the operator ever emitted is zero at every timestamp.
    let mut op = ReplayOperator::new(2);
    let mut sums: Vec<(u64, i64)> = Vec::new();

    let a1 = activate_expect(
        &mut op,
        true,
        vec![
            vec![Event::Progress(vec![(5, 2), (9, 3)])],
            vec![Event::Progress(vec![(5, -1)])],
        ],
    );
    accumulate(&mut sums, &a1.progress);

    let a2 = activate_expect(
        &mut op,
        true,
        vec![vec![Event::Progress(vec![(12, 7)])], vec![]],
    );
    accumulate(&mut sums, &a2.progress);

    let down = activate_expect(&mut op, false, vec![vec![], vec![]]);
    accumulate(&mut sums, &down.progress);

    for (t, s) in &sums {
        assert_eq!(*s, 0, "outstanding progress left at timestamp {}", t);
    }
    assert!(op.frontier.is_empty());
}

#[test]
fn per_source_message_order_is_preserved() {
    // Two sources emit at the same timestamp: each source's payloads appear
    // in its own order, contiguously, source by source.
    let mut op = ReplayOperator::new(2);
    let act = activate_expect(
        &mut op,
        true,
        vec![
            vec![
                Event::Messages(4, vec![11, 12]),
                Event::Messages(4, vec![13]),
                Event::Messages(6, vec![61]),
            ],
            vec![Event::Messages(4, vec![21, 22])],
        ],
    );
    let mut at4: Option<&Vec<u64>> = None;
    let mut at6: Option<&Vec<u64>> = None;
    for (t, data) in &act.messages {
        match t {
            4 => at4 = Some(data),
            6 => at6 = Some(data),
            _ => panic!("unexpected timestamp {}", t),
        }
    }
    assert_eq!(at4, Some(&vec![11, 12, 13, 21, 22]));
    assert_eq!(at6, Some(&vec![61]));
    assert_eq!(act.messages.len(), 2);
}

#[test]
fn no_messages_after_shutdown_is_observed() {
    // Events may still be pending when shutdown is observed: none of their
    // payloads is emitted, only retraction progress.
    let mut op = ReplayOperator::new(1);
    let a1 = activate_expect(
        &mut op,
        true,
        vec![vec![Event::Progress(vec![(3, 1)])]],
    );
    assert_eq!(a1.progress, vec![(0, 0), (3, 1)]);

    let down = op
        .activate(false, vec![vec![Event::Messages(3, vec![7u64, 8, 9])]])
        .unwrap();
    assert!(down.messages.is_empty());
    assert_eq!(down.progress, vec![(3, -1)]);
    assert!(!down.reactivate);
}

#[test]
fn shutdown_on_first_activation_retracts_the_seed() {
    // Shutdown before any event: the seed itself is emitted and immediately
    // retracted, so the lifetime sum is still zero.
    let mut op = ReplayOperator::new(3);
    let down = activate_expect(&mut op, false, vec![vec![], vec![], vec![]]);
    assert_eq!(down.progress, vec![(0, 2), (0, -2)]);
    assert!(down.messages.is_empty());
    assert!(op.frontier.is_empty());

    let mut single = ReplayOperator::new(1);
    let down1 = activate_expect(&mut single, false, vec![vec![]]);
    assert_eq!(down1.progress, vec![(0, 0)]);
}

#[test]
fn empty_payload_batches_are_not_flushed() {
    let mut op = ReplayOperator::new(1);
    let act = activate_expect(
        &mut op,
        true,
        vec![vec![Event::Messages(2, Vec::new()), Event::Messages(2, vec![5u64])]],
    );
    assert_eq!(act.messages, vec![(2, vec![5u64])]);
}

#[test]
fn activation_refused_when_counts_would_overflow() {
    // A delta batch that would take a count outside the representable range
    // is refused whole: no count changes and the seed stays unsent.
    let mut op = ReplayOperator::new(1);
    let refused = op.activate(
        true,
        vec![vec![Event::<u64>::Progress(vec![(7, i64::MAX), (7, 1)])]],
    );
    assert!(refused.is_none());
    assert_eq!(op.frontier.count(7), 0);

    // The operator is still usable, and still unseeded.
    let act = activate_expect(&mut op, true, vec![vec![]]);
    assert_eq!(act.progress, vec![(0, 0)]);
}

#[test]
fn frontier_tracks_and_drains_counts() {
    let mut f = Frontier::new();
    assert!(f.is_empty());
    f.update(10, 3);
    f.update(20, -2);
    f.update(10, -3);
    assert_eq!(f.count(10), 0);
    assert_eq!(f.count(20), -2);
    f.update(30, 5);
    let retr = f.drain();
    assert_eq!(retr, vec![(20, 2), (30, -5)]);
    assert!(f.is_empty());
    assert_eq!(f.count(20), 0);
}

#[test]
fn partition_of_empty_arena_claims_nothing() {
    let mut arena: SlotArena<u64> = SlotArena::new();
    let claimed = arena.partition(0, 1).unwrap();
    assert!(claimed.is_empty());
}

#[test]
fn connect_errors_become_reportable_messages() {
    let io = DiagError::from_connect(ConnectError::IoError(String::from("pipe closed")));
    assert_eq!(io.message(), "io error: pipe closed");
    let other = DiagError::from_connect(ConnectError::Other(String::from("bad address")));
    assert_eq!(other.message(), "bad address");
}
