//! The chunk-size law, the estimate of a whole batch, and bulk work.

use macrame::connection::chunk::{BulkLoop, ChunkOutcome};
use macrame::connection::{
    chunk_rows, estimated_bulk_hold, next_chunk_size, BULK_ATOMIC_WARN_HOLD, CHUNK_BUDGET,
    CHUNK_FLOOR,
};
use macrame::graph::EdgeAssertion;
use macrame::DbError;
use std::time::Duration;

fn edge(target: &str, micros: usize) -> EdgeAssertion {
    EdgeAssertion::new("src", target, "LINKS")
        .valid_from(&format!("2026-01-01T00:00:00.{micros:06}Z"))
        .valid_to(&format!("2026-01-01T00:00:00.{:06}Z", micros + 1))
}

#[test]
fn two_batches_of_one_size_are_not_predicted_alike() {
    const N: usize = 20_000;
    let fanout: Vec<_> = (0..N).map(|i| edge(&format!("t{i:07}"), i)).collect();
    let history: Vec<_> = (0..N).map(|i| edge("t0", i)).collect();

    let (a, b) = (estimated_bulk_hold(&fanout), estimated_bulk_hold(&history));
    assert!(
        b > a * 5,
        "the guard's expensive path is 16x dearer per pair and this batch \
         takes it on every pair, but the estimates are {a:?} and {b:?}"
    );
}

#[test]
fn the_estimate_matches_what_was_measured() {
    const N: usize = 20_000;
    let fanout: Vec<_> = (0..N).map(|i| edge(&format!("t{i:07}"), i)).collect();
    let history: Vec<_> = (0..N).map(|i| edge("t0", i)).collect();

    for (batch, measured_ms, label) in
        [(fanout, 2_618u128, "fanout"), (history, 18_057, "history")]
    {
        let predicted = estimated_bulk_hold(&batch) / 1_000_000;
        let ratio = predicted as f64 / measured_ms as f64;
        assert!(
            (0.8..1.25).contains(&ratio),
            "{label}: predicted {predicted} ms against a measured \
             {measured_ms} ms ({ratio:.2}x)."
        );
    }
}

#[test]
fn a_batch_too_small_to_have_pairs_still_estimates() {
    assert_eq!(estimated_bulk_hold(&[]), Duration::ZERO.as_nanos());
    let one = [edge("t0", 0)];
    assert_eq!(
        estimated_bulk_hold(&one),
        Duration::from_nanos(73_000).as_nanos()
    );
}

#[test]
fn an_estimate_counts_matching_and_mismatched_pairs() {
    let batch = [edge("a", 0), edge("b", 1), edge("a", 2)];
    // Three rows, one matching pair, two mismatched ones.
    assert_eq!(estimated_bulk_hold(&batch), 3 * 73_000 + (2 * 11) / 2 + 86);
}

#[test]
fn the_warning_threshold_is_not_the_chunk_budget() {
    assert!(BULK_ATOMIC_WARN_HOLD > CHUNK_BUDGET * 10);
}

fn step_to(current: usize, held_ms: f64, ceiling: usize) -> usize {
    next_chunk_size(
        current,
        Duration::from_nanos((held_ms * 1_000_000.0) as u64).as_nanos(),
        CHUNK_BUDGET,
        CHUNK_FLOOR,
        ceiling,
    )
}

fn step(current: usize, held_ms: f64) -> usize {
    step_to(current, held_ms, chunk_rows::EDGES)
}

fn converge(
    start: usize,
    per_row_us: f64,
    overhead_ms: f64,
    ceiling: usize,
    steps: usize,
) -> Vec<usize> {
    let mut size = start;
    (0..steps)
        .map(|_| {
            let held = overhead_ms + per_row_us * size as f64 / 1000.0;
            size = step_to(size, held, ceiling);
            size
        })
        .collect()
}

#[test]
fn a_chunk_far_over_budget_converges_from_above_in_at_most_two_steps() {
    const CEILING: usize = chunk_rows::ANNOTATIONS;
    let (per_row_us, overhead_ms) = (20.0, 0.05);
    let held = |n: usize| overhead_ms + per_row_us * n as f64 / 1000.0;
    assert!(
        held(CEILING) > 4.0 * 3.0,
        "the start is not far over budget"
    );

    let trace = converge(CEILING, per_row_us, overhead_ms, CEILING, 4);
    let first_in_budget = trace
        .iter()
        .position(|&n| held(n) <= 3.0)
        .expect("never reached the budget");
    assert!(
        first_in_budget <= 1,
        "took {} steps to get under budget: {trace:?}",
        first_in_budget + 1
    );
}

#[test]
fn growth_is_slow_and_shrinking_is_fast() {
    let grown = step(40, 1.0);
    assert!(
        (41..=50).contains(&grown),
        "40 rows at 1 ms should grow by about a quarter, got {grown}"
    );
    let shrunk = step(90, 9.0);
    assert!(
        shrunk <= 40,
        "90 rows at 3x the budget should shrink proportionally, got {shrunk}"
    );
}

#[test]
fn a_chunk_inside_the_band_is_left_alone() {
    for held_ms in [1.6, 2.0, 2.5, 2.9, 3.0] {
        assert_eq!(step(60, held_ms), 60, "moved at {held_ms} ms");
    }
    assert_ne!(step(60, 1.4), 60, "did not grow at well under half budget");
}

#[test]
fn the_floor_and_the_ceiling_both_hold() {
    let trace = converge(chunk_rows::EDGES, 118.0, 0.03, chunk_rows::EDGES, 8);
    assert!(
        trace.iter().all(|&n| n >= CHUNK_FLOOR),
        "fell through the floor: {trace:?}"
    );
    assert_eq!(*trace.last().unwrap(), CHUNK_FLOOR, "settled off the floor");

    let fast = converge(CHUNK_FLOOR, 1.0, 0.01, chunk_rows::EDGES, 40);
    assert_eq!(*fast.last().unwrap(), chunk_rows::EDGES);
    assert!(fast.iter().all(|&n| n <= chunk_rows::EDGES));
}

#[test]
fn the_law_never_returns_zero() {
    let cases = [
        (0usize, Duration::ZERO),
        (0, Duration::from_secs(60)),
        (1, Duration::from_secs(60)),
        (90, Duration::from_secs(3600)),
        (usize::MAX, Duration::from_nanos(1)),
        (1, Duration::ZERO),
    ];
    for (current, held) in cases {
        for (floor, ceiling) in [(35, 90), (1, 1), (0, 0), (90, 35)] {
            let n = next_chunk_size(current, held.as_nanos(), CHUNK_BUDGET, floor, ceiling);
            assert!(
                n > 0,
                "returned 0 for current={current}, held={held:?}, \
                 floor={floor}, ceiling={ceiling}"
            );
        }
    }
}

#[test]
fn a_zero_budget_shrinks_to_the_floor_rather_than_dividing_by_it() {
    assert_eq!(
        next_chunk_size(
            90,
            Duration::from_millis(1).as_nanos(),
            Duration::ZERO.as_nanos(),
            35,
            90
        ),
        35
    );
}

#[test]
fn the_law_gives_exact_sizes() {
    // Nine tenths of the proportional size over budget.
    assert_eq!(next_chunk_size(90, 6_000_000, 3_000_000, 1, 600), 40);
    // A quarter more under half of it, at least one row.
    assert_eq!(next_chunk_size(100, 1_000_000, 3_000_000, 1, 600), 125);
    assert_eq!(next_chunk_size(2, 1_000_000, 3_000_000, 1, 600), 3);
    // At the budget and at half of it, the same.
    assert_eq!(next_chunk_size(60, 3_000_000, 3_000_000, 1, 600), 60);
    assert_eq!(next_chunk_size(60, 1_500_000, 3_000_000, 1, 600), 60);
    // The longest hold there is.
    assert_eq!(
        next_chunk_size(usize::MAX, Duration::MAX.as_nanos(), CHUNK_BUDGET, 1, usize::MAX),
        1
    );
}

#[test]
fn bulk_work_is_cut_into_consecutive_chunks() {
    let mut bulk = BulkLoop::new(205, 90);
    assert_eq!(bulk.next(), Some((0, 90)));
    bulk.landed(ChunkOutcome { rows: 90, held: 6_000_000 });
    assert_eq!(bulk.next(), Some((90, 130)), "half the rows, less a tenth");
    bulk.landed(ChunkOutcome { rows: 40, held: 1_000_000 });
    assert_eq!(bulk.next(), Some((130, 180)));
    bulk.landed(ChunkOutcome { rows: 50, held: 2_000_000 });
    assert_eq!(bulk.next(), Some((180, 205)), "what is left");
    bulk.landed(ChunkOutcome { rows: 25, held: 2_000_000 });
    assert_eq!(bulk.next(), None);
    assert_eq!(bulk.written(), 205);

    let mut empty = BulkLoop::new(0, 90);
    assert_eq!(empty.next(), None);
    let mut tiny = BulkLoop::new(2, 0);
    assert_eq!(tiny.next(), Some((0, 1)));
}

#[test]
fn a_bulk_write_that_stops_says_what_landed() {
    let mut bulk = BulkLoop::new(200, 90);
    let _ = bulk.next();
    bulk.landed(ChunkOutcome { rows: 90, held: 2_000_000 });
    let stopped = bulk.interrupted(DbError::WriterUnavailable);
    assert_eq!(stopped.written, 90);
    assert!(!stopped.was_cancelled());
}
