//! The write actor's counters.

use macrame::metrics::{
    bucket_of, ActorMetrics, CommandKind, HoldTimer, BUCKET_BOUNDS_MICROS, BUCKET_COUNT,
    MICROS_CEILING,
};

const MICRO: u128 = 1_000;
const MILLI: u128 = 1_000_000;

#[test]
fn every_kind_indexes_to_its_own_slot() {
    for (i, &kind) in CommandKind::ALL.iter().enumerate() {
        assert_eq!(kind.index(), i, "{} is out of order in ALL", kind.as_str());
    }
    assert_eq!(CommandKind::COUNT, CommandKind::ALL.len());
}

#[test]
fn the_chunk_budget_is_exactly_a_bucket_boundary() {
    let budget = (macrame::CHUNK_BUDGET / MICRO) as u64;
    assert!(
        BUCKET_BOUNDS_MICROS.contains(&budget),
        "CHUNK_BUDGET is {budget} µs, which is not a bucket bound: \
         {BUCKET_BOUNDS_MICROS:?}"
    );
    assert_eq!(bucket_of(budget), bucket_of(budget - 1));
    assert_eq!(bucket_of(budget + 1), bucket_of(budget) + 1);
}

#[test]
fn the_overflow_bucket_catches_everything_past_the_last_bound() {
    let last = *BUCKET_BOUNDS_MICROS.last().unwrap();
    assert_eq!(bucket_of(last), BUCKET_BOUNDS_MICROS.len() - 1);
    assert_eq!(bucket_of(last + 1), BUCKET_COUNT - 1);
    assert_eq!(bucket_of(u64::MAX), BUCKET_COUNT - 1);
}

#[test]
fn the_packing_leaves_room_for_both_fields() {
    assert!(
        (CommandKind::COUNT as u64) <= 0xFF,
        "the kind index must fit in the low 8 bits"
    );
    assert_eq!(MICROS_CEILING.checked_shl(8), Some(MICROS_CEILING << 8));
    assert_eq!((MICROS_CEILING << 8) >> 8, MICROS_CEILING);
}

#[test]
fn the_longest_hold_names_the_command_that_caused_it() {
    let mut m = ActorMetrics::new();
    m.record_hold(CommandKind::AssertEdge, 500 * MICRO);
    m.record_hold(CommandKind::Archive, 40 * MILLI);
    m.record_hold(CommandKind::UpsertConcept, 900 * MICRO);

    let snap = m.snapshot();
    assert_eq!(snap.longest, Some((CommandKind::Archive, 40 * MILLI)));
}

#[test]
fn a_later_declared_kind_does_not_outrank_a_longer_hold() {
    let long = CommandKind::AssertEdge;
    let short = CommandKind::RebuildFts;
    assert!(short.index() > long.index(), "the fixture needs the gap");

    let mut m = ActorMetrics::new();
    m.record_hold(long, 40 * MILLI);
    m.record_hold(short, MICRO);

    assert_eq!(
        m.snapshot().longest,
        Some((long, 40 * MILLI)),
        "the max is being taken over the kind index, not the duration"
    );
}

#[test]
fn an_exempt_kind_over_budget_is_not_a_violation() {
    let mut m = ActorMetrics::new();
    m.record_hold(CommandKind::Archive, 40 * MILLI);
    m.record_hold(CommandKind::AssertEdge, 40 * MILLI);

    let snap = m.snapshot();
    let violations = snap.budget_violations();
    assert_eq!(violations.len(), 1);
    assert_eq!(violations[0].kind, CommandKind::AssertEdge);
    assert_eq!(violations[0].over_budget, 1);

    let archive = snap
        .kinds
        .iter()
        .find(|k| k.kind == CommandKind::Archive)
        .unwrap();
    assert_eq!(archive.turns, 1);
    assert_eq!(archive.mean, 40 * MILLI);
}

#[test]
fn queue_depth_is_a_mean_and_a_high_water_mark() {
    let mut m = ActorMetrics::new();
    m.record_turn(0, 4);
    m.record_turn(10, 0);

    let snap = m.snapshot();
    assert_eq!(snap.turns, 0);
    assert_eq!(snap.depth_samples, 2);
    assert_eq!(snap.high_depth_sum as f64 / snap.depth_samples as f64, 5.0);
    assert_eq!(snap.high_depth_max, 10);
    assert_eq!(snap.low_depth_sum as f64 / snap.depth_samples as f64, 2.0);
    assert_eq!(snap.low_depth_max, 4);
}

#[test]
fn violations_come_worst_first() {
    let mut m = ActorMetrics::new();
    m.record_hold(CommandKind::AssertEdge, 4 * MILLI);
    for _ in 0..3 {
        m.record_hold(CommandKind::UpsertConcept, 5 * MILLI);
    }
    m.record_hold(CommandKind::RetireEdge, 3 * MILLI);
    let snap = m.snapshot();
    assert_eq!(
        snap.budget_violations()
            .iter()
            .map(|k| (k.kind, k.over_budget))
            .collect::<Vec<_>>(),
        [(CommandKind::UpsertConcept, 3), (CommandKind::AssertEdge, 1)]
    );
    assert_eq!(snap.turns, 5);
    let retire = snap.kinds.iter().find(|k| k.kind == CommandKind::RetireEdge).unwrap();
    assert_eq!(retire.buckets.iter().sum::<u64>(), 1);
    assert_eq!(retire.buckets[bucket_of(3_000)], 1);
    assert_eq!(retire.longest, 3 * MILLI);
}

#[test]
fn passing_over_the_low_queue_is_counted_in_runs() {
    let mut m = ActorMetrics::new();
    m.record_priority_choice(true, 2);
    m.record_priority_choice(true, 1);
    m.record_priority_choice(true, 0);
    m.record_priority_choice(false, 1);
    m.record_priority_choice(true, 1);
    let snap = m.snapshot();
    assert_eq!(snap.passed_over, 3);
    assert_eq!(snap.passed_run_max, 2);
}

#[test]
fn an_index_names_its_kind() {
    assert_eq!(CommandKind::at(0), Some(CommandKind::AssertEdge));
    assert_eq!(CommandKind::at(CommandKind::COUNT), None);
    assert!(CommandKind::Archive.exempt_from_budget());
    assert!(!CommandKind::AssertEdge.exempt_from_budget());
    assert_eq!(HoldTimer::start(5).elapsed(12), 7);
}

#[test]
fn a_report_agrees_with_itself() {
    let mut m = ActorMetrics::new();
    let kinds = CommandKind::ALL;
    for (i, kind) in kinds.iter().cycle().take(40).enumerate() {
        m.record_turn(i, 2);
        m.record_hold(*kind, (i as u128) * 700_000);
    }
    let s = m.snapshot();
    assert_eq!(s.turns, s.kinds.iter().map(|k| k.turns).sum::<u64>());
    for k in &s.kinds {
        assert_eq!(k.buckets.iter().sum::<u64>(), k.turns);
        assert!(k.over_budget <= k.turns && k.mean <= k.longest);
        assert!(!k.kind.exempt_from_budget() || k.over_budget == 0);
    }
    let (kind, held) = s.longest.unwrap();
    assert_eq!(held, s.kinds.iter().map(|k| k.longest).max().unwrap());
    assert_eq!(s.kinds[kind.index()].longest, held);
    assert!(ActorMetrics::new().snapshot().longest.is_none());
}

#[test]
fn counters_begin_alike_either_way() {
    let (a, b) = (ActorMetrics::default(), ActorMetrics::new());
    assert_eq!(a.snapshot(), b.snapshot());
    assert!(CommandKind::AssertEdge < CommandKind::Archive);
}
