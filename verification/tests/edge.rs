//! Edge types, assertions, and the guard on overlapping validities.

use macrame::branch::BranchId;
use macrame::connection::batch::{EdgeBatch, Guarding, Phase, RowBatch};
use macrame::connection::concepts::{
    concept_claim, AnnotationBatch, ConceptBatch, ConceptPhase, ConceptRun,
};
use macrame::connection::guard::{check_prepared, defer_to_single_open, reject_overlaps_within};
use macrame::connection::rows::{
    annotation_params, concept_params, edge_params, normalize_all, normalize_concepts, retirement,
    Annotation, ConceptUpsert,
};
use macrame::error::EngineError;
use macrame::graph::edge::MAX_EDGE_TYPE_LEN;
use macrame::graph::lineage::{BranchRow, LineageShape, Lineages};
use macrame::graph::{validate_edge_type, EdgeAssertion, TraversalBuilder};
use macrame::schema::{GuardMessages, OPEN_SENTINEL};
use macrame::sql::SqlValue;
use macrame::temporal::Interval;
use macrame::DbError;

#[test]
fn edge_types_admit_a_namespaced_charset() {
    for good in [
        "KNOWS",
        "REL2",
        "knows",
        "KNOWS_WELL",
        "KNOWS-WELL",
        "okf:links-to",
        "myapp.cites",
        &"A".repeat(MAX_EDGE_TYPE_LEN),
    ] {
        assert!(validate_edge_type(good).is_ok(), "{good:?} should be ok");
    }

    for bad in [
        "",
        "A|B",
        "O'BRIEN",
        "ÉTAT",
        "HAS SPACE",
        "okf:Cites",
        &"A".repeat(MAX_EDGE_TYPE_LEN + 1),
    ] {
        assert!(
            validate_edge_type(bad).is_err(),
            "{bad:?} should be rejected"
        );
    }
}

#[test]
fn validation_is_reachable_only_from_the_write_path() {
    let long = "A".repeat(MAX_EDGE_TYPE_LEN + 1);

    assert!(EdgeAssertion::new("a", "b", &long)
        .valid_from("2026-01-01T00:00:00.000000Z")
        .normalized()
        .is_err());

    let sql = TraversalBuilder::new("start")
        .edge_types(vec![long])
        .build_sql();
    assert!(sql.contains("l.edge_type IN ("));
}

#[test]
fn normalizing_widens_timestamps_and_rejects_bad_types() {
    let e = EdgeAssertion::new("a", "b", "KNOWS")
        .valid_from("2026-01-01T00:00:00Z")
        .normalized()
        .unwrap();
    assert_eq!(e.valid_from, "2026-01-01T00:00:00.000000Z");
    assert_eq!(e.valid_to, OPEN_SENTINEL);

    assert!(EdgeAssertion::new("a", "b", "bad|type")
        .valid_from("2026-01-01T00:00:00.000000Z")
        .normalized()
        .is_err());
}

const T1: &str = "2026-01-01T00:00:00.000000Z";
const T2: &str = "2026-02-01T00:00:00.000000Z";
const T3: &str = "2026-03-01T00:00:00.000000Z";
const T4: &str = "2026-04-01T00:00:00.000000Z";

fn edge(from: &str, to: &str) -> EdgeAssertion {
    EdgeAssertion::new("a", "b", "KNOWS").valid_from(from).valid_to(to)
}

fn interval(from: &str, to: &str) -> Interval {
    Interval::new(from.to_string(), to.to_string())
}

#[test]
fn a_refusal_names_what_was_wrong_first() {
    assert!(matches!(
        EdgeAssertion::new("a|b", "c|d", "KNOWS").valid_from(T1).normalized(),
        Err(DbError::InvalidId { id, .. }) if id == "a|b"
    ));
    assert!(matches!(
        EdgeAssertion::new("a", "c|d", "KNOWS").valid_from(T1).normalized(),
        Err(DbError::InvalidId { id, .. }) if id == "c|d"
    ));
    assert!(matches!(
        EdgeAssertion::new("a", "b", "no no").valid_from("x").normalized(),
        Err(DbError::InvalidEdgeType(t)) if t == "no no"
    ));
    assert!(matches!(
        EdgeAssertion::new("a", "b", "KNOWS").valid_from("x").normalized(),
        Err(DbError::InvalidTimestamp { value, .. }) if value == "x"
    ));
    assert!(matches!(
        normalize_all(vec![edge(T1, T2), edge("y", T2), edge("z", T2)]),
        Err(DbError::InvalidTimestamp { value, .. }) if value == "y"
    ));
    assert_eq!(normalize_all(vec![edge("2026-01-01T00:00:00Z", T2)]).unwrap()[0].valid_from, T1);

    assert!(matches!(
        normalize_concepts(vec![ConceptUpsert::new("a|b", "t").valid_from(T1)]),
        Err(DbError::InvalidId { .. })
    ));
    let c = ConceptUpsert::new("a", "t").valid_from("2026-01-01T00:00:00.5Z").normalized().unwrap();
    assert_eq!(c.valid_from, "2026-01-01T00:00:00.500000Z");
    assert_eq!(c.valid_to, OPEN_SENTINEL);
}

#[test]
fn half_open_validities_that_touch_do_not_overlap() {
    assert!(check_prepared(&edge(T1, T2), &[interval(T2, T3)]).is_ok());
    assert!(check_prepared(&edge(T2, T3), &[interval(T1, T2)]).is_ok());
    match check_prepared(&edge(T1, T3), &[interval(T3, T4), interval(T2, T4), interval(T1, T4)]) {
        Err(DbError::OverlappingInterval { overlap }) => {
            assert_eq!(overlap.existing_from, T2, "the first of the two");
            assert_eq!(overlap.existing_to, T4);
            assert_eq!(overlap.valid_from, T1);
            assert!(!overlap.within_batch);
        }
        other => panic!("{other:?}"),
    }
}

#[test]
fn two_open_validities_are_left_to_the_other_guard() {
    let (open, closed) = (interval(T1, OPEN_SENTINEL), interval(T2, T3));
    assert!(defer_to_single_open(&open, &interval(T2, OPEN_SENTINEL)));
    assert!(!defer_to_single_open(&open, &closed));
    assert!(check_prepared(&edge(T1, OPEN_SENTINEL), &[interval(T2, OPEN_SENTINEL)]).is_ok());
    assert!(check_prepared(&edge(T1, OPEN_SENTINEL), &[closed]).is_err());
}

#[test]
fn a_batch_is_held_against_itself() {
    assert!(reject_overlaps_within(&[edge(T1, T2), edge(T2, T3), edge(T3, T4)]).is_ok());
    assert!(
        reject_overlaps_within(&[edge(T1, T3), edge(T1, T4)]).is_ok(),
        "the same start is a correction"
    );
    let elsewhere = edge(T2, T4).on_branch(BranchId::new("exp").unwrap());
    assert!(reject_overlaps_within(&[edge(T1, T3), elsewhere]).is_ok());
    match reject_overlaps_within(&[edge(T1, T3), edge(T3, T4), edge(T2, T3)]) {
        Err(DbError::OverlappingInterval { overlap }) => {
            assert_eq!((overlap.valid_from.as_str(), overlap.existing_from.as_str()), (T1, T2));
            assert!(overlap.within_batch);
        }
        other => panic!("{other:?}"),
    }
}

fn trunk() -> Lineages {
    Lineages {
        rows: vec![BranchRow { id: "main".into(), parent: None, forked_at: None }],
    }
}

fn guards() -> GuardMessages {
    GuardMessages {
        single_open: "one open".into(),
        monotonic_recorded_at: "went back".into(),
        delete_guard: "no delete".into(),
    }
}

#[test]
fn a_batch_lands_whole() {
    let mut b = EdgeBatch::new(vec![edge(T1, T2), edge(T2, T3)], "now", trunk());
    assert_eq!(b.phase, Phase::Begin);
    assert_eq!(b.shape, LineageShape::Trunk);
    b.began(Ok(()));
    assert_eq!(b.phase, Phase::Guard(0));
    let (sql, row) = b.guard(0);
    assert_eq!(
        sql,
        "SELECT l.valid_from, l.valid_to FROM links_current l WHERE l.valid_from <> ?4 \
         AND l.source_id = ?1 AND l.target_id = ?2 AND l.edge_type = ?3"
    );
    assert_eq!(row.len(), 4);
    b.guarded(Ok(vec![interval(T3, T4)]));
    assert_eq!(b.phase, Phase::Guard(1));
    b.guarded(Ok(vec![]));
    assert_eq!(b.phase, Phase::Write(0));
    let (sql, row) = b.write(0);
    assert!(sql.starts_with("INSERT INTO links (source_id,"), "{sql}");
    assert_eq!(row.len(), 9);
    b.wrote(Ok(()), &guards());
    b.wrote(Ok(()), &guards());
    assert_eq!(b.phase, Phase::Commit);
    b.committed(Ok(()));
    assert_eq!(b.outcome().unwrap(), 2);
}

#[test]
fn a_batch_that_fails_anywhere_is_rolled_back() {
    let mut b = EdgeBatch::new(vec![edge(T1, T2), edge(T2, T3)], "now", trunk());
    b.began(Ok(()));
    b.guarded(Ok(vec![]));
    b.guarded(Ok(vec![interval(T1, T4)]));
    assert_eq!(b.phase, Phase::RollBack);
    b.rolled_back();
    assert!(matches!(b.outcome(), Err(DbError::OverlappingInterval { .. })));

    let mut b = EdgeBatch::new(vec![edge(T1, OPEN_SENTINEL)], "now", trunk());
    b.began(Ok(()));
    b.guarded(Ok(vec![]));
    b.wrote(
        Err(EngineError::SqliteFailure { code: 1811, message: "one open".into() }),
        &guards(),
    );
    assert_eq!(b.phase, Phase::RollBack);
    b.rolled_back();
    assert!(matches!(b.outcome(), Err(DbError::SingleOpenViolation { .. })));

    let clash = EdgeBatch::new(vec![edge(T1, T3), edge(T2, T4)], "now", trunk());
    assert_eq!(clash.phase, Phase::Done);
    assert!(clash.outcome().is_err());
    let nowhere = edge(T1, T2).on_branch(BranchId::new("ghost").unwrap());
    assert!(matches!(
        EdgeBatch::new(vec![edge(T3, T4), nowhere], "now", trunk()).outcome(),
        Err(DbError::UnknownBranch(n)) if n == "ghost"
    ));
    assert_eq!(EdgeBatch::new(vec![], "now", trunk()).outcome().unwrap(), 0);
}

#[test]
fn rows_without_a_guard_land_whole_too() {
    let mut b = RowBatch::new(Guarding::Never, 2);
    b.step(None);
    assert_eq!(b.phase, Phase::Write(0));
    b.step(None);
    b.step(Some(DbError::NotFound("ghost".into())));
    assert_eq!(b.phase, Phase::RollBack);
    b.step(None);
    assert!(matches!(b.outcome(), Err(DbError::NotFound(id)) if id == "ghost"));
    let mut b = RowBatch::new(Guarding::Never, 1);
    b.step(None);
    b.step(None);
    assert_eq!(b.phase, Phase::Commit);
    b.step(None);
    assert_eq!(b.outcome().unwrap(), 1);
    assert_eq!(RowBatch::new(Guarding::Never, 0).outcome().unwrap(), 0);
}

fn forked() -> Lineages {
    let mut all = trunk();
    all.rows.push(BranchRow {
        id: "exp".into(),
        parent: Some("main".into()),
        forked_at: Some(T1.into()),
    });
    all
}

fn on_exp(id: &str) -> ConceptUpsert {
    ConceptUpsert::new(id, id).on_branch(BranchId::new("exp").unwrap())
}

fn crossed(res: macrame::Result<()>, expected: (&str, &str)) -> bool {
    matches!(
        res,
        Err(DbError::CrossLineage { held_on, claimed, .. }) if (held_on.as_str(), claimed.as_str()) == expected
    )
}

#[test]
fn a_lineage_may_not_restate_what_another_holds() {
    let trunk_concept = ConceptUpsert::new("c", "c");
    assert!(concept_claim(&trunk_concept, None).is_ok());
    assert!(concept_claim(&trunk_concept, Some("main".into())).is_ok());
    assert!(concept_claim(&on_exp("c"), Some("exp".into())).is_ok());
    assert!(crossed(concept_claim(&on_exp("c"), Some("main".into())), ("main", "exp")));
    assert!(crossed(concept_claim(&trunk_concept, Some("exp".into())), ("exp", "main")));

    let mut run = ConceptRun::new(on_exp("c"), "now", &forked());
    assert_eq!(run.phase, ConceptPhase::Hold);
    assert_eq!(text(&run.guard().1[0]), "c");
    run.held(Ok(Some("main".into())));
    assert_eq!(run.phase, ConceptPhase::Done);
    let err = run.outcome().unwrap_err();
    assert_eq!(err.message(), "concept c is held on branch main and branch exp may not restate it");

    let mut run = ConceptRun::new(on_exp("c"), "now", &forked());
    run.held(Ok(None));
    let (sql, row) = run.write();
    assert!(sql.starts_with("INSERT INTO concepts"));
    assert_eq!(text(&row[8]), "exp");
    run.wrote(Ok(()), &guards(), None);
    assert!(run.outcome().is_ok());
    assert!(matches!(
        ConceptRun::new(on_exp("c"), "now", &trunk()).outcome(),
        Err(DbError::UnknownBranch(n)) if n == "exp"
    ));
}

#[test]
fn concepts_are_held_against_the_store_one_by_one() {
    let mut b = ConceptBatch::new(vec![ConceptUpsert::new("a", "a"), on_exp("b")], "now", &forked());
    assert_eq!(b.run.phase, Phase::Begin);
    b.began(Ok(()));
    assert_eq!(b.run.phase, Phase::Guard(0));
    assert_eq!(text(&b.guard(0).1[0]), "a");
    b.held(Ok(Some("main".into())));
    assert_eq!(b.run.phase, Phase::Write(0));
    assert_eq!(text(&b.write(0).1[6]), "now");
    b.wrote(Ok(()), &guards(), None);
    assert_eq!(b.run.phase, Phase::Guard(1));
    b.held(Ok(Some("main".into())));
    assert_eq!(b.run.phase, Phase::RollBack);
    b.rolled_back();
    assert!(matches!(b.outcome(), Err(DbError::CrossLineage { id, .. }) if id == "b"));

    let mut b = ConceptBatch::new(vec![on_exp("b")], "now", &forked());
    b.began(Ok(()));
    b.held(Ok(None));
    b.wrote(Ok(()), &guards(), None);
    assert_eq!(b.run.phase, Phase::Commit);
    b.committed(Ok(()));
    assert_eq!(b.outcome().unwrap(), 1);
    assert!(matches!(
        ConceptBatch::new(vec![on_exp("b")], "now", &trunk()).outcome(),
        Err(DbError::UnknownBranch(n)) if n == "exp"
    ));
}

#[test]
fn an_annotation_of_nothing_undoes_its_batch() {
    let list = vec![Annotation::new("a", "l", "1"), Annotation::new("ghost", "l", "2")];
    let mut b = AnnotationBatch::new(list, "now");
    b.began(Ok(()));
    assert_eq!(b.run.phase, Phase::Write(0));
    let (sql, row) = b.write(1);
    assert!(sql.starts_with("INSERT INTO analytics_annotations"));
    assert_eq!(row.iter().map(text).collect::<Vec<_>>(), ["ghost", "l", "2", "now"]);
    b.wrote(Ok(()), &guards());
    b.wrote(Err(EngineError::SqliteFailure { code: 787, message: "FOREIGN KEY".into() }), &guards());
    assert_eq!(b.run.phase, Phase::RollBack);
    b.rolled_back();
    assert!(matches!(b.outcome(), Err(DbError::NotFound(id)) if id == "ghost"));
    assert_eq!(AnnotationBatch::new(vec![], "now").outcome().unwrap(), 0);
}

fn text(v: &SqlValue) -> &str {
    match v {
        SqlValue::Text(t) => t,
        other => panic!("{other:?}"),
    }
}

#[test]
fn rows_are_bound_in_the_order_of_their_columns() {
    let e = edge(T1, T2).weight(2.5f64.to_bits()).on_branch(BranchId::new("exp").unwrap());
    let row = edge_params(&e, "now");
    assert_eq!(text(&row[0]), "a");
    assert_eq!(text(&row[3]), T1);
    assert!(matches!(row[5], SqlValue::Real(bits) if bits == 2.5f64.to_bits()));
    assert_eq!(text(&row[7]), "now");
    assert_eq!(text(&row[8]), "exp");

    let c = ConceptUpsert::new("id", "title").content("text").valid_from(T1).retired(true);
    let row = concept_params(&c, "now");
    assert_eq!(row.len(), 9);
    assert_eq!(text(&row[8]), "main");
    let claimed = ConceptUpsert::new("id", "title").on_branch(BranchId::new("exp").unwrap());
    assert_eq!(text(&concept_params(&claimed, "now")[8]), "exp");
    assert!(matches!(row[3], SqlValue::Null));
    assert_eq!(text(&row[6]), "now");
    assert!(matches!(row[7], SqlValue::Integer(1)));
    let named = concept_params(&c.embedding_model("m"), "now");
    assert_eq!(text(&named[3]), "m");

    let row = annotation_params(&Annotation::new("c", "community", "4"), "now");
    assert_eq!(
        row.iter().map(text).collect::<Vec<_>>(),
        ["c", "community", "4", "now"]
    );
}

#[test]
fn a_retirement_of_nothing_names_what_it_looked_for() {
    let r = retirement("a", "b", "KNOWS", "2026-01-01T00:00:00Z", T2, None).unwrap();
    assert!(r.settled(1).is_ok());
    assert!(matches!(
        r.settled(0),
        Err(DbError::NotFound(what)) if what == "a -> b (KNOWS) at 2026-01-01T00:00:00.000000Z"
    ));
    let row = r.params("now", LineageShape::Trunk, &[]);
    assert_eq!(
        row.iter().map(text).collect::<Vec<_>>(),
        ["a", "b", "KNOWS", T1, "main", T2, "now"]
    );
    assert!(matches!(
        retirement("a", "b", "no no", T1, T2, None),
        Err(DbError::InvalidEdgeType(_))
    ));
    assert!(matches!(
        retirement("a", "b", "KNOWS", T1, "never", None),
        Err(DbError::InvalidTimestamp { value, .. }) if value == "never"
    ));
}
