//! Current belief: audited, rebuilt, and rebuilt in turns.

use macrame::error::EngineError;
use macrame::integrity::audit::audit_query;
use macrame::integrity::rebuild::{
    fill_current, rebuild_outcome, repair_keys, RebuildPhase, RebuildRun, Verify, CLEAR_CURRENT,
    PROJECTION_KEY,
};
use macrame::integrity::shadow::{
    build_start, chunk_end, fill_bound, fill_chunk, shadow_ddl, swap, ShadowNext, ShadowOutcome,
    ShadowRun, ShadowStep, SwapPlan, FIRST_STAMP, SHADOW_TABLE, SOURCES_PER_CHUNK,
};
use macrame::integrity::{audit_current, latest_belief_projection, projection_where};
use macrame::sql::SqlValue;
use macrame::DbError;

const CREATE_LINKS_CURRENT: &str = "CREATE TABLE IF NOT EXISTS links_current (
    source_id TEXT NOT NULL,
    target_id TEXT NOT NULL,
    edge_type TEXT NOT NULL,
    valid_from TEXT NOT NULL CHECK (length(valid_from) = 27),
    valid_to TEXT NOT NULL CHECK (length(valid_to) = 27),
    weight REAL NOT NULL,
    properties TEXT NOT NULL,
    branch_id TEXT NOT NULL,
    PRIMARY KEY (source_id, target_id, edge_type, valid_from, branch_id)
)";

const CREATE_LINKS_CURRENT_SYNC: &str = "CREATE TRIGGER trg_links_current_sync
AFTER INSERT ON links BEGIN
    INSERT INTO links_current VALUES (NEW.source_id)
    ON CONFLICT(source_id, target_id, edge_type, valid_from, branch_id) DO UPDATE SET weight = 1;
END";

#[test]
fn the_shadow_carries_the_declared_schema_not_just_the_columns() {
    let ddl = shadow_ddl(CREATE_LINKS_CURRENT);
    assert!(ddl.contains(SHADOW_TABLE), "{ddl}");
    let target = CREATE_LINKS_CURRENT_SYNC
        .split_once("ON CONFLICT(")
        .and_then(|(_, rest)| rest.split_once(')'))
        .map(|(cols, _)| cols.to_string())
        .expect("the sync trigger declares an ON CONFLICT target");
    assert!(
        ddl.contains(&format!("PRIMARY KEY ({target})")),
        "the shadow's primary key is not the sync trigger's ON CONFLICT \
         target ({target}), so the trigger breaks on the first write \
         after the swap: {ddl}"
    );
    assert!(
        ddl.contains("CHECK"),
        "the shadow dropped the canonical-timestamp checks: {ddl}"
    );
    assert!(
        !ddl.replace(SHADOW_TABLE, "").contains("links_current"),
        "the substitution left a reference to the live table: {ddl}"
    );
    assert_eq!(target, PROJECTION_KEY);
}

#[test]
fn the_chunk_restriction_is_inside_the_window() {
    let sql = projection_where("source_id > ?1 AND source_id <= ?2");
    let inner = sql.find("FROM links").unwrap();
    let outer = sql.rfind("WHERE rn = 1").unwrap();
    let clause = sql.find("source_id > ?1").unwrap();
    assert!(
        clause > inner && clause < outer,
        "the restriction landed outside the subquery:\n{sql}"
    );
}

#[test]
fn an_audit_counts_what_drifted() {
    assert!(matches!(audit_current(Some(3)), Err(DbError::CurrentDrift { n: 3 })));
    assert_eq!(audit_current(Some(0)).unwrap(), 0);
    assert_eq!(audit_current(None).unwrap(), 0);
    let sql = audit_query();
    assert_eq!(sql.matches(&latest_belief_projection()).count(), 1, "{sql}");
    assert_eq!(sql.matches("EXCEPT").count(), 2, "{sql}");
    assert!(fill_current().starts_with("INSERT INTO links_current"));
    let (clear, fill) = repair_keys("SELECT 1");
    assert!(clear.starts_with("DELETE FROM links_current"), "{clear}");
    assert!(clear.contains("SELECT 1") && fill.contains("SELECT 1"));
}

#[test]
fn a_rebuild_that_still_drifts_is_rolled_back() {
    let mut run = RebuildRun::new(Verify::Yes);
    run.step(Ok(0));
    run.step(Ok(9));
    run.step(Ok(4));
    assert_eq!(run.phase, RebuildPhase::Audit);
    run.audited(Ok(Some(2)));
    assert_eq!(run.phase, RebuildPhase::RollBack);
    run.rolled_back();
    assert!(matches!(run.outcome(), Err(DbError::RebuildFailed { n: 2 })));

    let mut run = RebuildRun::new(Verify::Yes);
    run.step(Ok(0));
    run.step(Ok(9));
    run.step(Ok(4));
    run.audited(Ok(Some(0)));
    run.step(Ok(0));
    let report = run.outcome().unwrap();
    assert_eq!((report.rows_rebuilt, report.drift_after), (4, 0));

    let mut run = RebuildRun::new(Verify::No);
    run.step(Ok(0));
    run.step(Err(EngineError::SqliteFailure { code: 5, message: "busy".into() }));
    assert_eq!(run.phase, RebuildPhase::RollBack);
    run.rolled_back();
    assert!(matches!(run.outcome(), Err(DbError::Engine(_))));

    assert!(matches!(rebuild_outcome(4, Ok(1)), Err(DbError::RebuildFailed { n: 1 })));
    assert_eq!(rebuild_outcome(4, Ok(0)).unwrap().rows_rebuilt, 4);
}

#[test]
fn a_shadow_is_filled_source_by_source() {
    assert_eq!(build_start(None), FIRST_STAMP);
    assert_eq!(build_start(Some("t".into())), "t");
    assert!(chunk_end().contains("DISTINCT source_id"), "{}", chunk_end());
    let first = fill_bound(None);
    assert!(matches!(&first.row[0], SqlValue::Text(t) if t.is_empty()));
    assert_eq!(first.row.len(), 1);
    assert!(first.sql.ends_with(&format!("LIMIT {SOURCES_PER_CHUNK} )")), "{}", first.sql);
    assert!(fill_chunk(Some("a"), None).is_none());
    let s = fill_chunk(Some("a"), Some("m")).unwrap();
    assert!(s.sql.contains("source_id > ?1 AND source_id <= ?2"), "{}", s.sql);
    assert!(matches!(&s.row[0], SqlValue::Text(t) if t == "a"));
    assert!(matches!(&s.row[1], SqlValue::Text(t) if t == "m"));
}

#[test]
fn an_archive_during_the_build_gives_the_shadow_up() {
    match swap("t", 4, 6, &[], &[]) {
        SwapPlan::GiveUp { drop, error: DbError::RebuildInterrupted { reason } } => {
            assert_eq!(drop, "DROP TABLE IF EXISTS links_current_shadow");
            assert!(reason.starts_with("2 archive session(s) committed"), "{reason}");
        }
        other => panic!("{other:?}"),
    }
    let indices = ["CREATE INDEX i ON links_current(a)", "CREATE INDEX j ON concepts(a)"];
    let triggers = [CREATE_LINKS_CURRENT_SYNC, "CREATE TRIGGER other AFTER INSERT ON x"];
    match swap("t", 4, 4, &indices, &triggers) {
        SwapPlan::GoOn(list) => {
            assert_eq!(list.len(), 8);
            assert_eq!(list[4].sql, "DROP TABLE links_current");
            assert_eq!(
                list[5].sql,
                "ALTER TABLE links_current_shadow RENAME TO links_current"
            );
            assert_eq!(list[6].sql, indices[0]);
            assert_eq!(list[7].sql, CREATE_LINKS_CURRENT_SYNC);
        }
        other => panic!("{other:?}"),
    }
}

#[test]
fn a_chunked_rebuild_runs_its_turns_in_order() {
    let (run, first) = ShadowRun::new();
    assert!(matches!(first, ShadowStep::Begin));
    let (run, next) = run.next(ShadowOutcome::Started { build_start: "t".into(), epoch: 3 });
    assert!(matches!(next, ShadowNext::Ask(ShadowStep::Fill { after: None })));
    let (run, next) = run.next(ShadowOutcome::Filled { last: Some("m".into()) });
    assert!(matches!(next, ShadowNext::Ask(ShadowStep::Fill { after: Some(m) }) if m == "m"));
    let (run, next) = run.next(ShadowOutcome::Filled { last: None });
    assert!(matches!(
        next,
        ShadowNext::Ask(ShadowStep::Swap { build_start, epoch: 3 }) if build_start == "t"
    ));
    let (_, next) = run.next(ShadowOutcome::Swapped { rows: 12 });
    assert!(matches!(next, ShadowNext::Done(Ok(r)) if r.rows_rebuilt == 12));
    let (run, _) = ShadowRun::new();
    assert!(matches!(
        run.next(ShadowOutcome::Swapped { rows: 1 }).1,
        ShadowNext::Done(Err(DbError::WriterDroppedResponder))
    ));
}

#[test]
fn each_phase_of_a_rebuild_has_its_statement() {
    let mut run = RebuildRun::new(Verify::Yes);
    assert!(run.statement().is_none());
    run.step(Ok(0));
    assert_eq!(run.statement().as_deref(), Some(CLEAR_CURRENT));
    run.step(Ok(3));
    assert_eq!(run.statement(), Some(fill_current()));
    run.step(Ok(3));
    assert_eq!(run.statement(), Some(audit_query()));
    run.audited(Ok(Some(0)));
    assert!(run.statement().is_none());
}
