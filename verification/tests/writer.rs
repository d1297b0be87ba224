//! The writer: its queues and turns, and how a ledger is opened.

use macrame::connection::archive::{
    archive_boundaries, oldest_hot_stamp, oldest_sql, MAX_ARCHIVE_SESSIONS,
};
use macrame::connection::command::{
    answer_chunk, choose_queue, ArchiveEpoch, AssertPhase, AssertRun, Choice, HighPriCommand,
    HighPriWork, LoopCtl, LowPriCommand, LowPriWork, Queue,
};
use macrame::connection::rows::retirement;
use macrame::connection::tuning::{
    archive_name, checkpoint_report, configure, diagnosable, open_plan, reanchors, snapshots_name,
    writer_closed, ArchiveName, CheckpointRow, WriterExit,
};
use macrame::error::EngineError;
use macrame::graph::lineage::{BranchRow, Lineages};
use macrame::graph::EdgeAssertion;
use macrame::integrity::shadow::ShadowStep;
use macrame::metrics::CommandKind;
use macrame::schema::{Declarations, GuardMessages};
use macrame::temporal::Interval;
use macrame::{CadencePolicy, DbError, Tuning, WalCheckpointPolicy};

const T1: &str = "2026-01-01T00:00:00.000000Z";
const T2: &str = "2026-02-01T00:00:00.000000Z";

#[test]
fn waiting_callers_go_first() {
    assert_eq!(choose_queue(Queue::Ready, Queue::Ready), Choice::High);
    assert_eq!(choose_queue(Queue::Empty, Queue::Ready), Choice::Low);
    assert_eq!(choose_queue(Queue::Closed, Queue::Ready), Choice::Low);
    assert_eq!(choose_queue(Queue::Empty, Queue::Closed), Choice::Wait);
    assert_eq!(choose_queue(Queue::Closed, Queue::Closed), Choice::Stop);
}

#[test]
fn only_an_archive_that_succeeds_begins_an_epoch() {
    let mut e = ArchiveEpoch::new();
    e.settled(CommandKind::AssertEdge, true);
    e.settled(CommandKind::Archive, false);
    assert_eq!(e.epoch, 0);
    e.settled(CommandKind::Archive, true);
    e.settled(CommandKind::Rehydrate, true);
    assert_eq!(e.epoch, 2);
}

#[test]
fn a_chunk_is_answered_with_its_rows_and_its_time() {
    let out = answer_chunk(Ok(4), 9).unwrap();
    assert_eq!((out.rows, out.held), (4, 9));
    assert!(matches!(answer_chunk(Err(DbError::BulkCancelled), 9), Err(DbError::BulkCancelled)));
}

fn trunk() -> Lineages {
    Lineages {
        rows: vec![BranchRow { id: "main".into(), parent: None, forked_at: None }],
    }
}

fn edge() -> EdgeAssertion {
    EdgeAssertion::new("a", "b", "KNOWS").valid_from(T1).valid_to(T2)
}

fn guards() -> GuardMessages {
    GuardMessages {
        single_open: "one open".into(),
        monotonic_recorded_at: "went back".into(),
        delete_guard: "no delete".into(),
    }
}

#[test]
fn one_edge_is_guarded_and_then_written() {
    let mut run = AssertRun::new(edge(), "now", &trunk());
    assert_eq!(run.phase, AssertPhase::Guard);
    assert!(run.guard().0.starts_with("SELECT l.valid_from"));
    run.guarded(Ok(vec![]));
    assert_eq!(run.phase, AssertPhase::Write);
    assert!(run.write().0.starts_with("INSERT INTO links"));
    run.wrote(Ok(()), &guards());
    assert!(run.outcome().is_ok());

    let mut run = AssertRun::new(edge(), "now", &trunk());
    run.guarded(Ok(vec![Interval::new(
        "2026-01-15T00:00:00.000000Z".into(),
        "2026-03-01T00:00:00.000000Z".into(),
    )]));
    assert_eq!(run.phase, AssertPhase::Done);
    assert!(matches!(run.outcome(), Err(DbError::OverlappingInterval { .. })));

    let mut run = AssertRun::new(edge(), "now", &trunk());
    run.guarded(Err(EngineError::SqliteFailure { code: 5, message: "busy".into() }));
    assert!(matches!(run.outcome(), Err(DbError::Engine(_))));
}

#[test]
fn each_command_comes_to_its_work() {
    let stop = HighPriCommand::Shutdown;
    assert_eq!(stop.control(), LoopCtl::Break);
    assert!(!stop.stamped());
    assert!(matches!(stop.execute("now", trunk()), HighPriWork::Stop));
    let assert = HighPriCommand::AssertEdge { edge: edge() };
    assert_eq!(assert.kind(), CommandKind::AssertEdge);
    assert_eq!(assert.control(), LoopCtl::Continue);
    assert_eq!(LowPriCommand::RebuildFts.control(), LoopCtl::Continue);
    assert_eq!(LowPriCommand::Archive { cutoff: T1.into() }.control(), LoopCtl::Continue);
    assert!(assert.stamped());
    assert!(matches!(assert.execute("now", trunk()), HighPriWork::Assert(_)));
    let retire = HighPriCommand::RetireEdge {
        retirement: retirement("a", "b", "KNOWS", T1, T2, None).unwrap(),
    };
    match retire.execute("now", trunk()) {
        HighPriWork::Retire { statement: Ok((sql, row)), .. } => {
            assert!(sql.contains("INSERT INTO links"), "{sql}");
            assert_eq!(row.len(), 7);
        }
        other => panic!("{other:?}"),
    }

    let ddl = Declarations {
        links_current: "CREATE TABLE IF NOT EXISTS links_current (a TEXT)",
        indices: &[],
        triggers: &[],
        rebuild_fts: "FTS",
        analyze: "ANALYZE",
        optimize: "PRAGMA optimize",
    };
    let low = |cmd: LowPriCommand| cmd.execute("now", trunk(), 3, &ddl);
    assert!(matches!(low(LowPriCommand::RebuildFts), LowPriWork::Statement { sql, answers: false } if sql == "FTS"));
    assert!(matches!(
        low(LowPriCommand::Analyze { incremental: true }),
        LowPriWork::Statement { sql, answers: true } if sql == "PRAGMA optimize"
    ));
    match low(LowPriCommand::ShadowRebuild { step: ShadowStep::Begin }) {
        LowPriWork::ShadowBegin { drop, declare, epoch } => {
            assert_eq!(drop, "DROP TABLE IF EXISTS links_current_shadow");
            assert_eq!(declare, "CREATE TABLE IF NOT EXISTS links_current_shadow (a TEXT)");
            assert_eq!(epoch, 3);
        }
        other => panic!("{other:?}"),
    }
    assert!(matches!(
        low(LowPriCommand::Archive { cutoff: T1.into() }),
        LowPriWork::Archive { cutoff } if cutoff == T1
    ));
    assert_eq!(
        LowPriCommand::Rehydrate { ids: vec![] }.kind(),
        CommandKind::Rehydrate
    );
}

#[test]
fn a_span_is_archived_window_by_window() {
    const DAY: u128 = 86_400_000_000_000;
    let list = archive_boundaries(
        "2026-01-04T12:00:00.000000Z",
        DAY,
        Some("2026-01-01T00:00:00.000000Z".into()),
    )
    .unwrap();
    assert_eq!(
        list,
        [
            "2026-01-02T00:00:00.000000Z",
            "2026-01-03T00:00:00.000000Z",
            "2026-01-04T00:00:00.000000Z",
            "2026-01-04T12:00:00.000000Z"
        ]
    );
    assert_eq!(archive_boundaries(T1, DAY, None).unwrap(), [T1]);
    assert_eq!(archive_boundaries(T1, DAY, Some(T2.into())).unwrap(), [T1]);
    assert!(matches!(
        archive_boundaries(T2, 0, Some(T1.into())),
        Err(DbError::ArchiveWindow { window: 0, .. })
    ));
    match archive_boundaries(T2, 1_000_000_000, Some(T1.into())) {
        Err(DbError::ArchiveWindow { window, reason }) => {
            assert_eq!(window, 1_000_000_000);
            assert_eq!(
                reason,
                format!(
                    "a span of 2678400s would need 2678400 sessions \
                     (limit {MAX_ARCHIVE_SESSIONS}); widen the window"
                )
            );
        }
        other => panic!("{other:?}"),
    }
    assert!(matches!(
        archive_boundaries(T2, DAY, Some("soon".into())),
        Err(DbError::InvalidTimestamp { value, .. }) if value == "soon"
    ));
    assert_eq!(oldest_hot_stamp(Some(T2.into()), Some(T1.into())).as_deref(), Some(T1));
    assert_eq!(oldest_hot_stamp(None, Some(T1.into())).as_deref(), Some(T1));
    assert_eq!(oldest_hot_stamp(None, None), None);
    assert_eq!(
        oldest_sql("links"),
        "SELECT MIN(recorded_at) FROM links WHERE recorded_at < ?1"
    );
}

#[test]
fn a_ledger_is_opened_as_it_was_tuned() {
    let mut tuning: Tuning<u32, ()> = Tuning::from_legacy(Some(5), None);
    assert!(matches!(tuning.cadence, CadencePolicy::Every(5)));
    tuning.wal_autocheckpoint = WalCheckpointPolicy::EveryPages(64);
    tuning.writer_cache_size = Some(-2000);
    let plan = open_plan(tuning, 9, "PRAGMA analysis_limit = 400");
    assert_eq!(plan.writer.last().unwrap().sql, "PRAGMA wal_autocheckpoint = 64");
    assert!(plan.writer.iter().any(|p| p.sql == "PRAGMA cache_size = -2000"));
    assert_eq!(plan.reader.last().unwrap().sql, "PRAGMA query_only = ON");
    assert!(!plan.reader.iter().any(|p| p.sql.contains("cache_size")));
    assert_eq!(plan.cadence.unwrap().0, 5);
    let none: Tuning<u32, ()> = Tuning::from_legacy(None, None);
    assert!(open_plan(none, 9, "").cadence.is_none());
    assert_eq!(configure(None, "x").len(), 6);
    assert_eq!(CadencePolicy::<u32>::Default.resolve(9), Some(9));
    assert_eq!(WalCheckpointPolicy::Disabled.pragma().as_deref(), Some("PRAGMA wal_autocheckpoint = 0"));
    assert_eq!(WalCheckpointPolicy::default().pragma(), None);
    assert!(reanchors(true, true) && !reanchors(true, false) && !reanchors(false, true));
}

#[test]
fn files_beside_a_ledger_are_named_after_it() {
    assert_eq!(snapshots_name(Some("notes")), "notes_snapshots");
    assert_eq!(snapshots_name(None), "macrame_snapshots");
    assert!(matches!(archive_name(Some("notes"), Some("sqlite")), ArchiveName::Name(n) if n == "notes_archive.sqlite"));
    assert!(matches!(archive_name(Some("notes"), None), ArchiveName::Name(n) if n == "notes_archive.db"));
    assert!(matches!(archive_name(None, Some("x")), ArchiveName::Extension("archive.db")));
    assert!(diagnosable("p", true).is_ok());
    assert!(matches!(diagnosable("p", false), Err(DbError::DiagnosticConn { path, .. }) if path == "p"));
    assert!(writer_closed(WriterExit::Ended(Ok(()))).is_ok());
    assert!(matches!(
        writer_closed(WriterExit::Lost("panicked".into())),
        Err(DbError::WriterStopped(t)) if t == "the write actor did not exit cleanly: panicked"
    ));
}

#[test]
fn a_checkpoint_reports_both_of_its_halves() {
    let row = |busy, log, moved| CheckpointRow { busy, log, moved };
    let r = checkpoint_report(row(Some(0), Some(9), Some(7)), row(Some(0), Some(0), Some(0)));
    assert!(r.is_complete());
    assert_eq!(r.checkpointed_frames, 7);
    let held = checkpoint_report(row(Some(1), Some(9), Some(7)), row(None, Some(2), None));
    assert!(held.busy && !held.is_complete());
    assert_eq!(held.log_frames, 2);
    assert_eq!(checkpoint_report(row(None, None, Some(-1)), row(None, Some(-1), None)).log_frames, 0);
}
