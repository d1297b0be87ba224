//! Errors and what they say.

use macrame::error::{abort_kind, classify, AbortKind, EngineError, WriteOp};
use macrame::schema::GuardMessages;
use macrame::{BulkInterrupted, DbError, Overlap};

#[test]
fn the_error_enum_stays_small_enough_to_return_by_value() {
    let size = std::mem::size_of::<DbError>();
    assert!(
        size <= 128,
        "DbError is {size} bytes. Some variant has grown past what a Result \
         should carry."
    );
}

fn sample_overlap(within_batch: bool) -> DbError {
    DbError::OverlappingInterval {
        overlap: Box::new(Overlap {
            source_id: "a".into(),
            target_id: "b".into(),
            edge_type: "KNOWS".into(),
            valid_from: "2026-03-01T00:00:00.000000Z".into(),
            valid_to: "2026-09-01T00:00:00.000000Z".into(),
            existing_from: "2026-01-01T00:00:00.000000Z".into(),
            existing_to: "2026-06-01T00:00:00.000000Z".into(),
            within_batch,
        }),
    }
}

#[test]
fn an_overlap_names_the_asserted_interval_and_the_other_one() {
    let msg = sample_overlap(false).message();
    assert!(msg.contains("a -> b (KNOWS)"), "{msg}");
    assert!(msg.contains("asserted [2026-03-01"), "{msg}");
    assert!(msg.contains("[2026-01-01"), "{msg}");
}

#[test]
fn an_overlap_says_which_side_of_the_write_the_other_interval_is_on() {
    let stored = sample_overlap(false).message();
    assert!(stored.contains("is already recorded"), "{stored}");
    assert!(!stored.contains("batch"), "{stored}");

    let in_batch = sample_overlap(true).message();
    assert!(
        in_batch.contains("this same batch also asserts"),
        "{in_batch}"
    );
    assert!(!in_batch.contains("recorded"), "{in_batch}");
}

#[test]
fn a_partial_bulk_failure_says_how_much_landed() {
    let e = BulkInterrupted {
        written: 18_935,
        cause: DbError::NotFound("ghost".into()),
    };
    let text = e.message();
    assert!(text.contains("node ghost not found"), "{text}");
    assert!(text.contains("18935"), "{text}");
}

#[test]
fn cancellation_is_distinguishable_from_a_failure() {
    assert!(BulkInterrupted {
        written: 7,
        cause: DbError::BulkCancelled,
    }
    .was_cancelled());
    assert!(!BulkInterrupted {
        written: 7,
        cause: DbError::WriterUnavailable,
    }
    .was_cancelled());
}

#[test]
fn converting_to_a_db_error_keeps_the_cause_and_loses_the_count() {
    let e = BulkInterrupted {
        written: 400,
        cause: DbError::SingleOpenViolation {
            source_id: "a".into(),
            target_id: "b".into(),
            edge_type: "KNOWS".into(),
        },
    };
    let cause: DbError = e.into();
    assert!(matches!(cause, DbError::SingleOpenViolation { .. }));
    assert!(!cause.message().contains("400"));
}

#[test]
fn the_cause_is_reachable_as_an_error_source() {
    let e = BulkInterrupted {
        written: 1,
        cause: DbError::BulkCancelled,
    };
    assert_eq!(
        e.source().message(),
        "the bulk write was cancelled between chunks"
    );
}

#[test]
fn names_are_quoted_and_durations_spelled_out() {
    // A quote inside the name is escaped.
    assert_eq!(
        DbError::InvalidModelName("a\"b".into()).message(),
        "invalid embedding model name \"a\\\"b\": expected [a-z][a-z0-9_]* up to 48 characters"
    );
    assert_eq!(
        DbError::ArchiveWindow { window: 1_500_000_000, reason: "r".into() }.message(),
        "archive window 1.5s is unusable: r"
    );
}

#[test]
fn an_engine_failure_is_worded_as_the_engine_words_it() {
    let e = EngineError::SqliteFailure { code: 787, message: "FOREIGN KEY constraint failed".into() };
    assert_eq!(
        e.text(),
        "SQLite failure: `FOREIGN KEY constraint failed`"
    );
    assert_eq!(EngineError::Other { text: "closed".into() }.text(), "closed");
}

fn guards() -> GuardMessages {
    GuardMessages {
        single_open: "single open interval".into(),
        monotonic_recorded_at: "recorded_at went back".into(),
        delete_guard: "delete outside an archive".into(),
    }
}

fn aborted(by: &str) -> EngineError {
    EngineError::SqliteFailure { code: 1811, message: by.into() }
}

#[test]
fn an_abort_is_told_by_what_its_guard_says() {
    let g = guards();
    assert!(matches!(
        abort_kind(&aborted("single open interval"), &g),
        AbortKind::SingleOpenInterval
    ));
    assert!(matches!(
        abort_kind(&aborted("recorded_at went back"), &g),
        AbortKind::RecordedAtRegression
    ));
    assert!(matches!(
        abort_kind(&aborted("delete outside an archive"), &g),
        AbortKind::DeleteOutsideArchive
    ));

    let edge = WriteOp::Edge { source_id: "a", target_id: "b", edge_type: "KNOWS" };
    assert!(matches!(
        classify(aborted("single open interval"), edge, &g, None),
        DbError::SingleOpenViolation { source_id, .. } if source_id == "a"
    ));
    let concept = WriteOp::Concept { id: "c", recorded_at: "t1" };
    assert!(matches!(
        classify(aborted("recorded_at went back"), concept, &g, Some("t2".into())),
        DbError::RecordedAtRegression { got, had } if got == "t1" && had == "t2"
    ));
    assert!(matches!(
        classify(aborted("delete outside an archive"), WriteOp::Delete { table: "links" }, &g, None),
        DbError::ArchiveViolation { table } if table == "links"
    ));
    let missing = EngineError::SqliteFailure { code: 787, message: "FOREIGN KEY constraint failed".into() };
    assert!(matches!(
        classify(missing, WriteOp::Annotation { concept_id: "ghost" }, &g, None),
        DbError::NotFound(id) if id == "ghost"
    ));
    // A guard that does not belong to the write is an engine error like any
    // other.
    let edge = WriteOp::Edge { source_id: "a", target_id: "b", edge_type: "KNOWS" };
    assert!(matches!(
        classify(aborted("recorded_at went back"), edge, &g, None),
        DbError::Engine(_)
    ));
}

#[test]
fn an_edge_type_is_told_its_alphabet() {
    assert_eq!(
        DbError::InvalidEdgeType("no no".into()).message(),
        "invalid edge type no no (must be 1 to 64 of [A-Z0-9_:.-] or of [a-z0-9_:.-])"
    );
}
