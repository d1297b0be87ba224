//! The library's statements, run against an engine.

use libsql::{Connection, Rows, Value};
use macrame::branch::{fork, fork_probe, fork_row, Branch, BranchId, FORK, FORK_PROBE, LIST};
use macrame::connection::batch::{EdgeBatch, Phase};
use macrame::connection::command::retire_statement;
use macrame::connection::concepts::{ConceptPhase, ConceptRun};
use macrame::connection::rows::{concept_params, retirement, ConceptUpsert, UPSERT_CONCEPT};
use macrame::error::EngineError;
use macrame::graph::builder::WalkRow;
use macrame::graph::lineage::{Ancestor, BranchRow, LineageShape, Lineages, LOAD};
use macrame::graph::resolved::{
    diff_params, diff_sql, overlap_candidates_resolved, retire_from_resolved,
};
use macrame::graph::{EdgeAssertion, TraversalBuilder};
use macrame::integrity::audit::audit_query;
use macrame::integrity::rebuild::{fill_current, CLEAR_CURRENT};
use macrame::plan::edges_at;
use macrame::schema::GuardMessages;
use macrame::sql::SqlValue;
use macrame::temporal::Interval;
use macrame::{kv, DbError};
use std::future::Future;

const JAN: &str = "2026-01-01T00:00:00.000000Z";
const FEB: &str = "2026-02-01T00:00:00.000000Z";
const MAR: &str = "2026-03-01T00:00:00.000000Z";
const APR: &str = "2026-04-01T00:00:00.000000Z";
const NOW: &str = "2026-06-01T00:00:00.000000Z";

const LINKS: &str = "(source_id TEXT, target_id TEXT, edge_type TEXT, valid_from TEXT, \
                     valid_to TEXT, weight REAL, properties TEXT, recorded_at TEXT, \
                     branch_id TEXT)";

fn run<F: Future>(work: F) -> F::Output {
    tokio::runtime::Builder::new_current_thread()
        .build()
        .unwrap()
        .block_on(work)
}

fn bound(row: Vec<SqlValue>) -> Vec<Value> {
    row.into_iter()
        .map(|v| match v {
            SqlValue::Null => Value::Null,
            SqlValue::Integer(i) => Value::Integer(i),
            SqlValue::Real(bits) => Value::Real(f64::from_bits(bits)),
            SqlValue::Text(t) => Value::Text(t),
            SqlValue::Blob(b) => Value::Blob(b),
        })
        .collect()
}

async fn query(conn: &Connection, sql: &str, row: Vec<SqlValue>) -> Rows {
    conn.query(sql, bound(row)).await.unwrap()
}

async fn execute(conn: &Connection, sql: &str, row: Vec<SqlValue>) -> u64 {
    conn.execute(sql, bound(row)).await.unwrap()
}

async fn texts(conn: &Connection, sql: &str, row: Vec<SqlValue>, column: i32) -> Vec<String> {
    let mut rows = query(conn, sql, row).await;
    let mut out = Vec::new();
    while let Some(r) = rows.next().await.unwrap() {
        out.push(r.get::<String>(column).unwrap());
    }
    out.sort();
    out
}

async fn fresh() -> Connection {
    let db = libsql::Builder::new_local(":memory:").build().await.unwrap();
    let conn = db.connect().unwrap();
    for table in ["links", "links_current"] {
        conn.execute(&format!("CREATE TABLE {table} {LINKS}"), ()).await.unwrap();
    }
    for ddl in [
        "CREATE TABLE concepts (id TEXT PRIMARY KEY, title TEXT, content TEXT, \
         embedding_model TEXT, valid_from TEXT, valid_to TEXT, recorded_at TEXT, retired INTEGER, branch_id TEXT NOT NULL DEFAULT 'main')",
        "CREATE TABLE branches (branch_id TEXT PRIMARY KEY, parent_id TEXT, forked_at TEXT, \
         created_at TEXT NOT NULL)",
        "CREATE TABLE kv_store (key TEXT PRIMARY KEY, value TEXT, updated_at TEXT)",
        "CREATE TABLE transaction_log (seq_id INTEGER PRIMARY KEY, table_name TEXT, entity_id TEXT, \
         branch_id TEXT, recorded_at TEXT, payload TEXT)",
        "CREATE TRIGGER logged AFTER INSERT ON links BEGIN \
         INSERT INTO transaction_log (table_name, entity_id, branch_id, recorded_at, payload) \
         VALUES ('links', new.source_id || '|' || new.target_id || '|' || new.edge_type || '|' \
         || new.valid_from, new.branch_id, new.recorded_at, json_object( \
         'source_id', new.source_id, 'target_id', new.target_id, 'edge_type', new.edge_type, \
         'valid_from', new.valid_from, 'valid_to', new.valid_to, 'weight', new.weight)); END",
        "CREATE UNIQUE INDEX lc_key ON links_current \
         (source_id, target_id, edge_type, valid_from, branch_id)",
        "CREATE INDEX idx_lc_traversal_cover ON links_current \
         (source_id, edge_type, valid_from, valid_to, weight, target_id, branch_id)",
        "CREATE INDEX idx_lc_open_interval ON links_current \
         (source_id, target_id, edge_type, branch_id, valid_to, valid_from, recorded_at)",
        "CREATE INDEX idx_txlog_fold_partition ON transaction_log \
         (table_name, entity_id, branch_id, seq_id DESC)",
        "INSERT INTO branches VALUES ('main', NULL, NULL, '2026-01-01T00:00:00.000000Z')",
    ] {
        conn.execute(ddl, ()).await.unwrap();
    }
    for id in ["a", "b", "c", "d"] {
        let concept = ConceptUpsert::new(id, id).valid_from(JAN).normalized().unwrap();
        assert_eq!(execute(&conn, UPSERT_CONCEPT, concept_params(&concept, JAN)).await, 1);
    }
    conn
}

async fn lineages(conn: &Connection) -> Lineages {
    let mut found = conn.query(LOAD, ()).await.unwrap();
    let mut rows = Vec::new();
    while let Some(r) = found.next().await.unwrap() {
        rows.push(BranchRow {
            id: r.get(0).unwrap(),
            parent: r.get(1).unwrap(),
            forked_at: r.get(2).unwrap(),
        });
    }
    Lineages { rows }
}

async fn forked(conn: &Connection, name: &str, parent: &str, at: &str) -> macrame::Result<Branch> {
    let (name, parent) = (BranchId::new(name)?, BranchId::new(parent)?);
    let mut rows = query(conn, FORK_PROBE, fork_probe(&name, &parent)).await;
    let r = rows.next().await.unwrap().unwrap();
    let branch = fork(
        &name,
        &parent,
        at,
        r.get(0).unwrap(),
        r.get(1).unwrap(),
        r.get(2).unwrap(),
    )?;
    execute(conn, FORK, fork_row(&name, &parent, at)).await;
    Ok(branch)
}

fn guards() -> GuardMessages {
    GuardMessages {
        single_open: "one open".into(),
        monotonic_recorded_at: "time goes on".into(),
        delete_guard: "archived".into(),
    }
}

async fn intervals(conn: &Connection, sql: &str, row: Vec<SqlValue>) -> Vec<Interval> {
    let mut rows = query(conn, sql, row).await;
    let mut out = Vec::new();
    while let Some(r) = rows.next().await.unwrap() {
        out.push(Interval::new(r.get(0).unwrap(), r.get(1).unwrap()));
    }
    out
}

async fn write(conn: &Connection, edges: Vec<EdgeAssertion>, stamp: &str) -> macrame::Result<usize> {
    let edges = edges.into_iter().map(|e| e.normalized().unwrap()).collect();
    let mut batch = EdgeBatch::new(edges, stamp, lineages(conn).await);
    loop {
        match batch.phase {
            Phase::Begin => {
                conn.execute("BEGIN IMMEDIATE", ()).await.unwrap();
                batch.began(Ok(()));
            }
            Phase::Guard(i) => {
                let (sql, row) = batch.guard(i);
                batch.guarded(Ok(intervals(conn, &sql, row).await));
            }
            Phase::Write(i) => {
                let (sql, row) = batch.write(i);
                let res = conn.execute(sql, bound(row)).await;
                batch.wrote(
                    res.map(|_| ()).map_err(|e| EngineError::Other { text: e.to_string() }),
                    &guards(),
                );
            }
            Phase::Commit => {
                conn.execute("COMMIT", ()).await.unwrap();
                batch.committed(Ok(()));
            }
            Phase::RollBack => {
                conn.execute("ROLLBACK", ()).await.unwrap();
                batch.rolled_back();
            }
            Phase::Done => return batch.outcome(),
        }
    }
}

async fn derive(conn: &Connection) {
    execute(conn, CLEAR_CURRENT, Vec::new()).await;
    execute(conn, &fill_current(), Vec::new()).await;
    let mut rows = query(conn, &audit_query(), Vec::new()).await;
    assert_eq!(rows.next().await.unwrap().unwrap().get::<i64>(0).unwrap(), 0);
}

fn edge(s: &str, t: &str) -> EdgeAssertion {
    EdgeAssertion::new(s, t, "LINKS").valid_from(JAN)
}

fn on(name: &str) -> BranchId {
    BranchId::new(name).unwrap()
}

async fn walk(conn: &Connection, t: &TraversalBuilder) -> Vec<String> {
    let (shape, _) = lineages(conn).await.resolve_for(t.branch.as_deref()).unwrap();
    let mut rows = query(conn, &t.build_sql_with(shape), t.bind_params(NOW, shape)).await;
    let mut found = Vec::new();
    while let Some(r) = rows.next().await.unwrap() {
        found.push(WalkRow { walk_rows: 0, id: Some(r.get(0).unwrap()) });
    }
    t.gather(found).0
}

/// A trunk with a -> b -> c, a fork of it that ends b -> c and adds a -> d, and
/// a later edge of the trunk that the fork does not see.
async fn ledger() -> Connection {
    let conn = fresh().await;
    write(&conn, vec![edge("a", "b"), edge("b", "c")], FEB).await.unwrap();
    derive(&conn).await;
    forked(&conn, "alt", "main", MAR).await.unwrap();
    write(&conn, vec![edge("a", "d").on_branch(on("alt"))], APR).await.unwrap();
    derive(&conn).await;
    let r = retirement("b", "c", "LINKS", JAN, APR, Some(on("alt"))).unwrap();
    let (sql, row) = retire_statement(&r, APR, &lineages(&conn).await).unwrap();
    assert_eq!(execute(&conn, &sql, row).await, 1);
    write(&conn, vec![edge("c", "d")], APR).await.unwrap();
    derive(&conn).await;
    conn
}

#[test]
fn a_fork_is_refused_or_listed() {
    run(async {
        let conn = fresh().await;
        let alt = forked(&conn, "alt", "main", MAR).await.unwrap();
        assert_eq!(alt.forked_at.as_deref(), Some(MAR));
        assert!(matches!(forked(&conn, "alt", "main", MAR).await, Err(DbError::BranchExists(_))));
        assert!(matches!(forked(&conn, "x", "none", MAR).await, Err(DbError::UnknownBranch(_))));
        assert!(matches!(
            forked(&conn, "x", "alt", FEB).await,
            Err(DbError::ForkPrecedesParent { .. })
        ));
        forked(&conn, "x", "alt", APR).await.unwrap();
        let mut rows = conn.query(LIST, ()).await.unwrap();
        for name in ["main", "alt", "x"] {
            let r = rows.next().await.unwrap().unwrap();
            assert_eq!(r.get::<String>(0).unwrap(), name);
        }
        assert!(rows.next().await.unwrap().is_none());
    });
}

#[test]
fn a_walk_sees_its_own_lineage() {
    run(async {
        let conn = ledger().await;
        let from_a = || TraversalBuilder::new("a").max_depth(3);
        assert_eq!(walk(&conn, &from_a()).await, ["a", "b", "c", "d"]);
        assert_eq!(walk(&conn, &from_a().max_depth(1)).await, ["a", "b"]);
        assert_eq!(walk(&conn, &from_a().on_branch("alt")).await, ["a", "b", "d"]);
        let before = from_a().on_branch("alt").as_of_valid(FEB);
        assert_eq!(walk(&conn, &before).await, ["a", "b", "c", "d"], "b -> c held until April");
        let early = from_a().as_of_recorded(MAR).as_of_valid(NOW);
        assert_eq!(walk(&conn, &early).await, ["a", "b", "c"], "c -> d was not yet recorded");
    });
}

#[test]
fn edges_are_read_as_they_are_believed() {
    run(async {
        let conn = ledger().await;
        let all = lineages(&conn).await;
        let (shape, _) = all.resolve_for(None).unwrap();
        let (sql, row) = edges_at(shape, NOW, None, None, None);
        assert_eq!(texts(&conn, &sql, row, 1).await, ["b", "c", "d"]);
        let (shape, _) = all.resolve_for(Some("alt")).unwrap();
        let (sql, row) = edges_at(shape, NOW, None, Some("alt"), None);
        assert_eq!(texts(&conn, &sql, row, 1).await, ["b", "d"]);
        let (sql, row) = edges_at(shape, NOW, Some(MAR), Some("alt"), Some(1));
        assert_eq!(texts(&conn, &sql, row, 1).await.len(), 1);
    });
}

#[test]
fn a_difference_lists_what_the_other_does_not_hold() {
    run(async {
        let conn = ledger().await;
        let all = lineages(&conn).await;
        let (main, alt) = (all.ancestry("main"), all.ancestry("alt"));
        let only_alt = texts(&conn, &diff_sql(&alt, &main), diff_params("alt", "main", &alt, &main), 0).await;
        assert_eq!(only_alt, ["a", "b"], "a -> d, and b -> c that ends");
        let only_main = texts(&conn, &diff_sql(&main, &alt), diff_params("main", "alt", &main, &alt), 0).await;
        assert_eq!(only_main, ["b", "c"], "b -> c that goes on, and c -> d");
    });
}

#[test]
fn a_batch_is_written_whole_or_not_at_all() {
    run(async {
        let conn = ledger().await;
        let again = edge("a", "b").valid_from(FEB).valid_to(MAR);
        let res = write(&conn, vec![edge("d", "a"), again], NOW).await;
        assert!(matches!(res, Err(DbError::OverlappingInterval { .. })));
        let found = texts(&conn, "SELECT source_id FROM links WHERE source_id = 'd'", Vec::new(), 0).await;
        assert!(found.is_empty());
    });
}

async fn mint(conn: &Connection, concept: ConceptUpsert) -> macrame::Result<()> {
    let mut run = ConceptRun::new(concept.valid_from(JAN).normalized()?, NOW, &lineages(conn).await);
    while run.phase != ConceptPhase::Done {
        if run.phase == ConceptPhase::Hold {
            let (sql, row) = run.guard();
            run.held(Ok(texts(conn, sql, row, 0).await.into_iter().next()));
        } else {
            let (sql, row) = run.write();
            execute(conn, sql, row).await;
            run.wrote(Ok(()), &guards(), None);
        }
    }
    run.outcome()
}

#[test]
fn a_concept_stays_on_the_lineage_that_minted_it() {
    run(async {
        let conn = ledger().await;
        let on_alt = |id: &str| ConceptUpsert::new(id, "anew").on_branch(on("alt"));
        assert!(matches!(mint(&conn, on_alt("a")).await, Err(DbError::CrossLineage { .. })));
        let title = "SELECT title FROM concepts WHERE id = 'a'";
        assert_eq!(texts(&conn, title, Vec::new(), 0).await, ["a"]);
        mint(&conn, on_alt("e")).await.unwrap();
        mint(&conn, on_alt("e").content("again")).await.unwrap();
        let held = "SELECT branch_id FROM concepts WHERE id = 'e'";
        assert_eq!(texts(&conn, held, Vec::new(), 0).await, ["alt"]);
        assert!(matches!(
            mint(&conn, ConceptUpsert::new("e", "mine")).await,
            Err(DbError::CrossLineage { .. })
        ));
        let ghost = ConceptUpsert::new("f", "f").on_branch(on("ghost"));
        assert!(matches!(mint(&conn, ghost).await, Err(DbError::UnknownBranch(_))));
    });
}

#[test]
fn keys_are_scanned_by_prefix() {
    run(async {
        let conn = fresh().await;
        for key in ["a", "a/1", "a/2", "b"] {
            execute(&conn, kv::PUT, kv::put(key, key, NOW)).await;
        }
        let scan = |prefix: &str, limit: usize| kv::scan(prefix, limit).unwrap();
        assert_eq!(texts(&conn, kv::SCAN, scan("a/", 9), 0).await, ["a/1", "a/2"]);
        assert_eq!(texts(&conn, kv::SCAN, scan("a", 2), 0).await, ["a", "a/1"]);
        assert_eq!(texts(&conn, kv::SCAN, scan("", 9), 0).await.len(), 4);
        let key = vec![SqlValue::Text("a/1".to_string())];
        assert!(kv::deleted(execute(&conn, kv::DELETE, key).await));
    });
}

async fn plan_of(conn: &Connection, sql: &str, row: Vec<SqlValue>) -> Vec<String> {
    let mut rows = query(conn, &format!("EXPLAIN QUERY PLAN {sql}"), row).await;
    let mut plan = Vec::new();
    while let Some(r) = rows.next().await.unwrap() {
        plan.push(r.get::<String>(3).unwrap());
    }
    plan
}

const SHAPES: [LineageShape; 3] = [
    LineageShape::Trunk,
    LineageShape::TrunkOnForked,
    LineageShape::Resolved,
];

#[test]
fn the_guard_seeks_the_edge_key_on_every_shape() {
    run(async {
        let conn = fresh().await;
        forked(&conn, "exp", "main", MAR).await.unwrap();
        let ancestry = [Ancestor::new("exp", 0), Ancestor::new("main", 1).cutoff(MAR)];
        for shape in SHAPES {
            for (what, sql) in [
                ("overlap", overlap_candidates_resolved(shape, &ancestry)),
                ("retire", retire_from_resolved(shape, &ancestry)),
            ] {
                let step = plan_of(&conn, &sql, Vec::new()).await.join(" | ");
                assert!(
                    step.contains("source_id=? AND target_id=? AND edge_type=?"),
                    "{shape:?}/{what}: {step}"
                );
                assert!(
                    what != "overlap" || step.contains("idx_lc_open_interval"),
                    "{shape:?}: {step}"
                );
            }
        }
    });
}

#[test]
fn the_forked_trunk_walk_seeks_the_traversal_index_and_materialises_nothing() {
    run(async {
        let conn = fresh().await;
        forked(&conn, "b", "main", MAR).await.unwrap();
        for (label, builder) in [
            ("unfiltered", TraversalBuilder::new("a").max_depth(3)),
            (
                "edge-typed",
                TraversalBuilder::new("a").max_depth(3).edge_types(vec!["CITES".into()]),
            ),
        ] {
            let shape = LineageShape::TrunkOnForked;
            let plan = plan_of(&conn, &builder.build_sql_with(shape), builder.bind_params(NOW, shape)).await;
            let text = plan.join("\n");
            assert!(
                plan.iter()
                    .any(|s| s.contains("SEARCH l USING") && s.contains("idx_lc_traversal_cover")),
                "{label}: {text}"
            );
            assert!(!text.contains("MATERIALIZE") && !text.contains("lineage"), "{label}: {text}");
        }
    });
}

#[test]
fn the_fold_is_materialised_once_per_query_on_every_shape() {
    run(async {
        let conn = fresh().await;
        forked(&conn, "b", "main", MAR).await.unwrap();
        let folded = TraversalBuilder::new("a").max_depth(3).as_of_recorded(MAR);
        for shape in SHAPES {
            let text = plan_of(&conn, &folded.build_sql_with(shape), folded.bind_params(MAR, shape))
                .await
                .join("\n");
            assert!(text.contains("MATERIALIZE links_at_tx"), "{shape:?}: {text}");
            if shape != LineageShape::Resolved {
                assert!(
                    text.contains("SEARCH transaction_log USING INDEX idx_txlog_fold_partition"),
                    "{shape:?}: {text}"
                );
                assert!(!text.contains("USE TEMP B-TREE FOR ORDER BY"), "{shape:?}: {text}");
            }
        }
    });
}
