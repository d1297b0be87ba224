//! Lineages: what a reader sees of its ancestors, and the relations that say so.

use libsql::{Connection, Value};
use macrame::graph::lineage::{resolve, Ancestor, BranchRow, LineageShape, Lineages};
use macrame::graph::lineage_sql::{ancestry_cte, ancestry_params, ancestry_values};
use macrame::sql::SqlValue;
use macrame::DbError;
use std::future::Future;

const TS: &str = "2026-01-06T00:00:00.000000Z";

const BRANCHES: &str = "CREATE TABLE branches (
    branch_id TEXT PRIMARY KEY,
    parent_id TEXT REFERENCES branches(branch_id),
    forked_at TEXT,
    created_at TEXT NOT NULL
)";

fn run<F: Future>(work: F) -> F::Output {
    tokio::runtime::Builder::new_current_thread()
        .build()
        .unwrap()
        .block_on(work)
}

async fn fresh() -> Connection {
    let db = libsql::Builder::new_local(":memory:")
        .build()
        .await
        .unwrap();
    let conn = db.connect().unwrap();
    conn.execute(BRANCHES, ()).await.unwrap();
    let root: Vec<Value> = vec!["main".into(), TS.into()];
    conn.execute(
        "INSERT INTO branches (branch_id, parent_id, forked_at, created_at) \
         VALUES (?1, NULL, NULL, ?2)",
        root,
    )
    .await
    .unwrap();
    conn
}

async fn fork_at(conn: &Connection, name: &str, parent: &str, at: &str) {
    let row: Vec<Value> = vec![name.into(), parent.into(), at.into()];
    conn.execute(
        "INSERT INTO branches (branch_id, parent_id, forked_at, created_at) \
         VALUES (?1, ?2, ?3, ?3)",
        row,
    )
    .await
    .unwrap();
}

async fn fork(conn: &Connection, child: &str, parent: &str) {
    fork_at(conn, child, parent, TS).await;
}

async fn load(conn: &Connection) -> Lineages {
    let mut found = conn
        .query("SELECT branch_id, parent_id, forked_at FROM branches", ())
        .await
        .unwrap();
    let mut rows = Vec::new();
    while let Some(r) = found.next().await.unwrap() {
        rows.push(BranchRow {
            id: r.get::<String>(0).unwrap(),
            parent: r.get::<Option<String>>(1).unwrap(),
            forked_at: r.get::<Option<String>>(2).unwrap(),
        });
    }
    Lineages { rows }
}

fn bound(row: Vec<SqlValue>) -> Vec<Value> {
    row.into_iter()
        .map(|v| match v {
            SqlValue::Null => Value::Null,
            SqlValue::Integer(i) => Value::Integer(i),
            SqlValue::Real(bits) => Value::Real(f64::from_bits(bits)),
            SqlValue::Text(t) => Value::Text(t),
            SqlValue::Blob(b) => Value::Blob(b),
        })
        .collect()
}

type Seen = (i64, String, Option<String>);

fn seen(ancestry: &[Ancestor]) -> Vec<Seen> {
    ancestry
        .iter()
        .map(|a| (a.dist, a.branch_id.clone(), a.cutoff.clone()))
        .collect()
}

async fn ancestry_from(conn: &Connection, sql: &str, row: Vec<Value>) -> Vec<Seen> {
    let mut rows = conn.query(sql, row).await.unwrap();
    let mut out = Vec::new();
    while let Some(r) = rows.next().await.unwrap() {
        out.push((
            r.get::<i64>(1).unwrap(),
            r.get::<String>(0).unwrap(),
            r.get::<Option<String>>(2).unwrap(),
        ));
    }
    out.sort();
    out
}

async fn from_the_cte(conn: &Connection, start: &str) -> Vec<Seen> {
    let sql = format!(
        "WITH RECURSIVE {} SELECT branch_id, dist, cutoff FROM lineage",
        ancestry_cte(1, "").replace("?1", &format!("'{start}'"))
    );
    ancestry_from(conn, &sql, Vec::new()).await
}

async fn from_the_values(conn: &Connection, start: &str) -> Vec<Seen> {
    let ancestry = load(conn).await.ancestry(start);
    let sql = format!(
        "WITH {} SELECT branch_id, dist, cutoff FROM lineage",
        ancestry_values(ancestry.len(), 1, "")
    );
    ancestry_from(conn, &sql, bound(ancestry_params(&ancestry))).await
}

#[test]
fn one_lineage_is_the_trunk_shape() {
    run(async {
        let conn = fresh().await;
        let lineages = load(&conn).await;
        assert_eq!(lineages.resolve_for(None).unwrap().0, LineageShape::Trunk);
        assert_eq!(
            lineages.resolve_for(Some("main")).unwrap().0,
            LineageShape::Trunk
        );
        assert!(matches!(
            lineages.resolve_for(Some("ghost")),
            Err(DbError::UnknownBranch(name)) if name == "ghost"
        ));
    });
}

#[test]
fn a_forked_ledger_gives_the_root_its_own_shape() {
    run(async {
        let conn = fresh().await;
        fork(&conn, "b1", "main").await;
        fork(&conn, "b2", "b1").await;
        let lineages = load(&conn).await;
        assert_eq!(
            lineages.resolve_for(None).unwrap().0,
            LineageShape::TrunkOnForked,
            "an unbranched read on a forked ledger is the trunk's own read"
        );
        assert_eq!(
            lineages.resolve_for(Some("main")).unwrap().0,
            LineageShape::TrunkOnForked
        );
        assert_eq!(
            lineages.resolve_for(Some("b1")).unwrap().0,
            LineageShape::Resolved
        );
        assert_eq!(
            lineages.resolve_for(Some("b2")).unwrap().0,
            LineageShape::Resolved
        );
        assert!(matches!(
            lineages.resolve_for(Some("ghost")),
            Err(DbError::UnknownBranch(_))
        ));
    });
}

#[test]
fn the_rust_walk_agrees_with_the_cte() {
    run(async {
        for (label, forks) in [
            (
                "increasing chain",
                vec![
                    ("b1", "main", "2026-01-01T00:00:00.000000Z"),
                    ("b2", "b1", "2026-02-01T00:00:00.000000Z"),
                    ("b3", "b2", "2026-03-01T00:00:00.000000Z"),
                    ("b4", "b3", "2026-04-01T00:00:00.000000Z"),
                ],
            ),
            (
                "decreasing chain",
                vec![
                    ("b1", "main", "2026-04-01T00:00:00.000000Z"),
                    ("b2", "b1", "2026-03-01T00:00:00.000000Z"),
                    ("b3", "b2", "2026-02-01T00:00:00.000000Z"),
                    ("b4", "b3", "2026-01-01T00:00:00.000000Z"),
                ],
            ),
            (
                "siblings",
                vec![
                    ("l", "main", "2026-01-01T00:00:00.000000Z"),
                    ("r", "main", "2026-06-01T00:00:00.000000Z"),
                    ("ll", "l", "2026-02-01T00:00:00.000000Z"),
                ],
            ),
            (
                "lone fork",
                vec![("only", "main", "2026-01-01T00:00:00.000000Z")],
            ),
        ] {
            let conn = fresh().await;
            for (name, parent, at) in &forks {
                fork_at(&conn, name, parent, at).await;
            }
            let mut names = vec!["main".to_string()];
            names.extend(forks.iter().map(|(n, _, _)| n.to_string()));

            for name in &names {
                let cte = from_the_cte(&conn, name).await;
                let values = from_the_values(&conn, name).await;
                assert_eq!(cte, values, "{label}: the two forms disagree for `{name}`");
                assert_eq!(cte.first().map(|a| a.1.as_str()), Some(name.as_str()));
                assert!(cte.first().is_some_and(|a| a.2.is_none()));
            }
        }
    });
}

#[test]
fn the_cutoff_is_the_earliest_fork_on_the_path_and_not_the_nearest() {
    run(async {
        let conn = fresh().await;
        fork_at(&conn, "early", "main", "2026-01-01T00:00:00.000000Z").await;
        fork_at(&conn, "late", "early", "2026-09-01T00:00:00.000000Z").await;

        let lineages = load(&conn).await;
        let ancestry = lineages.ancestry("late");

        assert_eq!(ancestry[0].cutoff, None, "the reader has no cutoff");
        assert_eq!(
            ancestry[1].cutoff.as_deref(),
            Some("2026-09-01T00:00:00.000000Z"),
            "`early` is seen up to where `late` left it"
        );
        assert_eq!(
            ancestry[2].cutoff.as_deref(),
            Some("2026-01-01T00:00:00.000000Z"),
            "`main` is clamped to where `early` left it, not to where `late` did"
        );
    });
}

#[test]
fn a_parent_that_is_not_there_ends_the_walk() {
    run(async {
        let conn = fresh().await;
        conn.execute("PRAGMA foreign_keys = OFF", ()).await.unwrap();
        fork_at(&conn, "orphan", "vanished", "2026-01-01T00:00:00.000000Z").await;

        let lineages = load(&conn).await;
        let ancestry = lineages.ancestry("orphan");
        assert_eq!(ancestry.len(), 2);
        assert_eq!(ancestry[1].branch_id, "vanished");
    });
}

#[test]
fn the_bound_ancestry_starts_where_the_reader_put_it() {
    let sql = ancestry_values(2, 6, "");
    assert!(sql.contains("(?6, ?7, ?8)"), "{sql}");
    assert!(sql.contains("(?9, ?10, ?11)"), "{sql}");
    assert!(
        !sql.contains("?5"),
        "nothing below the slot it was given: {sql}"
    );
    assert!(ancestry_values(1, 1, "_a").starts_with("lineage_a("));
}

#[test]
fn every_shape_but_the_trunk_binds_the_branch() {
    assert!(!LineageShape::Trunk.binds_branch());
    assert!(LineageShape::Resolved.binds_branch());
    assert!(LineageShape::TrunkOnForked.binds_branch());
}

fn row(id: &str, parent: Option<&str>, at: Option<&str>) -> BranchRow {
    BranchRow {
        id: id.into(),
        parent: parent.map(str::to_string),
        forked_at: at.map(str::to_string),
    }
}

#[test]
fn a_cycle_of_parents_ends_too() {
    let rows = vec![
        row("a", Some("b"), Some("2026-02-01T00:00:00.000000Z")),
        row("b", Some("a"), Some("2026-01-01T00:00:00.000000Z")),
    ];
    let ancestry = resolve(&rows, "a");
    assert_eq!(seen(&ancestry)[0], (0, "a".to_string(), None));
    assert_eq!(ancestry.len(), 3, "one step for each row, and the start");
    assert_eq!(ancestry[2].cutoff.as_deref(), Some("2026-01-01T00:00:00.000000Z"));
}

#[test]
fn one_read_of_two_lineages_takes_the_richer_shape() {
    let forked = Lineages {
        rows: vec![row("main", None, None), row("b", Some("main"), Some(TS))],
    };
    assert_eq!(
        forked.shape_of(&["main", "main"]).unwrap(),
        LineageShape::TrunkOnForked
    );
    assert_eq!(forked.shape_of(&["main", "b"]).unwrap(), LineageShape::Resolved);
    assert!(matches!(
        forked.shape_of(&["b", "ghost"]),
        Err(DbError::UnknownBranch(n)) if n == "ghost"
    ));
}
