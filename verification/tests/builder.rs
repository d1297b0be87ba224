//! How a traversal is asked for.

use macrame::branch::BranchId;
use macrame::graph::builder::{WalkOutcome, WalkRow, BRANCH_SLOT};
use macrame::graph::lineage::LineageShape;
use macrame::graph::lineage_sql::ancestry_cte;
use macrame::graph::{AttributeMode, TraversalBuilder};
use macrame::plan::{check_recorded_reach, edges_at, ReadPlan};
use macrame::schema::MAIN_BRANCH;
use macrame::sql::SqlValue;
use macrame::DbError;

const TUE: &str = "2026-01-06T00:00:00.000000Z";

fn is_text(v: &SqlValue, expected: &str) -> bool {
    matches!(v, SqlValue::Text(t) if t == expected)
}

#[test]
fn as_of_without_a_stated_mode_is_an_error() {
    let err = TraversalBuilder::new("a")
        .as_of_valid(TUE)
        .resolved_mode()
        .expect_err("past topology plus present text must not be a default");

    match &err {
        DbError::AttributeModeUnstated { instants } => {
            assert_eq!(instants.valid(), Some(TUE));
            assert_eq!(instants.recorded(), None, "no belief instant was set");
        }
        other => panic!("got {other:?}"),
    }

    let text = err.message();
    assert!(
        text.contains(&format!("as_of_valid({TUE})")),
        "the message must name the call the caller made: {text}"
    );
    assert!(
        text.contains("AtTime") && text.contains("Current"),
        "{text}"
    );
}

#[test]
fn a_stated_mode_is_honoured_on_a_historical_traversal() {
    for mode in [
        AttributeMode::Current,
        AttributeMode::AtTime,
        AttributeMode::Omit,
    ] {
        let got = TraversalBuilder::new("a")
            .as_of_valid(TUE)
            .attribute_mode(mode)
            .resolved_mode()
            .unwrap();
        assert_eq!(got, mode);
    }
}

#[test]
fn a_recorded_instant_also_demands_a_stated_mode() {
    let err = TraversalBuilder::new("a")
        .as_of_recorded(TUE)
        .resolved_mode()
        .expect_err("past belief plus present text must not be a default");
    assert!(
        matches!(err, DbError::AttributeModeUnstated { .. }),
        "{err:?}"
    );
    let text = err.message();
    assert!(text.contains(&format!("as_of_recorded({TUE})")), "{text}");
    assert!(!text.contains("as_of("), "no dead method name: {text}");
}

#[test]
fn both_instants_are_reported_when_both_were_stated() {
    const WED: &str = "2026-01-07T00:00:00.000000Z";
    let err = TraversalBuilder::new("a")
        .as_of_valid(TUE)
        .as_of_recorded(WED)
        .resolved_mode()
        .expect_err("the cell needs a stated mode as much as either axis");

    match &err {
        DbError::AttributeModeUnstated { instants } => {
            assert_eq!(instants.valid(), Some(TUE));
            assert_eq!(instants.recorded(), Some(WED));
        }
        other => panic!("got {other:?}"),
    }
    let text = err.message();
    assert!(text.contains(TUE) && text.contains(WED), "{text}");
}

#[test]
fn a_live_traversal_still_defaults_to_current() {
    assert_eq!(
        TraversalBuilder::new("a").resolved_mode().unwrap(),
        AttributeMode::Current
    );
}

#[test]
fn as_of_valid_overrides_the_execute_timestamp() {
    let now = "2026-06-01T00:00:00.000000Z";
    assert_eq!(TraversalBuilder::new("a").valid_instant(now), now);
    assert_eq!(
        TraversalBuilder::new("a")
            .as_of_valid(TUE)
            .valid_instant(now),
        TUE
    );
    assert_eq!(
        TraversalBuilder::new("a")
            .as_of_recorded(TUE)
            .valid_instant(now),
        now,
        "fixing belief must not move the valid-time instant"
    );
}

#[test]
fn the_two_axes_reach_hydration_separately() {
    let now = "2026-06-01T00:00:00.000000Z";
    let mar = "2026-03-01T00:00:00.000000Z";

    let live = TraversalBuilder::new("a").instants(now);
    assert_eq!(live.valid.as_deref(), Some(now));
    assert_eq!(live.recorded, None, "no instant means current belief");

    let valid_only = TraversalBuilder::new("a").as_of_valid(TUE).instants(now);
    assert_eq!(valid_only.valid.as_deref(), Some(TUE));
    assert_eq!(valid_only.recorded, None);

    let recorded_only = TraversalBuilder::new("a").as_of_recorded(mar).instants(now);
    assert_eq!(
        recorded_only.valid.as_deref(),
        Some(now),
        "fixing belief leaves valid time at the present"
    );
    assert_eq!(recorded_only.recorded.as_deref(), Some(mar));

    let both = TraversalBuilder::new("a")
        .as_of_valid(TUE)
        .as_of_recorded(mar)
        .instants(now);
    assert_eq!(both.valid.as_deref(), Some(TUE));
    assert_eq!(both.recorded.as_deref(), Some(mar));
}

#[test]
fn the_recorded_instant_shifts_the_edge_type_placeholders() {
    let now = "2026-06-01T00:00:00.000000Z";
    let trunk = LineageShape::Trunk;

    let plain = TraversalBuilder::new("a").edge_types(vec!["CITES".into()]);
    assert_eq!(plain.edge_type_base(trunk), 5);
    assert!(
        plain.edge_filter_sql(trunk).contains("?5"),
        "{}",
        plain.edge_filter_sql(trunk)
    );
    assert_eq!(plain.bind_params(now, trunk).len(), 5);

    let folded = plain.clone().as_of_recorded(TUE);
    assert_eq!(folded.edge_type_base(trunk), 6);
    assert!(
        folded.edge_filter_sql(trunk).contains("?6"),
        "{}",
        folded.edge_filter_sql(trunk)
    );
    assert_eq!(folded.bind_params(now, trunk).len(), 6);
}

#[test]
fn the_lineage_slot_shifts_everything_after_it() {
    let now = "2026-06-01T00:00:00.000000Z";
    let (trunk, resolved) = (LineageShape::Trunk, LineageShape::Resolved);

    let plain = TraversalBuilder::new("a").edge_types(vec!["CITES".into()]);
    assert_eq!(plain.edge_type_base(resolved), 6);
    assert!(plain.edge_filter_sql(resolved).contains("?6"));
    assert_eq!(plain.bind_params(now, resolved).len(), 6);

    let folded = plain.clone().as_of_recorded(TUE);
    assert_eq!(folded.edge_type_base(resolved), 7);
    assert!(folded.edge_filter_sql(resolved).contains("?7"));
    assert_eq!(folded.bind_params(now, resolved).len(), 7);

    let named = folded.clone().on_branch("b9");
    let params = named.bind_params(now, resolved);
    assert!(is_text(&params[BRANCH_SLOT - 1], "b9"));
    assert!(ancestry_cte(BRANCH_SLOT, "").contains("?5"));
    assert!(named.walk_cte(resolved).contains("recorded_at <= ?6"));

    assert!(is_text(
        &folded.bind_params(now, resolved)[BRANCH_SLOT - 1],
        MAIN_BRANCH
    ));

    assert!(!folded.walk_cte(trunk).contains("lineage"));
}

#[test]
fn the_link_source_follows_the_recorded_instant() {
    let trunk = LineageShape::Trunk;

    let plain = TraversalBuilder::new("a");
    assert_eq!(plain.link_source(trunk), "links_current");
    assert!(!plain.walk_cte(trunk).contains("transaction_log"));

    let folded = TraversalBuilder::new("a").as_of_recorded(TUE);
    assert_eq!(folded.link_source(trunk), "links_at_tx");
    let sql = folded.walk_cte(trunk);
    assert!(sql.contains("links_at_tx"), "{sql}");
    assert!(sql.contains("recorded_at <= ?5"), "{sql}");
    assert!(
        sql.contains("table_name = 'links'"),
        "the partition is only sound with the discriminator filtered: {sql}"
    );
}

#[test]
fn the_folded_source_partitions_by_lineage() {
    let folded = TraversalBuilder::new("a").as_of_recorded(TUE);
    let sql = folded.walk_cte(LineageShape::Resolved);

    assert!(
        sql.contains("PARTITION BY transaction_log.entity_id, transaction_log.branch_id"),
        "two lineages' assertions collapse to one without this: {sql}"
    );
    assert!(
        sql.contains("FROM transaction_log\n"),
        "the fold's table must keep its own name in the plan: {sql}"
    );
    assert!(
        sql.contains("valid_to, weight, branch_id) AS MATERIALIZED ("),
        "the fold must expose what `visible` joins on: {sql}"
    );
    assert!(
        sql.contains("JOIN lineage g ON g.branch_id = l.branch_id"),
        "{sql}"
    );
}

#[test]
fn the_resolved_shape_puts_the_resolution_between_the_walk_and_the_rows() {
    let walk = TraversalBuilder::new("a");

    let resolved = walk.walk_cte(LineageShape::Resolved);
    assert_eq!(walk.link_source(LineageShape::Resolved), "visible");
    assert!(resolved.contains("JOIN visible l ON l.source_id = w.node_id"));
    assert!(
        resolved.contains("PARTITION BY l.source_id, l.target_id, l.edge_type, l.valid_from"),
        "the partition is the edge key, not the edge: {resolved}"
    );

    let trunk = walk.walk_cte(LineageShape::Trunk);
    assert!(!trunk.contains("lineage"), "{trunk}");
    assert!(!trunk.contains("ROW_NUMBER"), "{trunk}");
    assert!(trunk.contains("JOIN links_current l ON l.source_id = w.node_id"));
}

#[test]
fn the_pure_builder_takes_the_shape_its_configuration_implies() {
    assert_eq!(
        TraversalBuilder::new("a").implied_shape(),
        LineageShape::Trunk
    );
    assert_eq!(
        TraversalBuilder::new("a").on_branch("b9").implied_shape(),
        LineageShape::Resolved
    );
    assert!(TraversalBuilder::new("a")
        .on_branch("b9")
        .build_sql()
        .contains("lineage"));
    assert!(!TraversalBuilder::new("a").build_sql().contains("lineage"));
}

#[test]
fn the_forked_trunk_walk_is_the_trunk_walk_plus_one_predicate() {
    let shape = LineageShape::TrunkOnForked;
    let walk = TraversalBuilder::new("a");
    let sql = walk.walk_cte(shape);
    assert!(sql.contains("JOIN links_current l ON l.source_id = w.node_id"));
    assert!(sql.contains("AND l.weight >= ?4 AND +l.branch_id = ?5\n"));
    assert!(!sql.contains("lineage"), "a root resolves nothing: {sql}");
    assert!(!sql.contains("ROW_NUMBER"), "{sql}");
    assert_eq!(walk.link_source(shape), "links_current");
    assert_eq!(walk.lineage_filter_sql(shape), " AND +l.branch_id = ?5");

    assert_eq!(TraversalBuilder::recorded_slot(shape), 6);
    assert_eq!(walk.edge_type_base(shape), 6);
    let params = walk.bind_params(TUE, shape);
    assert_eq!(params.len(), 5, "start, depth, valid, weight, branch");
    assert!(
        is_text(&params[4], MAIN_BRANCH),
        "an unbranched traversal on the forked trunk reads main"
    );

    let folded = TraversalBuilder::new("a").as_of_recorded(TUE);
    let sql = folded.walk_cte(shape);
    assert!(sql.contains("JOIN links_at_tx l ON l.source_id = w.node_id"));
    assert!(sql.contains("AND +transaction_log.branch_id = ?5"));
    assert!(sql.contains("recorded_at <= ?6"));
    assert!(
        !sql.contains("l.branch_id"),
        "the fold already narrowed: {sql}"
    );
    assert!(!sql.contains("lineage"), "{sql}");
    assert_eq!(folded.bind_params(TUE, shape).len(), 6);
    assert_eq!(folded.edge_type_base(shape), 7);
}

#[test]
fn every_value_stands_in_the_slot_that_names_it() {
    let b = TraversalBuilder::new("start")
        .max_depth(2)
        .min_weight(0.5f64.to_bits())
        .edge_types(vec!["CITES".into(), "KNOWS".into()])
        .as_of_valid(TUE)
        .as_of_recorded("2026-02-01T00:00:00.000000Z")
        .on_branch("exp")
        .limit(7);
    let params = b.bind_params("now", LineageShape::Resolved);
    assert_eq!(params.len(), 9);
    assert!(is_text(&params[0], "start"));
    assert!(matches!(params[1], SqlValue::Integer(2)));
    assert!(is_text(&params[2], TUE));
    assert!(matches!(params[3], SqlValue::Real(bits) if bits == 0.5f64.to_bits()));
    assert!(is_text(&params[4], "exp"));
    assert!(is_text(&params[5], "2026-02-01T00:00:00.000000Z"));
    assert!(is_text(&params[6], "CITES"));
    assert!(is_text(&params[7], "KNOWS"));
    assert!(matches!(params[8], SqlValue::Integer(7)));
    assert_eq!(b.limit_slot(LineageShape::Resolved), 9);
    let sql = b.build_sql_with(LineageShape::Resolved);
    assert!(sql.contains(" AND l.edge_type IN (?7, ?8)\n    LIMIT ?9\n)"), "{sql}");
    assert!(sql.contains("SELECT r.n, w.node_id"), "{sql}");
}

#[test]
fn the_plainest_walk_is_spelled_out() {
    assert_eq!(
        TraversalBuilder::new("a").build_sql(),
        "\nWITH RECURSIVE walk(node_id, depth) AS (\n    SELECT ?1, 0\n    UNION\n    \
         SELECT l.target_id, w.depth + 1\n    FROM walk w\n    \
         JOIN links_current l ON l.source_id = w.node_id\n    WHERE w.depth < ?2\n      \
         AND l.valid_from <= ?3 AND ?3 < l.valid_to\n      AND l.weight >= ?4\n      \n)\n\
         SELECT DISTINCT w.node_id\nFROM walk w JOIN concepts c ON c.id = w.node_id\n\
         WHERE c.retired = 0\nORDER BY w.node_id;\n            "
    );
}

#[test]
fn a_plan_comes_back_out_of_the_builder() {
    let plan = ReadPlan::new()
        .on(BranchId::new("exp").unwrap())
        .valid_at(TUE)
        .recorded_at("2026-02-01T00:00:00.000000Z")
        .limit(3);
    assert_eq!(plan.branch_name(), Some("exp"));
    let b = TraversalBuilder::new("a").plan(plan);
    let back = b.read_plan().unwrap();
    assert_eq!(back.branch_name(), Some("exp"));
    assert_eq!(back.valid.as_deref(), Some(TUE));
    assert_eq!(back.recorded.as_deref(), Some("2026-02-01T00:00:00.000000Z"));
    assert_eq!(back.limit, Some(3));

    let cleared = b.plan(ReadPlan::default());
    assert_eq!(cleared.branch, None);
    assert_eq!(cleared.limit, None);
    assert!(matches!(
        TraversalBuilder::new("a").on_branch(" bad").read_plan(),
        Err(DbError::InvalidBranchId(n)) if n == " bad"
    ));
}

#[test]
fn a_walk_level_with_its_ceiling_has_been_cut() {
    let row = |walk_rows: i64, id: Option<&str>| WalkRow { walk_rows, id: id.map(str::to_string) };
    let b = TraversalBuilder::new("a").limit(2);
    let (ids, outcome) = b.gather(vec![row(2, Some("x")), row(2, Some("y"))]);
    assert_eq!(ids, ["x", "y"]);
    assert_eq!(outcome, WalkOutcome::LimitReached);
    assert!(outcome.hit_limit());
    let (ids, outcome) = b.gather(vec![row(1, None)]);
    assert!(ids.is_empty());
    assert_eq!(outcome, WalkOutcome::Complete);
    let (ids, outcome) = TraversalBuilder::new("a").gather(vec![row(0, Some("x"))]);
    assert_eq!(ids, ["x"]);
    assert!(!outcome.hit_limit());
    assert_eq!(
        TraversalBuilder::new("a").limit(0).gather(vec![]).1,
        WalkOutcome::LimitReached
    );
}

#[test]
fn all_edges_at_an_instant_are_one_statement() {
    let (sql, row) = edges_at(LineageShape::Trunk, TUE, None, None, None);
    assert_eq!(
        sql,
        "SELECT l.source_id, l.target_id, l.edge_type, l.valid_from, l.valid_to, l.branch_id \
         FROM links_current l WHERE l.valid_from <= ?1 AND ?1 < l.valid_to"
    );
    assert_eq!(row.len(), 1);
    let (sql, row) = edges_at(LineageShape::TrunkOnForked, TUE, Some("r"), None, Some(5));
    assert!(sql.starts_with("WITH RECURSIVE links_at_tx("), "{sql}");
    assert!(sql.contains("recorded_at <= ?3"), "{sql}");
    assert!(sql.ends_with(" LIMIT 5"), "{sql}");
    assert!(is_text(&row[1], MAIN_BRANCH) && is_text(&row[2], "r"));
    let (sql, row) = edges_at(LineageShape::Resolved, TUE, None, Some("exp"), None);
    assert!(sql.contains("SELECT ?2, 0, NULL") && sql.contains("FROM visible l"), "{sql}");
    assert!(is_text(&row[1], "exp"));
}

#[test]
fn an_instant_the_log_has_lost_is_refused() {
    assert!(check_recorded_reach(None, false).is_ok());
    assert!(check_recorded_reach(Some(TUE), true).is_ok());
    assert!(matches!(
        check_recorded_reach(Some(TUE), false),
        Err(DbError::RecordedInstantUnreachable { ts }) if ts == TUE
    ));
}
