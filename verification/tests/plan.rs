//! The lowering that every reader shares.

use macrame::graph::lineage::{Ancestor, LineageShape};
use macrame::graph::plan::{lower, Lowered, Resolution};
use macrame::graph::resolved::{diff_sql, overlap_candidates_resolved, retire_from_resolved};
use macrame::graph::TraversalBuilder;

const TUE: &str = "2026-01-06T00:00:00.000000Z";

fn names(l: &Lowered) -> Vec<String> {
    l.ctes
        .iter()
        .map(|cte| cte.split('(').next().unwrap().to_string())
        .collect()
}

fn asks(
    shape: LineageShape,
    branch_slot: usize,
    recorded_slot: Option<usize>,
    tag: &'static str,
) -> Resolution<'static> {
    Resolution {
        shape,
        branch_slot,
        recorded_slot,
        tag,
        key: None,
        ancestry: &[],
        ancestry_slot: 0,
    }
}

#[test]
fn a_trunk_read_lowers_to_nothing() {
    let l = lower(&asks(LineageShape::Trunk, 5, None, ""));
    assert!(l.ctes.is_empty());
    assert_eq!(l.source, "links_current");
    assert_eq!(l.prelude(), "");
    assert_eq!(l.with_list(), "");
}

#[test]
fn a_trunk_read_at_a_recorded_instant_is_the_fold_alone() {
    let l = lower(&asks(LineageShape::Trunk, 5, Some(5), ""));
    assert_eq!(names(&l), ["links_at_tx"]);
    assert_eq!(l.source, "links_at_tx");
    assert!(l.ctes[0].contains("recorded_at <= ?5"));
    assert!(!l.ctes[0].contains("lineage"), "no ancestry to bound by");
}

#[test]
fn a_resolved_read_lowers_to_the_hybrid_in_order() {
    let l = lower(&asks(LineageShape::Resolved, 5, None, ""));
    assert_eq!(names(&l), ["lineage", "churned", "links_cut", "visible"]);
    assert_eq!(l.source, "visible");
    assert!(l.ctes[0].contains("SELECT ?5, 0, NULL"));
    assert!(l.ctes[3].contains("FROM links_cut l"));
}

#[test]
fn a_resolved_read_at_a_recorded_instant_folds_with_the_cutoff_inside() {
    let l = lower(&asks(LineageShape::Resolved, 5, Some(6), ""));
    assert_eq!(names(&l), ["lineage", "links_at_tx", "visible"]);
    assert_eq!(l.source, "visible");
    let fold = &l.ctes[1];
    assert!(fold.contains("recorded_at <= ?6"));
    assert!(fold.contains("JOIN lineage g ON g.branch_id = transaction_log.branch_id"));
    assert!(fold.contains("g.cutoff IS NULL OR transaction_log.recorded_at <= g.cutoff"));
    assert!(l.ctes[2].contains("FROM links_at_tx l"));
}

#[test]
fn a_tag_reaches_every_name() {
    let l = lower(&asks(LineageShape::Resolved, 1, None, "_a"));
    assert_eq!(
        names(&l),
        ["lineage_a", "churned_a", "links_cut_a", "visible_a"]
    );
    assert_eq!(l.source, "visible_a");
    assert!(l.ctes[3].contains("FROM links_cut_a l"));
    assert!(l.ctes[3].contains("JOIN lineage_a g"));
    assert!(
        !l.with_list().contains("lineage g"),
        "an untagged name leaked: {}",
        l.with_list()
    );

    let folded = lower(&asks(LineageShape::Resolved, 1, Some(3), "_b"));
    assert_eq!(names(&folded), ["lineage_b", "links_at_tx_b", "visible_b"]);
    assert!(folded.ctes[1].contains("JOIN lineage_b g"));
    assert!(folded.ctes[2].contains("FROM links_at_tx_b l"));
}

#[test]
fn the_three_readers_share_one_prelude() {
    let walk = TraversalBuilder::new("a").walk_cte(LineageShape::Resolved);
    let ours = lower(&TraversalBuilder::new("a").resolution(LineageShape::Resolved));
    assert!(
        walk.contains(&ours.prelude()),
        "the walk assembles its own prelude"
    );

    let folded = TraversalBuilder::new("a").as_of_recorded(TUE);
    let walk = folded.walk_cte(LineageShape::Resolved);
    assert!(walk.contains(&lower(&folded.resolution(LineageShape::Resolved)).prelude()));
    let walk = folded.walk_cte(LineageShape::Trunk);
    assert!(walk.contains(&lower(&folded.resolution(LineageShape::Trunk)).prelude()));

    let diff = diff_sql(&[], &[]);
    for (slot, tag) in [(1, "_a"), (2, "_b")] {
        let side = lower(&asks(LineageShape::Resolved, slot, None, tag));
        assert!(
            diff.contains(&side.with_list()),
            "diff spells lineage {tag} itself"
        );
    }
    let a = lower(&asks(LineageShape::Resolved, 1, None, "_a"));
    let b = lower(&asks(LineageShape::Resolved, 2, None, "_b"));
    let retagged = ["lineage", "churned", "links_cut", "visible"]
        .iter()
        .fold(a.with_list(), |s, name| {
            s.replace(&format!("{name}_a"), &format!("{name}_b"))
        })
        .replace("SELECT ?1, 0, NULL", "SELECT ?2, 0, NULL");
    assert_eq!(retagged, b.with_list());
}

fn exp() -> Vec<Ancestor> {
    vec![Ancestor::new("exp", 0), Ancestor::new("main", 1).cutoff(TUE)]
}

#[test]
fn a_write_narrows_every_relation_to_its_edge() {
    let key = "source_id = ?1 AND lc.target_id = ?2 AND lc.edge_type = ?3";
    let sql = overlap_candidates_resolved(LineageShape::Resolved, &exp());
    assert!(
        sql.starts_with(
            "WITH RECURSIVE lineage(branch_id, dist, cutoff) AS (VALUES (?6, ?7, ?8), (?9, ?10, ?11)),\n"
        ),
        "{sql}"
    );
    assert_eq!(sql.matches(key).count(), 2, "{sql}");
    assert!(sql.contains(&format!("lc.{key} AND (g.cutoff IS NULL OR")), "{sql}");
    assert!(
        sql.ends_with("SELECT l.valid_from, l.valid_to FROM visible l WHERE l.valid_from <> ?4"),
        "{sql}"
    );
    let forked = overlap_candidates_resolved(LineageShape::TrunkOnForked, &[]);
    assert!(
        forked.ends_with(
            "WHERE l.valid_from <> ?4 AND +l.branch_id = ?5 AND l.source_id = ?1 \
             AND l.target_id = ?2 AND l.edge_type = ?3"
        ),
        "{forked}"
    );
    let retire = retire_from_resolved(LineageShape::Resolved, &exp());
    assert!(retire.contains("(VALUES (?8, ?9, ?10), (?11, ?12, ?13))"), "{retire}");
    assert!(
        retire.contains("SELECT ?1, ?2, ?3, ?4, ?6, l.weight, l.properties, ?7, ?5 FROM visible l"),
        "{retire}"
    );
}

#[test]
fn a_difference_binds_two_ancestries() {
    let sql = diff_sql(&exp(), &exp()[1..]);
    assert!(sql.contains("lineage_a(branch_id, dist, cutoff) AS (VALUES (?3, ?4, ?5), (?6, ?7, ?8))"), "{sql}");
    assert!(sql.contains("lineage_b(branch_id, dist, cutoff) AS (VALUES (?9, ?10, ?11))"), "{sql}");
    assert!(sql.contains("FROM visible_a a LEFT JOIN visible_b b ON"), "{sql}");
}
