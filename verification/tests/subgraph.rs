//! The in-memory graph.

use macrame::graph::load::{
    edges_query, hydrate_query, whole_neighbourhood, EdgeRow, Loader, NodeRow, NEG_INFINITY,
};
use macrame::graph::lineage::LineageShape;
use macrame::graph::{NodeData, Subgraph};
use macrame::sql::SqlValue;
use macrame::table::Table;
use macrame::DbError;

const FROM: &str = "2026-01-01T00:00:00.000000Z";
const TO: &str = "9999-12-31T23:59:59.999999Z";

fn plus(a: u64, b: u64) -> u64 {
    (f64::from_bits(a) + f64::from_bits(b)).to_bits()
}

fn weighted(g: &Subgraph, node: &str) -> f64 {
    f64::from_bits(g.weighted_degree(node, 0, &plus))
}

#[test]
fn adding_an_edge_indexes_it_in_both_directions() {
    let mut g = Subgraph::default();
    g.add_edge(
        "A",
        "B",
        "KNOWS",
        0.5f64.to_bits(),
        "2026-01-01T00:00:00.000000Z",
        "9999-12-31T23:59:59.999999Z",
    );

    assert_eq!(g.out_edges("A").len(), 1);
    assert_eq!(g.out_edges("A")[0].node(&g), "B");
    assert_eq!(g.in_edges("B").len(), 1);
    assert_eq!(g.in_edges("B")[0].node(&g), "A", "in_adj holds the source");

    assert_eq!(g.degree("A") + g.degree("B"), 2);
    assert_eq!(weighted(&g, "A") + weighted(&g, "B"), 1.0);
    assert_eq!(f64::from_bits(g.total_weight(0, &plus)), 0.5);
}

#[test]
fn a_missing_node_has_no_edges_rather_than_panicking() {
    let g = Subgraph::default();
    assert!(g.out_edges("nobody").is_empty());
    assert!(g.in_edges("nobody").is_empty());
    assert_eq!(g.degree("nobody"), 0);
    assert_eq!(weighted(&g, "nobody"), 0.0);
}

fn node(title: &str) -> NodeData {
    NodeData::new(title, FROM, TO)
}

#[test]
fn an_edge_is_read_back_as_it_was_written() {
    let mut g = Subgraph::new();
    g.add_edge("a", "b", "CITES", 2.5f64.to_bits(), FROM, TO);
    g.add_edge("a", "a", "SELF", 1f64.to_bits(), FROM, TO);
    let e = &g.out_edges("a")[0];
    assert_eq!(e.edge_type(&g), "CITES");
    assert_eq!(e.weight(), 2.5f64.to_bits());
    assert_eq!(e.valid_from(&g), FROM);
    assert_eq!(e.valid_to(&g), TO);
    assert_eq!(g.edge_count(), 2);
    assert_eq!(g.degree("a"), 3, "a loop counts at both ends");
    assert_eq!(g.out_adjacency().len(), 1);
    assert_eq!(g.in_adjacency().len(), 2);
}

#[test]
fn nodes_are_held_ascending_and_replaced_by_id() {
    let mut g = Subgraph::new();
    assert!(g.insert_node("b", node("first")).is_none());
    assert!(g.insert_node("a", node("other").with_content("words")).is_none());
    let held = g.insert_node("b", node("second").with_embedding_model(Some("m".into())));
    assert_eq!(held.unwrap().title(), "first");
    assert_eq!(g.node_ids(), ["a", "b"]);
    assert_eq!(g.node_count(), 2);
    assert_eq!(g.node("a").unwrap().content(), Some("words"));
    assert_eq!(g.node("b").unwrap().embedding_model(), Some("m"));
    assert!(g.node("c").is_none());
    assert_eq!(g.nodes()[1].1.title(), "second");
}

#[test]
fn closing_a_graph_drops_only_what_dangles() {
    let mut g = Subgraph::new();
    for id in ["a", "b"] {
        g.insert_node(id, node(id));
    }
    g.add_edge("a", "b", "T", 1, FROM, TO);
    g.add_edge("a", "gone", "T", 2, FROM, TO);
    g.add_edge("gone", "b", "T", 3, FROM, TO);
    assert!(!g.is_closed());
    g.drop_dangling_adjacency();
    assert!(g.is_closed());
    assert_eq!(g.edge_count(), 1);
    assert_eq!(g.out_edges("a")[0].weight(), 1);
    assert_eq!(g.in_edges("b").len(), 1);
    g.drop_dangling_adjacency();
    assert_eq!(g.edge_count(), 1, "closing a closed graph changes nothing");
}

#[test]
fn a_string_is_charged_for_once() {
    let mut g = Subgraph::new();
    let first = g.add_edge("a", "b", "T", 1, FROM, TO);
    let again = g.add_edge("b", "a", "T", 1, FROM, TO);
    assert!(again < first);
    assert_eq!(g.estimated_bytes(), first + again);
    let entry = again / 2;
    let texts = ["a", "b", "T", FROM, TO];
    let each = std::mem::size_of::<String>() + std::mem::size_of::<u32>();
    let pooled: usize = texts.iter().map(|t| 2 * t.len() + each).sum();
    assert_eq!(first, 2 * entry + pooled);
}

fn edge_row(s: &str, t: &str, weight: f64) -> EdgeRow {
    EdgeRow {
        source: s.into(),
        target: t.into(),
        edge_type: "T".into(),
        weight: weight.to_bits(),
        valid_from: FROM.into(),
        valid_to: TO.into(),
    }
}

#[test]
fn loading_counts_what_the_graph_costs() {
    let mut l = Loader::new(1 << 20);
    l.take_edge(&edge_row("a", "b", 1.0)).unwrap();
    assert_eq!(l.frontier("z"), ["a", "b", "z"]);
    l.take_node("a", node("A")).unwrap();
    l.take_node("z", node("Z")).unwrap();
    assert_eq!(l.bytes, l.graph.estimated_bytes());
    let g = l.finish();
    assert!(g.is_closed());
    assert_eq!(g.node_ids(), ["a", "z"]);
    assert!(g.contains_node("z") && !g.contains_node("b"));
    assert_eq!(g.edge_count(), 0, "b is no node");
}

fn node_row(id: &str, content: &str) -> NodeRow {
    NodeRow {
        id: id.into(),
        title: "T".into(),
        content: Some(content.into()),
        embedding_model: None,
        valid_from: FROM.into(),
        valid_to: TO.into(),
    }
}

#[test]
fn content_is_loaded_only_where_it_was_asked_for() {
    let mut with = Loader::new(1 << 20);
    let mut without = Loader::new(1 << 20);
    assert!(with.has_room(&edge_row("a", "b", 1.0)));
    with.take_row(node_row("a", "seven b"), true).unwrap();
    without.take_row(node_row("a", "seven b"), false).unwrap();
    assert_eq!(with.bytes, without.bytes + 7);
    assert_eq!(with.finish().node("a").unwrap().content(), Some("seven b"));
    assert_eq!(without.finish().node("a").unwrap().content(), None);
}

#[test]
fn a_load_over_budget_is_refused() {
    let mut l = Loader::new(1);
    match l.take_edge(&edge_row("a", "b", 1.0)) {
        Err(DbError::SubgraphTooLarge { n, budget }) => {
            assert_eq!(budget, 1);
            assert!(n > 1);
        }
        other => panic!("{other:?}"),
    }
    let mut l = Loader::new(1);
    assert!(matches!(
        l.take_node("a", node("A")),
        Err(DbError::SubgraphTooLarge { budget: 1, .. })
    ));
    let mut l = Loader::new(1 << 20);
    assert!(matches!(
        l.take_edge(&edge_row("a", "b", -1.0)),
        Err(DbError::NegativeEdgeWeight { .. })
    ));
}

#[test]
fn a_neighbourhood_admits_every_weight() {
    assert_eq!(f64::from_bits(NEG_INFINITY), f64::NEG_INFINITY);
    let t = whole_neighbourhood("start", 2);
    let (sql, row) = edges_query(&t, "now", LineageShape::Trunk);
    assert!(sql.contains("WITH RECURSIVE walk("), "{sql}");
    assert!(matches!(row[1], SqlValue::Integer(2)));
    assert!(matches!(row[3], SqlValue::Real(NEG_INFINITY)));
    let (sql, row) = hydrate_query(&["a".to_string(), "b".to_string()]);
    assert!(sql.contains("IN (?1, ?2)"), "{sql}");
    assert_eq!(row.len(), 2);
}

#[test]
fn annotations_keep_to_the_nodes_that_are_there() {
    let mut g = Subgraph::new();
    g.insert_node("a", node("A"));
    let mut values: Table<String> = Table::new();
    values.insert("b".into(), "2".into());
    values.insert("a".into(), "1".into());
    let rows = g.annotations("community", &values);
    assert_eq!(
        rows.iter()
            .map(|r| (r.concept_id.as_str(), r.label.as_str(), r.value.as_str()))
            .collect::<Vec<_>>(),
        [("a", "community", "1")]
    );
}

#[test]
fn what_does_not_fit_the_counter_is_told_beforehand() {
    let mut l = Loader::new(1 << 20);
    let row = node_row("a", "seven b");
    assert!(l.has_room_for(&row, true) && l.has_room_for(&row, false));
    l.take_row(node_row("a", "seven b"), true).unwrap();
    let cost = l.bytes;
    l.bytes = usize::MAX - cost;
    assert!(l.has_room_for(&row, true));
    l.bytes = usize::MAX - cost + 7;
    assert!(!l.has_room_for(&row, true) && l.has_room_for(&row, false));
    l.bytes = usize::MAX - 48;
    assert!(!l.has_room(&edge_row("x", "y", 1.0)));
}

#[test]
fn room_is_asked_only_for_what_is_new() {
    let mut g = Subgraph::new();
    assert!(g.has_room("a", "b", "T", FROM, TO));
    let first = g.add_edge("a", "b", "T", 1.0f64.to_bits(), FROM, TO);
    let again = g.add_edge("a", "b", "T", 1.0f64.to_bits(), FROM, TO);
    assert!(again < first);
    assert_eq!(g.estimated_bytes(), first + again);
    let copy = g.clone();
    assert_eq!(copy.estimated_bytes(), g.estimated_bytes());
    assert_eq!(copy.out_edges("a").len(), 2);
}
