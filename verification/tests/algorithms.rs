//! The algorithms over a loaded graph.

use macrame::graph::binary64::{at_rank, less, rank_of};
use macrame::graph::chain::reconstruct;
use macrame::graph::relabel::renumber;
use macrame::graph::{
    astar, dijkstra, k_core, louvain, modularity, scc, Arithmetic, NodeData, Subgraph,
};
use macrame::table::Table;
use std::collections::BTreeMap;

const FROM: &str = "2026-01-01T00:00:00.000000Z";
const TO: &str = "9999-12-31T23:59:59.999999Z";

fn graph(nodes: &[&str], edges: &[(&str, &str, f64)]) -> Subgraph {
    let mut g = Subgraph::new();
    for id in nodes {
        g.insert_node(id, NodeData::new(id, FROM, TO));
    }
    for (s, t, w) in edges {
        g.add_edge(s, t, "T", w.to_bits(), FROM, TO);
    }
    g
}

fn plus(a: u64, b: u64) -> u64 {
    (f64::from_bits(a) + f64::from_bits(b)).to_bits()
}

fn minus(a: u64, b: u64) -> u64 {
    (f64::from_bits(a) - f64::from_bits(b)).to_bits()
}

fn times(a: u64, b: u64) -> u64 {
    (f64::from_bits(a) * f64::from_bits(b)).to_bits()
}

fn over(a: u64, b: u64) -> u64 {
    (f64::from_bits(a) / f64::from_bits(b)).to_bits()
}

type Op = fn(u64, u64) -> u64;

fn arithmetic() -> Arithmetic<Op, Op, Op, Op> {
    Arithmetic { plus, minus, times, over }
}

fn distances(g: &Subgraph, start: &str) -> Vec<(String, f64)> {
    dijkstra(g, start, &plus)
        .into_iter()
        .map(|(id, d)| (id, f64::from_bits(d)))
        .collect()
}

fn labelled(list: &[(&str, f64)]) -> Vec<(String, f64)> {
    list.iter().map(|(id, d)| (id.to_string(), *d)).collect()
}

#[test]
fn distances_are_least_and_leave_out_the_unreachable() {
    let g = graph(
        &["a", "b", "c", "d", "far"],
        &[("a", "b", 4.0), ("a", "c", 1.0), ("c", "b", 2.0), ("b", "d", 0.5), ("far", "a", 1.0)],
    );
    assert_eq!(
        distances(&g, "a"),
        labelled(&[("a", 0.0), ("b", 3.0), ("c", 1.0), ("d", 3.5)])
    );
    assert!(distances(&g, "nobody").is_empty());
    assert_eq!(distances(&g, "d"), labelled(&[("d", 0.0)]));
}

#[test]
fn a_guided_search_agrees_with_the_distances() {
    let g = graph(
        &["a", "b", "c", "d", "far"],
        &[
            ("a", "b", 4.0),
            ("a", "c", 1.0),
            ("c", "b", 2.0),
            ("b", "d", 0.5),
            ("c", "d", 9.0),
            ("far", "a", 1.0),
        ],
    );
    let none = |_: &str, _: &str| 0u64;
    let (cost, path) = astar(&g, "a", "d", &none, &plus).unwrap();
    assert_eq!(f64::from_bits(cost), 3.5);
    assert_eq!(path, ["a", "c", "b", "d"]);

    let left = |a: &str, _: &str| match a {
        "a" => 3.0f64.to_bits(),
        "b" => 0.5f64.to_bits(),
        "c" => 2.0f64.to_bits(),
        _ => 0u64,
    };
    let (guided, path) = astar(&g, "a", "d", &left, &plus).unwrap();
    assert_eq!(guided, cost);
    assert_eq!(path, ["a", "c", "b", "d"]);

    assert!(astar(&g, "a", "far", &none, &plus).is_none());
    assert!(astar(&g, "a", "nobody", &none, &plus).is_none());
    assert!(astar(&g, "nobody", "a", &none, &plus).is_none());
    let (cost, path) = astar(&g, "a", "a", &none, &plus).unwrap();
    assert_eq!((f64::from_bits(cost), path.len()), (0.0, 1));
}

#[test]
fn of_two_ways_as_short_the_one_of_the_lesser_id_is_taken() {
    let ways = [("a", "c", 1.0), ("c", "d", 1.0), ("a", "b", 1.0), ("b", "d", 1.0)];
    let none = |_: &str, _: &str| 0u64;
    let (cost, path) = astar(&graph(&["a", "b", "c", "d"], &ways), "a", "d", &none, &plus).unwrap();
    assert_eq!(f64::from_bits(cost), 2.0);
    assert_eq!(path, ["a", "b", "d"]);
}

#[test]
fn an_estimate_too_high_still_finds_a_path() {
    let g = graph(
        &["a", "b", "c"],
        &[("a", "b", 1.0), ("b", "c", 1.0), ("a", "c", 5.0)],
    );
    let wary = |a: &str, _: &str| if a == "b" { 100.0f64.to_bits() } else { 0u64 };
    let (cost, path) = astar(&g, "a", "c", &wary, &plus).unwrap();
    assert_eq!(f64::from_bits(cost), 5.0);
    assert_eq!(path, ["a", "c"]);
}

#[test]
fn a_way_back_is_cut_at_its_limit() {
    let chain: BTreeMap<usize, usize> = [(3, 2), (2, 1), (1, 0)].into_iter().collect();
    assert_eq!(reconstruct(&chain, 3, 9), [0, 1, 2, 3]);
    assert_eq!(reconstruct(&chain, 3, 2), [1, 2, 3]);
    let cycle: BTreeMap<usize, usize> = [(0, 1), (1, 0)].into_iter().collect();
    assert_eq!(reconstruct(&cycle, 0, 3).len(), 4);
}

#[test]
fn components_come_in_canonical_form() {
    let g = graph(
        &["d", "c", "b", "a", "e"],
        &[("c", "d", 1.0), ("d", "c", 1.0), ("a", "b", 1.0), ("b", "a", 1.0), ("b", "c", 1.0)],
    );
    assert_eq!(scc(&g), vec![vec!["a", "b"], vec!["c", "d"], vec!["e"]]);
    assert!(scc(&Subgraph::new()).is_empty());
}

#[test]
fn a_core_counts_parallel_edges_and_loops() {
    let g = graph(
        &["a", "b", "c", "loop"],
        &[("a", "b", 1.0), ("a", "b", 1.0), ("b", "a", 1.0), ("b", "c", 1.0), ("loop", "loop", 1.0)],
    );
    assert_eq!(k_core(&g, 0).len(), 4);
    assert_eq!(k_core(&g, 2), ["a", "b", "loop"]);
    assert_eq!(k_core(&g, 3), ["a", "b"]);
    assert!(k_core(&g, 4).is_empty());
}

fn two_cliques() -> Subgraph {
    graph(
        &["a1", "a2", "a3", "b1", "b2", "b3"],
        &[
            ("a1", "a2", 1.0),
            ("a2", "a3", 1.0),
            ("a3", "a1", 1.0),
            ("b1", "b2", 1.0),
            ("b2", "b3", 1.0),
            ("b3", "b1", 1.0),
            ("a1", "b1", 1.0),
        ],
    )
}

fn table(labels: &[(String, usize)]) -> Table<usize> {
    let mut t = Table::new();
    for (id, c) in labels {
        t.insert(id.clone(), *c);
    }
    t
}

#[test]
fn cliques_are_told_apart() {
    let g = two_cliques();
    let labels = louvain(&g, &arithmetic());
    assert_eq!(
        labels.iter().map(|(id, c)| (id.as_str(), *c)).collect::<Vec<_>>(),
        [("a1", 0), ("a2", 0), ("a3", 0), ("b1", 1), ("b2", 1), ("b3", 1)]
    );
    let found = f64::from_bits(modularity(&g, &table(&labels), &arithmetic()));
    assert!((found - (6.0 / 7.0 - 0.5)).abs() < 1e-12, "{found}");
    let apart: Vec<(String, usize)> = labels
        .iter()
        .enumerate()
        .map(|(i, (id, _))| (id.clone(), i))
        .collect();
    let alone = f64::from_bits(modularity(&g, &table(&apart), &arithmetic()));
    assert!(alone < 0.0 && alone < found, "{alone}");
}

#[test]
fn sums_that_do_not_round_are_met_exactly() {
    let g = graph(&["a", "b", "c", "d"], &[("a", "b", 1.0), ("d", "c", 1.0)]);
    let labels = louvain(&g, &arithmetic());
    assert_eq!(labels.iter().map(|l| l.1).collect::<Vec<_>>(), [0, 0, 1, 1]);
    assert_eq!(f64::from_bits(modularity(&g, &table(&labels), &arithmetic())), 0.5);
    let apart = table(&[("a".into(), 3), ("b".into(), 9), ("c".into(), 0), ("d".into(), 4)]);
    assert_eq!(f64::from_bits(modularity(&g, &apart, &arithmetic())), -0.25);
}

#[test]
fn a_blind_search_walks_the_distances_and_no_node_twice() {
    let nodes = ["a", "b", "c", "d", "e"];
    let g = graph(
        &nodes,
        &[
            ("a", "b", 1.0),
            ("b", "a", 0.0),
            ("b", "c", 2.5),
            ("a", "c", 4.0),
            ("c", "c", 0.0),
            ("c", "d", 0.25),
            ("e", "a", 1.0),
        ],
    );
    let none = |_: &str, _: &str| 0u64;
    for s in nodes {
        let reached: BTreeMap<String, f64> = distances(&g, s).into_iter().collect();
        for t in nodes {
            let found = astar(&g, s, t, &none, &plus);
            assert_eq!(found.is_some(), reached.contains_key(t), "{s} to {t}");
            if let Some((cost, path)) = found {
                assert_eq!(f64::from_bits(cost), reached[t], "{s} to {t}");
                let mut seen = path.clone();
                seen.sort();
                seen.dedup();
                assert_eq!(seen.len(), path.len(), "{path:?}");
            }
        }
    }
}

#[test]
fn nothing_weighs_nothing() {
    let g = graph(&["a", "b"], &[]);
    let labels = louvain(&g, &arithmetic());
    assert_eq!(labels.iter().map(|l| l.1).collect::<Vec<_>>(), [0, 1]);
    assert_eq!(modularity(&g, &table(&labels), &arithmetic()), 0);
    let weightless = graph(&["a", "b"], &[("a", "b", 0.0)]);
    assert_eq!(louvain(&weightless, &arithmetic())[1].1, 1);
}

#[test]
fn a_partition_may_leave_nodes_out() {
    let g = graph(&["a", "b"], &[("a", "b", 1.0)]);
    let both = table(&[("a".into(), 7), ("b".into(), 7), ("ghost".into(), 1)]);
    assert_eq!(f64::from_bits(modularity(&g, &both, &arithmetic())), 0.0);
    let one = table(&[("a".into(), 7)]);
    assert_eq!(f64::from_bits(modularity(&g, &one, &arithmetic())), -0.25);
}

#[test]
fn labels_count_up_in_order_of_appearance() {
    assert_eq!(renumber(&[9, 4, 9, 0, 4, 7]), [0, 1, 0, 2, 1, 3]);
    assert!(renumber(&[]).is_empty());
}

#[test]
fn patterns_compare_as_their_values_do() {
    let values = [
        f64::NEG_INFINITY,
        -2.5,
        -1e-300,
        -0.0,
        0.0,
        1e-300,
        1.0,
        1.5,
        f64::INFINITY,
        f64::NAN,
    ];
    for a in values {
        for b in values {
            assert_eq!(less(a.to_bits(), b.to_bits()), a < b, "{a} < {b}");
            assert_eq!(
                rank_of(a.to_bits()) < rank_of(b.to_bits()),
                a.total_cmp(&b).is_lt(),
                "{a} before {b}"
            );
        }
        assert_eq!(at_rank(rank_of(a.to_bits())), a.to_bits());
    }
}

/// Past the root of what binary64 holds, the share that chance would have is lost
/// and the smallest edge joins what it had better not.
#[test]
fn a_square_out_of_range_hides_what_chance_would_have() {
    let heavy = 6e153;
    let g = graph(&["a", "b"], &[("a", "a", heavy), ("b", "b", heavy), ("a", "b", heavy * 1e-6)]);
    let labels = louvain(&g, &arithmetic());
    assert_eq!(labels.iter().map(|l| l.1).collect::<Vec<_>>(), [0, 0]);
    let found = f64::from_bits(modularity(&g, &table(&labels), &arithmetic()));
    let apart = table(&[("a".into(), 0), ("b".into(), 1)]);
    let alone = f64::from_bits(modularity(&g, &apart, &arithmetic()));
    assert_eq!(found, 0.0);
    assert!(alone > 0.49, "{alone}");
}
