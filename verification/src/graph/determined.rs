//! That each algorithm has one answer.

use vstd::prelude::*;

use super::algorithms;
use super::communities::{Net, Ops};
use super::modularity;
use super::plan;
use super::subgraph::GraphView;
use crate::text;

verus! {

/// Whether texts stand in strictly ascending order.
pub open spec fn texts_ascend(s: Seq<Seq<char>>) -> bool {
    forall|i: int, j: int| 0 <= i < j < s.len() ==> text::text_lt(#[trigger] s[i], #[trigger] s[j])
}

/// Texts in ascending order are given by which they are.
pub proof fn lemma_ascending_is_one(a: Seq<Seq<char>>, b: Seq<Seq<char>>)
    requires
        texts_ascend(a),
        texts_ascend(b),
        forall|x: Seq<char>| a.contains(x) <==> b.contains(x),
    ensures
        a == b,
    decreases a.len(),
{
    if a.len() == 0 {
        if b.len() > 0 {
            assert(b.contains(b[0]));
        }
        assert(a =~= b);
    } else {
        assert(a.contains(a.last()));
        assert(b.contains(a.last()));
        assert(b.contains(b.last()));
        assert(a.contains(b.last()));
        let i = choose|i: int| 0 <= i < a.len() && a[i] == b.last();
        let j = choose|j: int| 0 <= j < b.len() && b[j] == a.last();
        text::lemma_text_lt_asymmetric(a.last(), b.last());
        assert(a.last() == b.last());
        let (p, q) = (a.drop_last(), b.drop_last());
        assert forall|x: Seq<char>| p.contains(x) <==> q.contains(x) by {
            text::lemma_text_lt_asymmetric(a.last(), a.last());
            if p.contains(x) {
                let k = choose|k: int| 0 <= k < p.len() && p[k] == x;
                assert(text::text_lt(a[k], a.last()));
                assert(a.contains(x));
                let m = choose|m: int| 0 <= m < b.len() && b[m] == x;
                assert(q[m] == x);
            }
            if q.contains(x) {
                let k = choose|k: int| 0 <= k < q.len() && q[k] == x;
                assert(text::text_lt(b[k], b.last()));
                assert(b.contains(x));
                let m = choose|m: int| 0 <= m < a.len() && a[m] == x;
                assert(p[m] == x);
            }
        }
        lemma_ascending_is_one(p, q);
        assert(a =~= p.push(a.last()));
        assert(b =~= q.push(b.last()));
    }
}

/// The ids that have a label.
pub open spec fn labelled(labels: Seq<(String, u64)>) -> Seq<Seq<char>> {
    labels.map_values(|l: (String, u64)| l.0@)
}

/// What is labelled stands in ascending order, and is nothing where the start is
/// no node.
pub proof fn lemma_ids_ascend<F: Fn(u64, u64) -> u64>(
    g: GraphView,
    extend: F,
    start: Seq<char>,
    labels: Seq<(String, u64)>,
)
    requires
        algorithms::are_distances(g, extend, start, labels),
    ensures
        texts_ascend(labelled(labels)),
        !g.nodes.dom().contains(start) ==> labels.len() == 0,
{
    reveal(algorithms::are_distances);
}

/// What is labelled is some walk's total.
pub proof fn lemma_label_is_walked<F: Fn(u64, u64) -> u64>(
    g: GraphView,
    extend: F,
    start: Seq<char>,
    labels: Seq<(String, u64)>,
    i: int,
)
    requires
        algorithms::are_distances(g, extend, start, labels),
        0 <= i < labels.len(),
    ensures
        g.some_walk_costs(extend, start, labels[i].0@, labels[i].1),
{
    reveal(algorithms::are_distances);
    assert(algorithms::is_labelled(labels, labels[i].0@, labels[i].1));
}

/// No walk comes to less than what is labelled.
pub proof fn lemma_walk_is_labelled<F: Fn(u64, u64) -> u64>(
    g: GraphView,
    extend: F,
    start: Seq<char>,
    labels: Seq<(String, u64)>,
    id: Seq<char>,
    d: u64,
) -> (i: int)
    requires
        g.nodes.dom().contains(start),
        algorithms::are_distances(g, extend, start, labels),
        g.some_walk_costs(extend, start, id, d),
    ensures
        0 <= i < labels.len(),
        labels[i].0@ == id,
        labels[i].1 <= d,
{
    reveal(algorithms::are_distances);
    let least = choose|least: u64| least <= d && #[trigger] algorithms::is_labelled(labels, id, least);
    choose|i: int| 0 <= i < labels.len() && (#[trigger] labels[i]).0@ == id && labels[i].1 == least
}

proof fn lemma_listed_in_both<F: Fn(u64, u64) -> u64>(
    g: GraphView,
    extend: F,
    start: Seq<char>,
    first: Seq<(String, u64)>,
    second: Seq<(String, u64)>,
)
    requires
        g.nodes.dom().contains(start),
        algorithms::are_distances(g, extend, start, first),
        algorithms::are_distances(g, extend, start, second),
    ensures
        forall|x: Seq<char>| #[trigger] labelled(first).contains(x) ==> labelled(second).contains(x),
{
    let (a, b) = (labelled(first), labelled(second));
    assert forall|x: Seq<char>| #[trigger] a.contains(x) implies b.contains(x) by {
        let i = choose|i: int| 0 <= i < a.len() && a[i] == x;
        lemma_label_is_walked(g, extend, start, first, i);
        let j = lemma_walk_is_labelled(g, extend, start, second, x, first[i].1);
        assert(b[j] == x);
    }
}

/// A graph, a function that adds and a start have one list of distances.
pub proof fn law_distances_are_determined<F: Fn(u64, u64) -> u64>(
    g: GraphView,
    extend: F,
    start: Seq<char>,
    first: Seq<(String, u64)>,
    second: Seq<(String, u64)>,
)
    requires
        algorithms::are_distances(g, extend, start, first),
        algorithms::are_distances(g, extend, start, second),
    ensures
        first.len() == second.len(),
        forall|i: int|
            0 <= i < first.len() ==> (#[trigger] first[i]).0@ == second[i].0@ && first[i].1 == second[i].1,
{
    lemma_ids_ascend(g, extend, start, first);
    lemma_ids_ascend(g, extend, start, second);
    if g.nodes.dom().contains(start) {
        let (a, b) = (labelled(first), labelled(second));
        lemma_listed_in_both(g, extend, start, first, second);
        lemma_listed_in_both(g, extend, start, second, first);
        lemma_ascending_is_one(a, b);
        assert forall|i: int| 0 <= i < first.len() implies (#[trigger] first[i]).0@ == second[i].0@ && first[i].1
            == second[i].1 by {
            assert(a[i] == b[i]);
            let id = first[i].0@;
            lemma_label_is_walked(g, extend, start, first, i);
            lemma_label_is_walked(g, extend, start, second, i);
            let j = lemma_walk_is_labelled(g, extend, start, first, id, second[i].1);
            let k = lemma_walk_is_labelled(g, extend, start, second, id, first[i].1);
            text::lemma_text_lt_asymmetric(id, id);
            assert(a[j] == id && b[k] == id);
            assert(j == i && k == i);
        }
    }
}

/// A graph and a degree have one core.
pub proof fn law_the_core_is_determined(g: GraphView, k: int, first: Seq<String>, second: Seq<String>)
    requires
        algorithms::is_core(g, k, first),
        algorithms::is_core(g, k, second),
    ensures
        plan::texts(first) == plan::texts(second),
{
    let (a, b) = (plan::texts(first), plan::texts(second));
    assert forall|x: Seq<char>| a.contains(x) <==> b.contains(x) by {
        let (s, t) = (algorithms::id_set(first), algorithms::id_set(second));
        if a.contains(x) {
            let i = choose|i: int| 0 <= i < a.len() && a[i] == x;
            assert(first[i]@ == x);
            assert(s.contains(x));
            assert(t.contains(x));
            let j = choose|j: int| 0 <= j < second.len() && (#[trigger] second[j])@ == x;
            assert(b[j] == x);
        }
        if b.contains(x) {
            let i = choose|i: int| 0 <= i < b.len() && b[i] == x;
            assert(second[i]@ == x);
            assert(t.contains(x));
            assert(s.contains(x));
            let j = choose|j: int| 0 <= j < first.len() && (#[trigger] first[j])@ == x;
            assert(a[j] == x);
        }
    }
    lemma_ascending_is_one(a, b);
}

/// The members of component `c`.
spec fn members(comps: Seq<Vec<String>>, c: int) -> Seq<Seq<char>> {
    plan::texts(comps[c]@)
}

/// The first member of each component.
spec fn heads(comps: Seq<Vec<String>>) -> Seq<Seq<char>> {
    Seq::new(comps.len(), |c: int| comps[c]@[0]@)
}

proof fn lemma_member(comps: Seq<Vec<String>>, c: int, x: Seq<char>)
    requires
        0 <= c < comps.len(),
    ensures
        members(comps, c).contains(x) <==> algorithms::in_component(comps, c, x),
{
    if members(comps, c).contains(x) {
        let i = choose|i: int| 0 <= i < members(comps, c).len() && members(comps, c)[i] == x;
        assert(comps[c]@[i]@ == x);
    }
    if algorithms::in_component(comps, c, x) {
        let i = choose|i: int| 0 <= i < comps[c]@.len() && (#[trigger] comps[c]@[i])@ == x;
        assert(members(comps, c)[i] == x);
    }
}

/// Two components that share a member are the same.
proof fn lemma_same_component(g: GraphView, first: Seq<Vec<String>>, c: int, second: Seq<Vec<String>>, d: int, x: Seq<char>)
    requires
        algorithms::are_components(g, first),
        algorithms::are_components(g, second),
        0 <= c < first.len(),
        0 <= d < second.len(),
        algorithms::in_component(first, c, x),
        algorithms::in_component(second, d, x),
    ensures
        members(first, c) == members(second, d),
{
    let (a, b) = (members(first, c), members(second, d));
    assert forall|y: Seq<char>| a.contains(y) <==> b.contains(y) by {
        lemma_member(first, c, y);
        lemma_member(second, d, y);
        if a.contains(y) {
            assert(g.mutual(x, y));
            assert(algorithms::is_grouped(first, y));
            assert(algorithms::is_grouped(second, y));
            let e = choose|e: int| 0 <= e < second.len() && #[trigger] algorithms::in_component(second, e, y);
            assert(e == d);
        }
        if b.contains(y) {
            assert(g.mutual(x, y));
            assert(algorithms::is_grouped(second, y));
            assert(algorithms::is_grouped(first, y));
            let e = choose|e: int| 0 <= e < first.len() && #[trigger] algorithms::in_component(first, e, y);
            assert(e == c);
        }
    }
    assert(texts_ascend(a));
    assert(texts_ascend(b));
    lemma_ascending_is_one(a, b);
}

/// What heads a component of one list heads one of the other.
proof fn lemma_heads(g: GraphView, first: Seq<Vec<String>>, second: Seq<Vec<String>>, x: Seq<char>)
    requires
        algorithms::are_components(g, first),
        algorithms::are_components(g, second),
        heads(first).contains(x),
    ensures
        heads(second).contains(x),
{
    let c = choose|c: int| 0 <= c < heads(first).len() && heads(first)[c] == x;
    assert(first[c]@[0]@ == x);
    assert(algorithms::in_component(first, c, x));
    assert(algorithms::is_grouped(first, x));
    assert(algorithms::is_grouped(second, x));
    let d = choose|d: int| 0 <= d < second.len() && #[trigger] algorithms::in_component(second, d, x);
    lemma_same_component(g, first, c, second, d, x);
    assert(members(first, c)[0] == members(second, d)[0]);
    assert(heads(second)[d] == x);
}

/// A graph has one list of strongly connected components, order and all.
pub proof fn law_components_are_determined(g: GraphView, first: Seq<Vec<String>>, second: Seq<Vec<String>>)
    requires
        algorithms::are_components(g, first),
        algorithms::are_components(g, second),
    ensures
        first.len() == second.len(),
        forall|c: int| 0 <= c < first.len() ==> plan::texts((#[trigger] first[c])@) == plan::texts(second[c]@),
{
    let (a, b) = (heads(first), heads(second));
    assert forall|x: Seq<char>| a.contains(x) <==> b.contains(x) by {
        if a.contains(x) {
            lemma_heads(g, first, second, x);
        }
        if b.contains(x) {
            lemma_heads(g, second, first, x);
        }
    }
    lemma_ascending_is_one(a, b);
    assert forall|c: int| 0 <= c < first.len() implies plan::texts((#[trigger] first[c])@) == plan::texts(
        second[c]@,
    ) by {
        assert(a[c] == b[c]);
        assert(first[c]@[0]@ == second[c]@[0]@);
        assert(algorithms::in_component(first, c, a[c]));
        assert(algorithms::in_component(second, c, a[c]));
        lemma_same_component(g, first, c, second, c, a[c]);
    }
}

proof fn lemma_labels_are_one(a: Seq<usize>, b: Seq<usize>, comm: Seq<Option<usize>>, n: int)
    requires
        modularity::lists_labels(a, comm),
        modularity::lists_labels(b, comm),
        0 <= n <= a.len(),
    ensures
        n <= b.len(),
        a.take(n) == b.take(n),
    decreases n,
{
    if n > 0 {
        lemma_labels_are_one(a, b, comm, n - 1);
        assert(a.contains(a[n - 1]));
        assert(modularity::is_label(comm, a[n - 1]));
        assert(b.contains(a[n - 1]));
        let j = choose|j: int| 0 <= j < b.len() && b[j] == a[n - 1];
        if j < n - 1 {
            assert(a.take(n - 1)[j] == b.take(n - 1)[j]);
            assert(a[j] < a[n - 1]);
        }
        assert(b.contains(b[n - 1]));
        assert(modularity::is_label(comm, b[n - 1]));
        assert(a.contains(b[n - 1]));
        let i = choose|i: int| 0 <= i < a.len() && a[i] == b[n - 1];
        if i < n - 1 {
            assert(a.take(n - 1)[i] == b.take(n - 1)[i]);
            assert(b[i] < b[n - 1]);
        }
        if j > n - 1 {
            assert(b[n - 1] < b[j]);
            if i > n - 1 {
                assert(a[n - 1] < a[i]);
            }
        }
        assert(a[n - 1] == b[n - 1]);
        assert(a.take(n) =~= a.take(n - 1).push(a[n - 1]));
        assert(b.take(n) =~= b.take(n - 1).push(b[n - 1]));
    }
}

/// A graph, a partition and an arithmetic have one modularity.
pub proof fn law_modularity_is_determined(net: Net, o: Ops, comm: Seq<Option<usize>>, p: u64, q: u64)
    requires
        net.is_modularity(o, comm, p),
        net.is_modularity(o, comm, q),
    ensures
        p == q,
{
    if exists|labels: Seq<usize>| modularity::lists_labels(labels, comm) && p == net.shares_of(o, comm, labels) {
        let a = choose|labels: Seq<usize>| #[trigger]
            modularity::lists_labels(labels, comm) && p == net.shares_of(o, comm, labels);
        if exists|labels: Seq<usize>| modularity::lists_labels(labels, comm) && q == net.shares_of(o, comm, labels) {
            let b = choose|labels: Seq<usize>| #[trigger]
                modularity::lists_labels(labels, comm) && q == net.shares_of(o, comm, labels);
            lemma_labels_are_one(a, b, comm, a.len() as int);
            lemma_labels_are_one(b, a, comm, b.len() as int);
            assert(a =~= a.take(a.len() as int));
            assert(b =~= b.take(b.len() as int));
        }
    }
}

} // verus!
