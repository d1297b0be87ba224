//! Graph algorithms over a loaded graph.
//!
//! Each runs on the dense view and answers in ids. The graph must be closed:
//! every edge joins two of its nodes.

use vstd::prelude::*;

use super::components;
use super::components::components;
use super::cores;
use super::cores::peel;
use super::dense::Dense;
use super::shortest;
use super::shortest::{distances, UNREACHED};
use super::subgraph;
use super::subgraph::{Edge, GraphView, Subgraph};
use crate::text;

verus! {

impl GraphView {
    /// Whether an edge leads from `a` to `b`.
    pub open spec fn has_edge(self, a: Seq<char>, b: Seq<char>) -> bool {
        exists|i: int|
            0 <= i < self.edges.len() && (#[trigger] self.edges[i]).source == a && self.edges[i].target == b
    }

    /// Whether `path` goes from `a` to `b` through nodes, along edges.
    pub open spec fn is_path(self, path: Seq<Seq<char>>, a: Seq<char>, b: Seq<char>) -> bool {
        &&& path.len() > 0
        &&& path[0] == a
        &&& path.last() == b
        &&& forall|i: int| 0 <= i < path.len() ==> self.nodes.dom().contains(#[trigger] path[i])
        &&& forall|i: int| 0 <= i < path.len() - 1 ==> #[trigger] self.has_edge(path[i], path[i + 1])
    }

    /// Whether `b` can be reached from `a`, by a path of no edges or more.
    pub open spec fn reaches(self, a: Seq<char>, b: Seq<char>) -> bool {
        exists|path: Seq<Seq<char>>| self.is_path(path, a, b)
    }

    /// Whether each of `a` and `b` can be reached from the other.
    pub open spec fn mutual(self, a: Seq<char>, b: Seq<char>) -> bool {
        self.reaches(a, b) && self.reaches(b, a)
    }

    /// The degree of `a` in the subgraph that the nodes `t` induce.
    pub open spec fn degree_in(self, t: Set<Seq<char>>, a: Seq<char>) -> nat {
        into_targets(subgraph::leaving(self.edges, a), t) + into_sources(
            subgraph::entering(self.edges, a),
            t,
        )
    }

    /// Whether `t` are nodes, each of degree at least `k` within `t`.
    pub open spec fn holds_together(self, t: Set<Seq<char>>, k: int) -> bool {
        forall|a: Seq<char>| #[trigger]
            t.contains(a) ==> self.nodes.dom().contains(a) && self.degree_in(t, a) >= k
    }

    /// Whether edge `i` leads to `v`, and takes a total of `c` to `d`.
    pub open spec fn last_step<F: Fn(u64, u64) -> u64>(
        self,
        extend: F,
        i: int,
        c: u64,
        v: Seq<char>,
        d: u64,
    ) -> bool {
        &&& 0 <= i < self.edges.len()
        &&& self.edges[i].target == v
        &&& c < UNREACHED
        &&& d < UNREACHED
        &&& call_ensures(extend, (c, self.edges[i].weight), d)
    }

    /// Whether a walk of `steps` edges from `start` ends in `v` at a total of
    /// `d`, every total on the way finite.
    pub open spec fn walk_costs<F: Fn(u64, u64) -> u64>(
        self,
        extend: F,
        start: Seq<char>,
        v: Seq<char>,
        d: u64,
        steps: nat,
    ) -> bool
        decreases steps,
    {
        if steps == 0 {
            v == start && d == 0
        } else {
            exists|i: int, c: u64| #[trigger]
                self.last_step(extend, i, c, v, d) && self.walk_costs(
                    extend,
                    start,
                    self.edges[i].source,
                    c,
                    (steps - 1) as nat,
                )
        }
    }

    /// Whether some walk from `start` ends in `v` at a total of `d`.
    pub open spec fn some_walk_costs<F: Fn(u64, u64) -> u64>(
        self,
        extend: F,
        start: Seq<char>,
        v: Seq<char>,
        d: u64,
    ) -> bool {
        exists|steps: nat| self.walk_costs(extend, start, v, d, steps)
    }

    /// Whether `extend` can be called on any distance and weight, and adding the
    /// weight of an edge never makes a longer distance the shorter one.
    pub open spec fn keeps_order<F: Fn(u64, u64) -> u64>(self, extend: F) -> bool {
        &&& forall|d: u64, w: u64| #[trigger] call_requires(extend, (d, w))
        &&& forall|i: int, c: u64, d: u64, x: u64, y: u64|
            0 <= i < self.edges.len() && c <= d < UNREACHED && #[trigger] call_ensures(
                extend,
                (c, self.edges[i].weight),
                x,
            ) && #[trigger] call_ensures(extend, (d, self.edges[i].weight), y) ==> x <= y
    }
}

/// How many of `edges` have their target in `t`.
pub open spec fn into_targets(edges: Seq<Edge>, t: Set<Seq<char>>) -> nat
    decreases edges.len(),
{
    if edges.len() == 0 {
        0
    } else {
        into_targets(edges.drop_last(), t) + if t.contains(edges.last().target) {
            1nat
        } else {
            0nat
        }
    }
}

/// How many of `edges` have their source in `t`.
pub open spec fn into_sources(edges: Seq<Edge>, t: Set<Seq<char>>) -> nat
    decreases edges.len(),
{
    if edges.len() == 0 {
        0
    } else {
        into_sources(edges.drop_last(), t) + if t.contains(edges.last().source) {
            1nat
        } else {
            0nat
        }
    }
}

/// What an algorithm needs of its graph: closure, and indices that fit.
pub open spec fn runnable(g: &Subgraph) -> bool {
    &&& g.wf()
    &&& g@.is_closed()
    &&& g.size() < 0xffff_ffff
    &&& g@.edges.len() <= u32::MAX
    &&& 2 * g@.edges.len() <= usize::MAX
}

/// An edge of the dense view is an edge of the graph, and the other way round.
proof fn lemma_same_edges(d: &Dense, g: &Subgraph, u: int, v: int)
    requires
        runnable(g),
        subgraph::is_dense_view(d, g),
        0 <= u < g.size(),
        0 <= v < g.size(),
    ensures
        d.has_edge(u, v) <==> g@.has_edge(g.id_at(u), g.id_at(v)),
{
    let es = subgraph::leaving(g@.edges, g.id_at(u));
    subgraph::lemma_listed_is_edge(g@.edges, g.id_at(u));
    assert(subgraph::mirrors_targets(d.outs(u), es, g));
    if d.has_edge(u, v) {
        let k = choose|k: int| 0 <= k < d.outs(u).len() && (#[trigger] d.outs(u)[k]).0 == v;
        assert(es[k].target == g.id_at(v));
        assert(g@.edges.contains(es[k]));
        let i = choose|i: int| 0 <= i < g@.edges.len() && g@.edges[i] == es[k];
        assert(g@.edges[i].source == g.id_at(u));
    }
    if g@.has_edge(g.id_at(u), g.id_at(v)) {
        let i = choose|i: int|
            0 <= i < g@.edges.len() && (#[trigger] g@.edges[i]).source == g.id_at(u) && g@.edges[i].target
                == g.id_at(v);
        subgraph::lemma_edge_is_listed(g@.edges, i);
        let k = choose|k: int| 0 <= k < es.len() && es[k] == g@.edges[i];
        assert(d.outs(u)[k].0 < g.size());
        g.lemma_same_id(d.outs(u)[k].0 as int, v);
    }
}

/// The dense view reaches what the graph reaches.
proof fn lemma_same_reach(d: &Dense, g: &Subgraph, u: int, v: int)
    requires
        runnable(g),
        subgraph::is_dense_view(d, g),
        0 <= u < g.size(),
        0 <= v < g.size(),
    ensures
        d.reaches(u, v) <==> g@.reaches(g.id_at(u), g.id_at(v)),
{
    g.lemma_ids();
    if d.reaches(u, v) {
        let p = choose|p: Seq<int>| d.is_path(p, u, v);
        let q = Seq::new(p.len(), |i: int| g.id_at(p[i]));
        assert forall|i: int| 0 <= i < q.len() - 1 implies #[trigger] g@.has_edge(q[i], q[i + 1]) by {
            assert(d.has_edge(p[i], p[i + 1]));
            lemma_same_edges(d, g, p[i], p[i + 1]);
        }
        assert forall|i: int| 0 <= i < q.len() implies g@.nodes.dom().contains(#[trigger] q[i]) by {
            assert(0 <= p[i] < d.size());
            assert(g@.nodes.dom().contains(g.id_at(p[i])));
        }
        assert(g@.is_path(q, g.id_at(u), g.id_at(v)));
    }
    if g@.reaches(g.id_at(u), g.id_at(v)) {
        let q = choose|q: Seq<Seq<char>>| g@.is_path(q, g.id_at(u), g.id_at(v));
        let p = Seq::new(q.len(), |i: int| place_of(g, q[i]));
        assert forall|i: int| 0 <= i < q.len() implies 0 <= #[trigger] p[i] < g.size() && g.id_at(p[i])
            == q[i] by {
            assert(g@.nodes.dom().contains(q[i]));
            lemma_place(g, q[i]);
        }
        assert forall|i: int| 0 <= i < p.len() - 1 implies #[trigger] d.has_edge(p[i], p[i + 1]) by {
            assert(g@.has_edge(q[i], q[i + 1]));
            assert(0 <= p[i] < g.size() && 0 <= p[i + 1] < g.size());
            lemma_same_edges(d, g, p[i], p[i + 1]);
        }
        g.lemma_same_id(p[0], u);
        g.lemma_same_id(p[p.len() - 1], v);
        assert(d.is_path(p, u, v));
    }
}

/// The position of the node `id`.
pub open spec fn place_of(g: &Subgraph, id: Seq<char>) -> int {
    choose|i: int| 0 <= i < g.size() && g.id_at(i) == id
}

/// A node stands at its place.
pub proof fn lemma_place(g: &Subgraph, id: Seq<char>)
    requires
        g.wf(),
        g@.nodes.dom().contains(id),
    ensures
        0 <= place_of(g, id) < g.size(),
        g.id_at(place_of(g, id)) == id,
{
    g.lemma_ids();
    let i = choose|i: int| 0 <= i < g.size() && g.id_at(i) == id;
}

/// Whether `comps` lists classes by first member, each class ascending.
pub open spec fn canonical(comps: Seq<Vec<String>>) -> bool {
    &&& forall|c: int| 0 <= c < comps.len() ==> (#[trigger] comps[c])@.len() > 0
    &&& forall|c: int, i: int, j: int|
        0 <= c < comps.len() && 0 <= i < j < comps[c]@.len() ==> text::text_lt(
            (#[trigger] comps[c]@[i])@,
            (#[trigger] comps[c]@[j])@,
        )
    &&& forall|c: int, d: int|
        0 <= c < d < comps.len() ==> text::text_lt((#[trigger] comps[c])@[0]@, (#[trigger] comps[d])@[0]@)
}

/// Whether `id` is in component `c`.
pub open spec fn in_component(comps: Seq<Vec<String>>, c: int, id: Seq<char>) -> bool {
    exists|i: int| 0 <= i < comps[c]@.len() && (#[trigger] comps[c]@[i])@ == id
}

/// Whether `id` is in some component.
pub open spec fn is_grouped(comps: Seq<Vec<String>>, id: Seq<char>) -> bool {
    exists|c: int| 0 <= c < comps.len() && #[trigger] in_component(comps, c, id)
}

/// Whether `comps` are the strongly connected components of a graph, in their
/// canonical order.
pub open spec fn are_components(g: GraphView, comps: Seq<Vec<String>>) -> bool {
    &&& canonical(comps)
    &&& forall|id: Seq<char>| #[trigger] is_grouped(comps, id) <==> g.nodes.dom().contains(id)
    &&& forall|c: int, d: int, a: Seq<char>, b: Seq<char>|
        0 <= c < comps.len() && 0 <= d < comps.len() && #[trigger] in_component(comps, c, a)
            && #[trigger] in_component(comps, d, b) ==> (g.mutual(a, b) <==> c == d)
}

/// Strongly connected components.
///
/// The nodes are parted so that two share a component exactly when each reaches
/// the other. Each component is ascending, and the components are ordered by
/// their first member.
pub fn scc(graph: &Subgraph) -> (comps: Vec<Vec<String>>)
    requires
        runnable(graph),
    ensures
        are_components(graph@, comps@),
{
    let g = graph.build_dense();
    let found = components(&g);
    let mut comps: Vec<Vec<String>> = Vec::new();
    let mut c: usize = 0;
    while c < found.len()
        invariant
            runnable(graph),
            subgraph::is_dense_view(&g, graph),
            components::canonical(found@, g.size() as int),
            c <= found@.len(),
            comps@.len() == c,
            forall|k: int| 0 <= k < c ==> names(graph, #[trigger] comps@[k], found@[k]),
        decreases found@.len() - c,
    {
        let mut named: Vec<String> = Vec::new();
        let comp = &found[c];
        let mut i: usize = 0;
        while i < comp.len()
            invariant
                runnable(graph),
                subgraph::is_dense_view(&g, graph),
                components::canonical(found@, g.size() as int),
                c < found@.len(),
                *comp == found@[c as int],
                i <= comp@.len(),
                named@.len() == i,
                forall|j: int| 0 <= j < i ==> (#[trigger] named@[j])@ == graph.id_at(comp@[j] as int),
            decreases comp@.len() - i,
        {
            assert(found@[c as int]@[i as int] < g.size());
            let id = g.id(comp[i]);
            assert(g.ids@[comp@[i as int] as int]@ == graph.id_at(comp@[i as int] as int));
            named.push(id.to_owned());
            i = i + 1;
        }
        comps.push(named);
        assert(names(graph, comps@[c as int], found@[c as int]));
        c = c + 1;
    }
    proof {
        lemma_named_components(&g, graph, found@, comps@);
    }
    comps
}

/// Whether `named` holds the ids of `comp`.
spec fn names(g: &Subgraph, named: Vec<String>, comp: Vec<usize>) -> bool {
    &&& named@.len() == comp@.len()
    &&& forall|j: int| 0 <= j < named@.len() ==> (#[trigger] named@[j])@ == g.id_at(comp@[j] as int)
}

proof fn lemma_named_components(d: &Dense, g: &Subgraph, found: Seq<Vec<usize>>, comps: Seq<Vec<String>>)
    requires
        runnable(g),
        subgraph::is_dense_view(d, g),
        components::canonical(found, d.size() as int),
        comps.len() == found.len(),
        forall|k: int| 0 <= k < comps.len() ==> names(g, #[trigger] comps[k], found[k]),
        forall|u: int| 0 <= u < d.size() ==> #[trigger] components::is_grouped(found, u),
        forall|c: int, e: int, u: int, w: int|
            0 <= c < found.len() && 0 <= e < found.len() && #[trigger] components::in_component(found, c, u)
                && #[trigger] components::in_component(found, e, w) ==> (d.mutual(u, w) <==> c == e),
    ensures
        canonical(comps),
        forall|id: Seq<char>| #[trigger] is_grouped(comps, id) <==> g@.nodes.dom().contains(id),
        forall|c: int, e: int, a: Seq<char>, b: Seq<char>|
            0 <= c < comps.len() && 0 <= e < comps.len() && #[trigger] in_component(comps, c, a)
                && #[trigger] in_component(comps, e, b) ==> (g@.mutual(a, b) <==> c == e),
{
    g.lemma_ids();
    assert forall|c: int| 0 <= c < comps.len() implies (#[trigger] comps[c])@.len() > 0 by {
        assert(names(g, comps[c], found[c]));
        assert(found[c]@.len() > 0);
    }
    assert forall|c: int, i: int, j: int| 0 <= c < comps.len() && 0 <= i < j < comps[c]@.len() implies text::text_lt(
        (#[trigger] comps[c]@[i])@,
        (#[trigger] comps[c]@[j])@,
    ) by {
        assert(names(g, comps[c], found[c]));
        assert(found[c]@[i] < found[c]@[j]);
        assert(found[c]@[j] < d.size());
        assert(text::text_lt(g.id_at(found[c]@[i] as int), g.id_at(found[c]@[j] as int)));
    }
    assert forall|c: int, e: int| 0 <= c < e < comps.len() implies text::text_lt(
        (#[trigger] comps[c])@[0]@,
        (#[trigger] comps[e])@[0]@,
    ) by {
        assert(names(g, comps[c], found[c]) && names(g, comps[e], found[e]));
        assert(found[c]@.len() > 0 && found[e]@.len() > 0);
        assert(found[c]@[0] < found[e]@[0]);
        assert(found[e]@[0] < d.size());
        assert(text::text_lt(g.id_at(found[c]@[0] as int), g.id_at(found[e]@[0] as int)));
    }
    assert forall|id: Seq<char>| #[trigger] is_grouped(comps, id) <==> g@.nodes.dom().contains(id) by {
        if is_grouped(comps, id) {
            let c = choose|c: int| 0 <= c < comps.len() && #[trigger] in_component(comps, c, id);
            lemma_member(d, g, found, comps, c, id);
        }
        if g@.nodes.dom().contains(id) {
            lemma_place(g, id);
            let u = place_of(g, id);
            assert(components::is_grouped(found, u));
            let c = choose|c: int| 0 <= c < found.len() && #[trigger] components::in_component(found, c, u);
            let i = choose|i: int| 0 <= i < found[c]@.len() && #[trigger] found[c]@[i] == u;
            assert(names(g, comps[c], found[c]));
            assert(comps[c]@[i]@ == id);
            assert(in_component(comps, c, id));
        }
    }
    assert forall|c: int, e: int, a: Seq<char>, b: Seq<char>| 0 <= c < comps.len() && 0 <= e < comps.len()
        && #[trigger] in_component(comps, c, a) && #[trigger] in_component(comps, e, b) implies (g@.mutual(
        a,
        b,
    ) <==> c == e) by {
        lemma_member(d, g, found, comps, c, a);
        lemma_member(d, g, found, comps, e, b);
        let u = place_of(g, a);
        let w = place_of(g, b);
        lemma_same_reach(d, g, u, w);
        lemma_same_reach(d, g, w, u);
    }
}

proof fn lemma_member(
    d: &Dense,
    g: &Subgraph,
    found: Seq<Vec<usize>>,
    comps: Seq<Vec<String>>,
    c: int,
    id: Seq<char>,
)
    requires
        runnable(g),
        subgraph::is_dense_view(d, g),
        components::canonical(found, d.size() as int),
        comps.len() == found.len(),
        forall|k: int| 0 <= k < comps.len() ==> names(g, #[trigger] comps[k], found[k]),
        0 <= c < comps.len(),
        in_component(comps, c, id),
    ensures
        g@.nodes.dom().contains(id),
        0 <= place_of(g, id) < g.size(),
        g.id_at(place_of(g, id)) == id,
        components::in_component(found, c, place_of(g, id)),
{
    g.lemma_ids();
    assert(names(g, comps[c], found[c]));
    let i = choose|i: int| 0 <= i < comps[c]@.len() && (#[trigger] comps[c]@[i])@ == id;
    let u = found[c]@[i] as int;
    assert(found[c]@[i] < d.size());
    assert(g.id_at(u) == id);
    lemma_place(g, id);
    g.lemma_same_id(u, place_of(g, id));
    assert(found[c]@[i] == place_of(g, id));
}

/// The positions of the nodes in `t`.
spec fn places_of(g: &Subgraph, t: Set<Seq<char>>) -> Set<int> {
    Set::new(|u: int| 0 <= u < g.size() && t.contains(g.id_at(u)))
}

proof fn lemma_count_targets_in(
    entries: Seq<(u32, u64)>,
    edges: Seq<Edge>,
    g: &Subgraph,
    t: Set<Seq<char>>,
    p: Set<int>,
)
    requires
        subgraph::mirrors_targets(entries, edges, g),
        forall|u: int| 0 <= u < g.size() ==> (#[trigger] p.contains(u) <==> t.contains(g.id_at(u))),
    ensures
        cores::count_in(entries, p) == into_targets(edges, t),
    decreases entries.len(),
{
    if entries.len() > 0 {
        let es = entries.drop_last();
        let ds = edges.drop_last();
        assert forall|k: int| 0 <= k < es.len() implies (#[trigger] es[k]).0 < g.size() && g.id_at(
            es[k].0 as int,
        ) == ds[k].target && es[k].1 == ds[k].weight by {
            assert(entries[k].0 < g.size());
        }
        lemma_count_targets_in(es, ds, g, t, p);
        assert(entries[entries.len() - 1].0 < g.size());
        assert(p.contains(entries.last().0 as int) <==> t.contains(edges.last().target));
    }
}

proof fn lemma_count_sources_in(
    entries: Seq<(u32, u64)>,
    edges: Seq<Edge>,
    g: &Subgraph,
    t: Set<Seq<char>>,
    p: Set<int>,
)
    requires
        subgraph::mirrors_sources(entries, edges, g),
        forall|u: int| 0 <= u < g.size() ==> (#[trigger] p.contains(u) <==> t.contains(g.id_at(u))),
    ensures
        cores::count_in(entries, p) == into_sources(edges, t),
    decreases entries.len(),
{
    if entries.len() > 0 {
        let es = entries.drop_last();
        let ds = edges.drop_last();
        assert forall|k: int| 0 <= k < es.len() implies (#[trigger] es[k]).0 < g.size() && g.id_at(
            es[k].0 as int,
        ) == ds[k].source && es[k].1 == ds[k].weight by {
            assert(entries[k].0 < g.size());
        }
        lemma_count_sources_in(es, ds, g, t, p);
        assert(entries[entries.len() - 1].0 < g.size());
        assert(p.contains(entries.last().0 as int) <==> t.contains(edges.last().source));
    }
}

/// A node's degree within a set is the same in the dense view.
proof fn lemma_same_degree(d: &Dense, g: &Subgraph, t: Set<Seq<char>>, p: Set<int>, u: int)
    requires
        runnable(g),
        subgraph::is_dense_view(d, g),
        0 <= u < g.size(),
        forall|w: int| 0 <= w < g.size() ==> (#[trigger] p.contains(w) <==> t.contains(g.id_at(w))),
    ensures
        cores::degree_in(d, p, u) == g@.degree_in(t, g.id_at(u)),
{
    lemma_count_targets_in(d.outs(u), subgraph::leaving(g@.edges, g.id_at(u)), g, t, p);
    lemma_count_sources_in(d.ins(u), subgraph::entering(g@.edges, g.id_at(u)), g, t, p);
}

/// The ids among `ids`.
pub open spec fn id_set(ids: Seq<String>) -> Set<Seq<char>> {
    Set::new(|id: Seq<char>| exists|i: int| 0 <= i < ids.len() && (#[trigger] ids[i])@ == id)
}

/// Whether `ids` stand in strictly ascending order.
pub open spec fn ascending(ids: Seq<String>) -> bool {
    forall|i: int, j: int|
        0 <= i < j < ids.len() ==> text::text_lt((#[trigger] ids[i])@, (#[trigger] ids[j])@)
}

/// Whether `core` is the largest set of nodes in whose induced subgraph every
/// degree is at least `k`, ascending.
pub open spec fn is_core(g: GraphView, k: int, core: Seq<String>) -> bool {
    &&& ascending(core)
    &&& g.holds_together(id_set(core), k)
    &&& forall|t: Set<Seq<char>>, id: Seq<char>| #[trigger]
        g.holds_together(t, k) && #[trigger] t.contains(id) ==> id_set(core).contains(id)
}

/// The k-core: the largest set of nodes in whose induced subgraph every degree
/// is at least `k`, ascending.
///
/// Directions are ignored: a degree counts in and out, parallel edges once each.
pub fn k_core(graph: &Subgraph, k: usize) -> (core: Vec<String>)
    requires
        runnable(graph),
    ensures
        is_core(graph@, k as int, core@),
{
    let g = graph.build_dense();
    let removed = peel(&g, k);
    let n: usize = g.len();
    let mut core: Vec<String> = Vec::new();
    let ghost mut from: Seq<int> = Seq::empty();
    let mut u: usize = 0;
    proof {
        graph.lemma_ids();
    }
    while u < n
        invariant
            n == g.size(),
            runnable(graph),
            subgraph::is_dense_view(&g, graph),
            removed@.len() == g.size(),
            u <= n,
            from.len() == core@.len(),
            forall|i: int|
                0 <= i < core@.len() ==> 0 <= #[trigger] from[i] < u && core@[i]@ == graph.id_at(from[i])
                    && !removed@[from[i]],
            forall|i: int, j: int| 0 <= i < j < from.len() ==> #[trigger] from[i] < #[trigger] from[j],
            forall|w: int| 0 <= w < u && !(#[trigger] removed@[w]) ==> id_set(core@).contains(graph.id_at(w)),
        decreases n - u,
    {
        if !removed[u] {
            let ghost before = core@;
            assert(g.ids@[u as int]@ == graph.id_at(u as int));
            core.push(g.id(u).to_owned());
            proof {
                from = from.push(u as int);
                assert forall|w: int| 0 <= w < u + 1 && !(#[trigger] removed@[w]) implies id_set(
                    core@,
                ).contains(graph.id_at(w)) by {
                    if w < u {
                        assert(id_set(before).contains(graph.id_at(w)));
                        let i = choose|i: int| 0 <= i < before.len() && (#[trigger] before[i])@ == graph.id_at(w);
                        assert(core@[i]@ == graph.id_at(w));
                    } else {
                        assert(core@[before.len() as int]@ == graph.id_at(w));
                    }
                }
            }
        }
        u = u + 1;
    }
    proof {
        let kept = cores::unmarked(removed@);
        let ids = id_set(core@);
        assert forall|w: int| 0 <= w < graph.size() implies (#[trigger] kept.contains(w) <==> ids.contains(
            graph.id_at(w),
        )) by {
            if ids.contains(graph.id_at(w)) {
                let i = choose|i: int| 0 <= i < core@.len() && (#[trigger] core@[i])@ == graph.id_at(w);
                assert(0 <= from[i] < u);
                graph.lemma_same_id(from[i], w);
            }
        }
        assert forall|i: int, j: int| 0 <= i < j < core@.len() implies text::text_lt(
            (#[trigger] core@[i])@,
            (#[trigger] core@[j])@,
        ) by {
            assert(from[i] < from[j]);
            assert(text::text_lt(graph.id_at(from[i]), graph.id_at(from[j])));
        }
        assert forall|id: Seq<char>| #[trigger] ids.contains(id) implies graph@.nodes.dom().contains(id)
            && graph@.degree_in(ids, id) >= k by {
            let i = choose|i: int| 0 <= i < core@.len() && (#[trigger] core@[i])@ == id;
            let w = from[i];
            assert(graph@.nodes.dom().contains(graph.id_at(w)));
            assert(kept.contains(w));
            lemma_same_degree(&g, graph, ids, kept, w);
        }
        assert forall|t: Set<Seq<char>>, id: Seq<char>| #[trigger] graph@.holds_together(t, k as int)
            && #[trigger] t.contains(id) implies ids.contains(id) by {
            let p = places_of(graph, t);
            assert forall|w: int| #[trigger] p.contains(w) implies 0 <= w < g.size() && cores::degree_in(
                &g,
                p,
                w,
            ) >= k by {
                assert(t.contains(graph.id_at(w)));
                lemma_same_degree(&g, graph, t, p, w);
            }
            assert(cores::holds_together(&g, p, k as int));
            lemma_place(graph, id);
            assert(p.contains(place_of(graph, id)));
            assert(kept.contains(place_of(graph, id)));
        }
    }
    core
}

/// A walk in the dense view is a walk in the graph at the same cost.
proof fn lemma_walk_up<F: Fn(u64, u64) -> u64>(
    d: &Dense,
    g: &Subgraph,
    extend: F,
    source: int,
    v: int,
    cost: u64,
    steps: nat,
)
    requires
        runnable(g),
        subgraph::is_dense_view(d, g),
        0 <= source < g.size(),
        0 <= v < g.size(),
        shortest::walk_costs(d, extend, source, v, cost, steps),
    ensures
        g@.walk_costs(extend, g.id_at(source), g.id_at(v), cost, steps),
    decreases steps,
{
    if steps > 0 {
        let (u, k, c) = choose|u: int, k: int, c: u64| #[trigger]
            shortest::last_step(d, extend, u, k, c, v, cost) && shortest::walk_costs(
                d,
                extend,
                source,
                u,
                c,
                (steps - 1) as nat,
            );
        lemma_walk_up(d, g, extend, source, u, c, (steps - 1) as nat);
        let es = subgraph::leaving(g@.edges, g.id_at(u));
        subgraph::lemma_listed_is_edge(g@.edges, g.id_at(u));
        assert(subgraph::mirrors_targets(d.outs(u), es, g));
        assert(d.outs(u)[k].0 < g.size());
        assert(g@.edges.contains(es[k]));
        let i = choose|i: int| 0 <= i < g@.edges.len() && g@.edges[i] == es[k];
        assert(g@.last_step(extend, i, c, g.id_at(v), cost));
    }
}

/// A walk in the graph is a walk in the dense view at the same cost.
proof fn lemma_walk_down<F: Fn(u64, u64) -> u64>(
    d: &Dense,
    g: &Subgraph,
    extend: F,
    source: int,
    v: Seq<char>,
    cost: u64,
    steps: nat,
)
    requires
        runnable(g),
        subgraph::is_dense_view(d, g),
        0 <= source < g.size(),
        g@.walk_costs(extend, g.id_at(source), v, cost, steps),
    ensures
        g@.nodes.dom().contains(v),
        0 <= place_of(g, v) < g.size(),
        g.id_at(place_of(g, v)) == v,
        shortest::walk_costs(d, extend, source, place_of(g, v), cost, steps),
    decreases steps,
{
    g.lemma_ids();
    if steps == 0 {
        assert(g@.nodes.dom().contains(g.id_at(source)));
        lemma_place(g, v);
        g.lemma_same_id(source, place_of(g, v));
    } else {
        let (i, c) = choose|i: int, c: u64| #[trigger]
            g@.last_step(extend, i, c, v, cost) && g@.walk_costs(
                extend,
                g.id_at(source),
                g@.edges[i].source,
                c,
                (steps - 1) as nat,
            );
        let e = g@.edges[i];
        lemma_walk_down(d, g, extend, source, e.source, c, (steps - 1) as nat);
        assert(g@.nodes.dom().contains(e.target));
        lemma_place(g, v);
        let u = place_of(g, e.source);
        let es = subgraph::leaving(g@.edges, g.id_at(u));
        subgraph::lemma_edge_is_listed(g@.edges, i);
        let k = choose|k: int| 0 <= k < es.len() && es[k] == e;
        assert(subgraph::mirrors_targets(d.outs(u), es, g));
        assert(d.outs(u)[k].0 < g.size());
        g.lemma_same_id(d.outs(u)[k].0 as int, place_of(g, v));
        assert(shortest::last_step(d, extend, u, k, c, place_of(g, v), cost));
    }
}

/// Whether `id` is listed with `d`.
pub open spec fn is_labelled(labels: Seq<(String, u64)>, id: Seq<char>, d: u64) -> bool {
    exists|i: int| 0 <= i < labels.len() && (#[trigger] labels[i]).0@ == id && labels[i].1 == d
}

/// Whether `labels` lists, ascending by id, what is reached from `start` at a
/// finite total, with the least total of a walk to it.
#[verifier::opaque]
pub open spec fn are_distances<F: Fn(u64, u64) -> u64>(
    g: GraphView,
    extend: F,
    start: Seq<char>,
    labels: Seq<(String, u64)>,
) -> bool {
    &&& !g.nodes.dom().contains(start) ==> labels.len() == 0
    &&& forall|i: int, j: int|
        0 <= i < j < labels.len() ==> text::text_lt((#[trigger] labels[i]).0@, (#[trigger] labels[j]).0@)
    &&& forall|id: Seq<char>, d: u64| #[trigger]
        is_labelled(labels, id, d) ==> g.some_walk_costs(extend, start, id, d)
    &&& g.nodes.dom().contains(start) ==> forall|id: Seq<char>, d: u64| #[trigger]
        g.some_walk_costs(extend, start, id, d) ==> exists|least: u64|
            least <= d && #[trigger] is_labelled(labels, id, least)
}

/// Shortest distances from `start`, by Dijkstra's algorithm.
///
/// A weight and a distance are bit patterns of binary64 values, and `extend`
/// adds a weight to a distance. The answer lists, ascending by id, every node
/// that some walk from `start` reaches at a finite total, with the least such
/// total. Where `start` is no node it is empty.
pub fn dijkstra<F: Fn(u64, u64) -> u64>(graph: &Subgraph, start: &str, extend: &F) -> (labels: Vec<
    (String, u64),
>)
    requires
        runnable(graph),
        graph@.keeps_order(*extend),
    ensures
        are_distances(graph@, *extend, start@, labels@),
{
    let ghost f = *extend;
    proof {
        reveal(are_distances);
    }
    let g = graph.build_dense();
    let mut labels: Vec<(String, u64)> = Vec::new();
    proof {
        graph.lemma_ids();
    }
    let source: usize = match g.index_of(start) {
        Some(u) => u,
        None => {
            proof {
                if graph@.nodes.dom().contains(start@) {
                    lemma_place(graph, start@);
                    assert(g.ids@[place_of(graph, start@)]@ == start@);
                }
            }
            return labels;
        },
    };
    proof {
        assert(g.ids@[source as int]@ == graph.id_at(source as int));
        lemma_same_order(&g, graph, f);
    }
    let dist = distances(&g, source, extend);
    let n: usize = g.len();
    let ghost mut from: Seq<int> = Seq::empty();
    let mut u: usize = 0;
    while u < n
        invariant
            n == g.size(),
            runnable(graph),
            subgraph::is_dense_view(&g, graph),
            dist@.len() == g.size(),
            u <= n,
            from.len() == labels@.len(),
            forall|i: int|
                0 <= i < labels@.len() ==> 0 <= #[trigger] from[i] < u && labels@[i].0@ == graph.id_at(
                    from[i],
                ) && labels@[i].1 == dist@[from[i]] && dist@[from[i]] < UNREACHED,
            forall|i: int, j: int| 0 <= i < j < from.len() ==> #[trigger] from[i] < #[trigger] from[j],
            forall|w: int|
                0 <= w < u && (#[trigger] dist@[w]) < UNREACHED ==> is_labelled(
                    labels@,
                    graph.id_at(w),
                    dist@[w],
                ),
        decreases n - u,
    {
        if dist[u] < UNREACHED {
            let ghost before = labels@;
            assert(g.ids@[u as int]@ == graph.id_at(u as int));
            labels.push((g.id(u).to_owned(), dist[u]));
            proof {
                from = from.push(u as int);
                assert forall|w: int| 0 <= w < u + 1 && (#[trigger] dist@[w]) < UNREACHED implies is_labelled(
                    labels@,
                    graph.id_at(w),
                    dist@[w],
                ) by {
                    if w < u {
                        assert(is_labelled(before, graph.id_at(w), dist@[w]));
                        let i = choose|i: int|
                            0 <= i < before.len() && (#[trigger] before[i]).0@ == graph.id_at(w) && before[i].1
                                == dist@[w];
                        assert(labels@[i].0@ == graph.id_at(w));
                    } else {
                        assert(labels@[before.len() as int].0@ == graph.id_at(w));
                    }
                }
            }
        }
        u = u + 1;
    }
    proof {
        assert forall|i: int, j: int| 0 <= i < j < labels@.len() implies text::text_lt(
            (#[trigger] labels@[i]).0@,
            (#[trigger] labels@[j]).0@,
        ) by {
            assert(from[i] < from[j]);
            assert(text::text_lt(graph.id_at(from[i]), graph.id_at(from[j])));
        }
        assert forall|id: Seq<char>, d: u64| #[trigger] is_labelled(labels@, id, d) implies graph@.some_walk_costs(
            f,
            start@,
            id,
            d,
        ) by {
            let i = choose|i: int| 0 <= i < labels@.len() && (#[trigger] labels@[i]).0@ == id && labels@[i].1 == d;
            let w = from[i];
            assert(dist@[w] < UNREACHED);
            assert(shortest::some_walk_costs(&g, f, source as int, w, dist@[w]));
            let steps = choose|steps: nat| shortest::walk_costs(&g, f, source as int, w, dist@[w], steps);
            lemma_walk_up(&g, graph, f, source as int, w, dist@[w], steps);
        }
        assert forall|id: Seq<char>, d: u64| #[trigger] graph@.some_walk_costs(f, start@, id, d) implies exists|
            least: u64,
        | least <= d && #[trigger] is_labelled(labels@, id, least) by {
            let steps = choose|steps: nat| graph@.walk_costs(f, start@, id, d, steps);
            lemma_walk_down(&g, graph, f, source as int, id, d, steps);
            lemma_finite(graph, f, start@, id, d, steps);
            let w = place_of(graph, id);
            assert(shortest::some_walk_costs(&g, f, source as int, w, d));
            assert(dist@[w] <= d);
            assert(is_labelled(labels@, graph.id_at(w), dist@[w]));
        }
    }
    labels
}

proof fn lemma_finite<F: Fn(u64, u64) -> u64>(
    g: &Subgraph,
    extend: F,
    start: Seq<char>,
    v: Seq<char>,
    d: u64,
    steps: nat,
)
    requires
        g@.walk_costs(extend, start, v, d, steps),
    ensures
        d < UNREACHED,
{
    if steps > 0 {
        let (i, c) = choose|i: int, c: u64| #[trigger]
            g@.last_step(extend, i, c, v, d) && g@.walk_costs(
                extend,
                start,
                g@.edges[i].source,
                c,
                (steps - 1) as nat,
            );
    }
}

proof fn lemma_same_order<F: Fn(u64, u64) -> u64>(d: &Dense, g: &Subgraph, extend: F)
    requires
        runnable(g),
        subgraph::is_dense_view(d, g),
        g@.keeps_order(extend),
    ensures
        shortest::keeps_order(d, extend),
{
    assert forall|b: u64, c: u64, w: u64, x: u64, y: u64| shortest::is_weight(d, w) && b <= c < UNREACHED
        && #[trigger] call_ensures(extend, (b, w), x) && #[trigger] call_ensures(extend, (c, w), y) implies x
        <= y by {
        let (u, k) = choose|u: int, k: int|
            0 <= u < d.size() && 0 <= k < d.outs(u).len() && (#[trigger] d.outs(u)[k]).1 == w;
        let es = subgraph::leaving(g@.edges, g.id_at(u));
        subgraph::lemma_listed_is_edge(g@.edges, g.id_at(u));
        assert(subgraph::mirrors_targets(d.outs(u), es, g));
        assert(d.outs(u)[k].0 < g.size());
        assert(g@.edges.contains(es[k]));
        let i = choose|i: int| 0 <= i < g@.edges.len() && g@.edges[i] == es[k];
        assert(g@.edges[i].weight == w);
        assert(call_ensures(extend, (b, g@.edges[i].weight), x));
    }
}

} // verus!
