//! The in-memory graph and how it is filled.
//!
//! A graph is nodes with their attributes, and edges in the order they were
//! added. Both directions are indexed, and every string an edge carries is
//! pooled.

use vstd::prelude::*;
use vstd::utf8::*;

use super::dense;
use super::dense::Dense;
use super::pool;
use super::pool::Interner;
use crate::table::Table;
use crate::text;
use crate::text::{opt_clone, opt_str, same};

verus! {

/// The attributes of one node, as text.
pub struct NodeView {
    pub title: Seq<char>,
    pub content: Option<Seq<char>>,
    pub embedding_model: Option<Seq<char>>,
    pub valid_from: Seq<char>,
    pub valid_to: Seq<char>,
}

/// The attributes of one node, as of the instant the graph was loaded.
///
/// `content` is `None` where the text was not asked for, which is not an empty
/// document.
#[derive(Debug, Clone, PartialEq)]
pub struct NodeData {
    title: String,
    content: Option<String>,
    embedding_model: Option<String>,
    valid_from: String,
    valid_to: String,
}

impl View for NodeData {
    type V = NodeView;

    closed spec fn view(&self) -> NodeView {
        NodeView {
            title: self.title@,
            content: text::opt_view(self.content),
            embedding_model: text::opt_view(self.embedding_model),
            valid_from: self.valid_from@,
            valid_to: self.valid_to@,
        }
    }
}

/// The length in bytes of an optional text.
pub open spec fn opt_bytes(s: Option<Seq<char>>) -> nat {
    match s {
        Some(text) => encode_utf8(text).len(),
        None => 0,
    }
}

/// What a node keyed by `id` is estimated to occupy.
pub open spec fn node_bytes(id: Seq<char>, d: NodeView) -> nat {
    encode_utf8(id).len() + encode_utf8(d.title).len() + opt_bytes(d.content) + opt_bytes(
        d.embedding_model,
    ) + encode_utf8(d.valid_from).len() + encode_utf8(d.valid_to).len() + vstd::layout::size_of::<NodeData>()
}

impl NodeData {
    /// A node without content and without an embedding model.
    pub fn new(title: &str, valid_from: &str, valid_to: &str) -> (d: NodeData)
        ensures
            d@ == (NodeView {
                title: title@,
                content: None,
                embedding_model: None,
                valid_from: valid_from@,
                valid_to: valid_to@,
            }),
    {
        NodeData {
            title: title.to_owned(),
            content: None,
            embedding_model: None,
            valid_from: valid_from.to_owned(),
            valid_to: valid_to.to_owned(),
        }
    }

    /// The same node with its document text.
    pub fn with_content(self, content: &str) -> (d: NodeData)
        ensures
            d@ == (NodeView { content: Some(content@), ..self@ }),
    {
        let mut d = self;
        d.content = Some(content.to_owned());
        d
    }

    /// The same node with the given embedding model, or none.
    pub fn with_embedding_model(self, model: Option<String>) -> (d: NodeData)
        ensures
            d@ == (NodeView { embedding_model: text::opt_view(model), ..self@ }),
    {
        let mut d = self;
        d.embedding_model = model;
        d
    }

    /// The title.
    pub fn title(&self) -> (s: &str)
        ensures
            s@ == self@.title,
    {
        self.title.as_str()
    }

    /// The document text, or `None` where it was not loaded.
    pub fn content(&self) -> (s: Option<&str>)
        ensures
            s.is_some() == self@.content.is_some(),
            s.is_some() ==> s.unwrap()@ == self@.content.unwrap(),
    {
        opt_str(&self.content)
    }

    /// The embedding model, if the node has one.
    pub fn embedding_model(&self) -> (s: Option<&str>)
        ensures
            s.is_some() == self@.embedding_model.is_some(),
            s.is_some() ==> s.unwrap()@ == self@.embedding_model.unwrap(),
    {
        opt_str(&self.embedding_model)
    }

    /// The start of the node's validity.
    pub fn valid_from(&self) -> (s: &str)
        ensures
            s@ == self@.valid_from,
    {
        self.valid_from.as_str()
    }

    /// The end of the node's validity.
    pub fn valid_to(&self) -> (s: &str)
        ensures
            s@ == self@.valid_to,
    {
        self.valid_to.as_str()
    }
}

/// One edge, as text; the weight is the bit pattern of its binary64 value.
pub struct Edge {
    pub source: Seq<char>,
    pub target: Seq<char>,
    pub edge_type: Seq<char>,
    pub weight: u64,
    pub valid_from: Seq<char>,
    pub valid_to: Seq<char>,
}

/// The edges that leave `s`, in order.
pub open spec fn leaving(edges: Seq<Edge>, s: Seq<char>) -> Seq<Edge>
    decreases edges.len(),
{
    if edges.len() == 0 {
        Seq::empty()
    } else if edges.last().source == s {
        leaving(edges.drop_last(), s).push(edges.last())
    } else {
        leaving(edges.drop_last(), s)
    }
}

/// The edges that enter `t`, in order.
pub open spec fn entering(edges: Seq<Edge>, t: Seq<char>) -> Seq<Edge>
    decreases edges.len(),
{
    if edges.len() == 0 {
        Seq::empty()
    } else if edges.last().target == t {
        entering(edges.drop_last(), t).push(edges.last())
    } else {
        entering(edges.drop_last(), t)
    }
}

/// What a graph holds: its nodes, its edges in the order they were added, and
/// the strings pooled for them.
pub struct GraphView {
    pub nodes: Map<Seq<char>, NodeView>,
    pub edges: Seq<Edge>,
    pub pooled: Set<Seq<char>>,
}

/// One end of an edge in an adjacency list.
///
/// Every field but the weight is an index into its graph's pool, so reading one
/// takes the graph it came from.
#[derive(Debug, Clone, Copy, PartialEq, Eq, Structural)]
pub struct EdgeRef {
    node: u32,
    edge_type: u32,
    weight: u64,
    valid_from: u32,
    valid_to: u32,
}

impl EdgeRef {
    /// Whether the entry indexes into the pool of `graph`.
    pub closed spec fn within(&self, graph: &Subgraph) -> bool {
        self.within_pool(&graph.pool)
    }

    spec fn within_pool(&self, p: &Interner) -> bool {
        &&& self.node < p.count()
        &&& self.edge_type < p.count()
        &&& self.valid_from < p.count()
        &&& self.valid_to < p.count()
    }

    /// The id at the far end.
    pub closed spec fn far(&self, graph: &Subgraph) -> Seq<char> {
        graph.pool.text(self.node as int)
    }

    /// Whether the entry stands for `e`, seen from its other end than `far`.
    pub closed spec fn shows(&self, graph: &Subgraph, e: Edge, far: Seq<char>) -> bool {
        self.shows_in(&graph.pool, e, far)
    }

    spec fn shows_in(&self, p: &Interner, e: Edge, far: Seq<char>) -> bool {
        &&& self.within_pool(p)
        &&& p.text(self.node as int) == far
        &&& p.text(self.edge_type as int) == e.edge_type
        &&& self.weight == e.weight
        &&& p.text(self.valid_from as int) == e.valid_from
        &&& p.text(self.valid_to as int) == e.valid_to
    }

    /// The far end of the edge: the target of an outgoing entry, the source of
    /// an incoming one.
    pub fn node<'a>(&self, graph: &'a Subgraph) -> (s: &'a str)
        requires
            self.within(graph),
        ensures
            s@ == self.far(graph),
            forall|e: Edge, far: Seq<char>| #[trigger] self.shows(graph, e, far) ==> s@ == far,
    {
        graph.pool.get(self.node)
    }

    /// The type of the edge.
    pub fn edge_type<'a>(&self, graph: &'a Subgraph) -> (s: &'a str)
        requires
            self.within(graph),
        ensures
            forall|e: Edge, far: Seq<char>| #[trigger] self.shows(graph, e, far) ==> s@ == e.edge_type,
    {
        graph.pool.get(self.edge_type)
    }

    /// The weight, as a bit pattern.
    pub closed spec fn weight_bits(&self) -> u64 {
        self.weight
    }

    /// What the entry stands for fixes its weight.
    pub proof fn lemma_weight(&self, graph: &Subgraph, e: Edge, far: Seq<char>)
        requires
            self.shows(graph, e, far),
        ensures
            self.weight_bits() == e.weight,
    {
    }

    /// The weight, as a bit pattern.
    pub fn weight(&self) -> (w: u64)
        ensures
            w == self.weight_bits(),
            forall|g: &Subgraph, e: Edge, far: Seq<char>| #[trigger]
                self.shows(g, e, far) ==> w == e.weight,
    {
        self.weight
    }

    /// The start of the edge's validity.
    pub fn valid_from<'a>(&self, graph: &'a Subgraph) -> (s: &'a str)
        requires
            self.within(graph),
        ensures
            forall|e: Edge, far: Seq<char>| #[trigger] self.shows(graph, e, far) ==> s@ == e.valid_from,
    {
        graph.pool.get(self.valid_from)
    }

    /// The end of the edge's validity.
    pub fn valid_to<'a>(&self, graph: &'a Subgraph) -> (s: &'a str)
        requires
            self.within(graph),
        ensures
            forall|e: Edge, far: Seq<char>| #[trigger] self.shows(graph, e, far) ==> s@ == e.valid_to,
    {
        graph.pool.get(self.valid_to)
    }
}

/// A graph loaded into memory.
#[derive(Clone)]
pub struct Subgraph {
    nodes: Table<NodeData>,
    out_adj: Table<Vec<EdgeRef>>,
    in_adj: Table<Vec<EdgeRef>>,
    pool: Interner,
    edges: Ghost<Seq<Edge>>,
}

/// The entries a table lists under `key`.
spec fn listed(t: &Table<Vec<EdgeRef>>, key: Seq<char>) -> Seq<EdgeRef> {
    if t@.dom().contains(key) {
        t@[key]@
    } else {
        Seq::empty()
    }
}

/// Whether the outgoing index lists exactly `edges`.
spec fn out_indexed(t: &Table<Vec<EdgeRef>>, p: &Interner, edges: Seq<Edge>) -> bool {
    &&& t.wf()
    &&& forall|s: Seq<char>| #[trigger] t@.dom().contains(s) ==> t@[s]@.len() > 0
    &&& forall|s: Seq<char>| #[trigger] listed(t, s).len() == leaving(edges, s).len()
    &&& forall|s: Seq<char>, i: int|
        0 <= i < listed(t, s).len() ==> (#[trigger] listed(t, s)[i]).shows_in(
            p,
            leaving(edges, s)[i],
            leaving(edges, s)[i].target,
        )
}

/// Whether the incoming index lists exactly `edges`.
spec fn in_indexed(t: &Table<Vec<EdgeRef>>, p: &Interner, edges: Seq<Edge>) -> bool {
    &&& t.wf()
    &&& forall|s: Seq<char>| #[trigger] t@.dom().contains(s) ==> t@[s]@.len() > 0
    &&& forall|s: Seq<char>| #[trigger] listed(t, s).len() == entering(edges, s).len()
    &&& forall|s: Seq<char>, i: int|
        0 <= i < listed(t, s).len() ==> (#[trigger] listed(t, s)[i]).shows_in(
            p,
            entering(edges, s)[i],
            entering(edges, s)[i].source,
        )
}

/// What the rows of the node table are estimated to occupy.
spec fn rows_bytes(rows: Seq<(String, NodeData)>) -> nat
    decreases rows.len(),
{
    if rows.len() == 0 {
        0
    } else {
        rows_bytes(rows.drop_last()) + node_bytes(rows.last().0@, rows.last().1@)
    }
}

proof fn lemma_rows_inserted(rows: Seq<(String, NodeData)>, i: int, row: (String, NodeData))
    requires
        0 <= i <= rows.len(),
    ensures
        rows_bytes(rows.insert(i, row)) == rows_bytes(rows) + node_bytes(row.0@, row.1@),
    decreases rows.len(),
{
    if i == rows.len() {
        assert(rows.insert(i, row).drop_last() =~= rows);
    } else {
        assert(rows.insert(i, row).drop_last() =~= rows.drop_last().insert(i, row));
        lemma_rows_inserted(rows.drop_last(), i, row);
    }
}

proof fn lemma_rows_updated(rows: Seq<(String, NodeData)>, i: int, row: (String, NodeData))
    requires
        0 <= i < rows.len(),
    ensures
        rows_bytes(rows.update(i, row)) + node_bytes(rows[i].0@, rows[i].1@) == rows_bytes(rows)
            + node_bytes(row.0@, row.1@),
    decreases rows.len(),
{
    if i == rows.len() - 1 {
        assert(rows.update(i, row).drop_last() =~= rows.drop_last());
    } else {
        assert(rows.update(i, row).drop_last() =~= rows.drop_last().update(i, row));
        lemma_rows_updated(rows.drop_last(), i, row);
    }
}

impl View for Subgraph {
    type V = GraphView;

    closed spec fn view(&self) -> GraphView {
        GraphView {
            nodes: self.nodes@.map_values(|d: NodeData| d@),
            edges: self.edges@,
            pooled: self.pool.pooled(),
        }
    }
}

impl Subgraph {
    /// Both indices list the same edges, and the pool is sound.
    pub closed spec fn wf(&self) -> bool {
        &&& self.nodes.wf()
        &&& self.pool.wf()
        &&& out_indexed(&self.out_adj, &self.pool, self.edges@)
        &&& in_indexed(&self.in_adj, &self.pool, self.edges@)
    }

    /// How many distinct strings the pool holds.
    pub closed spec fn pool_size(&self) -> nat {
        self.pool.count()
    }

    /// How many distinct strings the pool holds.
    pub(crate) fn pool_len(&self) -> (n: usize)
        ensures
            n == self.pool_size(),
    {
        self.pool.len()
    }

    /// What the pool is estimated to occupy.
    pub closed spec fn pool_bytes(&self) -> nat {
        self.pool.cost()
    }

    /// What the nodes are estimated to occupy.
    pub closed spec fn node_total(&self) -> nat {
        rows_bytes(self.nodes.rows@)
    }

    /// What the graph is estimated to occupy: its nodes, two entries per edge,
    /// and its pool.
    pub open spec fn estimate(&self) -> nat {
        self.node_total() + 2 * vstd::layout::size_of::<EdgeRef>() * self@.edges.len() + self.pool_bytes()
    }

    /// A graph without nodes and edges.
    pub fn new() -> (g: Subgraph)
        ensures
            g.wf(),
            g.estimate() == 0,
            g@.nodes == Map::<Seq<char>, NodeView>::empty(),
            g@.edges == Seq::<Edge>::empty(),
            g@.pooled == Set::<Seq<char>>::empty(),
            g.pool_size() == 0,
            g.pool_bytes() == 0,
    {
        let g = Subgraph {
            nodes: Table::new(),
            out_adj: Table::new(),
            in_adj: Table::new(),
            pool: Interner::new(),
            edges: Ghost(Seq::empty()),
        };
        proof {
            assert(g@.nodes =~= Map::empty());
        }
        g
    }
}

impl Default for Subgraph {
    fn default() -> (g: Subgraph)
        ensures
            g.wf(),
            g.estimate() == 0,
            g@.nodes == Map::<Seq<char>, NodeView>::empty(),
            g@.edges == Seq::<Edge>::empty(),
            g@.pooled == Set::<Seq<char>>::empty(),
            g.pool_size() == 0,
            g.pool_bytes() == 0,
    {
        Subgraph::new()
    }
}

/// Appends `r` to the list under `key`.
fn list_under(t: &mut Table<Vec<EdgeRef>>, key: &str, r: EdgeRef)
    requires
        old(t).wf(),
    ensures
        final(t).wf(),
        listed(final(t), key@) == listed(old(t), key@).push(r),
        forall|k: Seq<char>| k != key@ ==> #[trigger] listed(final(t), k) == listed(old(t), k),
        forall|k: Seq<char>| #[trigger]
            final(t)@.dom().contains(k) <==> old(t)@.dom().contains(k) || k == key@,
{
    match t.find(key) {
        Ok(i) => {
            proof {
                t.lemma_at(key@, i as int);
            }
            let mut list = t.replace(i, Vec::new());
            list.push(r);
            t.replace(i, list);
        },
        Err(i) => {
            let mut list: Vec<EdgeRef> = Vec::new();
            list.push(r);
            t.place(i, key.to_owned(), list);
            proof {
                assert(listed(t, key@) =~= listed(old(t), key@).push(r));
            }
        },
    }
}

/// One more edge is the last of those that leave its source and of those that
/// enter its target, and is listed nowhere else.
pub proof fn law_an_edge_is_listed_last(edges: Seq<Edge>, e: Edge)
    ensures
        forall|s: Seq<char>| #[trigger]
            leaving(edges.push(e), s) == if s == e.source {
                leaving(edges, s).push(e)
            } else {
                leaving(edges, s)
            },
        forall|t: Seq<char>| #[trigger]
            entering(edges.push(e), t) == if t == e.target {
                entering(edges, t).push(e)
            } else {
                entering(edges, t)
            },
{
    assert(edges.push(e).drop_last() =~= edges);
}

/// What pooling the strings of an edge adds to a pool, one after the other.
pub open spec fn fresh_edge_bytes(
    pooled: Set<Seq<char>>,
    source: Seq<char>,
    target: Seq<char>,
    edge_type: Seq<char>,
    valid_from: Seq<char>,
    valid_to: Seq<char>,
) -> nat {
    let p1 = pooled.insert(source);
    let p2 = p1.insert(target);
    let p3 = p2.insert(edge_type);
    let p4 = p3.insert(valid_from);
    pool::fresh_bytes(pooled, source) + pool::fresh_bytes(p1, target) + pool::fresh_bytes(p2, edge_type)
        + pool::fresh_bytes(p3, valid_from) + pool::fresh_bytes(p4, valid_to)
}

/// How many strings pooling those of an edge adds.
pub open spec fn fresh_edge_count(
    pooled: Set<Seq<char>>,
    source: Seq<char>,
    target: Seq<char>,
    edge_type: Seq<char>,
    valid_from: Seq<char>,
    valid_to: Seq<char>,
) -> nat {
    let p1 = pooled.insert(source);
    let p2 = p1.insert(target);
    let p3 = p2.insert(edge_type);
    let p4 = p3.insert(valid_from);
    pool::fresh_count(pooled, source) + pool::fresh_count(p1, target) + pool::fresh_count(p2, edge_type)
        + pool::fresh_count(p3, valid_from) + pool::fresh_count(p4, valid_to)
}

fn entry_cost(s: &str) -> (n: u128)
    ensures
        n == pool::entry_bytes(s@),
        n <= 4 * usize::MAX,
{
    2 * s.as_bytes().len() as u128 + core::mem::size_of::<String>() as u128
        + core::mem::size_of::<u32>() as u128
}

impl Subgraph {
    /// Whether one more edge with these texts fits the pool's index and what the
    /// pool counts.
    pub open spec fn takes(
        &self,
        source: Seq<char>,
        target: Seq<char>,
        edge_type: Seq<char>,
        valid_from: Seq<char>,
        valid_to: Seq<char>,
    ) -> bool {
        let pooled = self@.pooled;
        let bytes = fresh_edge_bytes(pooled, source, target, edge_type, valid_from, valid_to);
        &&& self.pool_size() + fresh_edge_count(pooled, source, target, edge_type, valid_from, valid_to) <= u32::MAX
            + 1
        &&& self.pool_bytes() + bytes <= usize::MAX
        &&& 2 * vstd::layout::size_of::<EdgeRef>() + bytes <= usize::MAX
    }

    /// What pooling `s` costs, and one for it, where it is neither held nor among
    /// the others.
    fn fresh(&self, s: &str, among: bool, pooled: Ghost<Set<Seq<char>>>) -> (n: (u128, u64))
        requires
            self.wf(),
            pooled@.contains(s@) == (among || self@.pooled.contains(s@)),
        ensures
            n.0 == pool::fresh_bytes(pooled@, s@),
            n.0 <= 4 * usize::MAX,
            n.1 == pool::fresh_count(pooled@, s@),
    {
        if among || self.pool.index_of(s).is_some() {
            (0, 0)
        } else {
            (entry_cost(s), 1)
        }
    }

    /// What an edge with these texts adds to the graph's bytes, and how many
    /// strings to its pool.
    pub(crate) fn edge_cost(&self, source: &str, target: &str, edge_type: &str, valid_from: &str, valid_to: &str) -> (cost:
        (u128, u64))
        requires
            self.wf(),
        ensures
            cost.0 == 2 * vstd::layout::size_of::<EdgeRef>() + fresh_edge_bytes(
                self@.pooled,
                source@,
                target@,
                edge_type@,
                valid_from@,
                valid_to@,
            ),
            cost.1 == fresh_edge_count(self@.pooled, source@, target@, edge_type@, valid_from@, valid_to@),
            cost.0 <= 22 * usize::MAX,
    {
        let ghost pooled = self@.pooled;
        let ghost p1 = pooled.insert(source@);
        let ghost p2 = p1.insert(target@);
        let ghost p3 = p2.insert(edge_type@);
        let ghost p4 = p3.insert(valid_from@);
        let a = self.fresh(source, false, Ghost(pooled));
        let b = self.fresh(target, same(target, source), Ghost(p1));
        let c = self.fresh(edge_type, same(edge_type, source) || same(edge_type, target), Ghost(p2));
        let d = self.fresh(
            valid_from,
            same(valid_from, source) || same(valid_from, target) || same(valid_from, edge_type),
            Ghost(p3),
        );
        let e = self.fresh(
            valid_to,
            same(valid_to, source) || same(valid_to, target) || same(valid_to, edge_type) || same(valid_to, valid_from),
            Ghost(p4),
        );
        (
            2 * core::mem::size_of::<EdgeRef>() as u128 + a.0 + b.0 + c.0 + d.0 + e.0,
            a.1 + b.1 + c.1 + d.1 + e.1,
        )
    }

    /// Whether one more edge with these texts fits the pool's index and what the
    /// pool counts.
    pub fn has_room(&self, source: &str, target: &str, edge_type: &str, valid_from: &str, valid_to: &str) -> (yes:
        bool)
        requires
            self.wf(),
        ensures
            yes == self.takes(source@, target@, edge_type@, valid_from@, valid_to@),
    {
        let (added, count) = self.edge_cost(source, target, edge_type, valid_from, valid_to);
        let entries: u128 = 2 * core::mem::size_of::<EdgeRef>() as u128;
        self.pool.len() as u128 + count as u128 <= u32::MAX as u128 + 1 && self.pool.estimated_bytes() as u128 + (added
            - entries) <= usize::MAX as u128 && added <= usize::MAX as u128
    }

    /// Records an edge in both directions.
    ///
    /// Returns the bytes it added: two entries, and whatever strings were new.
    pub fn add_edge(
        &mut self,
        source: &str,
        target: &str,
        edge_type: &str,
        weight: u64,
        valid_from: &str,
        valid_to: &str,
    ) -> (added: usize)
        requires
            old(self).wf(),
            old(self).takes(source@, target@, edge_type@, valid_from@, valid_to@),
        ensures
            final(self).wf(),
            final(self)@.nodes == old(self)@.nodes,
            final(self)@.edges == old(self)@.edges.push(
                Edge {
                    source: source@,
                    target: target@,
                    edge_type: edge_type@,
                    weight,
                    valid_from: valid_from@,
                    valid_to: valid_to@,
                },
            ),
            final(self)@.pooled == old(self)@.pooled.insert(source@).insert(target@).insert(
                edge_type@,
            ).insert(valid_from@).insert(valid_to@),
            added == 2 * vstd::layout::size_of::<EdgeRef>() + fresh_edge_bytes(
                old(self)@.pooled,
                source@,
                target@,
                edge_type@,
                valid_from@,
                valid_to@,
            ),
            final(self).pool_bytes() == old(self).pool_bytes() + added - 2 * vstd::layout::size_of::<
                EdgeRef,
            >(),
            final(self).node_total() == old(self).node_total(),
            final(self).estimate() == old(self).estimate() + added,
            final(self).pool_size() == old(self).pool_size() + fresh_edge_count(
                old(self)@.pooled,
                source@,
                target@,
                edge_type@,
                valid_from@,
                valid_to@,
            ),
    {
        let ghost before = *self;
        let (src, b1) = self.pool.intern(source);
        let ghost p1 = self.pool;
        let (tgt, b2) = self.pool.intern(target);
        let ghost p2 = self.pool;
        let (ty, b3) = self.pool.intern(edge_type);
        let ghost p3 = self.pool;
        let (from, b4) = self.pool.intern(valid_from);
        let ghost p4 = self.pool;
        let (to, b5) = self.pool.intern(valid_to);
        let pooled: usize = b1 + b2 + b3 + b4 + b5;
        let out_ref = EdgeRef { node: tgt, edge_type: ty, weight, valid_from: from, valid_to: to };
        let in_ref = EdgeRef { node: src, edge_type: ty, weight, valid_from: from, valid_to: to };
        list_under(&mut self.out_adj, source, out_ref);
        list_under(&mut self.in_adj, target, in_ref);
        let ghost e = Edge {
            source: source@,
            target: target@,
            edge_type: edge_type@,
            weight,
            valid_from: valid_from@,
            valid_to: valid_to@,
        };
        self.edges = Ghost(self.edges@.push(e));
        proof {
            law_an_edge_is_listed_last(before.edges@, e);
            assert forall|i: int| 0 <= i < before.pool.count() implies #[trigger] self.pool.text(i)
                == before.pool.text(i) by {
                assert(p1.text(i) == before.pool.text(i));
                assert(p2.text(i) == p1.text(i));
                assert(p3.text(i) == p2.text(i));
                assert(p4.text(i) == p3.text(i));
            }
            assert(p1.text(src as int) == source@);
            assert(p2.text(src as int) == p1.text(src as int));
            assert(p3.text(src as int) == p2.text(src as int));
            assert(p4.text(src as int) == p3.text(src as int));
            assert(self.pool.text(src as int) == p4.text(src as int));
            assert(p3.text(tgt as int) == p2.text(tgt as int));
            assert(p4.text(tgt as int) == p3.text(tgt as int));
            assert(self.pool.text(tgt as int) == p4.text(tgt as int));
            assert(p4.text(ty as int) == p3.text(ty as int));
            assert(self.pool.text(ty as int) == p4.text(ty as int));
            assert(self.pool.text(from as int) == p4.text(from as int));
            assert(out_ref.shows_in(&self.pool, e, e.target));
            assert(in_ref.shows_in(&self.pool, e, e.source));
            assert forall|s: Seq<char>| #[trigger] listed(&self.out_adj, s).len() == leaving(
                self.edges@,
                s,
            ).len() by {
                assert(listed(&before.out_adj, s).len() == leaving(before.edges@, s).len());
            }
            assert forall|s: Seq<char>| #[trigger] listed(&self.in_adj, s).len() == entering(
                self.edges@,
                s,
            ).len() by {
                assert(listed(&before.in_adj, s).len() == entering(before.edges@, s).len());
            }
            assert forall|s: Seq<char>, i: int| 0 <= i < listed(&self.out_adj, s).len() implies (
            #[trigger] listed(&self.out_adj, s)[i]).shows_in(
                &self.pool,
                leaving(self.edges@, s)[i],
                leaving(self.edges@, s)[i].target,
            ) by {
                assert(listed(&before.out_adj, s).len() == leaving(before.edges@, s).len());
                if i < listed(&before.out_adj, s).len() {
                    assert(listed(&self.out_adj, s)[i] == listed(&before.out_adj, s)[i]);
                    assert(listed(&before.out_adj, s)[i].shows_in(
                        &before.pool,
                        leaving(before.edges@, s)[i],
                        leaving(before.edges@, s)[i].target,
                    ));
                }
            }
            assert forall|s: Seq<char>, i: int| 0 <= i < listed(&self.in_adj, s).len() implies (
            #[trigger] listed(&self.in_adj, s)[i]).shows_in(
                &self.pool,
                entering(self.edges@, s)[i],
                entering(self.edges@, s)[i].source,
            ) by {
                assert(listed(&before.in_adj, s).len() == entering(before.edges@, s).len());
                if i < listed(&before.in_adj, s).len() {
                    assert(listed(&self.in_adj, s)[i] == listed(&before.in_adj, s)[i]);
                    assert(listed(&before.in_adj, s)[i].shows_in(
                        &before.pool,
                        entering(before.edges@, s)[i],
                        entering(before.edges@, s)[i].source,
                    ));
                }
            }
            assert forall|s: Seq<char>| #[trigger] self.out_adj@.dom().contains(s) implies self.out_adj@[s]@.len()
                > 0 by {
                assert(listed(&self.out_adj, s) == self.out_adj@[s]@);
                if s != source@ {
                    assert(before.out_adj@.dom().contains(s));
                    assert(listed(&before.out_adj, s) == before.out_adj@[s]@);
                }
            }
            assert forall|s: Seq<char>| #[trigger] self.in_adj@.dom().contains(s) implies self.in_adj@[s]@.len()
                > 0 by {
                assert(listed(&self.in_adj, s) == self.in_adj@[s]@);
                if s != target@ {
                    assert(before.in_adj@.dom().contains(s));
                    assert(listed(&before.in_adj, s) == before.in_adj@[s]@);
                }
            }
        }
        proof {
            let w = 2 * vstd::layout::size_of::<EdgeRef>();
            vstd::arithmetic::mul::lemma_mul_is_distributive_add(w as int, before.edges@.len() as int, 1);
        }
        2 * core::mem::size_of::<EdgeRef>() + pooled
    }
}

/// Whether `refs` are the entries that stand for `edges`, seen from their
/// sources.
pub open spec fn shows_targets(graph: &Subgraph, refs: Seq<EdgeRef>, edges: Seq<Edge>) -> bool {
    &&& refs.len() == edges.len()
    &&& forall|i: int|
        0 <= i < refs.len() ==> (#[trigger] refs[i]).within(graph) && refs[i].shows(
            graph,
            edges[i],
            edges[i].target,
        )
}

/// Whether `refs` are the entries that stand for `edges`, seen from their
/// targets.
pub open spec fn shows_sources(graph: &Subgraph, refs: Seq<EdgeRef>, edges: Seq<Edge>) -> bool {
    &&& refs.len() == edges.len()
    &&& forall|i: int|
        0 <= i < refs.len() ==> (#[trigger] refs[i]).within(graph) && refs[i].shows(
            graph,
            edges[i],
            edges[i].source,
        )
}

impl Subgraph {
    /// Whether `id` is a node.
    pub fn contains_node(&self, id: &str) -> (yes: bool)
        requires
            self.wf(),
        ensures
            yes == self@.nodes.dom().contains(id@),
    {
        self.nodes.contains(id)
    }

    /// The attributes of `id`, or `None` where it is not a node.
    pub fn node(&self, id: &str) -> (d: Option<&NodeData>)
        requires
            self.wf(),
        ensures
            d.is_some() == self@.nodes.dom().contains(id@),
            d.is_some() ==> d.unwrap()@ == self@.nodes[id@],
    {
        self.nodes.get(id)
    }

    /// How many nodes there are.
    pub closed spec fn size(&self) -> nat {
        self.nodes.rows@.len()
    }

    /// The id of the `i`-th node in ascending order.
    pub closed spec fn id_at(&self, i: int) -> Seq<char> {
        self.nodes.rows@[i].0@
    }

    /// The ids stand in strictly ascending order, and are those of the nodes.
    pub proof fn lemma_ids(&self)
        requires
            self.wf(),
        ensures
            forall|i: int, j: int|
                0 <= i < j < self.size() ==> text::text_lt(#[trigger] self.id_at(i), #[trigger] self.id_at(j)),
            forall|i: int| 0 <= i < self.size() ==> self@.nodes.dom().contains(#[trigger] self.id_at(i)),
            forall|id: Seq<char>| #[trigger]
                self@.nodes.dom().contains(id) ==> exists|i: int| 0 <= i < self.size() && self.id_at(i) == id,
    {
        assert forall|i: int| 0 <= i < self.size() implies self@.nodes.dom().contains(
            #[trigger] self.id_at(i),
        ) by {
            assert(self.nodes.at(self.id_at(i), i));
            self.nodes.lemma_at(self.id_at(i), i);
        }
        assert forall|id: Seq<char>| #[trigger] self@.nodes.dom().contains(id) implies exists|i: int|
            0 <= i < self.size() && self.id_at(i) == id by {
            assert(self.nodes.has(id));
            let i = choose|i: int| self.nodes.at(id, i);
            assert(self.id_at(i) == id);
        }
    }

    /// Where `id` stands among the nodes in ascending order.
    pub(crate) fn place(&self, id: &str) -> (at: Option<usize>)
        requires
            self.wf(),
        ensures
            at.is_some() == self@.nodes.dom().contains(id@),
            at matches Some(i) ==> i < self.size() && self.id_at(i as int) == id@,
    {
        match self.nodes.find(id) {
            Ok(i) => Some(i),
            Err(_) => None,
        }
    }

    /// The id of the `i`-th node in ascending order.
    pub(crate) fn id(&self, i: usize) -> (id: &str)
        requires
            i < self.size(),
        ensures
            id@ == self.id_at(i as int),
    {
        self.nodes.rows[i].0.as_str()
    }

    /// The number of nodes.
    pub fn node_count(&self) -> (n: usize)
        ensures
            n == self.size(),
    {
        self.nodes.rows.len()
    }

    /// The ids of the nodes, ascending.
    pub fn node_ids(&self) -> (ids: Vec<&str>)
        requires
            self.wf(),
        ensures
            ids@.len() == self.size(),
            forall|i: int| 0 <= i < ids@.len() ==> (#[trigger] ids@[i])@ == self.id_at(i),
    {
        let mut ids: Vec<&str> = Vec::new();
        let mut i: usize = 0;
        while i < self.nodes.rows.len()
            invariant
                i <= self.nodes.rows@.len(),
                ids@.len() == i,
                forall|j: int| 0 <= j < i ==> (#[trigger] ids@[j])@ == self.id_at(j),
            decreases self.nodes.rows@.len() - i,
        {
            ids.push(self.nodes.rows[i].0.as_str());
            i = i + 1;
        }
        ids
    }

    /// Every node with its attributes, ascending by id.
    pub fn nodes(&self) -> (all: Vec<(&str, &NodeData)>)
        requires
            self.wf(),
        ensures
            all@.len() == self.size(),
            forall|i: int|
                0 <= i < all@.len() ==> (#[trigger] all@[i]).0@ == self.id_at(i) && all@[i].1@
                    == self@.nodes[self.id_at(i)],
    {
        let mut all: Vec<(&str, &NodeData)> = Vec::new();
        let mut i: usize = 0;
        while i < self.nodes.rows.len()
            invariant
                self.wf(),
                i <= self.nodes.rows@.len(),
                all@.len() == i,
                forall|j: int|
                    0 <= j < i ==> (#[trigger] all@[j]).0@ == self.id_at(j) && all@[j].1@
                        == self@.nodes[self.id_at(j)],
            decreases self.nodes.rows@.len() - i,
        {
            proof {
                assert(self.nodes.at(self.id_at(i as int), i as int));
                self.nodes.lemma_at(self.id_at(i as int), i as int);
            }
            all.push((self.nodes.rows[i].0.as_str(), &self.nodes.rows[i].1));
            i = i + 1;
        }
        all
    }

    /// Adds or replaces a node, handing back what was there.
    pub fn insert_node(&mut self, id: &str, data: NodeData) -> (held: Option<NodeData>)
        requires
            old(self).wf(),
        ensures
            final(self).wf(),
            final(self)@.nodes == old(self)@.nodes.insert(id@, data@),
            final(self)@.edges == old(self)@.edges,
            final(self)@.pooled == old(self)@.pooled,
            final(self).pool_size() == old(self).pool_size(),
            final(self).pool_bytes() == old(self).pool_bytes(),
            held.is_some() == old(self)@.nodes.dom().contains(id@),
            held.is_some() ==> held.unwrap()@ == old(self)@.nodes[id@],
            final(self).estimate() + match held {
                Some(d) => node_bytes(id@, d@),
                None => 0,
            } == old(self).estimate() + node_bytes(id@, data@),
    {
        let ghost before = *self;
        let ghost put = data@;
        match self.nodes.find(id) {
            Ok(i) => {
                proof {
                    before.nodes.lemma_at(id@, i as int);
                }
                let held = self.nodes.replace(i, data);
                proof {
                    lemma_rows_updated(before.nodes.rows@, i as int, (before.nodes.rows@[i as int].0, data));
                    assert(self@.nodes =~= before@.nodes.insert(id@, put));
                }
                Some(held)
            },
            Err(i) => {
                let key = id.to_owned();
                proof {
                    lemma_rows_inserted(before.nodes.rows@, i as int, (key, data));
                }
                self.nodes.place(i, key, data);
                proof {
                    assert(self@.nodes =~= before@.nodes.insert(id@, put));
                }
                None
            },
        }
    }

    /// The outgoing entries of `node`: empty where it has none or is absent.
    pub fn out_edges(&self, node: &str) -> (refs: &[EdgeRef])
        requires
            self.wf(),
        ensures
            shows_targets(self, refs@, leaving(self@.edges, node@)),
    {
        assert(listed(&self.out_adj, node@).len() == leaving(self.edges@, node@).len());
        match self.out_adj.get(node) {
            Some(list) => {
                proof {
                    assert(listed(&self.out_adj, node@) == list@);
                    assert forall|i: int| 0 <= i < list@.len() implies (#[trigger] list@[i]).within(self)
                        && list@[i].shows(
                        self,
                        leaving(self@.edges, node@)[i],
                        leaving(self@.edges, node@)[i].target,
                    ) by {
                        assert(listed(&self.out_adj, node@)[i].within_pool(&self.pool));
                    }
                }
                list.as_slice()
            },
            None => &[],
        }
    }

    /// The incoming entries of `node`: empty where it has none or is absent.
    pub fn in_edges(&self, node: &str) -> (refs: &[EdgeRef])
        requires
            self.wf(),
        ensures
            shows_sources(self, refs@, entering(self@.edges, node@)),
    {
        assert(listed(&self.in_adj, node@).len() == entering(self.edges@, node@).len());
        match self.in_adj.get(node) {
            Some(list) => {
                proof {
                    assert(listed(&self.in_adj, node@) == list@);
                    assert forall|i: int| 0 <= i < list@.len() implies (#[trigger] list@[i]).within(self)
                        && list@[i].shows(
                        self,
                        entering(self@.edges, node@)[i],
                        entering(self@.edges, node@)[i].source,
                    ) by {
                        assert(listed(&self.in_adj, node@)[i].within_pool(&self.pool));
                    }
                }
                list.as_slice()
            },
            None => &[],
        }
    }

    /// The entries incident to `node`: parallel edges once each, a self-loop
    /// twice.
    pub fn degree(&self, node: &str) -> (n: usize)
        requires
            self.wf(),
            2 * self@.edges.len() <= usize::MAX,
        ensures
            n == leaving(self@.edges, node@).len() + entering(self@.edges, node@).len(),
    {
        proof {
            lemma_no_longer(self@.edges, node@);
        }
        self.out_edges(node).len() + self.in_edges(node).len()
    }
}

proof fn lemma_no_longer(edges: Seq<Edge>, id: Seq<char>)
    ensures
        leaving(edges, id).len() <= edges.len(),
        entering(edges, id).len() <= edges.len(),
    decreases edges.len(),
{
    if edges.len() > 0 {
        lemma_no_longer(edges.drop_last(), id);
    }
}

/// Whether `keys` strictly ascend.
pub open spec fn ascending(keys: Seq<Seq<char>>) -> bool {
    forall|i: int, j: int| 0 <= i < j < keys.len() ==> text::text_lt(#[trigger] keys[i], #[trigger] keys[j])
}

spec fn keys_of(t: &Table<Vec<EdgeRef>>) -> Seq<Seq<char>> {
    Seq::new(t.rows@.len(), |i: int| t.rows@[i].0@)
}

/// How many edges leave the nodes in `keys`.
spec fn leaving_total(keys: Seq<Seq<char>>, edges: Seq<Edge>) -> nat
    decreases keys.len(),
{
    if keys.len() == 0 {
        0
    } else {
        leaving_total(keys.drop_last(), edges) + leaving(edges, keys.last()).len()
    }
}

spec fn times(keys: Seq<Seq<char>>, key: Seq<char>) -> nat
    decreases keys.len(),
{
    if keys.len() == 0 {
        0
    } else {
        times(keys.drop_last(), key) + if keys.last() == key {
            1nat
        } else {
            0nat
        }
    }
}

proof fn lemma_times_once(keys: Seq<Seq<char>>, key: Seq<char>)
    requires
        ascending(keys),
    ensures
        times(keys, key) == if keys.contains(key) {
            1nat
        } else {
            0nat
        },
    decreases keys.len(),
{
    if keys.len() > 0 {
        let init = keys.drop_last();
        assert(ascending(init)) by {
            assert forall|i: int, j: int| 0 <= i < j < init.len() implies text::text_lt(
                #[trigger] init[i],
                #[trigger] init[j],
            ) by {
                assert(text::text_lt(keys[i], keys[j]));
            }
        }
        lemma_times_once(init, key);
        if keys.last() == key {
            assert(keys[keys.len() - 1] == key);
            if init.contains(key) {
                let i = choose|i: int| 0 <= i < init.len() && init[i] == key;
                assert(text::text_lt(keys[i], keys[keys.len() - 1]));
                text::lemma_text_lt_asymmetric(key, key);
            }
        } else if keys.contains(key) {
            let i = choose|i: int| 0 <= i < keys.len() && keys[i] == key;
            assert(init[i] == key);
        } else if init.contains(key) {
            let i = choose|i: int| 0 <= i < init.len() && init[i] == key;
            assert(keys[i] == key);
        }
    }
}

proof fn lemma_total_push(keys: Seq<Seq<char>>, edges: Seq<Edge>)
    requires
        edges.len() > 0,
    ensures
        leaving_total(keys, edges) == leaving_total(keys, edges.drop_last()) + times(
            keys,
            edges.last().source,
        ),
    decreases keys.len(),
{
    if keys.len() > 0 {
        lemma_total_push(keys.drop_last(), edges);
    }
}

proof fn lemma_total_is_count(keys: Seq<Seq<char>>, edges: Seq<Edge>)
    requires
        ascending(keys),
        forall|i: int| 0 <= i < edges.len() ==> keys.contains((#[trigger] edges[i]).source),
    ensures
        leaving_total(keys, edges) == edges.len(),
    decreases edges.len(),
{
    if edges.len() == 0 {
        lemma_total_of_none(keys);
        assert(edges =~= Seq::empty());
    } else {
        let init = edges.drop_last();
        assert forall|i: int| 0 <= i < init.len() implies keys.contains((#[trigger] init[i]).source) by {
            assert(init[i] == edges[i]);
        }
        lemma_total_is_count(keys, init);
        lemma_total_push(keys, edges);
        lemma_times_once(keys, edges.last().source);
        assert(keys.contains(edges[edges.len() - 1].source));
    }
}

proof fn lemma_total_of_none(keys: Seq<Seq<char>>)
    ensures
        leaving_total(keys, Seq::empty()) == 0,
    decreases keys.len(),
{
    if keys.len() > 0 {
        lemma_total_of_none(keys.drop_last());
    }
}

/// An edge is among those that leave its source, and enters its target.
pub proof fn lemma_edge_is_listed(edges: Seq<Edge>, i: int)
    requires
        0 <= i < edges.len(),
    ensures
        leaving(edges, edges[i].source).contains(edges[i]),
        entering(edges, edges[i].target).contains(edges[i]),
    decreases edges.len(),
{
    let e = edges[i];
    if i == edges.len() - 1 {
        assert(leaving(edges, e.source).last() == e);
        assert(entering(edges, e.target).last() == e);
    } else {
        lemma_edge_is_listed(edges.drop_last(), i);
        assert(edges.drop_last()[i] == e);
        let a = leaving(edges.drop_last(), e.source);
        let j = choose|j: int| 0 <= j < a.len() && a[j] == e;
        assert(leaving(edges, e.source)[j] == e);
        let b = entering(edges.drop_last(), e.target);
        let k = choose|k: int| 0 <= k < b.len() && b[k] == e;
        assert(entering(edges, e.target)[k] == e);
    }
}

/// What leaves a node is an edge of that source; what enters, of that target.
pub proof fn lemma_listed_is_edge(edges: Seq<Edge>, id: Seq<char>)
    ensures
        forall|i: int|
            0 <= i < leaving(edges, id).len() ==> (#[trigger] leaving(edges, id)[i]).source == id
                && edges.contains(leaving(edges, id)[i]),
        forall|i: int|
            0 <= i < entering(edges, id).len() ==> (#[trigger] entering(edges, id)[i]).target == id
                && edges.contains(entering(edges, id)[i]),
    decreases edges.len(),
{
    if edges.len() > 0 {
        let init = edges.drop_last();
        lemma_listed_is_edge(init, id);
        assert forall|e: Edge| #[trigger] init.contains(e) implies edges.contains(e) by {
            let j = choose|j: int| 0 <= j < init.len() && init[j] == e;
            assert(edges[j] == e);
        }
        assert(edges[edges.len() - 1] == edges.last());
        assert(edges.contains(edges.last()));
        assert forall|i: int| 0 <= i < leaving(edges, id).len() implies (#[trigger] leaving(edges, id)[i]).source
            == id && edges.contains(leaving(edges, id)[i]) by {
            if i < leaving(init, id).len() {
                assert(leaving(edges, id)[i] == leaving(init, id)[i]);
            }
        }
        assert forall|i: int| 0 <= i < entering(edges, id).len() implies (#[trigger] entering(
            edges,
            id,
        )[i]).target == id && edges.contains(entering(edges, id)[i]) by {
            if i < entering(init, id).len() {
                assert(entering(edges, id)[i] == entering(init, id)[i]);
            }
        }
    }
}

impl Subgraph {
    /// Every source of an edge has a row in the outgoing index.
    proof fn lemma_sources_listed(&self)
        requires
            self.wf(),
        ensures
            ascending(keys_of(&self.out_adj)),
            forall|i: int|
                0 <= i < self.edges@.len() ==> keys_of(&self.out_adj).contains((#[trigger] self.edges@[i]).source),
    {
        let keys = keys_of(&self.out_adj);
        assert forall|i: int, j: int| 0 <= i < j < keys.len() implies text::text_lt(
            #[trigger] keys[i],
            #[trigger] keys[j],
        ) by {
            assert(text::text_lt(self.out_adj.rows@[i].0@, self.out_adj.rows@[j].0@));
        }
        assert forall|i: int| 0 <= i < self.edges@.len() implies keys.contains(
            (#[trigger] self.edges@[i]).source,
        ) by {
            let s = self.edges@[i].source;
            lemma_edge_is_listed(self.edges@, i);
            assert(listed(&self.out_adj, s).len() == leaving(self.edges@, s).len());
            assert(self.out_adj.has(s));
            let j = choose|j: int| self.out_adj.at(s, j);
            assert(keys[j] == s);
        }
    }

    /// The number of edges.
    pub fn edge_count(&self) -> (n: usize)
        requires
            self.wf(),
            self@.edges.len() <= usize::MAX,
        ensures
            n == self@.edges.len(),
    {
        let ghost keys = keys_of(&self.out_adj);
        proof {
            self.lemma_sources_listed();
            lemma_total_is_count(keys, self.edges@);
            assert(keys.take(0) =~= Seq::empty());
        }
        let mut n: usize = 0;
        let mut i: usize = 0;
        while i < self.out_adj.rows.len()
            invariant
                self.wf(),
                self@.edges.len() <= usize::MAX,
                keys == keys_of(&self.out_adj),
                leaving_total(keys, self.edges@) == self.edges@.len(),
                i <= self.out_adj.rows@.len(),
                n == leaving_total(keys.take(i as int), self.edges@),
            decreases self.out_adj.rows@.len() - i,
        {
            proof {
                let s = keys[i as int];
                assert(self.out_adj.at(s, i as int));
                self.out_adj.lemma_at(s, i as int);
                assert(listed(&self.out_adj, s).len() == leaving(self.edges@, s).len());
                assert(keys.take(i + 1).drop_last() =~= keys.take(i as int));
                lemma_total_monotone(keys, self.edges@, i + 1);
            }
            n = n + self.out_adj.rows[i].1.len();
            i = i + 1;
        }
        proof {
            assert(keys.take(i as int) =~= keys);
        }
        n
    }
}

proof fn lemma_total_monotone(keys: Seq<Seq<char>>, edges: Seq<Edge>, n: int)
    requires
        0 <= n <= keys.len(),
    ensures
        leaving_total(keys.take(n), edges) <= leaving_total(keys, edges),
    decreases keys.len(),
{
    if n == keys.len() {
        assert(keys.take(n) =~= keys);
    } else {
        assert(keys.drop_last().take(n) =~= keys.take(n));
        lemma_total_monotone(keys.drop_last(), edges, n);
    }
}

impl GraphView {
    /// Whether every edge joins two nodes of the graph.
    pub open spec fn is_closed(self) -> bool {
        forall|i: int|
            0 <= i < self.edges.len() ==> self.nodes.dom().contains((#[trigger] self.edges[i]).source)
                && self.nodes.dom().contains(self.edges[i].target)
    }
}

/// The edges both of whose ends are in `ids`, in order.
pub open spec fn joined(edges: Seq<Edge>, ids: Set<Seq<char>>) -> Seq<Edge>
    decreases edges.len(),
{
    if edges.len() == 0 {
        Seq::empty()
    } else if ids.contains(edges.last().source) && ids.contains(edges.last().target) {
        joined(edges.drop_last(), ids).push(edges.last())
    } else {
        joined(edges.drop_last(), ids)
    }
}

/// The edges of a list whose far end, as `far` names it, is in `ids`.
spec fn with_far(edges: Seq<Edge>, ids: Set<Seq<char>>, far: spec_fn(Edge) -> Seq<char>) -> Seq<Edge>
    decreases edges.len(),
{
    if edges.len() == 0 {
        Seq::empty()
    } else if ids.contains(far(edges.last())) {
        with_far(edges.drop_last(), ids, far).push(edges.last())
    } else {
        with_far(edges.drop_last(), ids, far)
    }
}

/// The entries whose far end is in `ids`.
spec fn refs_with_far(refs: Seq<EdgeRef>, p: &Interner, ids: Set<Seq<char>>) -> Seq<EdgeRef>
    decreases refs.len(),
{
    if refs.len() == 0 {
        Seq::empty()
    } else if ids.contains(p.text(refs.last().node as int)) {
        refs_with_far(refs.drop_last(), p, ids).push(refs.last())
    } else {
        refs_with_far(refs.drop_last(), p, ids)
    }
}

proof fn lemma_refs_follow(
    refs: Seq<EdgeRef>,
    edges: Seq<Edge>,
    p: &Interner,
    ids: Set<Seq<char>>,
    far: spec_fn(Edge) -> Seq<char>,
)
    requires
        refs.len() == edges.len(),
        forall|i: int| 0 <= i < refs.len() ==> (#[trigger] refs[i]).shows_in(p, edges[i], far(edges[i])),
    ensures
        refs_with_far(refs, p, ids).len() == with_far(edges, ids, far).len(),
        forall|i: int|
            0 <= i < refs_with_far(refs, p, ids).len() ==> (#[trigger] refs_with_far(
                refs,
                p,
                ids,
            )[i]).shows_in(p, with_far(edges, ids, far)[i], far(with_far(edges, ids, far)[i])),
    decreases refs.len(),
{
    if refs.len() > 0 {
        let r = refs.drop_last();
        let e = edges.drop_last();
        assert forall|i: int| 0 <= i < r.len() implies (#[trigger] r[i]).shows_in(p, e[i], far(e[i])) by {
            assert(refs[i].shows_in(p, edges[i], far(edges[i])));
        }
        lemma_refs_follow(r, e, p, ids, far);
        assert(refs[refs.len() - 1].shows_in(p, edges[refs.len() - 1], far(edges[refs.len() - 1])));
    }
}

proof fn lemma_joined_leaves(edges: Seq<Edge>, ids: Set<Seq<char>>, id: Seq<char>)
    ensures
        leaving(joined(edges, ids), id) == if ids.contains(id) {
            with_far(leaving(edges, id), ids, |e: Edge| e.target)
        } else {
            Seq::empty()
        },
        entering(joined(edges, ids), id) == if ids.contains(id) {
            with_far(entering(edges, id), ids, |e: Edge| e.source)
        } else {
            Seq::empty()
        },
    decreases edges.len(),
{
    if edges.len() > 0 {
        let init = edges.drop_last();
        let e = edges.last();
        lemma_joined_leaves(init, ids, id);
        if ids.contains(e.source) && ids.contains(e.target) {
            law_an_edge_is_listed_last(joined(init, ids), e);
        }
        if e.source == id {
            assert(leaving(edges, id).drop_last() =~= leaving(init, id));
        }
        if e.target == id {
            assert(entering(edges, id).drop_last() =~= entering(init, id));
        }
    }
}

/// The index without the rows and entries that name anything but a node.
fn prune(t: &Table<Vec<EdgeRef>>, nodes: &Table<NodeData>, p: &Interner) -> (kept: Table<Vec<EdgeRef>>)
    requires
        t.wf(),
        nodes.wf(),
        forall|i: int, j: int|
            0 <= i < t.rows@.len() && 0 <= j < t.rows@[i].1@.len() ==> (#[trigger] t.rows@[i].1@[j]).node
                < p.count(),
    ensures
        kept.wf(),
        forall|k: Seq<char>| #[trigger] kept@.dom().contains(k) ==> kept@[k]@.len() > 0,
        forall|k: Seq<char>| #[trigger]
            listed(&kept, k) == if nodes@.dom().contains(k) {
                refs_with_far(listed(t, k), p, nodes@.dom())
            } else {
                Seq::empty()
            },
{
    let mut kept: Table<Vec<EdgeRef>> = Table::new();
    let mut i: usize = 0;
    while i < t.rows.len()
        invariant
            t.wf(),
            nodes.wf(),
            forall|a: int, b: int|
                0 <= a < t.rows@.len() && 0 <= b < t.rows@[a].1@.len() ==> (#[trigger] t.rows@[a].1@[b]).node
                    < p.count(),
            i <= t.rows@.len(),
            kept.wf(),
            forall|j: int|
                0 <= j < kept.rows@.len() ==> (#[trigger] kept.rows@[j]).1@.len() > 0 && pruned_from(
                    t,
                    nodes,
                    p,
                    kept.rows@[j],
                    i as int,
                ),
            forall|a: int| 0 <= a < i ==> #[trigger] row_is_kept(t, nodes, p, &kept, a),
        decreases t.rows@.len() - i,
    {
        let key = t.rows[i].0.as_str();
        let ghost before = kept;
        if nodes.contains(key) {
            let list = &t.rows[i].1;
            let mut left: Vec<EdgeRef> = Vec::new();
            let mut j: usize = 0;
            proof {
                assert(list@.take(0) =~= Seq::empty());
            }
            while j < list.len()
                invariant
                    nodes.wf(),
                    j <= list@.len(),
                    forall|b: int| 0 <= b < list@.len() ==> (#[trigger] list@[b]).node < p.count(),
                    left@ == refs_with_far(list@.take(j as int), p, nodes@.dom()),
                decreases list@.len() - j,
            {
                let r = list[j];
                proof {
                    assert(list@.take(j + 1).drop_last() =~= list@.take(j as int));
                    assert(list@.take(j + 1).last() == r);
                }
                if nodes.contains(p.get(r.node)) {
                    left.push(r);
                }
                j = j + 1;
            }
            proof {
                assert(list@.take(j as int) =~= list@);
            }
            if left.len() > 0 {
                proof {
                    assert forall|j: int| 0 <= j < kept.rows@.len() implies text::text_lt(
                        (#[trigger] kept.rows@[j]).0@,
                        key@,
                    ) by {
                        assert(pruned_from(t, nodes, p, kept.rows@[j], i as int));
                        let a = choose|a: int| 0 <= a < i && #[trigger] t.rows@[a].0@ == kept.rows@[j].0@
                            && nodes@.dom().contains(t.rows@[a].0@) && kept.rows@[j].1@ == refs_with_far(
                            t.rows@[a].1@,
                            p,
                            nodes@.dom(),
                        );
                        assert(text::text_lt(t.rows@[a].0@, t.rows@[i as int].0@));
                    }
                }
                kept.place(kept.rows.len(), key.to_owned(), left);
                proof {
                    assert(kept.rows@ =~= before.rows@.push(kept.rows@.last()));
                    assert(t.rows@[i as int].0@ == kept.rows@.last().0@);
                    assert(pruned_from(t, nodes, p, kept.rows@.last(), i + 1));
                    assert(kept.at(key@, before.rows@.len() as int));
                }
            }
        }
        proof {
            assert forall|j: int| 0 <= j < kept.rows@.len() implies (#[trigger] kept.rows@[j]).1@.len() > 0
                && pruned_from(t, nodes, p, kept.rows@[j], i + 1) by {
                if j < before.rows@.len() {
                    assert(kept.rows@[j] == before.rows@[j]);
                    assert(pruned_from(t, nodes, p, before.rows@[j], i as int));
                    let a = choose|a: int| 0 <= a < i && #[trigger] t.rows@[a].0@ == before.rows@[j].0@
                        && nodes@.dom().contains(t.rows@[a].0@) && before.rows@[j].1@ == refs_with_far(
                        t.rows@[a].1@,
                        p,
                        nodes@.dom(),
                    );
                    assert(t.rows@[a].0@ == kept.rows@[j].0@);
                }
            }
            assert forall|a: int| 0 <= a < i + 1 implies #[trigger] row_is_kept(t, nodes, p, &kept, a) by {
                if a < i {
                    assert(row_is_kept(t, nodes, p, &before, a));
                    if nodes@.dom().contains(t.rows@[a].0@) && refs_with_far(t.rows@[a].1@, p, nodes@.dom()).len()
                        > 0 {
                        let j = choose|j: int| before.at(t.rows@[a].0@, j);
                        assert(kept.at(t.rows@[a].0@, j));
                    }
                }
            }
        }
        i = i + 1;
    }
    proof {
        assert forall|k: Seq<char>| #[trigger] kept@.dom().contains(k) implies kept@[k]@.len() > 0 by {
            let j = choose|j: int| kept.at(k, j);
            kept.lemma_at(k, j);
        }
        assert forall|k: Seq<char>| #[trigger] listed(&kept, k) == if nodes@.dom().contains(k) {
            refs_with_far(listed(t, k), p, nodes@.dom())
        } else {
            Seq::empty()
        } by {
            if kept@.dom().contains(k) {
                let j = choose|j: int| kept.at(k, j);
                kept.lemma_at(k, j);
                assert(pruned_from(t, nodes, p, kept.rows@[j], i as int));
                let a = choose|a: int| 0 <= a < i && #[trigger] t.rows@[a].0@ == kept.rows@[j].0@
                    && nodes@.dom().contains(t.rows@[a].0@) && kept.rows@[j].1@ == refs_with_far(
                    t.rows@[a].1@,
                    p,
                    nodes@.dom(),
                );
                assert(t.at(k, a));
                t.lemma_at(k, a);
            } else if t@.dom().contains(k) {
                let a = choose|a: int| t.at(k, a);
                t.lemma_at(k, a);
                assert(row_is_kept(t, nodes, p, &kept, a));
            }
        }
    }
    kept
}

spec fn pruned_from(
    t: &Table<Vec<EdgeRef>>,
    nodes: &Table<NodeData>,
    p: &Interner,
    row: (String, Vec<EdgeRef>),
    upto: int,
) -> bool {
    exists|a: int|
        0 <= a < upto && #[trigger] t.rows@[a].0@ == row.0@ && nodes@.dom().contains(t.rows@[a].0@)
            && row.1@ == refs_with_far(t.rows@[a].1@, p, nodes@.dom())
}

spec fn row_is_kept(
    t: &Table<Vec<EdgeRef>>,
    nodes: &Table<NodeData>,
    p: &Interner,
    kept: &Table<Vec<EdgeRef>>,
    a: int,
) -> bool {
    nodes@.dom().contains(t.rows@[a].0@) && refs_with_far(t.rows@[a].1@, p, nodes@.dom()).len() > 0
        ==> kept.has(t.rows@[a].0@)
}

impl Subgraph {
    /// Every entry indexes into the pool.
    proof fn lemma_entries_within(&self)
        requires
            self.wf(),
        ensures
            forall|i: int, j: int|
                0 <= i < self.out_adj.rows@.len() && 0 <= j < self.out_adj.rows@[i].1@.len() ==> (
                #[trigger] self.out_adj.rows@[i].1@[j]).node < self.pool.count(),
            forall|i: int, j: int|
                0 <= i < self.in_adj.rows@.len() && 0 <= j < self.in_adj.rows@[i].1@.len() ==> (
                #[trigger] self.in_adj.rows@[i].1@[j]).node < self.pool.count(),
    {
        assert forall|i: int, j: int| 0 <= i < self.out_adj.rows@.len() && 0 <= j
            < self.out_adj.rows@[i].1@.len() implies (#[trigger] self.out_adj.rows@[i].1@[j]).node
            < self.pool.count() by {
            let k = self.out_adj.rows@[i].0@;
            assert(self.out_adj.at(k, i));
            self.out_adj.lemma_at(k, i);
            assert(listed(&self.out_adj, k)[j].within_pool(&self.pool));
        }
        assert forall|i: int, j: int| 0 <= i < self.in_adj.rows@.len() && 0 <= j
            < self.in_adj.rows@[i].1@.len() implies (#[trigger] self.in_adj.rows@[i].1@[j]).node
            < self.pool.count() by {
            let k = self.in_adj.rows@[i].0@;
            assert(self.in_adj.at(k, i));
            self.in_adj.lemma_at(k, i);
            assert(listed(&self.in_adj, k)[j].within_pool(&self.pool));
        }
    }

    /// Removes every edge that does not join two nodes of the graph.
    pub fn drop_dangling_adjacency(&mut self)
        requires
            old(self).wf(),
        ensures
            final(self).wf(),
            final(self)@.nodes == old(self)@.nodes,
            final(self)@.edges == joined(old(self)@.edges, old(self)@.nodes.dom()),
            final(self)@.pooled == old(self)@.pooled,
            final(self).pool_size() == old(self).pool_size(),
            final(self).pool_bytes() == old(self).pool_bytes(),
            final(self).node_total() == old(self).node_total(),
            final(self)@.is_closed(),
    {
        proof {
            self.lemma_entries_within();
        }
        let ghost before = *self;
        let ghost ids = self.nodes@.dom();
        let out_kept = prune(&self.out_adj, &self.nodes, &self.pool);
        let in_kept = prune(&self.in_adj, &self.nodes, &self.pool);
        self.out_adj = out_kept;
        self.in_adj = in_kept;
        self.edges = Ghost(joined(self.edges@, ids));
        proof {
            let edges = before.edges@;
            assert(before@.nodes.dom() =~= ids);
            assert forall|k: Seq<char>| #[trigger] listed(&self.out_adj, k).len() == leaving(
                self.edges@,
                k,
            ).len() by {
                before.lemma_out_follows(ids, k);
                lemma_joined_leaves(edges, ids, k);
            }
            assert forall|k: Seq<char>| #[trigger] listed(&self.in_adj, k).len() == entering(
                self.edges@,
                k,
            ).len() by {
                before.lemma_in_follows(ids, k);
                lemma_joined_leaves(edges, ids, k);
            }
            assert forall|k: Seq<char>, i: int| 0 <= i < listed(&self.out_adj, k).len() implies (
            #[trigger] listed(&self.out_adj, k)[i]).shows_in(
                &self.pool,
                leaving(self.edges@, k)[i],
                leaving(self.edges@, k)[i].target,
            ) by {
                before.lemma_out_follows(ids, k);
                lemma_joined_leaves(edges, ids, k);
            }
            assert forall|k: Seq<char>, i: int| 0 <= i < listed(&self.in_adj, k).len() implies (
            #[trigger] listed(&self.in_adj, k)[i]).shows_in(
                &self.pool,
                entering(self.edges@, k)[i],
                entering(self.edges@, k)[i].source,
            ) by {
                before.lemma_in_follows(ids, k);
                lemma_joined_leaves(edges, ids, k);
            }
            lemma_joined_closed(edges, ids);
        }
    }

    proof fn lemma_out_follows(&self, ids: Set<Seq<char>>, k: Seq<char>)
        requires
            self.wf(),
        ensures
            refs_with_far(listed(&self.out_adj, k), &self.pool, ids).len() == with_far(
                leaving(self.edges@, k),
                ids,
                |e: Edge| e.target,
            ).len(),
            forall|i: int|
                0 <= i < refs_with_far(listed(&self.out_adj, k), &self.pool, ids).len() ==> (
                #[trigger] refs_with_far(listed(&self.out_adj, k), &self.pool, ids)[i]).shows_in(
                    &self.pool,
                    with_far(leaving(self.edges@, k), ids, |e: Edge| e.target)[i],
                    with_far(leaving(self.edges@, k), ids, |e: Edge| e.target)[i].target,
                ),
    {
        let far = |e: Edge| e.target;
        assert(listed(&self.out_adj, k).len() == leaving(self.edges@, k).len());
        lemma_refs_follow(listed(&self.out_adj, k), leaving(self.edges@, k), &self.pool, ids, far);
    }

    proof fn lemma_in_follows(&self, ids: Set<Seq<char>>, k: Seq<char>)
        requires
            self.wf(),
        ensures
            refs_with_far(listed(&self.in_adj, k), &self.pool, ids).len() == with_far(
                entering(self.edges@, k),
                ids,
                |e: Edge| e.source,
            ).len(),
            forall|i: int|
                0 <= i < refs_with_far(listed(&self.in_adj, k), &self.pool, ids).len() ==> (
                #[trigger] refs_with_far(listed(&self.in_adj, k), &self.pool, ids)[i]).shows_in(
                    &self.pool,
                    with_far(entering(self.edges@, k), ids, |e: Edge| e.source)[i],
                    with_far(entering(self.edges@, k), ids, |e: Edge| e.source)[i].source,
                ),
    {
        let far = |e: Edge| e.source;
        assert(listed(&self.in_adj, k).len() == entering(self.edges@, k).len());
        lemma_refs_follow(listed(&self.in_adj, k), entering(self.edges@, k), &self.pool, ids, far);
    }
}

proof fn lemma_joined_closed(edges: Seq<Edge>, ids: Set<Seq<char>>)
    ensures
        forall|i: int|
            0 <= i < joined(edges, ids).len() ==> ids.contains((#[trigger] joined(edges, ids)[i]).source)
                && ids.contains(joined(edges, ids)[i].target),
    decreases edges.len(),
{
    if edges.len() > 0 {
        lemma_joined_closed(edges.drop_last(), ids);
        let a = joined(edges.drop_last(), ids);
        assert forall|i: int| 0 <= i < joined(edges, ids).len() implies ids.contains(
            (#[trigger] joined(edges, ids)[i]).source,
        ) && ids.contains(joined(edges, ids)[i].target) by {
            if i < a.len() {
                assert(joined(edges, ids)[i] == a[i]);
            }
        }
    }
}

/// Whether every row of an index, and every far end in it, names a node.
fn index_is_closed(t: &Table<Vec<EdgeRef>>, nodes: &Table<NodeData>, p: &Interner) -> (closed: bool)
    requires
        t.wf(),
        nodes.wf(),
        forall|i: int, j: int|
            0 <= i < t.rows@.len() && 0 <= j < t.rows@[i].1@.len() ==> (#[trigger] t.rows@[i].1@[j]).node
                < p.count(),
    ensures
        closed == rows_closed(t, nodes@.dom(), p, t.rows@.len() as int),
{
    let mut i: usize = 0;
    while i < t.rows.len()
        invariant
            t.wf(),
            nodes.wf(),
            forall|a: int, b: int|
                0 <= a < t.rows@.len() && 0 <= b < t.rows@[a].1@.len() ==> (#[trigger] t.rows@[a].1@[b]).node
                    < p.count(),
            i <= t.rows@.len(),
            rows_closed(t, nodes@.dom(), p, i as int),
        decreases t.rows@.len() - i,
    {
        if !nodes.contains(t.rows[i].0.as_str()) {
            assert(!row_closed(t, nodes@.dom(), p, i as int));
            return false;
        }
        let list = &t.rows[i].1;
        let mut j: usize = 0;
        while j < list.len()
            invariant
                nodes.wf(),
                i < t.rows@.len(),
                list@ == t.rows@[i as int].1@,
                nodes@.dom().contains(t.rows@[i as int].0@),
                j <= list@.len(),
                forall|b: int| 0 <= b < list@.len() ==> (#[trigger] list@[b]).node < p.count(),
                forall|b: int| 0 <= b < j ==> nodes@.dom().contains(p.text((#[trigger] list@[b]).node as int)),
            decreases list@.len() - j,
        {
            if !nodes.contains(p.get(list[j].node)) {
                assert(!row_closed(t, nodes@.dom(), p, i as int)) by {
                    assert(t.rows@[i as int].1@[j as int] == list@[j as int]);
                }
                return false;
            }
            j = j + 1;
        }
        assert(row_closed(t, nodes@.dom(), p, i as int));
        i = i + 1;
    }
    true
}

spec fn row_closed(t: &Table<Vec<EdgeRef>>, ids: Set<Seq<char>>, p: &Interner, i: int) -> bool {
    &&& ids.contains(t.rows@[i].0@)
    &&& forall|j: int|
        0 <= j < t.rows@[i].1@.len() ==> ids.contains(p.text((#[trigger] t.rows@[i].1@[j]).node as int))
}

spec fn rows_closed(t: &Table<Vec<EdgeRef>>, ids: Set<Seq<char>>, p: &Interner, upto: int) -> bool {
    forall|i: int| 0 <= i < upto ==> #[trigger] row_closed(t, ids, p, i)
}

impl Subgraph {
    /// Whether every edge joins two nodes of the graph.
    pub fn is_closed(&self) -> (closed: bool)
        requires
            self.wf(),
        ensures
            closed == self@.is_closed(),
    {
        proof {
            self.lemma_entries_within();
            assert(self@.nodes.dom() =~= self.nodes@.dom());
        }
        let out_closed = index_is_closed(&self.out_adj, &self.nodes, &self.pool);
        let in_closed = index_is_closed(&self.in_adj, &self.nodes, &self.pool);
        proof {
            self.lemma_closed_by_rows();
        }
        out_closed && in_closed
    }

    proof fn lemma_closed_by_rows(&self)
        requires
            self.wf(),
        ensures
            self@.is_closed() <==> rows_closed(
                &self.out_adj,
                self.nodes@.dom(),
                &self.pool,
                self.out_adj.rows@.len() as int,
            ) && rows_closed(
                &self.in_adj,
                self.nodes@.dom(),
                &self.pool,
                self.in_adj.rows@.len() as int,
            ),
    {
        let ids = self.nodes@.dom();
        assert(self@.nodes.dom() =~= ids);
        let edges = self.edges@;
        assert(self@.edges == edges);
        let out_ok = rows_closed(&self.out_adj, ids, &self.pool, self.out_adj.rows@.len() as int);
        let in_ok = rows_closed(&self.in_adj, ids, &self.pool, self.in_adj.rows@.len() as int);
        if out_ok && in_ok {
            assert forall|i: int| 0 <= i < edges.len() implies ids.contains((#[trigger] edges[i]).source)
                && ids.contains(edges[i].target) by {
                let e = edges[i];
                lemma_edge_is_listed(edges, i);
                assert(listed(&self.out_adj, e.source).len() == leaving(edges, e.source).len());
                let a = choose|a: int| self.out_adj.at(e.source, a);
                self.out_adj.lemma_at(e.source, a);
                assert(row_closed(&self.out_adj, ids, &self.pool, a));
                assert(listed(&self.in_adj, e.target).len() == entering(edges, e.target).len());
                let b = choose|b: int| self.in_adj.at(e.target, b);
                self.in_adj.lemma_at(e.target, b);
                assert(row_closed(&self.in_adj, ids, &self.pool, b));
            }
        }
        if self@.is_closed() {
            assert forall|a: int| 0 <= a < self.out_adj.rows@.len() implies #[trigger] row_closed(
                &self.out_adj,
                ids,
                &self.pool,
                a,
            ) by {
                let k = self.out_adj.rows@[a].0@;
                assert(self.out_adj.at(k, a));
                self.out_adj.lemma_at(k, a);
                assert(listed(&self.out_adj, k).len() == leaving(edges, k).len());
                lemma_listed_is_edge(edges, k);
                assert forall|j: int| 0 <= j < self.out_adj.rows@[a].1@.len() implies ids.contains(
                    self.pool.text((#[trigger] self.out_adj.rows@[a].1@[j]).node as int),
                ) by {
                    assert(listed(&self.out_adj, k)[j].shows_in(
                        &self.pool,
                        leaving(edges, k)[j],
                        leaving(edges, k)[j].target,
                    ));
                    let q = choose|q: int| 0 <= q < edges.len() && edges[q] == leaving(edges, k)[j];
                    assert(edges.contains(edges[q]) && ids.contains(self@.edges[q].target));
                }
                assert(leaving(edges, k)[0].source == k);
                let q = choose|q: int| 0 <= q < edges.len() && edges[q] == leaving(edges, k)[0];
                assert(edges.contains(edges[q]) && ids.contains(self@.edges[q].source));
            }
            assert forall|a: int| 0 <= a < self.in_adj.rows@.len() implies #[trigger] row_closed(
                &self.in_adj,
                ids,
                &self.pool,
                a,
            ) by {
                let k = self.in_adj.rows@[a].0@;
                assert(self.in_adj.at(k, a));
                self.in_adj.lemma_at(k, a);
                assert(listed(&self.in_adj, k).len() == entering(edges, k).len());
                lemma_listed_is_edge(edges, k);
                assert forall|j: int| 0 <= j < self.in_adj.rows@[a].1@.len() implies ids.contains(
                    self.pool.text((#[trigger] self.in_adj.rows@[a].1@[j]).node as int),
                ) by {
                    assert(listed(&self.in_adj, k)[j].shows_in(
                        &self.pool,
                        entering(edges, k)[j],
                        entering(edges, k)[j].source,
                    ));
                    let q = choose|q: int| 0 <= q < edges.len() && edges[q] == entering(edges, k)[j];
                    assert(edges.contains(edges[q]) && ids.contains(self@.edges[q].source));
                }
                assert(entering(edges, k)[0].target == k);
                let q = choose|q: int| 0 <= q < edges.len() && edges[q] == entering(edges, k)[0];
                assert(edges.contains(edges[q]) && ids.contains(self@.edges[q].target));
            }
        }
    }

    /// The outgoing index: each node that edges leave, ascending, with them.
    pub fn out_adjacency(&self) -> (rows: Vec<(&str, &[EdgeRef])>)
        requires
            self.wf(),
        ensures
            forall|i: int, j: int|
                0 <= i < j < rows@.len() ==> text::text_lt((#[trigger] rows@[i]).0@, (#[trigger] rows@[j]).0@),
            forall|i: int|
                0 <= i < rows@.len() ==> (#[trigger] rows@[i]).1@.len() > 0 && shows_targets(
                    self,
                    rows@[i].1@,
                    leaving(self@.edges, rows@[i].0@),
                ),
            forall|s: Seq<char>|
                (#[trigger] leaving(self@.edges, s)).len() > 0 ==> exists|i: int|
                    0 <= i < rows@.len() && (#[trigger] rows@[i]).0@ == s,
    {
        let mut rows: Vec<(&str, &[EdgeRef])> = Vec::new();
        let mut i: usize = 0;
        while i < self.out_adj.rows.len()
            invariant
                self.wf(),
                i <= self.out_adj.rows@.len(),
                rows@.len() == i,
                forall|j: int| 0 <= j < i ==> (#[trigger] rows@[j]).0@ == self.out_adj.rows@[j].0@,
                forall|j: int|
                    0 <= j < i ==> (#[trigger] rows@[j]).1@.len() > 0 && shows_targets(
                        self,
                        rows@[j].1@,
                        leaving(self@.edges, rows@[j].0@),
                    ),
            decreases self.out_adj.rows@.len() - i,
        {
            let key = self.out_adj.rows[i].0.as_str();
            let list = self.out_adj.rows[i].1.as_slice();
            proof {
                assert(self.out_adj.at(key@, i as int));
                self.out_adj.lemma_at(key@, i as int);
                assert(listed(&self.out_adj, key@) == list@);
                assert(listed(&self.out_adj, key@).len() == leaving(self.edges@, key@).len());
                assert forall|j: int| 0 <= j < list@.len() implies (#[trigger] list@[j]).within(self)
                    && list@[j].shows(
                    self,
                    leaving(self@.edges, key@)[j],
                    leaving(self@.edges, key@)[j].target,
                ) by {
                    assert(listed(&self.out_adj, key@)[j].within_pool(&self.pool));
                }
            }
            rows.push((key, list));
            i = i + 1;
        }
        proof {
            assert forall|a: int, b: int| 0 <= a < b < rows@.len() implies text::text_lt(
                (#[trigger] rows@[a]).0@,
                (#[trigger] rows@[b]).0@,
            ) by {
                assert(text::text_lt(self.out_adj.rows@[a].0@, self.out_adj.rows@[b].0@));
            }
            assert forall|s: Seq<char>| (#[trigger] leaving(self@.edges, s)).len() > 0 implies exists|i: int|
                0 <= i < rows@.len() && (#[trigger] rows@[i]).0@ == s by {
                assert(listed(&self.out_adj, s).len() == leaving(self.edges@, s).len());
                let a = choose|a: int| self.out_adj.at(s, a);
                assert(rows@[a].0@ == s);
            }
        }
        rows
    }

    /// The incoming index: each node that edges enter, ascending, with them.
    pub fn in_adjacency(&self) -> (rows: Vec<(&str, &[EdgeRef])>)
        requires
            self.wf(),
        ensures
            forall|i: int, j: int|
                0 <= i < j < rows@.len() ==> text::text_lt((#[trigger] rows@[i]).0@, (#[trigger] rows@[j]).0@),
            forall|i: int|
                0 <= i < rows@.len() ==> (#[trigger] rows@[i]).1@.len() > 0 && shows_sources(
                    self,
                    rows@[i].1@,
                    entering(self@.edges, rows@[i].0@),
                ),
            forall|s: Seq<char>|
                (#[trigger] entering(self@.edges, s)).len() > 0 ==> exists|i: int|
                    0 <= i < rows@.len() && (#[trigger] rows@[i]).0@ == s,
    {
        let mut rows: Vec<(&str, &[EdgeRef])> = Vec::new();
        let mut i: usize = 0;
        while i < self.in_adj.rows.len()
            invariant
                self.wf(),
                i <= self.in_adj.rows@.len(),
                rows@.len() == i,
                forall|j: int| 0 <= j < i ==> (#[trigger] rows@[j]).0@ == self.in_adj.rows@[j].0@,
                forall|j: int|
                    0 <= j < i ==> (#[trigger] rows@[j]).1@.len() > 0 && shows_sources(
                        self,
                        rows@[j].1@,
                        entering(self@.edges, rows@[j].0@),
                    ),
            decreases self.in_adj.rows@.len() - i,
        {
            let key = self.in_adj.rows[i].0.as_str();
            let list = self.in_adj.rows[i].1.as_slice();
            proof {
                assert(self.in_adj.at(key@, i as int));
                self.in_adj.lemma_at(key@, i as int);
                assert(listed(&self.in_adj, key@) == list@);
                assert(listed(&self.in_adj, key@).len() == entering(self.edges@, key@).len());
                assert forall|j: int| 0 <= j < list@.len() implies (#[trigger] list@[j]).within(self)
                    && list@[j].shows(
                    self,
                    entering(self@.edges, key@)[j],
                    entering(self@.edges, key@)[j].source,
                ) by {
                    assert(listed(&self.in_adj, key@)[j].within_pool(&self.pool));
                }
            }
            rows.push((key, list));
            i = i + 1;
        }
        proof {
            assert forall|a: int, b: int| 0 <= a < b < rows@.len() implies text::text_lt(
                (#[trigger] rows@[a]).0@,
                (#[trigger] rows@[b]).0@,
            ) by {
                assert(text::text_lt(self.in_adj.rows@[a].0@, self.in_adj.rows@[b].0@));
            }
            assert forall|s: Seq<char>| (#[trigger] entering(self@.edges, s)).len() > 0 implies exists|i: int|
                0 <= i < rows@.len() && (#[trigger] rows@[i]).0@ == s by {
                assert(listed(&self.in_adj, s).len() == entering(self.edges@, s).len());
                let a = choose|a: int| self.in_adj.at(s, a);
                assert(rows@[a].0@ == s);
            }
        }
        rows
    }
}

/// What a node keyed by `id` is estimated to occupy.
pub fn node_cost(id: &str, d: &NodeData) -> (n: usize)
    requires
        node_bytes(id@, d@) <= usize::MAX,
    ensures
        n == node_bytes(id@, d@),
{
    let content: usize = match &d.content {
        Some(text) => text.as_str().as_bytes().len(),
        None => 0,
    };
    let model: usize = match &d.embedding_model {
        Some(text) => text.as_str().as_bytes().len(),
        None => 0,
    };
    id.as_bytes().len() + d.title.as_str().as_bytes().len() + content + model
        + d.valid_from.as_str().as_bytes().len() + d.valid_to.as_str().as_bytes().len()
        + core::mem::size_of::<NodeData>()
}

impl Subgraph {
    /// What the graph is estimated to occupy.
    pub fn estimated_bytes(&self) -> (n: usize)
        requires
            self.wf(),
            self.estimate() <= usize::MAX,
            self@.edges.len() <= usize::MAX,
        ensures
            n == self.estimate(),
    {
        let ghost rows = self.nodes.rows@;
        let mut nodes: usize = 0;
        let mut i: usize = 0;
        proof {
            assert(rows.take(0) =~= Seq::empty());
        }
        while i < self.nodes.rows.len()
            invariant
                rows == self.nodes.rows@,
                self.estimate() <= usize::MAX,
                i <= rows.len(),
                nodes == rows_bytes(rows.take(i as int)),
            decreases rows.len() - i,
        {
            proof {
                lemma_rows_prefix(rows, i + 1);
                assert(rows.take(i + 1).drop_last() =~= rows.take(i as int));
                assert(rows.take(i + 1).last() == rows[i as int]);
            }
            nodes = nodes + node_cost(self.nodes.rows[i].0.as_str(), &self.nodes.rows[i].1);
            i = i + 1;
        }
        proof {
            assert(rows.take(i as int) =~= rows);
        }
        let edges: usize = self.edge_count();
        let per_edge: usize = if edges == 0 {
            0
        } else {
            proof {
                let w = vstd::layout::size_of::<EdgeRef>();
                assert(2 * w <= 2 * w * edges) by (nonlinear_arith)
                    requires
                        edges >= 1,
                ;
            }
            2 * core::mem::size_of::<EdgeRef>()
        };
        proof {
            assert(per_edge * edges == 2 * vstd::layout::size_of::<EdgeRef>() * edges) by {
                if edges == 0 {
                    assert(per_edge * 0 == 0);
                    assert(2 * vstd::layout::size_of::<EdgeRef>() * 0 == 0);
                }
            }
        }
        nodes + per_edge * edges + self.pool.estimated_bytes()
    }
}

proof fn lemma_rows_prefix(rows: Seq<(String, NodeData)>, n: int)
    requires
        0 <= n <= rows.len(),
    ensures
        rows_bytes(rows.take(n)) <= rows_bytes(rows),
    decreases rows.len(),
{
    if n == rows.len() {
        assert(rows.take(n) =~= rows);
    } else {
        assert(rows.drop_last().take(n) =~= rows.take(n));
        lemma_rows_prefix(rows.drop_last(), n);
    }
}

/// A pooled string that is no node.
const NOT_A_NODE: u32 = 0xffff_ffff;

/// Whether dense entries stand for `edges`, their far ends the targets.
pub open spec fn mirrors_targets(entries: Seq<(u32, u64)>, edges: Seq<Edge>, g: &Subgraph) -> bool {
    &&& entries.len() == edges.len()
    &&& forall|k: int|
        0 <= k < entries.len() ==> (#[trigger] entries[k]).0 < g.size() && g.id_at(entries[k].0 as int)
            == edges[k].target && entries[k].1 == edges[k].weight
}

/// Whether dense entries stand for `edges`, their far ends the sources.
pub open spec fn mirrors_sources(entries: Seq<(u32, u64)>, edges: Seq<Edge>, g: &Subgraph) -> bool {
    &&& entries.len() == edges.len()
    &&& forall|k: int|
        0 <= k < entries.len() ==> (#[trigger] entries[k]).0 < g.size() && g.id_at(entries[k].0 as int)
            == edges[k].source && entries[k].1 == edges[k].weight
}

/// Whether `d` is the dense view of `g`.
pub open spec fn is_dense_view(d: &Dense, g: &Subgraph) -> bool {
    &&& d.wf()
    &&& d.size() == g.size()
    &&& forall|u: int| 0 <= u < g.size() ==> (#[trigger] d.ids@[u])@ == g.id_at(u)
    &&& forall|u: int|
        0 <= u < g.size() ==> mirrors_targets(#[trigger] d.outs(u), leaving(g@.edges, g.id_at(u)), g)
    &&& forall|u: int|
        0 <= u < g.size() ==> mirrors_sources(#[trigger] d.ins(u), entering(g@.edges, g.id_at(u)), g)
    &&& d.out@.len() == g@.edges.len()
    &&& d.inn@.len() == g@.edges.len()
}

/// The edges with their ends exchanged.
spec fn flipped(edges: Seq<Edge>) -> Seq<Edge> {
    edges.map_values(|e: Edge| Edge { source: e.target, target: e.source, ..e })
}

proof fn lemma_flip(edges: Seq<Edge>, id: Seq<char>)
    ensures
        entering(edges, id).len() == leaving(flipped(edges), id).len(),
    decreases edges.len(),
{
    if edges.len() > 0 {
        assert(flipped(edges).drop_last() =~= flipped(edges.drop_last()));
        lemma_flip(edges.drop_last(), id);
    }
}

/// How many edges lead from `s` to `t`.
spec fn between(edges: Seq<Edge>, s: Seq<char>, t: Seq<char>) -> nat
    decreases edges.len(),
{
    if edges.len() == 0 {
        0
    } else {
        between(edges.drop_last(), s, t) + if edges.last().source == s && edges.last().target == t {
            1nat
        } else {
            0nat
        }
    }
}

proof fn lemma_between(edges: Seq<Edge>, s: Seq<char>, t: Seq<char>)
    ensures
        between(leaving(edges, s), s, t) == between(edges, s, t),
        between(entering(edges, t), s, t) == between(edges, s, t),
    decreases edges.len(),
{
    if edges.len() > 0 {
        lemma_between(edges.drop_last(), s, t);
        if edges.last().source == s {
            assert(leaving(edges, s).drop_last() =~= leaving(edges.drop_last(), s));
        }
        if edges.last().target == t {
            assert(entering(edges, t).drop_last() =~= entering(edges.drop_last(), t));
        }
    }
}

proof fn lemma_count_targets(entries: Seq<(u32, u64)>, edges: Seq<Edge>, g: &Subgraph, s: Seq<char>, v: int)
    requires
        g.wf(),
        mirrors_targets(entries, edges, g),
        forall|k: int| 0 <= k < edges.len() ==> (#[trigger] edges[k]).source == s,
        0 <= v < g.size(),
    ensures
        dense::count_to(entries, v) == between(edges, s, g.id_at(v)),
    decreases entries.len(),
{
    if entries.len() > 0 {
        let es = entries.drop_last();
        let ds = edges.drop_last();
        assert forall|k: int| 0 <= k < es.len() implies (#[trigger] es[k]).0 < g.size() && g.id_at(
            es[k].0 as int,
        ) == ds[k].target && es[k].1 == ds[k].weight by {
            assert(entries[k].0 < g.size());
        }
        assert forall|k: int| 0 <= k < ds.len() implies (#[trigger] ds[k]).source == s by {
            assert(edges[k].source == s);
        }
        lemma_count_targets(es, ds, g, s, v);
        let k = entries.len() - 1;
        assert(entries[k].0 < g.size());
        assert(edges[k].source == s);
        g.lemma_same_id(entries[k].0 as int, v);
    }
}

proof fn lemma_count_sources(entries: Seq<(u32, u64)>, edges: Seq<Edge>, g: &Subgraph, t: Seq<char>, u: int)
    requires
        g.wf(),
        mirrors_sources(entries, edges, g),
        forall|k: int| 0 <= k < edges.len() ==> (#[trigger] edges[k]).target == t,
        0 <= u < g.size(),
    ensures
        dense::count_to(entries, u) == between(edges, g.id_at(u), t),
    decreases entries.len(),
{
    if entries.len() > 0 {
        let es = entries.drop_last();
        let ds = edges.drop_last();
        assert forall|k: int| 0 <= k < es.len() implies (#[trigger] es[k]).0 < g.size() && g.id_at(
            es[k].0 as int,
        ) == ds[k].source && es[k].1 == ds[k].weight by {
            assert(entries[k].0 < g.size());
        }
        assert forall|k: int| 0 <= k < ds.len() implies (#[trigger] ds[k]).target == t by {
            assert(edges[k].target == t);
        }
        lemma_count_sources(es, ds, g, t, u);
        let k = entries.len() - 1;
        assert(entries[k].0 < g.size());
        assert(edges[k].target == t);
        g.lemma_same_id(entries[k].0 as int, u);
    }
}

impl Subgraph {
    /// Two positions with the same id are the same position.
    pub proof fn lemma_same_id(&self, i: int, j: int)
        requires
            self.wf(),
            0 <= i < self.size(),
            0 <= j < self.size(),
        ensures
            self.id_at(i) == self.id_at(j) <==> i == j,
    {
        self.lemma_ids();
        text::lemma_text_lt_asymmetric(self.id_at(i), self.id_at(i));
    }

    /// The ids of the nodes, ascending.
    spec fn id_seq(&self) -> Seq<Seq<char>> {
        Seq::new(self.size(), |i: int| self.id_at(i))
    }

    /// In a closed graph the nodes account for every edge, in both directions.
    proof fn lemma_nodes_cover(&self, n: int)
        requires
            self.wf(),
            self@.is_closed(),
            0 <= n <= self.size(),
        ensures
            leaving_total(self.id_seq().take(n), self.edges@) <= self.edges@.len(),
            leaving_total(self.id_seq().take(n), flipped(self.edges@)) <= self.edges@.len(),
            n == self.size() ==> leaving_total(self.id_seq().take(n), self.edges@) == self.edges@.len(),
            n == self.size() ==> leaving_total(self.id_seq().take(n), flipped(self.edges@))
                == self.edges@.len(),
    {
        let keys = self.id_seq();
        self.lemma_ids();
        assert(ascending(keys));
        assert(self@.edges == self.edges@);
        assert forall|i: int| 0 <= i < self.edges@.len() implies keys.contains(
            (#[trigger] self.edges@[i]).source,
        ) && keys.contains(self.edges@[i].target) by {
            let e = self@.edges[i];
            let a = choose|a: int| 0 <= a < self.size() && self.id_at(a) == e.source;
            let b = choose|b: int| 0 <= b < self.size() && self.id_at(b) == e.target;
            assert(keys[a] == e.source && keys[b] == e.target);
        }
        assert forall|i: int| 0 <= i < flipped(self.edges@).len() implies keys.contains(
            (#[trigger] flipped(self.edges@)[i]).source,
        ) by {
            assert(flipped(self.edges@)[i].source == self.edges@[i].target);
        }
        lemma_total_is_count(keys, self.edges@);
        lemma_total_is_count(keys, flipped(self.edges@));
        lemma_total_monotone(keys, self.edges@, n);
        lemma_total_monotone(keys, flipped(self.edges@), n);
        if n == self.size() {
            assert(keys.take(n) =~= keys);
        }
    }

    /// The place of each pooled string among the nodes.
    fn pool_to_dense(&self, ids: &Vec<&str>) -> (places: Vec<u32>)
        requires
            self.wf(),
            self.size() < 0xffff_ffff,
            ids@.len() == self.size(),
            forall|i: int| 0 <= i < ids@.len() ==> (#[trigger] ids@[i])@ == self.id_at(i),
        ensures
            places@.len() == self.pool.count(),
            forall|p: int|
                0 <= p < places@.len() && self@.nodes.dom().contains(self.pool.text(p)) ==> (
                #[trigger] places@[p]) < self.size() && self.id_at(places@[p] as int) == self.pool.text(p),
    {
        let n: usize = self.pool.len();
        let mut places: Vec<u32> = Vec::new();
        while places.len() < n
            invariant
                places@.len() <= n,
                forall|p: int| 0 <= p < places@.len() ==> #[trigger] places@[p] == NOT_A_NODE,
            decreases n - places@.len(),
        {
            places.push(NOT_A_NODE);
        }
        let mut i: usize = 0;
        while i < ids.len()
            invariant
                self.wf(),
                self.size() < 0xffff_ffff,
                i <= ids@.len(),
                ids@.len() == self.size(),
                forall|j: int| 0 <= j < ids@.len() ==> (#[trigger] ids@[j])@ == self.id_at(j),
                places@.len() == self.pool.count(),
                forall|p: int, j: int|
                    0 <= p < places@.len() && 0 <= j < i && #[trigger] self.pool.text(p)
                        == #[trigger] self.id_at(j) ==> places@[p] == j,
            decreases ids@.len() - i,
        {
            let ghost before = places@;
            match self.pool.index_of(ids[i]) {
                Some(p) => {
                    places.set(p as usize, i as u32);
                    proof {
                        self.pool.lemma_distinct();
                        assert forall|q: int, j: int| 0 <= q < places@.len() && 0 <= j < i + 1
                            && #[trigger] self.pool.text(q) == #[trigger] self.id_at(j) implies places@[q]
                            == j by {
                            if j == i {
                                assert(self.pool.text(q) == self.pool.text(p as int));
                            } else {
                                assert(before[q] == j);
                                if q == p {
                                    self.lemma_same_id(i as int, j);
                                }
                            }
                        }
                    }
                },
                None => {
                    proof {
                        self.pool.lemma_distinct();
                        assert forall|q: int, j: int| 0 <= q < places@.len() && 0 <= j < i + 1
                            && #[trigger] self.pool.text(q) == #[trigger] self.id_at(j) implies places@[q]
                            == j by {
                            if j == i {
                                assert(self.pool.pooled().contains(self.pool.text(q)));
                            }
                        }
                    }
                },
            }
            i = i + 1;
        }
        proof {
            self.lemma_ids();
            assert forall|p: int| 0 <= p < places@.len() && self@.nodes.dom().contains(self.pool.text(p)) implies (
            #[trigger] places@[p]) < self.size() && self.id_at(places@[p] as int) == self.pool.text(p) by {
                let j = choose|j: int| 0 <= j < self.size() && self.id_at(j) == self.pool.text(p);
                assert(places@[p] == j);
            }
        }
        places
    }
}

impl Subgraph {
    /// The outgoing entries of all nodes in one array, and where each node begins.
    fn flat_out(&self, ids: &Vec<&str>, places: &Vec<u32>) -> (flat: (Vec<(u32, u64)>, Vec<u32>))
        requires
            self.wf(),
            self@.is_closed(),
            self.size() < 0xffff_ffff,
            self@.edges.len() <= u32::MAX,
            ids@.len() == self.size(),
            forall|i: int| 0 <= i < ids@.len() ==> (#[trigger] ids@[i])@ == self.id_at(i),
            places@.len() == self.pool.count(),
            forall|p: int|
                0 <= p < places@.len() && self@.nodes.dom().contains(self.pool.text(p)) ==> (
                #[trigger] places@[p]) < self.size() && self.id_at(places@[p] as int) == self.pool.text(p),
        ensures
            dense::offsets_wf(flat.1@, self.size() as int, flat.0@.len() as int),
            flat.0@.len() == self@.edges.len(),
            forall|k: int| 0 <= k < flat.0@.len() ==> (#[trigger] flat.0@[k]).0 < self.size(),
            forall|u: int|
                0 <= u < self.size() ==> mirrors_targets(
                    #[trigger] dense::run_of(flat.0@, flat.1@, u),
                    leaving(self@.edges, self.id_at(u)),
                    self,
                ),
    {
        let mut flat: Vec<(u32, u64)> = Vec::new();
        let mut at: Vec<u32> = Vec::new();
        at.push(0);
        let mut u: usize = 0;
        proof {
            assert(self.id_seq().take(0) =~= Seq::empty());
        }
        while u < ids.len()
            invariant
                self.wf(),
                self@.is_closed(),
                self.size() < 0xffff_ffff,
                self@.edges.len() <= u32::MAX,
                u <= ids@.len(),
                ids@.len() == self.size(),
                forall|i: int| 0 <= i < ids@.len() ==> (#[trigger] ids@[i])@ == self.id_at(i),
                places@.len() == self.pool.count(),
                forall|p: int|
                    0 <= p < places@.len() && self@.nodes.dom().contains(self.pool.text(p)) ==> (
                    #[trigger] places@[p]) < self.size() && self.id_at(places@[p] as int) == self.pool.text(
                        p,
                    ),
                flat@.len() == leaving_total(self.id_seq().take(u as int), self.edges@),
                dense::offsets_wf(at@, u as int, flat@.len() as int),
                forall|k: int| 0 <= k < flat@.len() ==> (#[trigger] flat@[k]).0 < self.size(),
                forall|w: int|
                    0 <= w < u ==> mirrors_targets(
                        #[trigger] dense::run_of(flat@, at@, w),
                        leaving(self@.edges, self.id_at(w)),
                        self,
                    ),
            decreases ids@.len() - u,
        {
            let refs = self.out_edges(ids[u]);
            let ghost es = leaving(self@.edges, self.id_at(u as int));
            let ghost before = flat@;
            let mut k: usize = 0;
            while k < refs.len()
                invariant
                    self.wf(),
                    self@.is_closed(),
                    u < self.size(),
                    es == leaving(self@.edges, self.id_at(u as int)),
                    shows_targets(self, refs@, es),
                    places@.len() == self.pool.count(),
                    forall|p: int|
                        0 <= p < places@.len() && self@.nodes.dom().contains(self.pool.text(p)) ==> (
                        #[trigger] places@[p]) < self.size() && self.id_at(places@[p] as int)
                            == self.pool.text(p),
                    k <= refs@.len(),
                    flat@.len() == before.len() + k,
                    forall|j: int| 0 <= j < before.len() ==> #[trigger] flat@[j] == before[j],
                    forall|j: int|
                        before.len() <= j < flat@.len() ==> (#[trigger] flat@[j]).0 < self.size()
                            && self.id_at(flat@[j].0 as int) == es[j - before.len()].target && flat@[j].1
                            == es[j - before.len()].weight,
                decreases refs@.len() - k,
            {
                let r = refs[k];
                proof {
                    assert(refs@[k as int].within(self) && refs@[k as int].shows(
                        self,
                        es[k as int],
                        es[k as int].target,
                    ));
                    lemma_listed_is_edge(self@.edges, self.id_at(u as int));
                    assert(self@.edges.contains(es[k as int]));
                    let q = choose|q: int| 0 <= q < self@.edges.len() && self@.edges[q] == es[k as int];
                    assert(self@.nodes.dom().contains(self@.edges[q].target));
                }
                flat.push((places[r.node as usize], r.weight));
                k = k + 1;
            }
            proof {
                let keys = self.id_seq();
                assert(keys.take(u + 1).drop_last() =~= keys.take(u as int));
                assert(keys.take(u + 1).last() == self.id_at(u as int));
                assert(leaving_total(keys.take(u + 1), self.edges@) == before.len() + es.len());
                self.lemma_nodes_cover(u + 1);
            }
            let ghost old_at = at@;
            at.push(flat.len() as u32);
            proof {
                assert forall|i: int, j: int| 0 <= i <= j <= u + 1 implies at@[i] <= at@[j] by {
                    if j <= u {
                        assert(old_at[i] <= old_at[j]);
                    } else if i <= u {
                        assert(old_at[i] <= old_at[u as int]);
                    }
                }
                assert forall|w: int| 0 <= w < u + 1 implies mirrors_targets(
                    #[trigger] dense::run_of(flat@, at@, w),
                    leaving(self@.edges, self.id_at(w)),
                    self,
                ) by {
                    let sub = dense::run_of(flat@, at@, w);
                    if w < u {
                        assert(old_at[w] <= old_at[w + 1] <= old_at[u as int]);
                        assert(sub =~= dense::run_of(before, old_at, w));
                    } else {
                        assert forall|j: int| 0 <= j < sub.len() implies (#[trigger] sub[j]).0 < self.size()
                            && self.id_at(sub[j].0 as int) == es[j].target && sub[j].1 == es[j].weight by {
                            assert(sub[j] == flat@[before.len() + j]);
                        }
                    }
                }
            }
            u = u + 1;
        }
        proof {
            self.lemma_nodes_cover(self.size() as int);
        }
        (flat, at)
    }

    /// The incoming entries of all nodes in one array, and where each node begins.
    fn flat_in(&self, ids: &Vec<&str>, places: &Vec<u32>) -> (flat: (Vec<(u32, u64)>, Vec<u32>))
        requires
            self.wf(),
            self@.is_closed(),
            self.size() < 0xffff_ffff,
            self@.edges.len() <= u32::MAX,
            ids@.len() == self.size(),
            forall|i: int| 0 <= i < ids@.len() ==> (#[trigger] ids@[i])@ == self.id_at(i),
            places@.len() == self.pool.count(),
            forall|p: int|
                0 <= p < places@.len() && self@.nodes.dom().contains(self.pool.text(p)) ==> (
                #[trigger] places@[p]) < self.size() && self.id_at(places@[p] as int) == self.pool.text(p),
        ensures
            dense::offsets_wf(flat.1@, self.size() as int, flat.0@.len() as int),
            flat.0@.len() == self@.edges.len(),
            forall|k: int| 0 <= k < flat.0@.len() ==> (#[trigger] flat.0@[k]).0 < self.size(),
            forall|u: int|
                0 <= u < self.size() ==> mirrors_sources(
                    #[trigger] dense::run_of(flat.0@, flat.1@, u),
                    entering(self@.edges, self.id_at(u)),
                    self,
                ),
    {
        let mut flat: Vec<(u32, u64)> = Vec::new();
        let mut at: Vec<u32> = Vec::new();
        at.push(0);
        let mut u: usize = 0;
        proof {
            assert(self.id_seq().take(0) =~= Seq::empty());
        }
        while u < ids.len()
            invariant
                self.wf(),
                self@.is_closed(),
                self.size() < 0xffff_ffff,
                self@.edges.len() <= u32::MAX,
                u <= ids@.len(),
                ids@.len() == self.size(),
                forall|i: int| 0 <= i < ids@.len() ==> (#[trigger] ids@[i])@ == self.id_at(i),
                places@.len() == self.pool.count(),
                forall|p: int|
                    0 <= p < places@.len() && self@.nodes.dom().contains(self.pool.text(p)) ==> (
                    #[trigger] places@[p]) < self.size() && self.id_at(places@[p] as int) == self.pool.text(
                        p,
                    ),
                flat@.len() == leaving_total(self.id_seq().take(u as int), flipped(self.edges@)),
                dense::offsets_wf(at@, u as int, flat@.len() as int),
                forall|k: int| 0 <= k < flat@.len() ==> (#[trigger] flat@[k]).0 < self.size(),
                forall|w: int|
                    0 <= w < u ==> mirrors_sources(
                        #[trigger] dense::run_of(flat@, at@, w),
                        entering(self@.edges, self.id_at(w)),
                        self,
                    ),
            decreases ids@.len() - u,
        {
            let refs = self.in_edges(ids[u]);
            let ghost es = entering(self@.edges, self.id_at(u as int));
            let ghost before = flat@;
            let mut k: usize = 0;
            while k < refs.len()
                invariant
                    self.wf(),
                    self@.is_closed(),
                    u < self.size(),
                    es == entering(self@.edges, self.id_at(u as int)),
                    shows_sources(self, refs@, es),
                    places@.len() == self.pool.count(),
                    forall|p: int|
                        0 <= p < places@.len() && self@.nodes.dom().contains(self.pool.text(p)) ==> (
                        #[trigger] places@[p]) < self.size() && self.id_at(places@[p] as int)
                            == self.pool.text(p),
                    k <= refs@.len(),
                    flat@.len() == before.len() + k,
                    forall|j: int| 0 <= j < before.len() ==> #[trigger] flat@[j] == before[j],
                    forall|j: int|
                        before.len() <= j < flat@.len() ==> (#[trigger] flat@[j]).0 < self.size()
                            && self.id_at(flat@[j].0 as int) == es[j - before.len()].source && flat@[j].1
                            == es[j - before.len()].weight,
                decreases refs@.len() - k,
            {
                let r = refs[k];
                proof {
                    assert(refs@[k as int].within(self) && refs@[k as int].shows(
                        self,
                        es[k as int],
                        es[k as int].source,
                    ));
                    lemma_listed_is_edge(self@.edges, self.id_at(u as int));
                    assert(self@.edges.contains(es[k as int]));
                    let q = choose|q: int| 0 <= q < self@.edges.len() && self@.edges[q] == es[k as int];
                    assert(self@.nodes.dom().contains(self@.edges[q].source));
                }
                flat.push((places[r.node as usize], r.weight));
                k = k + 1;
            }
            proof {
                let keys = self.id_seq();
                assert(keys.take(u + 1).drop_last() =~= keys.take(u as int));
                assert(keys.take(u + 1).last() == self.id_at(u as int));
                lemma_flip(self.edges@, self.id_at(u as int));
                assert(leaving_total(keys.take(u + 1), flipped(self.edges@)) == before.len() + es.len());
                self.lemma_nodes_cover(u + 1);
            }
            let ghost old_at = at@;
            at.push(flat.len() as u32);
            proof {
                assert forall|i: int, j: int| 0 <= i <= j <= u + 1 implies at@[i] <= at@[j] by {
                    if j <= u {
                        assert(old_at[i] <= old_at[j]);
                    } else if i <= u {
                        assert(old_at[i] <= old_at[u as int]);
                    }
                }
                assert forall|w: int| 0 <= w < u + 1 implies mirrors_sources(
                    #[trigger] dense::run_of(flat@, at@, w),
                    entering(self@.edges, self.id_at(w)),
                    self,
                ) by {
                    let sub = dense::run_of(flat@, at@, w);
                    if w < u {
                        assert(old_at[w] <= old_at[w + 1] <= old_at[u as int]);
                        assert(sub =~= dense::run_of(before, old_at, w));
                    } else {
                        assert forall|j: int| 0 <= j < sub.len() implies (#[trigger] sub[j]).0 < self.size()
                            && self.id_at(sub[j].0 as int) == es[j].source && sub[j].1 == es[j].weight by {
                            assert(sub[j] == flat@[before.len() + j]);
                        }
                    }
                }
            }
            u = u + 1;
        }
        proof {
            self.lemma_nodes_cover(self.size() as int);
        }
        (flat, at)
    }

    /// The dense view of the graph.
    pub fn build_dense(&self) -> (d: Dense<'_>)
        requires
            self.wf(),
            self@.is_closed(),
            self.size() < 0xffff_ffff,
            self@.edges.len() <= u32::MAX,
        ensures
            is_dense_view(&d, self),
    {
        let ids = self.node_ids();
        let places = self.pool_to_dense(&ids);
        let (out, out_at) = self.flat_out(&ids, &places);
        let (inn, inn_at) = self.flat_in(&ids, &places);
        let d = Dense { ids, out, out_at, inn, inn_at };
        proof {
            self.lemma_ids();
            assert forall|u: int| 0 <= u < self.size() implies mirrors_targets(
                #[trigger] d.outs(u),
                leaving(self@.edges, self.id_at(u)),
                self,
            ) by {
                assert(d.outs(u) == dense::run_of(out@, out_at@, u));
            }
            assert forall|u: int| 0 <= u < self.size() implies mirrors_sources(
                #[trigger] d.ins(u),
                entering(self@.edges, self.id_at(u)),
                self,
            ) by {
                assert(d.ins(u) == dense::run_of(inn@, inn_at@, u));
            }
            assert forall|u: int, v: int| 0 <= u < d.size() && 0 <= v < d.size() implies
                #[trigger] dense::count_to(d.outs(u), v) == #[trigger] dense::count_to(d.ins(v), u) by {
                let s = self.id_at(u);
                let t = self.id_at(v);
                lemma_listed_is_edge(self@.edges, s);
                lemma_listed_is_edge(self@.edges, t);
                lemma_count_targets(d.outs(u), leaving(self@.edges, s), self, s, v);
                lemma_count_sources(d.ins(v), entering(self@.edges, t), self, t, u);
                lemma_between(self@.edges, s, t);
            }
            assert forall|i: int, j: int| 0 <= i < j < d.size() implies text::text_lt(
                #[trigger] d.ids@[i]@,
                #[trigger] d.ids@[j]@,
            ) by {
                assert(text::text_lt(self.id_at(i), self.id_at(j)));
            }
        }
        d
    }
}

} // verus!
