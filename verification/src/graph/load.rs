//! Loading a subgraph: the statements, and what becomes of each row.

use vstd::prelude::*;

use crate::connection::rows::Annotation;
use crate::error::{DbError, Result};
use crate::graph::binary64;
use crate::graph::builder;
use crate::graph::builder::TraversalBuilder;
use crate::graph::lineage::LineageShape;
use crate::graph::plan;
use crate::graph::subgraph;
use crate::graph::subgraph::{node_cost, Edge, NodeData, NodeView, Subgraph};
use crate::sql;
use crate::sql::{bind, slots, text_value, SqlValue, SqlView};
use crate::table::Table;
use crate::text;

verus! {

/// Negative infinity, as binary64 bits: a weight that every edge has at least.
pub const NEG_INFINITY: u64 = 0xFFF0_0000_0000_0000;

/// The traversal that loads everything within `max_hops` hops, whatever it
/// weighs: an edge of negative weight is to be refused, not passed over.
pub fn whole_neighbourhood(start_node: &str, max_hops: u32) -> (b: TraversalBuilder)
    ensures
        b@ == (builder::TraversalView {
            max_depth: max_hops as usize,
            min_weight: NEG_INFINITY,
            ..builder::TraversalView::from_node(start_node@)
        }),
{
    TraversalBuilder::new(start_node).max_depth(max_hops as usize).min_weight(NEG_INFINITY)
}

/// The statement that reads the edges between what a walk reaches. The filters
/// stand in it twice: in the walk they bound what is reached, here what is
/// read.
pub open spec fn edges_text(t: builder::TraversalView, shape: LineageShape) -> Seq<char> {
    let r = t.asks(shape);
    t.walk_text(shape)
        + r"
SELECT DISTINCT l.source_id, l.target_id, l.edge_type, l.weight, l.valid_from, l.valid_to
FROM walk w
JOIN "@ + r.source()
        + r" l ON l.source_id = w.node_id
WHERE l.valid_from <= ?3 AND ?3 < l.valid_to
  AND l.weight >= ?4"@ + (r.own_lineage() + r.own_edge()) + "\n  "@ + t.edge_filter(shape)
        + r"
ORDER BY l.source_id, l.target_id, l.edge_type
"@
}

/// The statement that reads the edges between what a walk reaches, and what it
/// binds.
pub fn edges_query(t: &TraversalBuilder, now_ts: &str, shape: LineageShape) -> (query: (String, Vec<SqlValue>))
    requires
        t.edge_types@.len() + builder::BRANCH_SLOT + 2 <= usize::MAX,
    ensures
        query.0@ == edges_text(t@, shape),
        sql::values(query.1@) == t@.bound(now_ts@, shape),
{
    let mut out = t.walk_cte(shape);
    out.append(
        r"
SELECT DISTINCT l.source_id, l.target_id, l.edge_type, l.weight, l.valid_from, l.valid_to
FROM walk w
JOIN ",
    );
    out.append(t.link_source(shape).as_str());
    out.append(
        r" l ON l.source_id = w.node_id
WHERE l.valid_from <= ?3 AND ?3 < l.valid_to
  AND l.weight >= ?4",
    );
    out.append(t.lineage_filter_sql(shape).as_str());
    out.append("\n  ");
    out.append(t.edge_filter_sql(shape).as_str());
    out.append(
        r"
ORDER BY l.source_id, l.target_id, l.edge_type
",
    );
    (out, t.bind_params(now_ts, shape))
}

/// Whether a weight, as binary64 bits, is below nought or no number at all.
pub open spec fn is_refused_weight(bits: u64) -> bool {
    !(bits <= 0x7FF0_0000_0000_0000 || bits == 0x8000_0000_0000_0000)
}

/// A weight is refused exactly where it is no number or is less than nought.
pub proof fn law_refused_weights_are_no_weights(bits: u64)
    ensures
        is_refused_weight(bits) <==> binary64::is_nan(bits) || binary64::lt(bits, 0),
{
}

/// One edge as a statement gave it back.
#[derive(Debug)]
pub struct EdgeRow {
    pub source: String,
    pub target: String,
    pub edge_type: String,
    pub weight: u64,
    pub valid_from: String,
    pub valid_to: String,
}

impl EdgeRow {
    /// The edge.
    pub open spec fn edge(&self) -> Edge {
        Edge {
            source: self.source@,
            target: self.target@,
            edge_type: self.edge_type@,
            weight: self.weight,
            valid_from: self.valid_from@,
            valid_to: self.valid_to@,
        }
    }

    /// What the edge adds to a graph that pools `pooled`.
    pub open spec fn cost(&self, pooled: Set<Seq<char>>) -> nat {
        2 * vstd::layout::size_of::<subgraph::EdgeRef>() + subgraph::fresh_edge_bytes(
            pooled,
            self.source@,
            self.target@,
            self.edge_type@,
            self.valid_from@,
            self.valid_to@,
        )
    }
}

/// One node as a statement gave it back.
#[derive(Debug)]
pub struct NodeRow {
    pub id: String,
    pub title: String,
    pub content: Option<String>,
    pub embedding_model: Option<String>,
    pub valid_from: String,
    pub valid_to: String,
}

impl NodeRow {
    /// The attributes of the node, with its content or without.
    pub open spec fn node(&self, content: bool) -> NodeView {
        NodeView {
            title: self.title@,
            content: if content {
                text::opt_view(self.content)
            } else {
                None
            },
            embedding_model: text::opt_view(self.embedding_model),
            valid_from: self.valid_from@,
            valid_to: self.valid_to@,
        }
    }
}

/// A subgraph that is being loaded under a budget.
pub struct Loader {
    pub graph: Subgraph,
    /// What the load has come to so far.
    pub bytes: usize,
    pub budget: usize,
}

impl Loader {
    /// The graph is well formed, and costs no more than was counted.
    pub open spec fn wf(&self) -> bool {
        self.graph.wf() && self.graph.estimate() <= self.bytes
    }

    /// An empty graph under a budget.
    pub fn new(budget: usize) -> (l: Loader)
        ensures
            l.wf(),
            l.graph@.nodes == Map::<Seq<char>, subgraph::NodeView>::empty(),
            l.graph@.edges == Seq::<Edge>::empty(),
            l.graph@.pooled == Set::<Seq<char>>::empty(),
            l.graph.estimate() == 0,
            l.bytes == 0,
            l.budget == budget,
    {
        Loader { graph: Subgraph::new(), bytes: 0, budget }
    }

    /// Whether one more edge fits the pool's index and the counters.
    pub open spec fn takes(&self, row: &EdgeRow) -> bool {
        &&& self.graph.pool_size() + subgraph::fresh_edge_count(
            self.graph@.pooled,
            row.source@,
            row.target@,
            row.edge_type@,
            row.valid_from@,
            row.valid_to@,
        ) <= u32::MAX + 1
        &&& self.bytes + row.cost(self.graph@.pooled) <= usize::MAX
    }

    /// Whether one more edge fits the pool's index and the counters.
    pub fn has_room(&self, row: &EdgeRow) -> (yes: bool)
        requires
            self.wf(),
        ensures
            yes == self.takes(row),
    {
        let (added, count) = self.graph.edge_cost(
            row.source.as_str(),
            row.target.as_str(),
            row.edge_type.as_str(),
            row.valid_from.as_str(),
            row.valid_to.as_str(),
        );
        self.graph.pool_len() as u128 + count as u128 <= u32::MAX as u128 + 1 && self.bytes as u128 + added
            <= usize::MAX as u128
    }

    /// Whether one more node fits what is counted.
    pub fn has_room_for(&self, row: &NodeRow, content: bool) -> (yes: bool)
        ensures
            yes == (self.bytes + subgraph::node_bytes(row.id@, row.node(content)) <= usize::MAX),
    {
        let text: usize = match &row.content {
            Some(text) => if content {
                text.as_str().as_bytes().len()
            } else {
                0
            },
            None => 0,
        };
        let model: usize = match &row.embedding_model {
            Some(text) => text.as_str().as_bytes().len(),
            None => 0,
        };
        self.bytes as u128 + row.id.as_str().as_bytes().len() as u128 + row.title.as_str().as_bytes().len() as u128
            + text as u128 + model as u128 + row.valid_from.as_str().as_bytes().len() as u128
            + row.valid_to.as_str().as_bytes().len() as u128 + core::mem::size_of::<NodeData>() as u128
            <= usize::MAX as u128
    }

    /// Takes in an edge. One of negative weight is refused, and so is one that
    /// takes the load past its budget.
    pub fn take_edge(&mut self, row: &EdgeRow) -> (taken: Result<()>)
        requires
            old(self).wf(),
            is_refused_weight(row.weight) || old(self).takes(row),
        ensures
            final(self).wf(),
            final(self).budget == old(self).budget,
            final(self).graph@.nodes == old(self).graph@.nodes,
            is_refused_weight(row.weight) ==> (taken matches Err(e) && (e matches DbError::NegativeEdgeWeight {
                source_id,
                target_id,
                weight,
            } && source_id@ == row.source@ && target_id@ == row.target@ && weight == row.weight))
                && final(self).graph@.edges == old(self).graph@.edges && final(self).bytes == old(self).bytes,
            !is_refused_weight(row.weight) ==> {
                &&& final(self).graph@.edges == old(self).graph@.edges.push(row.edge())
                &&& final(self).bytes == old(self).bytes + row.cost(old(self).graph@.pooled)
                &&& final(self).graph.estimate() == old(self).graph.estimate() + row.cost(
                    old(self).graph@.pooled,
                )
                &&& taken.is_ok() == (final(self).bytes <= old(self).budget)
                &&& taken matches Err(e) ==> (e matches DbError::SubgraphTooLarge { n, budget } && n
                    == final(self).bytes && budget == old(self).budget)
            },
    {
        if !(row.weight <= 0x7FF0_0000_0000_0000 || row.weight == 0x8000_0000_0000_0000) {
            return Err(
                DbError::NegativeEdgeWeight {
                    source_id: row.source.clone(),
                    target_id: row.target.clone(),
                    weight: row.weight,
                },
            );
        }
        proof {
            let held = 2 * vstd::layout::size_of::<subgraph::EdgeRef>() * self.graph@.edges.len();
            assert(0 <= held) by (nonlinear_arith)
                requires
                    held == 2 * vstd::layout::size_of::<subgraph::EdgeRef>() * self.graph@.edges.len(),
            ;
        }
        let added: usize = self.graph.add_edge(
            row.source.as_str(),
            row.target.as_str(),
            row.edge_type.as_str(),
            row.weight,
            row.valid_from.as_str(),
            row.valid_to.as_str(),
        );
        self.bytes = self.bytes + added;
        if self.bytes > self.budget {
            return Err(DbError::SubgraphTooLarge { n: self.bytes, budget: self.budget });
        }
        Ok(())
    }

    /// Takes in a node. One that takes the load past its budget is refused.
    pub fn take_node(&mut self, id: &str, data: NodeData) -> (taken: Result<()>)
        requires
            old(self).wf(),
            old(self).bytes + subgraph::node_bytes(id@, data@) <= usize::MAX,
        ensures
            final(self).wf(),
            final(self).budget == old(self).budget,
            final(self).graph@.nodes == old(self).graph@.nodes.insert(id@, data@),
            final(self).graph@.edges == old(self).graph@.edges,
            final(self).bytes == old(self).bytes + subgraph::node_bytes(id@, data@),
            !old(self).graph@.nodes.dom().contains(id@) ==> final(self).graph.estimate() == old(
                self,
            ).graph.estimate() + subgraph::node_bytes(id@, data@),
            taken.is_ok() == (final(self).bytes <= old(self).budget),
            taken matches Err(e) ==> (e matches DbError::SubgraphTooLarge { n, budget } && n == final(self).bytes
                && budget == old(self).budget),
    {
        let cost: usize = node_cost(id, &data);
        let _ = self.graph.insert_node(id, data);
        self.bytes = self.bytes + cost;
        if self.bytes > self.budget {
            return Err(DbError::SubgraphTooLarge { n: self.bytes, budget: self.budget });
        }
        Ok(())
    }

    /// Takes in a node as a statement gave it back; its content only where that
    /// was asked for.
    pub fn take_row(&mut self, row: NodeRow, content: bool) -> (taken: Result<()>)
        requires
            old(self).wf(),
            old(self).bytes + subgraph::node_bytes(row.id@, row.node(content)) <= usize::MAX,
        ensures
            final(self).wf(),
            final(self).budget == old(self).budget,
            final(self).graph@.nodes == old(self).graph@.nodes.insert(row.id@, row.node(content)),
            final(self).graph@.edges == old(self).graph@.edges,
            final(self).bytes == old(self).bytes + subgraph::node_bytes(row.id@, row.node(content)),
            taken.is_ok() == (final(self).bytes <= old(self).budget),
            taken matches Err(e) ==> (e matches DbError::SubgraphTooLarge { n, budget } && n == final(self).bytes
                && budget == old(self).budget),
    {
        let mut data = NodeData::new(row.title.as_str(), row.valid_from.as_str(), row.valid_to.as_str());
        if content {
            if let Some(text) = &row.content {
                data = data.with_content(text.as_str());
            }
        }
        data = data.with_embedding_model(row.embedding_model);
        proof {
            assert(data@ == row.node(content));
        }
        self.take_node(row.id.as_str(), data)
    }

    /// The graph, without the edges that do not join two of its nodes.
    pub fn finish(self) -> (g: Subgraph)
        requires
            self.wf(),
        ensures
            g.wf(),
            g@.is_closed(),
            g@.nodes == self.graph@.nodes,
            g@.edges == subgraph::joined(self.graph@.edges, self.graph@.nodes.dom()),
    {
        let mut g = self.graph;
        g.drop_dangling_adjacency();
        g
    }
}

/// Whether an edge begins or ends at `id`.
pub open spec fn touched(edges: Seq<Edge>, id: Seq<char>) -> bool {
    subgraph::leaving(edges, id).len() > 0 || subgraph::entering(edges, id).len() > 0
}

impl Loader {
    /// The nodes whose attributes are to be read: the start, and every end of
    /// an edge; each once, in order.
    pub fn frontier(&self, start: &str) -> (ids: Vec<String>)
        requires
            self.wf(),
        ensures
            subgraph::ascending(plan::texts(ids@)),
            forall|id: Seq<char>|
                plan::texts(ids@).contains(id) <==> id == start@ || #[trigger] touched(self.graph@.edges, id),
    {
        let mut t: Table<bool> = Table::new();
        let ghost edges = self.graph@.edges;
        let out = self.graph.out_adjacency();
        let inn = self.graph.in_adjacency();
        let n: usize = out.len();
        let mut i: usize = 0;
        while i < n
            invariant
                n == out@.len(),
                i <= n,
                t.wf(),
                forall|k: Seq<char>| #[trigger]
                    t@.dom().contains(k) <==> exists|j: int| 0 <= j < i && (#[trigger] out@[j]).0@ == k,
            decreases n - i,
        {
            let ghost before = t@;
            let _ = t.insert(out[i].0.to_owned(), true);
            proof {
                assert forall|k: Seq<char>| #[trigger] t@.dom().contains(k) <==> exists|j: int|
                    0 <= j < i + 1 && (#[trigger] out@[j]).0@ == k by {
                    if before.dom().contains(k) {
                        let j = choose|j: int| 0 <= j < i && (#[trigger] out@[j]).0@ == k;
                        assert(out@[j].0@ == k);
                    }
                    if k == out@[i as int].0@ {
                        assert(out@[i as int].0@ == k);
                    }
                }
            }
            i = i + 1;
        }
        proof {
            assert forall|k: Seq<char>| #[trigger] t@.dom().contains(k) <==> subgraph::leaving(edges, k).len()
                > 0 by {
                if t@.dom().contains(k) {
                    let j = choose|j: int| 0 <= j < n && (#[trigger] out@[j]).0@ == k;
                    assert(out@[j].1@.len() > 0);
                }
            }
        }
        let ghost sources = t@.dom();
        let m: usize = inn.len();
        i = 0;
        while i < m
            invariant
                m == inn@.len(),
                i <= m,
                t.wf(),
                forall|k: Seq<char>| #[trigger]
                    t@.dom().contains(k) <==> sources.contains(k) || exists|j: int|
                        0 <= j < i && (#[trigger] inn@[j]).0@ == k,
            decreases m - i,
        {
            let ghost before = t@;
            let _ = t.insert(inn[i].0.to_owned(), true);
            proof {
                assert forall|k: Seq<char>| #[trigger] t@.dom().contains(k) <==> sources.contains(k)
                    || exists|j: int| 0 <= j < i + 1 && (#[trigger] inn@[j]).0@ == k by {
                    if before.dom().contains(k) && !sources.contains(k) {
                        let j = choose|j: int| 0 <= j < i && (#[trigger] inn@[j]).0@ == k;
                        assert(inn@[j].0@ == k);
                    }
                    if k == inn@[i as int].0@ {
                        assert(inn@[i as int].0@ == k);
                    }
                }
            }
            i = i + 1;
        }
        proof {
            assert forall|k: Seq<char>| #[trigger] t@.dom().contains(k) <==> touched(edges, k) by {
                if t@.dom().contains(k) && !sources.contains(k) {
                    let j = choose|j: int| 0 <= j < m && (#[trigger] inn@[j]).0@ == k;
                    assert(inn@[j].1@.len() > 0);
                }
            }
        }
        let _ = t.insert(start.to_owned(), true);
        let mut ids: Vec<String> = Vec::new();
        let total: usize = t.rows.len();
        i = 0;
        while i < total
            invariant
                total == t.rows@.len(),
                t.wf(),
                i <= total,
                ids@.len() == i,
                forall|j: int| 0 <= j < i ==> (#[trigger] ids@[j])@ == t.rows@[j].0@,
            decreases total - i,
        {
            ids.push(t.rows[i].0.clone());
            i = i + 1;
        }
        proof {
            let texts = plan::texts(ids@);
            assert forall|a: int, b: int| 0 <= a < b < texts.len() implies text::text_lt(
                #[trigger] texts[a],
                #[trigger] texts[b],
            ) by {
                assert(text::text_lt(t.rows@[a].0@, t.rows@[b].0@));
            }
            assert forall|id: Seq<char>|
                texts.contains(id) <==> id == start@ || #[trigger] touched(edges, id) by {
                if texts.contains(id) {
                    let j = choose|j: int| 0 <= j < texts.len() && texts[j] == id;
                    assert(t.at(id, j));
                    assert(t.has(id));
                    assert(t@.dom().contains(id));
                }
                if id == start@ || touched(edges, id) {
                    assert(t@.dom().contains(id));
                    assert(t.has(id));
                    let j = choose|j: int| t.at(id, j);
                    assert(texts[j] == id);
                }
            }
        }
        ids
    }
}

/// The statement that reads the attributes of `n` nodes.
pub open spec fn hydrate_text(n: nat) -> Seq<char> {
    "SELECT id, title, content, embedding_model, valid_from, valid_to FROM concepts WHERE retired = 0 AND id IN ("@
        + sql::slot_list(1, n) + ")"@
}

/// The statement that reads the attributes of these nodes, and what it binds.
pub fn hydrate_query(ids: &[String]) -> (query: (String, Vec<SqlValue>))
    requires
        ids@.len() < usize::MAX,
    ensures
        query.0@ == hydrate_text(ids@.len()),
        sql::values(query.1@) == plan::texts(ids@).map_values(|id: Seq<char>| SqlView::Text(id)),
{
    let n: usize = ids.len();
    let list = slots(1, n);
    let mut out =
        "SELECT id, title, content, embedding_model, valid_from, valid_to FROM concepts WHERE retired = 0 AND id IN (".to_owned();
    out.append(list.as_str());
    out.append(")");
    let mut row: Vec<SqlValue> = Vec::new();
    let ghost texts = plan::texts(ids@).map_values(|id: Seq<char>| SqlView::Text(id));
    proof {
        assert(sql::values(row@) =~= texts.take(0));
    }
    let mut i: usize = 0;
    while i < n
        invariant
            n == ids@.len(),
            i <= n,
            texts == plan::texts(ids@).map_values(|id: Seq<char>| SqlView::Text(id)),
            sql::values(row@) == texts.take(i as int),
        decreases n - i,
    {
        bind(&mut row, text_value(ids[i].as_str()));
        proof {
            assert(texts.take(i + 1) =~= texts.take(i as int).push(SqlView::Text(ids@[i as int]@)));
        }
        i = i + 1;
    }
    proof {
        assert(texts.take(n as int) =~= texts);
    }
    (out, row)
}

/// Of some nodes those that have a value are annotated, each once and in their
/// order, and no others: `of` tells which.
pub proof fn law_every_node_with_a_value_is_annotated(g: &Subgraph, values: Map<Seq<char>, String>, n: int) -> (of: Seq<
    int,
>)
    requires
        0 <= n,
    ensures
        of.len() == g.valued(values, n).len(),
        forall|k: int|
            0 <= k < of.len() ==> 0 <= (#[trigger] of[k]) < n && g.valued(values, n)[k] == g.id_at(of[k])
                && values.dom().contains(g.id_at(of[k])),
        forall|k: int, l: int| 0 <= k < l < of.len() ==> #[trigger] of[k] < #[trigger] of[l],
        forall|i: int| 0 <= i < n && values.dom().contains(#[trigger] g.id_at(i)) ==> of.contains(i),
    decreases n,
{
    if n == 0 {
        Seq::empty()
    } else {
        let before = law_every_node_with_a_value_is_annotated(g, values, n - 1);
        if values.dom().contains(g.id_at(n - 1)) {
            let of = before.push(n - 1);
            assert forall|i: int| 0 <= i < n && values.dom().contains(#[trigger] g.id_at(i)) implies of.contains(
                i,
            ) by {
                if i < n - 1 {
                    let k = before.index_of(i);
                    assert(of[k] == i);
                } else {
                    assert(of[before.len() as int] == i);
                }
            }
            of
        } else {
            before
        }
    }
}

impl Subgraph {
    /// The ids of the first `n` nodes that have a value.
    pub open spec fn valued(&self, values: Map<Seq<char>, String>, n: int) -> Seq<Seq<char>>
        decreases n,
    {
        if n <= 0 {
            Seq::empty()
        } else if values.dom().contains(self.id_at(n - 1)) {
            self.valued(values, n - 1).push(self.id_at(n - 1))
        } else {
            self.valued(values, n - 1)
        }
    }

    /// One annotation for each node that has a value, in the order of the
    /// nodes; a node without one is not annotated.
    pub fn annotations(&self, label: &str, values: &Table<String>) -> (rows: Vec<Annotation>)
        requires
            self.wf(),
            values.wf(),
        ensures
            rows@.len() == self.valued(values@, self.size() as int).len(),
            forall|i: int|
                0 <= i < rows@.len() ==> (#[trigger] rows@[i]).concept_id@ == self.valued(
                    values@,
                    self.size() as int,
                )[i] && rows@[i].label@ == label@ && rows@[i].value@ == values@[rows@[i].concept_id@]@,
    {
        let ids = self.node_ids();
        let n: usize = ids.len();
        let mut rows: Vec<Annotation> = Vec::new();
        let mut i: usize = 0;
        while i < n
            invariant
                n == ids@.len(),
                n == self.size(),
                values.wf(),
                forall|j: int| 0 <= j < ids@.len() ==> (#[trigger] ids@[j])@ == self.id_at(j),
                i <= n,
                rows@.len() == self.valued(values@, i as int).len(),
                forall|j: int|
                    0 <= j < rows@.len() ==> (#[trigger] rows@[j]).concept_id@ == self.valued(
                        values@,
                        i as int,
                    )[j] && rows@[j].label@ == label@ && rows@[j].value@ == values@[rows@[j].concept_id@]@,
            decreases n - i,
        {
            let id = ids[i];
            if let Some(value) = values.get(id) {
                rows.push(Annotation::new(id, label, value.as_str()));
            }
            i = i + 1;
        }
        rows
    }
}

} // verus!
