//! Sums of edge weights.
//!
//! A weight is the bit pattern of a binary64 value, so adding two is the
//! caller's: `plus` adds, and `zero` is what a sum begins with.

use vstd::prelude::*;

use crate::graph::subgraph;
use crate::graph::subgraph::{Edge, EdgeRef, Subgraph};
use crate::text;

verus! {

/// Whether adding up `weights`, first to last, may come to `total`.
pub open spec fn sums_to<F: Fn(u64, u64) -> u64>(plus: F, zero: u64, weights: Seq<u64>, total: u64) -> bool
    decreases weights.len(),
{
    if weights.len() == 0 {
        total == zero
    } else {
        exists|part: u64|
            sums_to(plus, zero, weights.drop_last(), part) && #[trigger] call_ensures(
                plus,
                (part, weights.last()),
                total,
            )
    }
}

/// The weights of edges, in order.
pub open spec fn weights_of(edges: Seq<Edge>) -> Seq<u64> {
    edges.map_values(|e: Edge| e.weight)
}

/// Whether a sum may be made of any two weights.
pub open spec fn adds<F: Fn(u64, u64) -> u64>(plus: F) -> bool {
    forall|a: u64, b: u64| #[trigger] call_requires(plus, (a, b))
}

fn sum_of<F: Fn(u64, u64) -> u64>(refs: &[EdgeRef], from: u64, plus: &F, Ghost(zero): Ghost<u64>, Ghost(before): Ghost<
    Seq<u64>,
>, Ghost(ws): Ghost<Seq<u64>>) -> (total: u64)
    requires
        adds(*plus),
        sums_to(*plus, zero, before, from),
        ws.len() == refs@.len(),
        forall|i: int| 0 <= i < refs@.len() ==> (#[trigger] refs@[i]).weight_bits() == ws[i],
    ensures
        sums_to(*plus, zero, before + ws, total),
{
    let mut total: u64 = from;
    let n: usize = refs.len();
    let mut i: usize = 0;
    proof {
        assert(before + ws.take(0) =~= before);
    }
    while i < n
        invariant
            n == refs@.len(),
            ws.len() == n,
            i <= n,
            adds(*plus),
            forall|j: int| 0 <= j < refs@.len() ==> (#[trigger] refs@[j]).weight_bits() == ws[j],
            sums_to(*plus, zero, before + ws.take(i as int), total),
        decreases n - i,
    {
        let w: u64 = refs[i].weight();
        let ghost part = total;
        total = plus(total, w);
        proof {
            let longer = before + ws.take(i + 1);
            assert(longer.drop_last() =~= before + ws.take(i as int));
            assert(longer.last() == w);
            assert(sums_to(*plus, zero, longer.drop_last(), part));
            assert(call_ensures(*plus, (part, longer.last()), total));
            assert(sums_to(*plus, zero, longer, total));
        }
        i = i + 1;
    }
    proof {
        assert(ws.take(n as int) =~= ws);
    }
    total
}

/// The edges that leave the first `n` of `keys`, key by key.
pub open spec fn by_source(edges: Seq<Edge>, keys: Seq<Seq<char>>, n: int) -> Seq<Edge>
    decreases n,
{
    if n <= 0 {
        Seq::empty()
    } else {
        by_source(edges, keys, n - 1) + subgraph::leaving(edges, keys[n - 1])
    }
}

/// Whether `keys` are the nodes that edges leave, in order.
pub open spec fn are_sources(edges: Seq<Edge>, keys: Seq<Seq<char>>) -> bool {
    &&& subgraph::ascending(keys)
    &&& forall|s: Seq<char>| #[trigger] subgraph::leaving(edges, s).len() > 0 <==> keys.contains(s)
}

impl Subgraph {
    /// The weight of the edges at `node`: those that leave it added up, those
    /// that enter it added up, and the two added together.
    pub fn weighted_degree<F: Fn(u64, u64) -> u64>(&self, node: &str, zero: u64, plus: &F) -> (total: u64)
        requires
            self.wf(),
            adds(*plus),
        ensures
            exists|out: u64, inn: u64| #[trigger]
                sums_to(*plus, zero, weights_of(subgraph::leaving(self@.edges, node@)), out) && #[trigger] sums_to(
                    *plus,
                    zero,
                    weights_of(subgraph::entering(self@.edges, node@)),
                    inn,
                ) && call_ensures(*plus, (out, inn), total),
    {
        let leaving = self.out_edges(node);
        let entering = self.in_edges(node);
        let ghost out_ws = weights_of(subgraph::leaving(self@.edges, node@));
        let ghost in_ws = weights_of(subgraph::entering(self@.edges, node@));
        let ghost none: Seq<u64> = Seq::empty();
        proof {
            assert(none + out_ws =~= out_ws);
            assert(none + in_ws =~= in_ws);
            let (outs, ins) = (
                subgraph::leaving(self@.edges, node@),
                subgraph::entering(self@.edges, node@),
            );
            assert forall|i: int| 0 <= i < leaving@.len() implies (#[trigger] leaving@[i]).weight_bits()
                == out_ws[i] by {
                leaving@[i].lemma_weight(self, outs[i], outs[i].target);
            }
            assert forall|i: int| 0 <= i < entering@.len() implies (#[trigger] entering@[i]).weight_bits()
                == in_ws[i] by {
                entering@[i].lemma_weight(self, ins[i], ins[i].source);
            }
        }
        let out: u64 = sum_of(leaving, zero, plus, Ghost(zero), Ghost(none), Ghost(out_ws));
        let inn: u64 = sum_of(entering, zero, plus, Ghost(zero), Ghost(none), Ghost(in_ws));
        plus(out, inn)
    }

    /// The weight of all edges, each counted once: added up source by source,
    /// in the order of the sources.
    pub fn total_weight<F: Fn(u64, u64) -> u64>(&self, zero: u64, plus: &F) -> (total: u64)
        requires
            self.wf(),
            adds(*plus),
        ensures
            exists|keys: Seq<Seq<char>>| #[trigger]
                are_sources(self@.edges, keys) && sums_to(
                    *plus,
                    zero,
                    weights_of(by_source(self@.edges, keys, keys.len() as int)),
                    total,
                ),
    {
        let rows = self.out_adjacency();
        let n: usize = rows.len();
        let ghost keys = Seq::new(rows@.len(), |i: int| rows@[i].0@);
        let ghost edges = self@.edges;
        let mut total: u64 = zero;
        let mut i: usize = 0;
        proof {
            assert(weights_of(by_source(edges, keys, 0)) =~= Seq::empty());
        }
        while i < n
            invariant
                self.wf(),
                edges == self@.edges,
                n == rows@.len(),
                i <= n,
                adds(*plus),
                keys == Seq::new(rows@.len(), |j: int| rows@[j].0@),
                forall|j: int|
                    0 <= j < rows@.len() ==> (#[trigger] rows@[j]).1@.len() > 0 && subgraph::shows_targets(
                        self,
                        rows@[j].1@,
                        subgraph::leaving(self@.edges, rows@[j].0@),
                    ),
                sums_to(*plus, zero, weights_of(by_source(edges, keys, i as int)), total),
            decreases n - i,
        {
            let ghost before = weights_of(by_source(edges, keys, i as int));
            let ghost ws = weights_of(subgraph::leaving(edges, keys[i as int]));
            proof {
                assert(rows@[i as int].1@.len() > 0);
                assert(weights_of(by_source(edges, keys, i + 1)) =~= before + ws);
                let (refs, outs) = (rows@[i as int].1@, subgraph::leaving(edges, keys[i as int]));
                assert forall|j: int| 0 <= j < refs.len() implies (#[trigger] refs[j]).weight_bits()
                    == ws[j] by {
                    refs[j].lemma_weight(self, outs[j], outs[j].target);
                }
            }
            total = sum_of(rows[i].1, total, plus, Ghost(zero), Ghost(before), Ghost(ws));
            i = i + 1;
        }
        proof {
            assert forall|s: Seq<char>| #[trigger] subgraph::leaving(edges, s).len() > 0 <==> keys.contains(s) by {
                if subgraph::leaving(edges, s).len() > 0 {
                    let j = choose|j: int| 0 <= j < rows@.len() && (#[trigger] rows@[j]).0@ == s;
                    assert(keys[j] == s);
                }
                if keys.contains(s) {
                    let j = choose|j: int| 0 <= j < keys.len() && keys[j] == s;
                    assert(rows@[j].1@.len() > 0);
                }
            }
            assert forall|a: int, b: int| 0 <= a < b < keys.len() implies text::text_lt(
                #[trigger] keys[a],
                #[trigger] keys[b],
            ) by {
                assert(text::text_lt(rows@[a].0@, rows@[b].0@));
            }
            assert(are_sources(edges, keys));
        }
        total
    }
}

} // verus!
