//! How much better a partition holds together than chance would have it.

use vstd::prelude::*;

use super::algorithms;
use super::binary64;
use super::binary64::{call, zero};
use super::communities;
use super::communities::{Arithmetic, Net, Ops, TWO};
use super::dense::Dense;
use super::subgraph;
use super::subgraph::Subgraph;
use super::tally::Tally;
use crate::table::Table;

verus! {

/// The weights of those entries of `row` that lead into community `c`, added to
/// `from`.
pub open spec fn added_inside(o: Ops, from: u64, row: Seq<(int, u64)>, comm: Seq<Option<usize>>, c: usize) -> u64
    decreases row.len(),
{
    if row.len() == 0 {
        from
    } else {
        let before = added_inside(o, from, row.drop_last(), comm, c);
        let e = row.last();
        if comm[e.0] == Some(c) {
            (o.plus)(before, e.1)
        } else {
            before
        }
    }
}

impl Net {
    /// The weight at those of the first `n` nodes that are in `c`.
    pub open spec fn degree_of(self, o: Ops, comm: Seq<Option<usize>>, c: usize, n: int) -> u64
        decreases n,
    {
        if n <= 0 {
            0
        } else if comm[n - 1] == Some(c) {
            (o.plus)(self.degree_of(o, comm, c, n - 1), self.weight_at(o, n - 1))
        } else {
            self.degree_of(o, comm, c, n - 1)
        }
    }

    /// The weight of the edges inside `c` that leave the first `n` nodes.
    pub open spec fn inside_of(self, o: Ops, comm: Seq<Option<usize>>, c: usize, n: int) -> u64
        decreases n,
    {
        if n <= 0 {
            0
        } else if comm[n - 1] == Some(c) {
            added_inside(o, self.inside_of(o, comm, c, n - 1), self.outs[n - 1], comm, c)
        } else {
            self.inside_of(o, comm, c, n - 1)
        }
    }

    /// What community `c` contributes: its share of the weight, less the square
    /// of its share of the degrees.
    pub open spec fn share_of(self, o: Ops, comm: Seq<Option<usize>>, c: usize) -> u64 {
        let m = self.total(o);
        let n = self.size() as int;
        let expected = (o.over)(self.degree_of(o, comm, c, n), (o.times)(TWO, m));
        (o.minus)((o.over)(self.inside_of(o, comm, c, n), m), (o.times)(expected, expected))
    }

    /// What the communities of `labels` contribute, added up.
    pub open spec fn shares_of(self, o: Ops, comm: Seq<Option<usize>>, labels: Seq<usize>) -> u64
        decreases labels.len(),
    {
        if labels.len() == 0 {
            0
        } else {
            (o.plus)(self.shares_of(o, comm, labels.drop_last()), self.share_of(o, comm, labels.last()))
        }
    }

    /// Whether `q` is how good a partition is: nothing where no edge weighs
    /// anything, and otherwise what its communities contribute, by ascending
    /// label.
    pub open spec fn is_modularity(self, o: Ops, comm: Seq<Option<usize>>, q: u64) -> bool {
        if binary64::is_zero(self.total(o)) {
            q == 0
        } else {
            exists|labels: Seq<usize>| #[trigger] lists_labels(labels, comm) && q == self.shares_of(o, comm, labels)
        }
    }
}

/// Whether some node is labelled `c`.
pub open spec fn is_label(comm: Seq<Option<usize>>, c: usize) -> bool {
    exists|u: int| 0 <= u < comm.len() && #[trigger] comm[u] == Some(c)
}

/// Whether `labels` are those of a partition, in strictly ascending order.
pub open spec fn lists_labels(labels: Seq<usize>, comm: Seq<Option<usize>>) -> bool {
    &&& forall|i: int, j: int| 0 <= i < j < labels.len() ==> #[trigger] labels[i] < #[trigger] labels[j]
    &&& forall|c: usize| #[trigger] labels.contains(c) <==> is_label(comm, c)
}

/// The label that a table gives each node.
pub open spec fn labels_of(g: &Subgraph, given: &Table<usize>) -> Seq<Option<usize>> {
    Seq::new(
        g.size(),
        |u: int|
            if given@.dom().contains(g.id_at(u)) {
                Some(given@[g.id_at(u)])
            } else {
                None
            },
    )
}

impl<
    P: Fn(u64, u64) -> u64,
    M: Fn(u64, u64) -> u64,
    T: Fn(u64, u64) -> u64,
    O: Fn(u64, u64) -> u64,
> Arithmetic<P, M, T, O> {
    /// Adds to `inside` the entries of a row of community `c` that stay in it.
    fn tally_inside(&self, inside: &mut Tally, row: &[(u32, u64)], comm: &[Option<usize>], c: usize)
        requires
            self.wf(),
            old(inside).wf(),
            forall|k: int| 0 <= k < row@.len() ==> (#[trigger] row@[k]).0 < comm@.len(),
        ensures
            final(inside).wf(),
            forall|d: usize| #[trigger]
                final(inside).amount(d) == if d == c {
                    added_inside(self.ops(), old(inside).amount(c), communities::wide(row@), comm@, c)
                } else {
                    old(inside).amount(d)
                },
    {
        let ghost o = self.ops();
        let ghost from = inside.amount(c);
        let mut i: usize = 0;
        while i < row.len()
            invariant
                self.wf(),
                o == self.ops(),
                inside.wf(),
                i <= row@.len(),
                from == old(inside).amount(c),
                forall|k: int| 0 <= k < row@.len() ==> (#[trigger] row@[k]).0 < comm@.len(),
                forall|d: usize| #[trigger]
                    inside.amount(d) == if d == c {
                        added_inside(o, from, communities::wide(row@.take(i as int)), comm@, c)
                    } else {
                        old(inside).amount(d)
                    },
            decreases row@.len() - i,
        {
            let other: usize = row[i].0 as usize;
            proof {
                communities::lemma_wide_grows(row@, i as int);
            }
            if let Some(d) = comm[other] {
                if d == c {
                    inside.bump(c, row[i].1, &self.plus);
                }
            }
            i = i + 1;
        }
        proof {
            assert(row@.take(i as int) =~= row@);
        }
    }

    fn share(&self, within: u64, degree: u64, m: u64) -> (s: u64)
        requires
            self.wf(),
        ensures
            s == {
                let o = self.ops();
                let expected = (o.over)(degree, (o.times)(TWO, m));
                (o.minus)((o.over)(within, m), (o.times)(expected, expected))
            },
    {
        let expected: u64 = call(&self.over, degree, call(&self.times, TWO, m));
        call(&self.minus, call(&self.over, within, m), call(&self.times, expected, expected))
    }

    fn modularity(&self, g: &Dense, comm: &[Option<usize>]) -> (q: u64)
        requires
            self.wf(),
            g.wf(),
            comm@.len() == g.size(),
        ensures
            communities::net_of(g).is_modularity(self.ops(), comm@, q),
    {
        let ghost o = self.ops();
        let ghost net = communities::net_of(g);
        let m: u64 = self.total(g);
        if zero(m) {
            return 0;
        }
        let weights = self.weights(g);
        let n: usize = g.len();
        let mut degrees = Tally::new();
        let mut inside = Tally::new();
        let mut u: usize = 0;
        while u < n
            invariant
                self.wf(),
                g.wf(),
                o == self.ops(),
                net == communities::net_of(g),
                n == g.size(),
                u <= n,
                comm@.len() == n,
                weights@.len() == n,
                forall|v: int| 0 <= v < n ==> #[trigger] weights@[v] == net.weight_at(o, v),
                degrees.wf(),
                inside.wf(),
                forall|c: usize| #[trigger]
                    degrees.has(c) <==> exists|v: int| 0 <= v < u && #[trigger] comm@[v] == Some(c),
                forall|c: usize| #[trigger] degrees.amount(c) == net.degree_of(o, comm@, c, u as int),
                forall|c: usize| #[trigger] inside.amount(c) == net.inside_of(o, comm@, c, u as int),
            decreases n - u,
        {
            let ghost had = degrees;
            if let Some(c) = comm[u] {
                degrees.bump(c, weights[u], &self.plus);
                self.tally_inside(&mut inside, g.out(u), comm, c);
            }
            proof {
                assert forall|c: usize| #[trigger] degrees.has(c) <==> exists|v: int|
                    0 <= v < u + 1 && #[trigger] comm@[v] == Some(c) by {
                    if had.has(c) {
                        let v = choose|v: int| 0 <= v < u && #[trigger] comm@[v] == Some(c);
                        assert(comm@[v] == Some(c));
                    }
                    if exists|v: int| 0 <= v < u + 1 && #[trigger] comm@[v] == Some(c) {
                        let v = choose|v: int| 0 <= v < u + 1 && #[trigger] comm@[v] == Some(c);
                        if v < u {
                            assert(had.has(c));
                        }
                    }
                }
            }
            u = u + 1;
        }
        let ghost labels = Seq::new(degrees.rows@.len(), |i: int| degrees.rows@[i].0);
        let mut q: u64 = 0;
        let mut i: usize = 0;
        while i < degrees.rows.len()
            invariant
                self.wf(),
                o == self.ops(),
                net == communities::net_of(g),
                n == net.size(),
                m == net.total(o),
                degrees.wf(),
                inside.wf(),
                i <= degrees.rows@.len(),
                labels == Seq::new(degrees.rows@.len(), |k: int| degrees.rows@[k].0),
                forall|c: usize| #[trigger] degrees.amount(c) == net.degree_of(o, comm@, c, n as int),
                forall|c: usize| #[trigger] inside.amount(c) == net.inside_of(o, comm@, c, n as int),
                q == net.shares_of(o, comm@, labels.take(i as int)),
            decreases degrees.rows@.len() - i,
        {
            let c: usize = degrees.rows[i].0;
            let within: u64 = inside.get(c);
            proof {
                assert(degrees.at(c, i as int));
                degrees.lemma_at(c, i as int);
                assert(labels.take(i + 1).drop_last() =~= labels.take(i as int));
                assert(labels.take(i + 1).last() == c);
            }
            let part: u64 = self.share(within, degrees.rows[i].1, m);
            q = call(&self.plus, q, part);
            i = i + 1;
        }
        proof {
            assert(labels.take(i as int) =~= labels);
            assert forall|c: usize| #[trigger] labels.contains(c) <==> is_label(comm@, c) by {
                if labels.contains(c) {
                    let k = choose|k: int| 0 <= k < labels.len() && labels[k] == c;
                    assert(degrees.at(c, k));
                    assert(degrees.has(c));
                }
                if is_label(comm@, c) {
                    let v = choose|v: int| 0 <= v < comm@.len() && #[trigger] comm@[v] == Some(c);
                    assert(degrees.has(c));
                    let k = choose|k: int| degrees.at(c, k);
                    assert(labels[k] == c);
                }
            }
            assert(lists_labels(labels, comm@));
        }
        q
    }
}

/// The modularity of a partition, directions ignored.
///
/// `communities` labels nodes; one that it does not name is in none, and what
/// it names besides the nodes counts for nothing.
pub fn modularity<
    P: Fn(u64, u64) -> u64,
    M: Fn(u64, u64) -> u64,
    T: Fn(u64, u64) -> u64,
    O: Fn(u64, u64) -> u64,
>(graph: &Subgraph, communities: &Table<usize>, arithmetic: &Arithmetic<P, M, T, O>) -> (q: u64)
    requires
        algorithms::runnable(graph),
        communities.wf(),
        arithmetic.wf(),
    ensures
        communities::graph_net(graph).is_modularity(arithmetic.ops(), labels_of(graph, communities), q),
{
    let g = graph.build_dense();
    let n: usize = g.len();
    let mut comm: Vec<Option<usize>> = Vec::new();
    let mut u: usize = 0;
    while u < n
        invariant
            n == g.size(),
            n == graph.size(),
            subgraph::is_dense_view(&g, graph),
            communities.wf(),
            u <= n,
            comm@.len() == u,
            forall|v: int| 0 <= v < u ==> #[trigger] comm@[v] == labels_of(graph, communities)[v],
        decreases n - u,
    {
        assert(g.ids@[u as int]@ == graph.id_at(u as int));
        let label: Option<usize> = match communities.get(g.id(u)) {
            Some(c) => Some(*c),
            None => None,
        };
        comm.push(label);
        u = u + 1;
    }
    proof {
        assert(comm@ =~= labels_of(graph, communities));
        communities::lemma_same_net(&g, graph);
    }
    arithmetic.modularity(&g, comm.as_slice())
}

} // verus!
