//! What a partition is worth, where nothing rounds.
//!
//! Its modularity is then its score over the square of twice the weight of all
//! edges, so partitions stand by modularity as they do by score.

use vstd::prelude::*;

use super::algorithms;
use super::binary64;
use super::communities;
use super::communities::{Net, Ops, MAX_SWEEPS, TWO};
use super::exact;
use super::exact::Scale;
use super::modularity;
use super::quality;
use super::relabel;
use super::subgraph::Subgraph;

verus! {

/// A partition in which every node has a community.
pub open spec fn labelled(comm: Seq<usize>) -> Seq<Option<usize>> {
    comm.map_values(|c: usize| Some(c))
}

impl Scale {
    /// Whether the weights of those entries of `row` that lead into `c` are added
    /// to `from` without rounding.
    pub open spec fn adds_inside(
        self,
        o: Ops,
        from: u64,
        row: Seq<(int, u64)>,
        comm: Seq<Option<usize>>,
        c: usize,
    ) -> bool
        decreases row.len(),
    {
        row.len() == 0 || {
            let rest = row.drop_last();
            self.adds_inside(o, from, rest, comm, c) && (comm[row.last().0] == Some(c) ==> self.adds(
                o,
                modularity::added_inside(o, from, rest, comm, c),
                row.last().1,
            ))
        }
    }
}

impl Net {
    /// Whether what the first `n` nodes bring to `c` is added up without
    /// rounding.
    pub open spec fn counts(self, o: Ops, t: Scale, comm: Seq<Option<usize>>, c: usize, n: int) -> bool
        decreases n,
    {
        n <= 0 || {
            &&& self.counts(o, t, comm, c, n - 1)
            &&& comm[n - 1] == Some(c) ==> {
                &&& t.adds(o, self.degree_of(o, comm, c, n - 1), self.weight_at(o, n - 1))
                &&& t.adds_inside(o, self.inside_of(o, comm, c, n - 1), self.outs[n - 1], comm, c)
            }
        }
    }

    /// Whether what `c` contributes is worked out without rounding.
    pub open spec fn shares(self, o: Ops, t: Scale, comm: Seq<Option<usize>>, c: usize) -> bool {
        let n = self.size() as int;
        let m = self.total(o);
        let double = (o.times)(TWO, m);
        let expected = (o.over)(self.degree_of(o, comm, c, n), double);
        &&& self.counts(o, t, comm, c, n)
        &&& t.multiplies(o, TWO, m)
        &&& t.divides(o, self.degree_of(o, comm, c, n), double)
        &&& t.multiplies(o, expected, expected)
        &&& t.divides(o, self.inside_of(o, comm, c, n), m)
        &&& t.subtracts(o, (o.over)(self.inside_of(o, comm, c, n), m), (o.times)(expected, expected))
    }

    /// Whether what the communities of `labels` contribute is added up without
    /// rounding.
    pub open spec fn sums(self, o: Ops, t: Scale, comm: Seq<Option<usize>>, labels: Seq<usize>) -> bool
        decreases labels.len(),
    {
        labels.len() == 0 || {
            let rest = labels.drop_last();
            &&& self.sums(o, t, comm, rest)
            &&& self.shares(o, t, comm, labels.last())
            &&& t.adds(o, self.shares_of(o, comm, rest), self.share_of(o, comm, labels.last()))
        }
    }

    /// Whether the modularity of a partition is worked out without rounding.
    pub open spec fn scores(self, o: Ops, t: Scale, comm: Seq<Option<usize>>) -> bool {
        forall|labels: Seq<usize>| #[trigger] modularity::lists_labels(labels, comm) ==> self.sums(o, t, comm, labels)
    }
}

/// What `f` gives the first `n` nodes, added up.
spec fn sum_all(f: spec_fn(int) -> int, n: int) -> int
    decreases n,
{
    if n <= 0 {
        0
    } else {
        sum_all(f, n - 1) + f(n - 1)
    }
}

/// What `f` gives those of the first `n` nodes that are in `c`, added up.
spec fn sum_in(f: spec_fn(int) -> int, comm: Seq<usize>, c: usize, n: int) -> int
    decreases n,
{
    if n <= 0 {
        0
    } else {
        sum_in(f, comm, c, n - 1) + if comm[n - 1] == c {
            f(n - 1)
        } else {
            0
        }
    }
}

/// The same of all communities of `labels`.
spec fn sum_over(f: spec_fn(int) -> int, comm: Seq<usize>, labels: Seq<usize>, n: int) -> int
    decreases labels.len(),
{
    if labels.len() == 0 {
        0
    } else {
        sum_over(f, comm, labels.drop_last(), n) + sum_in(f, comm, labels.last(), n)
    }
}

/// One more node counts once where its community is among `labels`.
proof fn lemma_one_more(f: spec_fn(int) -> int, comm: Seq<usize>, labels: Seq<usize>, n: int)
    requires
        0 < n <= comm.len(),
        forall|i: int, j: int| 0 <= i < j < labels.len() ==> #[trigger] labels[i] < #[trigger] labels[j],
    ensures
        sum_over(f, comm, labels, n) == sum_over(f, comm, labels, n - 1) + if labels.contains(comm[n - 1]) {
            f(n - 1)
        } else {
            0
        },
    decreases labels.len(),
{
    if labels.len() > 0 {
        let rest = labels.drop_last();
        lemma_one_more(f, comm, rest, n);
        let c = comm[n - 1];
        if rest.contains(c) {
            let i = choose|i: int| 0 <= i < rest.len() && rest[i] == c;
            assert(labels[i] == c);
            assert(labels[i] < labels[labels.len() - 1]);
        } else if labels.contains(c) {
            let i = choose|i: int| 0 <= i < labels.len() && labels[i] == c;
            assert(i < rest.len() ==> rest[i] == c);
        } else {
            assert(labels[labels.len() - 1] != c);
        }
        if labels.last() == c {
            assert(labels[labels.len() - 1] == c);
        }
    }
}

/// Community by community is node by node.
proof fn lemma_by_class(f: spec_fn(int) -> int, comm: Seq<usize>, labels: Seq<usize>, n: int)
    requires
        0 <= n <= comm.len(),
        forall|i: int, j: int| 0 <= i < j < labels.len() ==> #[trigger] labels[i] < #[trigger] labels[j],
        forall|u: int| 0 <= u < comm.len() ==> labels.contains(#[trigger] comm[u]),
    ensures
        sum_over(f, comm, labels, n) == sum_all(f, n),
    decreases n,
{
    if n > 0 {
        lemma_by_class(f, comm, labels, n - 1);
        lemma_one_more(f, comm, labels, n);
        assert(labels.contains(comm[n - 1]));
    } else {
        lemma_no_node(f, comm, labels);
    }
}

proof fn lemma_no_node(f: spec_fn(int) -> int, comm: Seq<usize>, labels: Seq<usize>)
    ensures
        sum_over(f, comm, labels, 0) == 0,
    decreases labels.len(),
{
    if labels.len() > 0 {
        lemma_no_node(f, comm, labels.drop_last());
    }
}

proof fn lemma_inside_row(t: Scale, o: Ops, from: u64, row: Seq<(int, u64)>, comm: Seq<usize>, c: usize)
    requires
        t.adds_inside(o, from, row, labelled(comm), c),
        forall|k: int| 0 <= k < row.len() ==> 0 <= (#[trigger] row[k]).0 < comm.len(),
    ensures
        (t.value)(modularity::added_inside(o, from, row, labelled(comm), c)) == (t.value)(from) + quality::row_within(
            t.value,
            row,
            comm,
            c,
        ),
    decreases row.len(),
{
    if row.len() > 0 {
        let rest = row.drop_last();
        assert forall|k: int| 0 <= k < rest.len() implies 0 <= (#[trigger] rest[k]).0 < comm.len() by {
            assert(rest[k] == row[k]);
        }
        lemma_inside_row(t, o, from, rest, comm, c);
        assert(0 <= row[row.len() - 1].0 < comm.len());
    }
}

impl Net {
    /// The weight of the edges that leave a node and stay in its community.
    spec fn kept_at(self, value: spec_fn(u64) -> int, comm: Seq<usize>) -> spec_fn(int) -> int {
        |u: int| quality::row_within(value, self.outs[u], comm, comm[u])
    }

    /// The weight at a node times that of its community.
    spec fn product_at(self, value: spec_fn(u64) -> int, comm: Seq<usize>) -> spec_fn(int) -> int {
        |u: int| self.degree(value, u) * self.held_by(value, comm, comm[u], self.size() as int)
    }

    proof fn lemma_counts(self, o: Ops, t: Scale, comm: Seq<usize>, c: usize, n: int)
        requires
            t.wf(),
            self.wf(),
            comm.len() == self.size(),
            0 <= n <= self.size(),
            self.starts(o, t),
            self.counts(o, t, labelled(comm), c, n),
        ensures
            (t.value)(self.degree_of(o, labelled(comm), c, n)) == self.held_by(t.value, comm, c, n),
            (t.value)(self.inside_of(o, labelled(comm), c, n)) == sum_in(self.kept_at(t.value, comm), comm, c, n),
        decreases n,
    {
        if n > 0 {
            self.lemma_counts(o, t, comm, c, n - 1);
            assert(self.weighs_node(o, t, n - 1));
            self.lemma_weighs_node(o, t, n - 1);
            if comm[n - 1] == c {
                self.lemma_row_in(n - 1);
                lemma_inside_row(t, o, self.inside_of(o, labelled(comm), c, n - 1), self.outs[n - 1], comm, c);
            }
        }
    }

    /// A community's products are the square of what it holds.
    proof fn lemma_square(self, value: spec_fn(u64) -> int, comm: Seq<usize>, c: usize, n: int)
        requires
            0 <= n <= comm.len(),
        ensures
            sum_in(self.product_at(value, comm), comm, c, n) == self.held_by(value, comm, c, n) * self.held_by(
                value,
                comm,
                c,
                self.size() as int,
            ),
        decreases n,
    {
        let all = self.held_by(value, comm, c, self.size() as int);
        if n > 0 {
            self.lemma_square(value, comm, c, n - 1);
            let (h, d) = (self.held_by(value, comm, c, n - 1), self.degree(value, n - 1));
            assert((h + d) * all == h * all + d * all) by (nonlinear_arith);
        } else {
            assert(0 * all == 0);
        }
    }

    proof fn lemma_all(self, value: spec_fn(u64) -> int, comm: Seq<usize>, n: int)
        ensures
            sum_all(self.kept_at(value, comm), n) == self.inside(value, comm, n),
            sum_all(self.product_at(value, comm), n) == self.together(value, comm, n),
        decreases n,
    {
        if n > 0 {
            self.lemma_all(value, comm, n - 1);
        }
    }

    /// What a community contributes, times the square of twice the weight of all
    /// edges.
    proof fn lemma_share(self, o: Ops, t: Scale, comm: Seq<usize>, c: usize)
        requires
            t.wf(),
            self.wf(),
            comm.len() == self.size(),
            self.starts(o, t),
            (t.value)(self.total(o)) == self.weight(t.value, self.size() as int),
            self.shares(o, t, labelled(comm), c),
        ensures
            ({
                let n = self.size() as int;
                let m = self.weight(t.value, n);
                (t.value)(self.share_of(o, labelled(comm), c)) * (4 * m * m) == t.unit * (4 * m * sum_in(
                    self.kept_at(t.value, comm),
                    comm,
                    c,
                    n,
                ) - sum_in(self.product_at(t.value, comm), comm, c, n))
            }),
    {
        let n = self.size() as int;
        let v = t.value;
        let m = self.total(o);
        let double = (o.times)(TWO, m);
        let degree = self.degree_of(o, labelled(comm), c, n);
        let within = self.inside_of(o, labelled(comm), c, n);
        let expected = (o.over)(degree, double);
        self.lemma_counts(o, t, comm, c, n);
        self.lemma_square(v, comm, c, n);
        let (x, d, i, one) = (v(m), v(degree), v(within), t.unit);
        let (f, e, s, p) = (v(double), v(expected), v((o.times)(expected, expected)), v((o.over)(within, m)));
        lemma_share_value(x, d, i, one, f, e, s, p);
    }

    /// What the communities of `labels` contribute, times that square.
    proof fn lemma_sums(self, o: Ops, t: Scale, comm: Seq<usize>, labels: Seq<usize>)
        requires
            t.wf(),
            self.wf(),
            comm.len() == self.size(),
            self.starts(o, t),
            (t.value)(self.total(o)) == self.weight(t.value, self.size() as int),
            self.sums(o, t, labelled(comm), labels),
        ensures
            ({
                let n = self.size() as int;
                let m = self.weight(t.value, n);
                (t.value)(self.shares_of(o, labelled(comm), labels)) * (4 * m * m) == t.unit * (4 * m * sum_over(
                    self.kept_at(t.value, comm),
                    comm,
                    labels,
                    n,
                ) - sum_over(self.product_at(t.value, comm), comm, labels, n))
            }),
            !binary64::is_nan(self.shares_of(o, labelled(comm), labels)),
        decreases labels.len(),
    {
        let n = self.size() as int;
        let m = self.weight(t.value, n);
        let one = t.unit;
        if labels.len() > 0 {
            let rest = labels.drop_last();
            let c = labels.last();
            self.lemma_sums(o, t, comm, rest);
            self.lemma_share(o, t, comm, c);
            let (a, b) = (
                (t.value)(self.shares_of(o, labelled(comm), rest)),
                (t.value)(self.share_of(o, labelled(comm), c)),
            );
            let (i, j) = (
                sum_over(self.kept_at(t.value, comm), comm, rest, n),
                sum_in(self.kept_at(t.value, comm), comm, c, n),
            );
            let (p, q) = (
                sum_over(self.product_at(t.value, comm), comm, rest, n),
                sum_in(self.product_at(t.value, comm), comm, c, n),
            );
            assert((a + b) * (4 * m * m) == one * (4 * m * (i + j) - (p + q))) by (nonlinear_arith)
                requires
                    a * (4 * m * m) == one * (4 * m * i - p),
                    b * (4 * m * m) == one * (4 * m * j - q),
            ;
        } else {
            assert(0 * (4 * m * m) == one * (4 * m * 0 - 0)) by (nonlinear_arith);
        }
    }
}

proof fn lemma_share_value(x: int, d: int, i: int, one: int, f: int, e: int, s: int, p: int)
    requires
        0 < one,
        f * one == (2 * one) * x,
        e * f == d * one,
        s * one == e * e,
        p * x == i * one,
    ensures
        (p - s) * (4 * x * x) == one * (4 * x * i - d * d),
{
    assert(f == 2 * x) by (nonlinear_arith)
        requires
            f * one == (2 * one) * x,
            0 < one,
    ;
    assert(p * (4 * x * x) == one * (4 * x * i)) by (nonlinear_arith)
        requires
            p * x == i * one,
    ;
    assert((s * (4 * x * x)) * one == (one * (d * d)) * one) by (nonlinear_arith)
        requires
            s * one == e * e,
            e * (2 * x) == d * one,
    ;
    let (l, r) = (s * (4 * x * x), one * (d * d));
    assert(l == r) by (nonlinear_arith)
        requires
            l * one == r * one,
            0 < one,
    ;
    assert((p - s) * (4 * x * x) == one * (4 * x * i - d * d)) by (nonlinear_arith)
        requires
            p * (4 * x * x) == one * (4 * x * i),
            s * (4 * x * x) == one * (d * d),
    ;
}

/// Where nothing rounds, the modularity of a partition times the square of twice
/// the weight of all edges is its score.
pub proof fn law_modularity_is_the_score(net: Net, o: Ops, t: Scale, comm: Seq<usize>, q: u64)
    requires
        t.wf(),
        net.wf(),
        net.weighs(t.value),
        comm.len() == net.size(),
        !binary64::is_zero(net.total(o)),
        net.starts(o, t),
        net.scores(o, t, labelled(comm)),
        net.is_modularity(o, labelled(comm), q),
    ensures
        ({
            let m = net.weight(t.value, net.size() as int);
            0 < m && (t.value)(q) * (4 * m * m) == t.unit * net.score(t.value, comm)
        }),
        !binary64::is_nan(q),
{
    let n = net.size() as int;
    let marked = labelled(comm);
    net.lemma_weight_counts(o, t);
    let labels = choose|labels: Seq<usize>|
        #[trigger] modularity::lists_labels(labels, marked) && q == net.shares_of(o, marked, labels);
    assert forall|u: int| 0 <= u < comm.len() implies labels.contains(#[trigger] comm[u]) by {
        assert(marked[u] == Some(comm[u]));
        assert(modularity::is_label(marked, comm[u]));
    }
    net.lemma_sums(o, t, comm, labels);
    lemma_by_class(net.kept_at(t.value, comm), comm, labels, n);
    lemma_by_class(net.product_at(t.value, comm), comm, labels, n);
    net.lemma_all(t.value, comm, n);
}

/// Where no edge weighs less than nothing and nothing rounds, what the method of
/// Louvain lists is worth no less than every node on its own.
pub proof fn law_louvain_is_worth_no_less(
    g: &Subgraph,
    o: Ops,
    t: Scale,
    labels: Seq<usize>,
    alone: Seq<usize>,
    found: u64,
    apart: u64,
)
    requires
        algorithms::runnable(g),
        t.wf(),
        forall|k: int| 0 <= k < g@.edges.len() ==> 0 <= (t.value)((#[trigger] g@.edges[k]).weight),
        communities::graph_net(g).starts(o, t),
        communities::graph_net(g).runs(o, t, communities::graph_net(g).singletons(o), MAX_SWEEPS as nat),
        communities::graph_net(g).scores(o, t, labelled(labels)),
        communities::graph_net(g).scores(o, t, labelled(alone)),
        labels.len() == g.size(),
        forall|u: int|
            0 <= u < g.size() ==> #[trigger] labels[u] == relabel::renumbered(
                communities::graph_net(g).communities(o),
            )[u],
        alone.len() == g.size(),
        forall|u: int, v: int|
            0 <= u < g.size() && 0 <= v < g.size() && u != v ==> #[trigger] alone[u] != #[trigger] alone[v],
        communities::graph_net(g).is_modularity(o, labelled(labels), found),
        communities::graph_net(g).is_modularity(o, labelled(alone), apart),
    ensures
        (t.value)(apart) <= (t.value)(found),
        !binary64::lt(found, apart),
{
    let net = communities::graph_net(g);
    quality::lemma_graph_net(g, t.value);
    if !binary64::is_zero(net.total(o)) {
        exact::law_exact_runs_rank(net, o, t, MAX_SWEEPS as nat);
        quality::law_louvain_scores_no_lower(g, o, t.value, labels, alone);
        law_modularity_is_the_score(net, o, t, labels, found);
        law_modularity_is_the_score(net, o, t, alone, apart);
        let m = net.weight(t.value, net.size() as int);
        let (a, b) = ((t.value)(apart), (t.value)(found));
        let (p, q) = (net.score(t.value, alone), net.score(t.value, labels));
        let one = t.unit;
        assert(a <= b) by (nonlinear_arith)
            requires
                0 < m,
                0 < one,
                p <= q,
                a * (4 * m * m) == one * p,
                b * (4 * m * m) == one * q,
        ;
    }
}

} // verus!
