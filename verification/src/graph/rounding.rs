//! Runs that round: what greedy moves can lose is what they misjudge.
//!
//! A gain that is worked out strays from the exact one by what its operations
//! round off. Where no gain of a run strays by more than some slack, no move
//! costs more than four times that, and the whole run no more than that for every
//! node and sweep.

use vstd::prelude::*;

use super::algorithms;
use super::binary64;
use super::communities;
use super::communities::{Net, Ops, Parting, MAX_SWEEPS, MIN_GAIN};
use super::exact::Scale;
use super::quality;
use super::relabel;
use super::subgraph::Subgraph;
use super::worth;

verus! {

/// Whether `a` and `b` are at most `slack` apart.
pub open spec fn within(a: int, b: int, slack: int) -> bool {
    a - slack <= b <= a + slack
}

impl Net {
    /// Twice the square of the weight of all edges.
    pub open spec fn half_square(self, value: spec_fn(u64) -> int) -> int {
        let m = self.weight(value, self.size() as int);
        2 * m * m
    }

    /// Whether the gains that are compared when `u` moves are numbers, none of
    /// which strays further than `slack`.
    pub open spec fn strays(self, o: Ops, t: Scale, s: Parting, u: int, slack: int) -> bool {
        let out = self.withdrawn(o, s, u);
        forall|c: usize|
            c < self.size() && #[trigger] communities::some_into(self.incident(u), s.comm, u, c)
                ==> !binary64::is_nan(self.gain(o, out, u, c)) && within(
                t.unit * self.exact_gain(t.value, s.comm, u, c),
                (t.value)(self.gain(o, out, u, c)) * self.half_square(t.value),
                slack,
            )
    }

    /// Whether none does throughout a sweep.
    pub open spec fn strays_sweep(self, o: Ops, t: Scale, s: Parting, slack: int) -> bool {
        forall|u: int| 0 <= u < self.size() ==> self.strays(o, t, #[trigger] self.swept(o, s, u), u, slack)
    }

    /// Whether none does throughout as many as `n` sweeps.
    pub open spec fn strays_run(self, o: Ops, t: Scale, s: Parting, n: nat, slack: int) -> bool
        decreases n,
    {
        n == 0 || {
            let next = self.swept(o, s, self.size() as int);
            self.strays_sweep(o, t, s, slack) && (next.comm == s.comm || self.strays_run(
                o,
                t,
                next,
                (n - 1) as nat,
                slack,
            ))
        }
    }

    /// The best community below `n` gains no less than any other there.
    proof fn lemma_best_value(self, o: Ops, t: Scale, s: Parting, u: int, n: int, slack: int)
        requires
            t.wf(),
            self.strays(o, t, s, u, slack),
            0 <= n <= self.size() <= usize::MAX,
        ensures
            ({
                let out = self.withdrawn(o, s, u);
                let b = self.best(o, out, u, n);
                &&& !binary64::is_nan(b.1)
                &&& 0 < (t.value)(b.1)
                &&& forall|c: usize|
                    c < n && #[trigger] communities::some_into(self.incident(u), s.comm, u, c) ==> (t.value)(
                        self.gain(o, out, u, c),
                    ) <= (t.value)(b.1)
                &&& b == (s.comm[u], MIN_GAIN) || (b.0 < n && communities::some_into(
                    self.incident(u),
                    s.comm,
                    u,
                    b.0,
                ) && b.1 == self.gain(o, out, u, b.0))
            }),
        decreases n,
    {
        let out = self.withdrawn(o, s, u);
        if n > 0 {
            self.lemma_best_value(o, t, s, u, n - 1, slack);
            let so_far = self.best(o, out, u, n - 1);
            let d = (n - 1) as usize;
            if communities::some_into(self.incident(u), s.comm, u, d) {
                let gain = self.gain(o, out, u, d);
                assert(binary64::lt(so_far.1, gain) <==> (t.value)(so_far.1) < (t.value)(gain));
            }
        }
    }

    /// A move costs no more than four times the slack.
    proof fn lemma_moved_loses(self, o: Ops, t: Scale, s: Parting, u: int, slack: int)
        requires
            t.wf(),
            self.wf(),
            self.size() <= usize::MAX,
            self.mirrored(t.value),
            self.weighs(t.value),
            s.wf(self.size()),
            0 <= u < self.size(),
            0 <= slack,
            self.strays(o, t, s, u, slack),
        ensures
            t.unit * self.score(t.value, s.comm) <= t.unit * self.score(t.value, self.moved(o, s, u).comm) + 4 * slack,
    {
        let n = self.size() as int;
        let v = t.value;
        let out = self.withdrawn(o, s, u);
        let best = self.best(o, out, u, n);
        let (a, b) = (s.comm[u], best.0);
        self.lemma_best_value(o, t, s, u, n, slack);
        if a == b {
            assert(s.comm.update(u, b) =~= s.comm);
        } else {
            self.lemma_score_moved(v, s.comm, u, b);
            let (m, one) = (self.weight(v, n), t.unit);
            let (x, y) = (self.exact_gain(v, s.comm, u, a), self.exact_gain(v, s.comm, u, b));
            let (p, k) = (v(best.1), self.half_square(v));
            assert(0 <= k) by (nonlinear_arith)
                requires
                    k == 2 * m * m,
            ;
            assert(0 <= p * k) by (nonlinear_arith)
                requires
                    0 < p,
                    0 <= k,
            ;
            if communities::some_into(self.incident(u), s.comm, u, a) {
                let q = v(self.gain(o, out, u, a));
                assert(q * k <= p * k) by (nonlinear_arith)
                    requires
                        q <= p,
                        0 <= k,
                ;
            } else {
                self.lemma_none_gained(v, s.comm, u, a);
                assert(one * x <= 0) by (nonlinear_arith)
                    requires
                        x <= 0,
                        0 < one,
                ;
            }
            let before = self.score(v, s.comm);
            assert(one * (before + 2 * (y - x)) == one * before + 2 * (one * y) - 2 * (one * x)) by (nonlinear_arith);
        }
    }

    proof fn lemma_swept_loses(self, o: Ops, t: Scale, s: Parting, n: int, slack: int)
        requires
            t.wf(),
            self.wf(),
            self.size() <= usize::MAX,
            self.mirrored(t.value),
            self.weighs(t.value),
            s.wf(self.size()),
            0 <= n <= self.size(),
            0 <= slack,
            self.strays_sweep(o, t, s, slack),
        ensures
            t.unit * self.score(t.value, s.comm) <= t.unit * self.score(t.value, self.swept(o, s, n).comm) + 4 * slack
                * n,
        decreases n,
    {
        if n > 0 {
            self.lemma_swept_loses(o, t, s, n - 1, slack);
            self.lemma_swept_wf(o, s, n - 1);
            self.lemma_moved_loses(o, t, self.swept(o, s, n - 1), n - 1, slack);
            assert(4 * slack * (n - 1) + 4 * slack == 4 * slack * n) by (nonlinear_arith);
        } else {
            assert(4 * slack * 0 == 0);
        }
    }

    proof fn lemma_settled_loses(self, o: Ops, t: Scale, s: Parting, n: nat, slack: int)
        requires
            t.wf(),
            self.wf(),
            self.size() <= usize::MAX,
            self.mirrored(t.value),
            self.weighs(t.value),
            s.wf(self.size()),
            0 <= slack,
            self.strays_run(o, t, s, n, slack),
        ensures
            t.unit * self.score(t.value, s.comm) <= t.unit * self.score(t.value, self.settled(o, s, n).comm) + 4 * slack
                * self.size() * n,
        decreases n,
    {
        let each = 4 * slack * self.size();
        assert(0 <= each) by (nonlinear_arith)
            requires
                each == 4 * slack * self.size(),
                0 <= slack,
        ;
        assert(0 <= each * n) by (nonlinear_arith)
            requires
                0 <= each,
        ;
        if n > 0 {
            let next = self.swept(o, s, self.size() as int);
            self.lemma_swept_loses(o, t, s, self.size() as int, slack);
            self.lemma_swept_wf(o, s, self.size() as int);
            assert(each * (n - 1) + each == each * n) by (nonlinear_arith);
            assert(0 <= each * (n - 1)) by (nonlinear_arith)
                requires
                    0 <= each,
                    0 < n,
            ;
            if next.comm != s.comm {
                self.lemma_settled_loses(o, t, next, (n - 1) as nat, slack);
            }
        }
    }
}

/// What the moves that a run can make may cost at most, where no gain strays
/// further than `slack`.
pub open spec fn allowance(size: nat, slack: int) -> int {
    4 * slack * size * (MAX_SWEEPS as int)
}

/// The communities that are found score no lower than every node on its own, but
/// for what the gains that were compared strayed.
pub proof fn law_communities_lose_what_they_misjudge(net: Net, o: Ops, t: Scale, slack: int)
    requires
        t.wf(),
        net.wf(),
        net.size() <= usize::MAX,
        net.mirrored(t.value),
        net.weighs(t.value),
        0 <= slack,
        binary64::is_zero(net.total(o)) || net.strays_run(o, t, net.singletons(o), MAX_SWEEPS as nat, slack),
    ensures
        t.unit * net.score(t.value, net.singletons(o).comm) <= t.unit * net.score(t.value, net.communities(o))
            + allowance(net.size(), slack),
{
    if binary64::is_zero(net.total(o)) {
        assert(0 <= allowance(net.size(), slack)) by (nonlinear_arith)
            requires
                0 <= slack,
                allowance(net.size(), slack) == 4 * slack * net.size() * (MAX_SWEEPS as int),
        ;
    } else {
        assert(net.singletons(o).wf(net.size()));
        net.lemma_settled_loses(o, t, net.singletons(o), MAX_SWEEPS as nat, slack);
    }
}

/// What the method of Louvain lists is worth no less than every node on its own,
/// but for what was rounded off: where no gain that was compared strays further
/// than `slack` and neither modularity further than `off`, both by the square of
/// twice the weight of all edges, the first modularity is the lesser by no more
/// than the run's allowance and twice `off`, by that square. Where no edge weighs
/// anything, the two are alike.
pub proof fn law_louvain_loses_what_it_rounds_off(
    g: &Subgraph,
    o: Ops,
    t: Scale,
    slack: int,
    off: int,
    labels: Seq<usize>,
    alone: Seq<usize>,
    found: u64,
    apart: u64,
)
    requires
        algorithms::runnable(g),
        t.wf(),
        forall|k: int| 0 <= k < g@.edges.len() ==> 0 <= (t.value)((#[trigger] g@.edges[k]).weight),
        0 <= slack,
        labels.len() == g.size(),
        forall|u: int|
            0 <= u < g.size() ==> #[trigger] labels[u] == relabel::renumbered(
                communities::graph_net(g).communities(o),
            )[u],
        alone.len() == g.size(),
        forall|u: int, v: int|
            0 <= u < g.size() && 0 <= v < g.size() && u != v ==> #[trigger] alone[u] != #[trigger] alone[v],
        communities::graph_net(g).is_modularity(o, worth::labelled(labels), found),
        communities::graph_net(g).is_modularity(o, worth::labelled(alone), apart),
        !binary64::is_zero(communities::graph_net(g).total(o)) ==> {
            let net = communities::graph_net(g);
            let square = 2 * net.half_square(t.value);
            &&& net.strays_run(o, t, net.singletons(o), MAX_SWEEPS as nat, slack)
            &&& within(t.unit * net.score(t.value, labels), (t.value)(found) * square, off)
            &&& within(t.unit * net.score(t.value, alone), (t.value)(apart) * square, off)
        },
    ensures
        binary64::is_zero(communities::graph_net(g).total(o)) ==> found == apart,
        !binary64::is_zero(communities::graph_net(g).total(o)) ==> {
            let square = 2 * communities::graph_net(g).half_square(t.value);
            (t.value)(apart) * square <= (t.value)(found) * square + allowance(g.size(), slack) + 2 * off
        },
{
    let net = communities::graph_net(g);
    if !binary64::is_zero(net.total(o)) {
        quality::lemma_graph_net(g, t.value);
        quality::lemma_listed_score(g, o, t.value, labels, alone);
        law_communities_lose_what_they_misjudge(net, o, t, slack);
    }
}

} // verus!
