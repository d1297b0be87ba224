//! That greedy moves end where no move helps.

use vstd::prelude::*;

use super::algorithms;
use super::binary64;
use super::communities;
use super::communities::{Net, Ops, Parting};
use super::exact;
use super::exact::Scale;
use super::quality;
use super::relabel;
use super::subgraph::Subgraph;

verus! {

impl Net {
    /// Whether one of the first `n` sweeps moves nothing.
    pub open spec fn settles(self, o: Ops, s: Parting, n: nat) -> bool
        decreases n,
    {
        n > 0 && {
            let next = self.swept(o, s, self.size() as int);
            next.comm == s.comm || self.settles(o, next, (n - 1) as nat)
        }
    }

    /// Whether `u`, withdrawn, gains enough by joining `c`, and more than by
    /// staying.
    pub open spec fn had_better_join(self, o: Ops, s: Parting, u: int, c: usize) -> bool {
        let out = self.withdrawn(o, s, u);
        &&& binary64::lt(0x3d71_9799_812d_ea11, self.gain(o, out, u, c))
        &&& communities::some_into(self.incident(u), s.comm, u, s.comm[u]) ==> binary64::lt(
            self.gain(o, out, u, s.comm[u]),
            self.gain(o, out, u, c),
        )
    }

    /// Nothing that an edge leads into gains more than the best.
    proof fn lemma_best_is_most(self, o: Ops, s: Parting, u: int, n: int)
        requires
            0 <= n <= self.size() <= usize::MAX,
        ensures
            ({
                let b = self.best(o, s, u, n);
                &&& forall|c: usize|
                    c < n && #[trigger] communities::some_into(self.incident(u), s.comm, u, c) ==> !binary64::lt(
                        b.1,
                        self.gain(o, s, u, c),
                    )
                &&& b == (s.comm[u], communities::MIN_GAIN) || (communities::some_into(
                    self.incident(u),
                    s.comm,
                    u,
                    b.0,
                ) && b.1 == self.gain(o, s, u, b.0))
            }),
        decreases n,
    {
        if n > 0 {
            self.lemma_best_is_most(o, s, u, n - 1);
        }
    }

    /// Once a node has had its turn in a sweep, the sweep leaves it where it is.
    proof fn lemma_turn_is_last(self, o: Ops, s: Parting, u: int, n: int)
        requires
            self.size() <= usize::MAX,
            s.wf(self.size()),
            0 <= u < n <= self.size(),
        ensures
            self.swept(o, s, n).comm[u] == self.swept(o, s, u + 1).comm[u],
        decreases n,
    {
        if u + 1 < n {
            self.lemma_turn_is_last(o, s, u, n - 1);
            self.lemma_swept_wf(o, s, n - 1);
        }
    }

    /// A sweep that moves nothing moves nothing on the way.
    proof fn lemma_still(self, o: Ops, s: Parting, u: int)
        requires
            self.size() <= usize::MAX,
            s.wf(self.size()),
            0 <= u <= self.size(),
            self.swept(o, s, self.size() as int).comm == s.comm,
        ensures
            self.swept(o, s, u).comm == s.comm,
            self.swept(o, s, u).wf(self.size()),
    {
        let n = self.size() as int;
        self.lemma_swept_wf(o, s, u);
        let comm = self.swept(o, s, u).comm;
        assert forall|v: int| 0 <= v < n implies #[trigger] comm[v] == s.comm[v] by {
            if v < u {
                self.lemma_turn_is_last(o, s, v, n);
                self.lemma_turn_is_last(o, s, v, u);
            }
        }
        assert(comm =~= s.comm);
    }

    /// Where a sweep moves nothing, no node had better move.
    proof fn lemma_none_had_better(self, o: Ops, s: Parting, u: int)
        requires
            self.size() <= usize::MAX,
            s.wf(self.size()),
            0 <= u < self.size(),
            self.swept(o, s, self.size() as int).comm == s.comm,
        ensures
            forall|c: usize|
                c < self.size() && #[trigger] communities::some_into(self.incident(u), s.comm, u, c)
                    ==> !self.had_better_join(o, self.swept(o, s, u), u, c),
    {
        let n = self.size() as int;
        self.lemma_still(o, s, u);
        self.lemma_still(o, s, u + 1);
        let now = self.swept(o, s, u);
        let out = self.withdrawn(o, now, u);
        let best = self.best(o, out, u, n);
        assert(self.swept(o, s, u + 1) == self.moved(o, now, u));
        assert(now.comm.update(u, best.0)[u] == best.0);
        assert(best.0 == s.comm[u]);
        self.lemma_best_is_most(o, out, u, n);
    }

    /// Where a run comes to rest.
    proof fn lemma_rest(self, o: Ops, s: Parting, n: nat) -> (r: Parting)
        requires
            self.size() <= usize::MAX,
            s.wf(self.size()),
            self.settles(o, s, n),
        ensures
            r.wf(self.size()),
            self.swept(o, r, self.size() as int).comm == r.comm,
            self.settled(o, s, n).comm == r.comm,
        decreases n,
    {
        let next = self.swept(o, s, self.size() as int);
        self.lemma_swept_wf(o, s, self.size() as int);
        if next.comm == s.comm {
            s
        } else {
            self.lemma_rest(o, next, (n - 1) as nat)
        }
    }

    /// Where an exact run comes to rest.
    proof fn lemma_exact_rest(self, o: Ops, t: Scale, s: Parting, n: nat) -> (r: Parting)
        requires
            t.wf(),
            self.size() <= usize::MAX,
            s.wf(self.size()),
            self.starts(o, t),
            0 < self.weight(t.value, self.size() as int),
            self.tallied(t, s),
            self.runs(o, t, s, n),
            self.settles(o, s, n),
        ensures
            r.wf(self.size()),
            self.swept(o, r, self.size() as int).comm == r.comm,
            self.settled(o, s, n).comm == r.comm,
            self.tallied(t, r),
            self.sweeps(o, t, r),
        decreases n,
    {
        let next = self.swept(o, s, self.size() as int);
        self.lemma_swept_wf(o, s, self.size() as int);
        self.lemma_sweeps(o, t, s, self.size() as int);
        if next.comm == s.comm {
            s
        } else {
            self.lemma_exact_rest(o, t, next, (n - 1) as nat)
        }
    }
}

/// The communities that are found are at rest: where the edges weigh something and
/// one of a hundred sweeps moved nothing, no node has a neighbour's community to
/// join that gains both more than 1e-12 and more than staying. `r` is what the
/// last sweep began with.
pub proof fn law_no_node_had_better_move(net: Net, o: Ops) -> (r: Parting)
    requires
        net.size() <= usize::MAX,
        !binary64::is_zero(net.total(o)),
        net.settles(o, net.singletons(o), 100),
    ensures
        r.comm == net.communities(o),
        forall|u: int, c: usize|
            0 <= u < net.size() && c < net.size() && #[trigger] communities::some_into(
                net.incident(u),
                net.communities(o),
                u,
                c,
            ) ==> net.swept(o, r, u).comm == net.communities(o) && !net.had_better_join(o, net.swept(o, r, u), u, c),
{
    assert(net.singletons(o).wf(net.size()));
    let r = net.lemma_rest(o, net.singletons(o), 100);
    assert forall|u: int, c: usize|
        0 <= u < net.size() && c < net.size() && #[trigger] communities::some_into(
            net.incident(u),
            net.communities(o),
            u,
            c,
        ) implies net.swept(o, r, u).comm == net.communities(o) && !net.had_better_join(o, net.swept(o, r, u), u, c) by {
        net.lemma_still(o, r, u);
        net.lemma_none_had_better(o, r, u);
    }
    r
}

/// Where nothing rounds, no single node can join a neighbour's community and raise
/// the score of the communities that are found, unless what it gains there is not
/// above 1e-12. The score is the modularity times the square of twice the weight
/// of all edges.
pub proof fn law_no_single_move_raises_the_score(net: Net, o: Ops, t: Scale, u: int, c: usize)
    requires
        t.wf(),
        net.wf(),
        net.size() <= usize::MAX,
        net.mirrored(t.value),
        net.weighs(t.value),
        !binary64::is_zero(net.total(o)),
        net.starts(o, t),
        net.runs(o, t, net.singletons(o), 100),
        net.settles(o, net.singletons(o), 100),
        0 <= u < net.size(),
        c < net.size(),
        communities::some_into(net.incident(u), net.communities(o), u, c),
    ensures
        ({
            let comm = net.communities(o);
            ||| net.score(t.value, comm.update(u, c)) <= net.score(t.value, comm)
            ||| t.unit * net.exact_gain(t.value, comm, u, c) <= (t.value)(0x3d71_9799_812d_ea11) * net.half_square(
                t.value,
            )
        }),
{
    let n = net.size() as int;
    let v = t.value;
    net.lemma_weight_counts(o, t);
    exact::lemma_alone_tallied(net, o, t);
    assert(net.singletons(o).wf(net.size()));
    let r = net.lemma_exact_rest(o, t, net.singletons(o), 100);
    let comm = net.communities(o);
    assert(r.comm == comm);
    net.lemma_still(o, r, u);
    net.lemma_none_had_better(o, r, u);
    net.lemma_sweeps(o, t, r, u);
    let now = net.swept(o, r, u);
    assert(net.moves(o, t, now, u));
    net.lemma_exact_gains(o, t, now, u);
    let out = net.withdrawn(o, now, u);
    let a = comm[u];
    let (m, one) = (net.weight(v, n), t.unit);
    let k = 2 * m * m;
    assert(0 < k) by (nonlinear_arith)
        requires
            0 < m,
            k == 2 * m * m,
    ;
    let (gc, ec) = (net.gain(o, out, u, c), net.exact_gain(v, comm, u, c));
    assert(v(gc) * k == one * ec);
    if !binary64::lt(0x3d71_9799_812d_ea11, gc) {
        let (x, y) = (v(gc), v(0x3d71_9799_812d_ea11));
        assert(x <= y);
        assert(x * k <= y * k) by (nonlinear_arith)
            requires
                x <= y,
                0 < k,
        ;
    } else if a == c {
        assert(comm.update(u, c) =~= comm);
    } else {
        let (ga, ea) = (net.gain(o, out, u, a), net.exact_gain(v, comm, u, a));
        assert(communities::some_into(net.incident(u), now.comm, u, a));
        assert(v(ga) * k == one * ea);
        let (x, y) = (v(ga), v(gc));
        assert(y <= x);
        assert(ec <= ea) by (nonlinear_arith)
            requires
                y <= x,
                0 < k,
                0 < one,
                x * k == one * ea,
                y * k == one * ec,
        ;
        net.lemma_score_moved(v, comm, u, c);
    }
}

/// The community of each node, as it is listed.
pub open spec fn as_found(labels: Seq<(String, usize)>) -> Seq<usize> {
    labels.map_values(|l: (String, usize)| l.1)
}

/// Whether no edge of a graph weighs less than nothing, its edges weigh something,
/// and community detection on it comes to rest within a hundred sweeps of which
/// nothing rounds.
pub open spec fn rests_exactly(g: &Subgraph, o: Ops, t: Scale) -> bool {
    let net = communities::graph_net(g);
    &&& t.wf()
    &&& forall|k: int| 0 <= k < g@.edges.len() ==> 0 <= (t.value)((#[trigger] g@.edges[k]).weight)
    &&& !binary64::is_zero(net.total(o))
    &&& net.starts(o, t)
    &&& net.runs(o, t, net.singletons(o), 100)
    &&& net.settles(o, net.singletons(o), 100)
}

/// Whether no node can join the community of a neighbour and raise the score,
/// unless what it gains there is not above 1e-12.
pub open spec fn is_at_rest(net: Net, t: Scale, comm: Seq<usize>) -> bool {
    forall|u: int, k: int|
        0 <= u < net.size() && 0 <= k < net.incident(u).len() && (#[trigger] net.incident(u)[k]).0 != u ==> {
            let c = comm[net.incident(u)[k].0];
            ||| net.score(t.value, comm.update(u, c)) <= net.score(t.value, comm)
            ||| t.unit * net.exact_gain(t.value, comm, u, c) <= (t.value)(0x3d71_9799_812d_ea11) * net.half_square(
                t.value,
            )
        }
}

proof fn lemma_gain_alike(
    value: spec_fn(u64) -> int,
    a: Seq<usize>,
    b: Seq<usize>,
    u: int,
    v: int,
    row: Seq<(int, u64)>,
)
    requires
        quality::alike(a, b),
        0 <= u < a.len(),
        0 <= v < a.len(),
        forall|k: int| 0 <= k < row.len() ==> 0 <= (#[trigger] row[k]).0 < a.len(),
    ensures
        quality::row_into(value, row, a, u, a[v]) == quality::row_into(value, row, b, u, b[v]),
    decreases row.len(),
{
    if row.len() > 0 {
        let rest = row.drop_last();
        assert forall|k: int| 0 <= k < rest.len() implies 0 <= (#[trigger] rest[k]).0 < a.len() by {
            assert(rest[k] == row[k]);
        }
        lemma_gain_alike(value, a, b, u, v, rest);
        assert(0 <= row[row.len() - 1].0 < a.len());
        let w = row.last().0;
        assert(a[w] == a[v] <==> b[w] == b[v]);
    }
}

proof fn lemma_beside_alike(
    net: Net,
    value: spec_fn(u64) -> int,
    a: Seq<usize>,
    b: Seq<usize>,
    u: int,
    v: int,
    n: int,
)
    requires
        quality::alike(a, b),
        0 <= u < a.len(),
        0 <= v < a.len(),
        0 <= n <= a.len(),
    ensures
        net.held_beside(value, a, u, a[v], n) == net.held_beside(value, b, u, b[v], n),
    decreases n,
{
    if n > 0 {
        lemma_beside_alike(net, value, a, b, u, v, n - 1);
        assert(a[n - 1] == a[v] <==> b[n - 1] == b[v]);
    }
}

/// What is listed is at rest where the communities found are.
proof fn lemma_rest_alike(net: Net, t: Scale, a: Seq<usize>, b: Seq<usize>)
    requires
        net.wf(),
        a.len() == net.size(),
        quality::alike(a, b),
        is_at_rest(net, t, a),
    ensures
        is_at_rest(net, t, b),
{
    assert forall|u: int, k: int|
        0 <= u < net.size() && 0 <= k < net.incident(u).len() && (#[trigger] net.incident(u)[k]).0 != u implies {
        let c = b[net.incident(u)[k].0];
        ||| net.score(t.value, b.update(u, c)) <= net.score(t.value, b)
        ||| t.unit * net.exact_gain(t.value, b, u, c) <= (t.value)(0x3d71_9799_812d_ea11) * net.half_square(t.value)
    } by {
        let v = net.incident(u)[k].0;
        let (x, y) = (a.update(u, a[v]), b.update(u, b[v]));
        assert forall|i: int, j: int| 0 <= i < x.len() && 0 <= j < x.len() implies (#[trigger] x[i] == #[trigger] x[j]
            <==> y[i] == y[j]) by {
            let (p, q) = (
                if i == u {
                    v
                } else {
                    i
                },
                if j == u {
                    v
                } else {
                    j
                },
            );
            assert(a[p] == a[q] <==> b[p] == b[q]);
        }
        quality::law_labels_do_not_score(net, t.value, x, y);
        quality::law_labels_do_not_score(net, t.value, a, b);
        assert forall|m: int| 0 <= m < net.incident(u).len() implies 0 <= (#[trigger] net.incident(u)[m]).0
            < a.len() by {}
        lemma_gain_alike(t.value, a, b, u, v, net.incident(u));
        lemma_beside_alike(net, t.value, a, b, u, v, net.size() as int);
    }
}

/// What community detection lists is at rest.
pub proof fn lemma_listed_at_rest(g: &Subgraph, o: Ops, t: Scale, labels: Seq<usize>)
    requires
        algorithms::runnable(g),
        rests_exactly(g, o, t),
        labels.len() == g.size(),
        forall|u: int|
            0 <= u < g.size() ==> #[trigger] labels[u] == relabel::renumbered(
                communities::graph_net(g).communities(o),
            )[u],
    ensures
        is_at_rest(communities::graph_net(g), t, labels),
{
    let net = communities::graph_net(g);
    let found = net.communities(o);
    quality::lemma_graph_net(g, t.value);
    net.lemma_communities_len(o);
    assert(is_at_rest(net, t, found)) by {
        assert forall|u: int, k: int|
            0 <= u < net.size() && 0 <= k < net.incident(u).len() && (#[trigger] net.incident(u)[k]).0 != u implies {
            let c = found[net.incident(u)[k].0];
            ||| net.score(t.value, found.update(u, c)) <= net.score(t.value, found)
            ||| t.unit * net.exact_gain(t.value, found, u, c) <= (t.value)(0x3d71_9799_812d_ea11) * net.half_square(
                t.value,
            )
        } by {
            let c = found[net.incident(u)[k].0];
            net.lemma_communities_within(o);
            assert(communities::some_into(net.incident(u), found, u, c));
            law_no_single_move_raises_the_score(net, o, t, u, c);
        }
    }
    assert forall|u: int, v: int| 0 <= u < found.len() && 0 <= v < found.len() implies (#[trigger] found[u]
        == #[trigger] found[v] <==> labels[u] == labels[v]) by {
        relabel::law_renumbering_keeps_the_classes(found, u, v);
    }
    lemma_rest_alike(net, t, found, labels);
}

} // verus!
