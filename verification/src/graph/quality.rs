//! That greedy moves lose nothing, reckoned in whole numbers.
//!
//! Every weight is a whole multiple of one unit, and `value` says how many. The
//! score of a partition is its modularity times the square of twice the weight
//! of all edges: four times that weight, times the weight inside communities,
//! less the products of the weights at every two nodes of one community.

use vstd::prelude::*;

use super::algorithms;
use super::binary64;
use super::communities;
use super::communities::{Net, Ops, Parting, MAX_SWEEPS, MIN_GAIN};
use super::relabel;
use super::subgraph;
use super::subgraph::{Edge, Subgraph};

verus! {

/// The weights of `row` added up.
pub open spec fn row_sum(value: spec_fn(u64) -> int, row: Seq<(int, u64)>) -> int
    decreases row.len(),
{
    if row.len() == 0 {
        0
    } else {
        row_sum(value, row.drop_last()) + value(row.last().1)
    }
}

/// The weights of those entries of `row` that lead into `c`, added up.
pub open spec fn row_within(value: spec_fn(u64) -> int, row: Seq<(int, u64)>, comm: Seq<usize>, c: usize) -> int
    decreases row.len(),
{
    if row.len() == 0 {
        0
    } else {
        row_within(value, row.drop_last(), comm, c) + if comm[row.last().0] == c {
            value(row.last().1)
        } else {
            0
        }
    }
}

/// The weights of those entries of `row` that lead from `u` to another node of
/// `c`, added up.
pub open spec fn row_into(
    value: spec_fn(u64) -> int,
    row: Seq<(int, u64)>,
    comm: Seq<usize>,
    u: int,
    c: usize,
) -> int
    decreases row.len(),
{
    if row.len() == 0 {
        0
    } else {
        row_into(value, row.drop_last(), comm, u, c) + if row.last().0 != u && comm[row.last().0] == c {
            value(row.last().1)
        } else {
            0
        }
    }
}

/// The weights of those entries of `row` that lead to `v`, added up.
pub open spec fn row_to(value: spec_fn(u64) -> int, row: Seq<(int, u64)>, v: int) -> int
    decreases row.len(),
{
    if row.len() == 0 {
        0
    } else {
        row_to(value, row.drop_last(), v) + if row.last().0 == v {
            value(row.last().1)
        } else {
            0
        }
    }
}

impl Net {
    /// Whether what leads from one node to another weighs the same from either
    /// end.
    pub open spec fn mirrored(self, value: spec_fn(u64) -> int) -> bool {
        forall|u: int, v: int|
            0 <= u < self.size() && 0 <= v < self.size() ==> #[trigger] row_to(value, self.outs[v], u) == row_to(
                value,
                self.inns[u],
                v,
            )
    }

    /// Whether no edge weighs less than nothing.
    pub open spec fn weighs(self, value: spec_fn(u64) -> int) -> bool {
        forall|u: int, k: int|
            0 <= u < self.size() && 0 <= k < self.incident(u).len() ==> 0 <= value(
                (#[trigger] self.incident(u)[k]).1,
            )
    }

    /// The weight at `u`.
    pub open spec fn degree(self, value: spec_fn(u64) -> int, u: int) -> int {
        row_sum(value, self.incident(u))
    }

    /// The weight of the edges that leave the first `n` nodes.
    pub open spec fn weight(self, value: spec_fn(u64) -> int, n: int) -> int
        decreases n,
    {
        if n <= 0 {
            0
        } else {
            self.weight(value, n - 1) + row_sum(value, self.outs[n - 1])
        }
    }

    /// The weight at those of the first `n` nodes that are in `c`.
    pub open spec fn held_by(self, value: spec_fn(u64) -> int, comm: Seq<usize>, c: usize, n: int) -> int
        decreases n,
    {
        if n <= 0 {
            0
        } else {
            self.held_by(value, comm, c, n - 1) + if comm[n - 1] == c {
                self.degree(value, n - 1)
            } else {
                0
            }
        }
    }

    /// The weight at those of the first `n` nodes but `u` that are in `c`.
    pub open spec fn held_beside(
        self,
        value: spec_fn(u64) -> int,
        comm: Seq<usize>,
        u: int,
        c: usize,
        n: int,
    ) -> int
        decreases n,
    {
        if n <= 0 {
            0
        } else {
            self.held_beside(value, comm, u, c, n - 1) + if n - 1 != u && comm[n - 1] == c {
                self.degree(value, n - 1)
            } else {
                0
            }
        }
    }

    /// The weight of the edges that leave the first `n` nodes and stay in their
    /// community.
    pub open spec fn inside(self, value: spec_fn(u64) -> int, comm: Seq<usize>, n: int) -> int
        decreases n,
    {
        if n <= 0 {
            0
        } else {
            self.inside(value, comm, n - 1) + row_within(value, self.outs[n - 1], comm, comm[n - 1])
        }
    }

    /// The products of the weight at each of the first `n` nodes with that of its
    /// community, added up.
    pub open spec fn together(self, value: spec_fn(u64) -> int, comm: Seq<usize>, n: int) -> int
        decreases n,
    {
        if n <= 0 {
            0
        } else {
            self.together(value, comm, n - 1) + self.degree(value, n - 1) * self.held_by(
                value,
                comm,
                comm[n - 1],
                self.size() as int,
            )
        }
    }

    /// The modularity of a partition, times the square of twice the weight of
    /// all edges.
    pub open spec fn score(self, value: spec_fn(u64) -> int, comm: Seq<usize>) -> int {
        let n = self.size() as int;
        4 * self.weight(value, n) * self.inside(value, comm, n) - self.together(value, comm, n)
    }

    /// What `u` gains by joining `c` from a community of its own, times half that
    /// square.
    pub open spec fn exact_gain(self, value: spec_fn(u64) -> int, comm: Seq<usize>, u: int, c: usize) -> int {
        let n = self.size() as int;
        2 * self.weight(value, n) * row_into(value, self.incident(u), comm, u, c) - self.held_beside(
            value,
            comm,
            u,
            c,
            n,
        ) * self.degree(value, u)
    }

    /// Whether the gains that are compared when `u` moves are numbers and stand
    /// in the order of the exact ones.
    pub open spec fn ranks_gains(self, o: Ops, value: spec_fn(u64) -> int, s: Parting, u: int) -> bool {
        let out = self.withdrawn(o, s, u);
        &&& forall|c: usize|
            c < self.size() && #[trigger] communities::some_into(self.incident(u), s.comm, u, c)
                ==> !binary64::is_nan(self.gain(o, out, u, c)) && (binary64::lt(
                MIN_GAIN,
                self.gain(o, out, u, c),
            ) ==> 0 < self.exact_gain(value, s.comm, u, c))
        &&& forall|c: usize, d: usize|
            c < self.size() && d < self.size() && #[trigger] communities::some_into(
                self.incident(u),
                s.comm,
                u,
                c,
            ) && #[trigger] communities::some_into(self.incident(u), s.comm, u, d) ==> (binary64::lt(
                self.gain(o, out, u, c),
                self.gain(o, out, u, d),
            ) <==> self.exact_gain(value, s.comm, u, c) < self.exact_gain(value, s.comm, u, d))
    }

    /// Whether they do throughout a sweep.
    pub open spec fn ranks_sweep(self, o: Ops, value: spec_fn(u64) -> int, s: Parting) -> bool {
        forall|u: int|
            0 <= u < self.size() ==> self.ranks_gains(o, value, #[trigger] self.swept(o, s, u), u)
    }

    /// Whether they do throughout as many as `n` sweeps.
    pub open spec fn ranks_run(self, o: Ops, value: spec_fn(u64) -> int, s: Parting, n: nat) -> bool
        decreases n,
    {
        n == 0 || {
            let next = self.swept(o, s, self.size() as int);
            self.ranks_sweep(o, value, s) && (next.comm == s.comm || self.ranks_run(
                o,
                value,
                next,
                (n - 1) as nat,
            ))
        }
    }
}

proof fn lemma_row_into_split(
    value: spec_fn(u64) -> int,
    a: Seq<(int, u64)>,
    b: Seq<(int, u64)>,
    comm: Seq<usize>,
    u: int,
    c: usize,
)
    ensures
        row_into(value, a + b, comm, u, c) == row_into(value, a, comm, u, c) + row_into(value, b, comm, u, c),
    decreases b.len(),
{
    if b.len() == 0 {
        assert(a + b =~= a);
    } else {
        lemma_row_into_split(value, a, b.drop_last(), comm, u, c);
        assert((a + b).drop_last() =~= a + b.drop_last());
    }
}

/// What stays in the community of a row's own node: its own edges and those to
/// the others of it.
proof fn lemma_row_own(value: spec_fn(u64) -> int, row: Seq<(int, u64)>, comm: Seq<usize>, u: int, c: usize)
    requires
        comm[u] == c,
    ensures
        row_within(value, row, comm, c) == row_into(value, row, comm, u, c) + row_to(value, row, u),
    decreases row.len(),
{
    if row.len() > 0 {
        lemma_row_own(value, row.drop_last(), comm, u, c);
    }
}

/// Moving `u` changes nothing between other nodes.
proof fn lemma_row_moved(value: spec_fn(u64) -> int, row: Seq<(int, u64)>, comm: Seq<usize>, u: int, b: usize, c: usize)
    requires
        0 <= u < comm.len(),
        forall|k: int| 0 <= k < row.len() ==> 0 <= (#[trigger] row[k]).0 < comm.len(),
    ensures
        row_into(value, row, comm.update(u, b), u, c) == row_into(value, row, comm, u, c),
        row_within(value, row, comm.update(u, b), c) == row_within(value, row, comm, c) + (if c == b {
            row_to(value, row, u)
        } else {
            0
        }) - (if c == comm[u] {
            row_to(value, row, u)
        } else {
            0
        }),
    decreases row.len(),
{
    if row.len() > 0 {
        let rest = row.drop_last();
        assert forall|k: int| 0 <= k < rest.len() implies 0 <= (#[trigger] rest[k]).0 < comm.len() by {
            assert(rest[k] == row[k]);
        }
        lemma_row_moved(value, rest, comm, u, b, c);
        let e = row[row.len() - 1];
        assert(e == row.last());
    }
}

/// The weights that lead from `u` to the first `n` nodes but itself that are in
/// `c`, node by node.
spec fn by_node(
    value: spec_fn(u64) -> int,
    row: Seq<(int, u64)>,
    comm: Seq<usize>,
    u: int,
    c: usize,
    n: int,
) -> int
    decreases n,
{
    if n <= 0 {
        0
    } else {
        by_node(value, row, comm, u, c, n - 1) + if n - 1 != u && comm[n - 1] == c {
            row_to(value, row, n - 1)
        } else {
            0
        }
    }
}

proof fn lemma_by_node_grows(
    value: spec_fn(u64) -> int,
    row: Seq<(int, u64)>,
    comm: Seq<usize>,
    u: int,
    c: usize,
    n: int,
)
    requires
        row.len() > 0,
        0 <= row.last().0,
    ensures
        by_node(value, row, comm, u, c, n) == by_node(value, row.drop_last(), comm, u, c, n) + (if row.last().0 < n
            && row.last().0 != u && comm[row.last().0] == c {
            value(row.last().1)
        } else {
            0
        }),
    decreases n,
{
    if n > 0 {
        lemma_by_node_grows(value, row, comm, u, c, n - 1);
    }
}

proof fn lemma_by_node(value: spec_fn(u64) -> int, row: Seq<(int, u64)>, comm: Seq<usize>, u: int, c: usize)
    requires
        forall|k: int| 0 <= k < row.len() ==> 0 <= (#[trigger] row[k]).0 < comm.len(),
    ensures
        by_node(value, row, comm, u, c, comm.len() as int) == row_into(value, row, comm, u, c),
    decreases row.len(),
{
    let n = comm.len() as int;
    if row.len() == 0 {
        lemma_by_no_node(value, row, comm, u, c, n);
    } else {
        let rest = row.drop_last();
        assert forall|k: int| 0 <= k < rest.len() implies 0 <= (#[trigger] rest[k]).0 < comm.len() by {
            assert(rest[k] == row[k]);
        }
        lemma_by_node(value, rest, comm, u, c);
        assert(0 <= row[row.len() - 1].0 < comm.len());
        lemma_by_node_grows(value, row, comm, u, c, n);
    }
}

proof fn lemma_by_no_node(value: spec_fn(u64) -> int, row: Seq<(int, u64)>, comm: Seq<usize>, u: int, c: usize, n: int)
    requires
        row.len() == 0,
    ensures
        by_node(value, row, comm, u, c, n) == 0,
    decreases n,
{
    if n > 0 {
        lemma_by_no_node(value, row, comm, u, c, n - 1);
    }
}

impl Net {
    /// Every entry of a node leads to a node.
    pub proof fn lemma_row_in(self, u: int)
        requires
            self.wf(),
            0 <= u < self.size(),
        ensures
            forall|k: int| 0 <= k < self.outs[u].len() ==> 0 <= (#[trigger] self.outs[u][k]).0 < self.size(),
            forall|k: int| 0 <= k < self.inns[u].len() ==> 0 <= (#[trigger] self.inns[u][k]).0 < self.size(),
    {
        let row = self.incident(u);
        assert forall|k: int| 0 <= k < self.outs[u].len() implies 0 <= (#[trigger] self.outs[u][k]).0
            < self.size() by {
            assert(row[k] == self.outs[u][k]);
            assert(0 <= self.incident(u)[k].0 < self.outs.len());
        }
        assert forall|k: int| 0 <= k < self.inns[u].len() implies 0 <= (#[trigger] self.inns[u][k]).0
            < self.size() by {
            assert(row[self.outs[u].len() + k] == self.inns[u][k]);
            assert(0 <= self.incident(u)[self.outs[u].len() + k].0 < self.outs.len());
        }
    }

    /// What the first `n` nodes hold in `c`, once `u` has moved to `b`.
    pub proof fn lemma_held_moved(self, value: spec_fn(u64) -> int, comm: Seq<usize>, u: int, b: usize, c: usize, n: int)
        requires
            0 <= u < comm.len(),
            0 <= n <= comm.len(),
        ensures
            self.held_by(value, comm, c, n) == self.held_beside(value, comm, u, c, n) + (if u < n && comm[u] == c {
                self.degree(value, u)
            } else {
                0
            }),
            self.held_by(value, comm.update(u, b), c, n) == self.held_beside(value, comm, u, c, n) + (if u < n && b
                == c {
                self.degree(value, u)
            } else {
                0
            }),
        decreases n,
    {
        if n > 0 {
            self.lemma_held_moved(value, comm, u, b, c, n - 1);
        }
    }

    /// What a move adds to the products of the first `n` nodes.
    proof fn lemma_together_moved(self, value: spec_fn(u64) -> int, comm: Seq<usize>, u: int, b: usize, n: int)
        requires
            comm.len() == self.size(),
            0 <= u < comm.len(),
            0 <= n <= comm.len(),
            b != comm[u],
        ensures
            ({
                let a = comm[u];
                let all = self.size() as int;
                let k = self.degree(value, u);
                self.together(value, comm.update(u, b), n) == self.together(value, comm, n) + k * (self.held_beside(
                    value,
                    comm,
                    u,
                    b,
                    n,
                ) - self.held_beside(value, comm, u, a, n)) + (if u < n {
                    k * (self.held_beside(value, comm, u, b, all) - self.held_beside(value, comm, u, a, all))
                } else {
                    0
                })
            }),
        decreases n,
    {
        if n == 0 {
            assert(self.degree(value, u) * (0 - 0) == 0);
        } else {
            self.lemma_together_moved(value, comm, u, b, n - 1);
            let (a, all, k, v) = (comm[u], self.size() as int, self.degree(value, u), n - 1);
            let next = comm.update(u, b);
            let x = self.degree(value, v);
            self.lemma_held_moved(value, comm, u, b, comm[v], all);
            self.lemma_held_moved(value, comm, u, b, b, all);
            let (ha, hb) = (
                self.held_beside(value, comm, u, a, all),
                self.held_beside(value, comm, u, b, all),
            );
            let (pa, pb) = (
                self.held_beside(value, comm, u, a, v),
                self.held_beside(value, comm, u, b, v),
            );
            let (qa, qb) = (
                self.held_beside(value, comm, u, a, n),
                self.held_beside(value, comm, u, b, n),
            );
            assert(self.together(value, next, n) == self.together(value, next, v) + x * self.held_by(
                value,
                next,
                next[v],
                all,
            ));
            if v == u {
                assert(qa == pa && qb == pb);
                assert(next[v] == b);
                assert(k * (hb + k) == k * (ha + k) + k * (hb - ha)) by (nonlinear_arith);
            } else {
                assert(next[v] == comm[v]);
                if comm[v] == a {
                    assert(qa == pa + x && qb == pb);
                    assert(x * ha == x * (ha + k) - k * x) by (nonlinear_arith);
                    assert(k * (pb - (pa + x)) == k * (pb - pa) - k * x) by (nonlinear_arith);
                } else if comm[v] == b {
                    assert(qa == pa && qb == pb + x);
                    assert(x * (hb + k) == x * hb + k * x) by (nonlinear_arith);
                    assert(k * ((pb + x) - pa) == k * (pb - pa) + k * x) by (nonlinear_arith);
                }
            }
        }
    }

    /// What a move adds to the weight inside, of the edges that leave the first
    /// `n` nodes.
    proof fn lemma_inside_moved(self, value: spec_fn(u64) -> int, comm: Seq<usize>, u: int, b: usize, n: int)
        requires
            self.wf(),
            self.mirrored(value),
            comm.len() == self.size(),
            0 <= u < comm.len(),
            0 <= n <= comm.len(),
            b != comm[u],
        ensures
            self.inside(value, comm.update(u, b), n) == self.inside(value, comm, n) + by_node(
                value,
                self.inns[u],
                comm,
                u,
                b,
                n,
            ) - by_node(value, self.inns[u], comm, u, comm[u], n) + (if u < n {
                row_into(value, self.outs[u], comm, u, b) - row_into(value, self.outs[u], comm, u, comm[u])
            } else {
                0
            }),
        decreases n,
    {
        if n > 0 {
            self.lemma_inside_moved(value, comm, u, b, n - 1);
            let v = n - 1;
            let next = comm.update(u, b);
            self.lemma_row_in(v);
            assert(row_to(value, self.outs[v], u) == row_to(value, self.inns[u], v));
            if v == u {
                assert(next[u] == b);
                lemma_row_moved(value, self.outs[u], comm, u, b, b);
                lemma_row_own(value, self.outs[u], next, u, b);
                lemma_row_own(value, self.outs[u], comm, u, comm[u]);
            } else {
                assert(next[v] == comm[v]);
                lemma_row_moved(value, self.outs[v], comm, u, b, comm[v]);
            }
        }
    }

    /// A move adds to the score twice what it gains over what it gives up.
    pub proof fn lemma_score_moved(self, value: spec_fn(u64) -> int, comm: Seq<usize>, u: int, b: usize)
        requires
            self.wf(),
            self.mirrored(value),
            comm.len() == self.size(),
            0 <= u < comm.len(),
            b != comm[u],
        ensures
            self.score(value, comm.update(u, b)) == self.score(value, comm) + 2 * (self.exact_gain(value, comm, u, b)
                - self.exact_gain(value, comm, u, comm[u])),
    {
        let a = comm[u];
        let n = self.size() as int;
        self.lemma_row_in(u);
        self.lemma_inside_moved(value, comm, u, b, n);
        self.lemma_together_moved(value, comm, u, b, n);
        lemma_by_node(value, self.inns[u], comm, u, a);
        lemma_by_node(value, self.inns[u], comm, u, b);
        lemma_row_into_split(value, self.outs[u], self.inns[u], comm, u, a);
        lemma_row_into_split(value, self.outs[u], self.inns[u], comm, u, b);
        let (m, k) = (self.weight(value, n), self.degree(value, u));
        let (ia, ib) = (
            row_into(value, self.incident(u), comm, u, a),
            row_into(value, self.incident(u), comm, u, b),
        );
        let (ha, hb) = (
            self.held_beside(value, comm, u, a, n),
            self.held_beside(value, comm, u, b, n),
        );
        let (i, t) = (self.inside(value, comm, n), self.together(value, comm, n));
        assert(4 * m * (i + ib - ia) - (t + k * (hb - ha) + k * (hb - ha)) == 4 * m * i - t + 2 * ((2 * m * ib - hb
            * k) - (2 * m * ia - ha * k))) by (nonlinear_arith);
    }
}

/// Weights of which none is less than nothing add up to no less.
pub proof fn lemma_row_sum_weighs(value: spec_fn(u64) -> int, row: Seq<(int, u64)>)
    requires
        forall|k: int| 0 <= k < row.len() ==> 0 <= value((#[trigger] row[k]).1),
    ensures
        0 <= row_sum(value, row),
    decreases row.len(),
{
    if row.len() > 0 {
        let rest = row.drop_last();
        assert forall|k: int| 0 <= k < rest.len() implies 0 <= value((#[trigger] rest[k]).1) by {
            assert(rest[k] == row[k]);
        }
        lemma_row_sum_weighs(value, rest);
        assert(0 <= value(row[row.len() - 1].1));
    }
}

/// Where no entry leads into `c`, nothing weighs there.
proof fn lemma_none_into(value: spec_fn(u64) -> int, row: Seq<(int, u64)>, comm: Seq<usize>, u: int, c: usize)
    requires
        !communities::some_into(row, comm, u, c),
    ensures
        row_into(value, row, comm, u, c) == 0,
    decreases row.len(),
{
    if row.len() > 0 {
        let rest = row.drop_last();
        if communities::some_into(rest, comm, u, c) {
            let k = choose|k: int| 0 <= k < rest.len() && (#[trigger] rest[k]).0 != u && comm[rest[k].0] == c;
            assert(row[k].0 != u && comm[row[k].0] == c);
        }
        lemma_none_into(value, rest, comm, u, c);
        let last = row[row.len() - 1];
        assert(!(last.0 != u && comm[last.0] == c));
    }
}

/// Whether `b` is the best of the communities below `n` into which an edge of
/// `u` leads, reckoned exactly; or none of them gains enough.
spec fn is_best(net: Net, o: Ops, value: spec_fn(u64) -> int, out: Parting, u: int, n: int, b: (usize, u64)) -> bool {
    if b.1 == MIN_GAIN && b.0 == out.comm[u] {
        forall|c: usize|
            c < n && #[trigger] communities::some_into(net.incident(u), out.comm, u, c) ==> !binary64::lt(
                MIN_GAIN,
                net.gain(o, out, u, c),
            )
    } else {
        &&& b.0 < n
        &&& communities::some_into(net.incident(u), out.comm, u, b.0)
        &&& b.1 == net.gain(o, out, u, b.0)
        &&& binary64::lt(MIN_GAIN, b.1)
        &&& forall|c: usize|
            c < n && #[trigger] communities::some_into(net.incident(u), out.comm, u, c) ==> net.exact_gain(
                value,
                out.comm,
                u,
                c,
            ) <= net.exact_gain(value, out.comm, u, b.0)
    }
}

impl Net {
    proof fn lemma_best(self, o: Ops, value: spec_fn(u64) -> int, s: Parting, u: int, n: int)
        requires
            self.ranks_gains(o, value, s, u),
            0 <= n <= self.size() <= usize::MAX,
        ensures
            is_best(
                self,
                o,
                value,
                self.withdrawn(o, s, u),
                u,
                n,
                self.best(o, self.withdrawn(o, s, u), u, n),
            ),
        decreases n,
    {
        let out = self.withdrawn(o, s, u);
        if n > 0 {
            self.lemma_best(o, value, s, u, n - 1);
            let so_far = self.best(o, out, u, n - 1);
            let b = self.best(o, out, u, n);
            let d = (n - 1) as usize;
            let near = self.incident(u);
            if communities::some_into(near, out.comm, u, d) {
                let gain = self.gain(o, out, u, d);
                if binary64::lt(so_far.1, gain) {
                    assert(b == (d, gain));
                    assert(binary64::lt(MIN_GAIN, gain));
                    assert forall|c: usize| c < n && #[trigger] communities::some_into(
                        near,
                        out.comm,
                        u,
                        c,
                    ) implies self.exact_gain(value, out.comm, u, c) <= self.exact_gain(value, out.comm, u, d) by {
                        if c < n - 1 {
                            if so_far.1 == MIN_GAIN && so_far.0 == out.comm[u] {
                                assert(!binary64::lt(MIN_GAIN, self.gain(o, out, u, c)));
                                assert(binary64::lt(self.gain(o, out, u, c), gain));
                            } else {
                                assert(communities::some_into(near, out.comm, u, so_far.0));
                            }
                        }
                    }
                } else {
                    assert(b == so_far);
                    if !(so_far.1 == MIN_GAIN && so_far.0 == out.comm[u]) {
                        assert(communities::some_into(near, out.comm, u, so_far.0));
                    }
                }
            }
        }
    }

    proof fn lemma_held_weighs(self, value: spec_fn(u64) -> int, comm: Seq<usize>, u: int, c: usize, n: int)
        requires
            self.weighs(value),
            0 <= n <= self.size(),
        ensures
            0 <= self.held_beside(value, comm, u, c, n),
        decreases n,
    {
        if n > 0 {
            self.lemma_held_weighs(value, comm, u, c, n - 1);
            lemma_row_sum_weighs(value, self.incident(n - 1));
        }
    }

    /// Nothing is gained by joining a community into which no edge leads.
    pub proof fn lemma_none_gained(self, value: spec_fn(u64) -> int, comm: Seq<usize>, u: int, c: usize)
        requires
            self.weighs(value),
            0 <= u < self.size(),
            !communities::some_into(self.incident(u), comm, u, c),
        ensures
            self.exact_gain(value, comm, u, c) <= 0,
    {
        let n = self.size() as int;
        lemma_none_into(value, self.incident(u), comm, u, c);
        self.lemma_held_weighs(value, comm, u, c, n);
        lemma_row_sum_weighs(value, self.incident(u));
        let (m, h, k) = (
            self.weight(value, n),
            self.held_beside(value, comm, u, c, n),
            self.degree(value, u),
        );
        assert(2 * m * 0 - h * k <= 0) by (nonlinear_arith)
            requires
                0 <= h,
                0 <= k,
        ;
    }

    /// No move lowers the score.
    proof fn lemma_moved_scores(self, o: Ops, value: spec_fn(u64) -> int, s: Parting, u: int)
        requires
            self.wf(),
            self.size() <= usize::MAX,
            self.mirrored(value),
            self.weighs(value),
            s.wf(self.size()),
            0 <= u < self.size(),
            self.ranks_gains(o, value, s, u),
        ensures
            self.score(value, s.comm) <= self.score(value, self.moved(o, s, u).comm),
    {
        let n = self.size() as int;
        let out = self.withdrawn(o, s, u);
        let best = self.best(o, out, u, n);
        let (a, b) = (s.comm[u], best.0);
        self.lemma_best(o, value, s, u, n);
        if a == b {
            assert(s.comm.update(u, b) =~= s.comm);
        } else {
            self.lemma_score_moved(value, s.comm, u, b);
            assert(0 < self.exact_gain(value, s.comm, u, b));
            if !communities::some_into(self.incident(u), s.comm, u, a) {
                self.lemma_none_gained(value, s.comm, u, a);
            }
        }
    }

    proof fn lemma_swept_scores(self, o: Ops, value: spec_fn(u64) -> int, s: Parting, n: int)
        requires
            self.wf(),
            self.size() <= usize::MAX,
            self.mirrored(value),
            self.weighs(value),
            s.wf(self.size()),
            0 <= n <= self.size(),
            self.ranks_sweep(o, value, s),
        ensures
            self.score(value, s.comm) <= self.score(value, self.swept(o, s, n).comm),
        decreases n,
    {
        if n > 0 {
            self.lemma_swept_scores(o, value, s, n - 1);
            self.lemma_swept_wf(o, s, n - 1);
            self.lemma_moved_scores(o, value, self.swept(o, s, n - 1), n - 1);
        }
    }

    proof fn lemma_settled_scores(self, o: Ops, value: spec_fn(u64) -> int, s: Parting, n: nat)
        requires
            self.wf(),
            self.size() <= usize::MAX,
            self.mirrored(value),
            self.weighs(value),
            s.wf(self.size()),
            self.ranks_run(o, value, s, n),
        ensures
            self.score(value, s.comm) <= self.score(value, self.settled(o, s, n).comm),
        decreases n,
    {
        if n > 0 {
            let next = self.swept(o, s, self.size() as int);
            self.lemma_swept_scores(o, value, s, self.size() as int);
            self.lemma_swept_wf(o, s, self.size() as int);
            if next.comm != s.comm {
                self.lemma_settled_scores(o, value, next, (n - 1) as nat);
            }
        }
    }
}

/// Whether two partitions tell the same nodes apart.
pub open spec fn alike(a: Seq<usize>, b: Seq<usize>) -> bool {
    &&& a.len() == b.len()
    &&& forall|u: int, v: int|
        0 <= u < a.len() && 0 <= v < a.len() ==> (#[trigger] a[u] == #[trigger] a[v] <==> b[u] == b[v])
}

proof fn lemma_row_alike(value: spec_fn(u64) -> int, row: Seq<(int, u64)>, a: Seq<usize>, b: Seq<usize>, u: int)
    requires
        alike(a, b),
        0 <= u < a.len(),
        forall|k: int| 0 <= k < row.len() ==> 0 <= (#[trigger] row[k]).0 < a.len(),
    ensures
        row_within(value, row, a, a[u]) == row_within(value, row, b, b[u]),
    decreases row.len(),
{
    if row.len() > 0 {
        let rest = row.drop_last();
        assert forall|k: int| 0 <= k < rest.len() implies 0 <= (#[trigger] rest[k]).0 < a.len() by {
            assert(rest[k] == row[k]);
        }
        lemma_row_alike(value, rest, a, b, u);
        assert(0 <= row[row.len() - 1].0 < a.len());
        let v = row.last().0;
        assert(a[v] == a[u] <==> b[v] == b[u]);
    }
}

impl Net {
    proof fn lemma_held_alike(self, value: spec_fn(u64) -> int, a: Seq<usize>, b: Seq<usize>, u: int, n: int)
        requires
            alike(a, b),
            0 <= u < a.len(),
            0 <= n <= a.len(),
        ensures
            self.held_by(value, a, a[u], n) == self.held_by(value, b, b[u], n),
        decreases n,
    {
        if n > 0 {
            self.lemma_held_alike(value, a, b, u, n - 1);
            assert(a[n - 1] == a[u] <==> b[n - 1] == b[u]);
        }
    }

    proof fn lemma_sums_alike(self, value: spec_fn(u64) -> int, a: Seq<usize>, b: Seq<usize>, n: int)
        requires
            self.wf(),
            alike(a, b),
            a.len() == self.size(),
            0 <= n <= self.size(),
        ensures
            self.inside(value, a, n) == self.inside(value, b, n),
            self.together(value, a, n) == self.together(value, b, n),
        decreases n,
    {
        if n > 0 {
            self.lemma_sums_alike(value, a, b, n - 1);
            self.lemma_row_in(n - 1);
            lemma_row_alike(value, self.outs[n - 1], a, b, n - 1);
            self.lemma_held_alike(value, a, b, n - 1, self.size() as int);
        }
    }
}

/// The score of a partition rests on which nodes it puts together, and on no
/// number that it gives them.
pub proof fn law_labels_do_not_score(net: Net, value: spec_fn(u64) -> int, a: Seq<usize>, b: Seq<usize>)
    requires
        net.wf(),
        a.len() == net.size(),
        alike(a, b),
    ensures
        net.score(value, a) == net.score(value, b),
{
    net.lemma_sums_alike(value, a, b, net.size() as int);
}

/// Where the gains that are compared stand in the order of the exact ones, the
/// communities that are found score no lower than every node on its own.
///
/// Rounding can turn that order round, and then a move may cost more than it
/// brings.
pub proof fn law_communities_score_no_lower(net: Net, o: Ops, value: spec_fn(u64) -> int)
    requires
        net.wf(),
        net.size() <= usize::MAX,
        net.mirrored(value),
        net.weighs(value),
        binary64::is_zero(net.total(o)) || net.ranks_run(o, value, net.singletons(o), MAX_SWEEPS as nat),
    ensures
        net.score(value, net.singletons(o).comm) <= net.score(value, net.communities(o)),
{
    if !binary64::is_zero(net.total(o)) {
        assert(net.singletons(o).wf(net.size()));
        net.lemma_settled_scores(o, value, net.singletons(o), MAX_SWEEPS as nat);
    }
}

/// The weights of those of `edges` that lead from `s` to `t`, added up.
spec fn between(value: spec_fn(u64) -> int, edges: Seq<Edge>, s: Seq<char>, t: Seq<char>) -> int
    decreases edges.len(),
{
    if edges.len() == 0 {
        0
    } else {
        between(value, edges.drop_last(), s, t) + if edges.last().source == s && edges.last().target == t {
            value(edges.last().weight)
        } else {
            0
        }
    }
}

/// The entries of a loaded graph that lead from one node to another weigh what
/// the edges between them do.
proof fn lemma_between(value: spec_fn(u64) -> int, g: &Subgraph, edges: Seq<Edge>, u: int, v: int)
    requires
        g.wf(),
        0 <= u < g.size(),
        0 <= v < g.size(),
        forall|k: int|
            0 <= k < edges.len() ==> g@.nodes.dom().contains((#[trigger] edges[k]).source) && g@.nodes.dom().contains(
                edges[k].target,
            ),
    ensures
        row_to(
            value,
            subgraph::leaving(edges, g.id_at(u)).map_values(
                |e: Edge| (algorithms::place_of(g, e.target), e.weight),
            ),
            v,
        ) == between(value, edges, g.id_at(u), g.id_at(v)),
        row_to(
            value,
            subgraph::entering(edges, g.id_at(v)).map_values(
                |e: Edge| (algorithms::place_of(g, e.source), e.weight),
            ),
            u,
        ) == between(value, edges, g.id_at(u), g.id_at(v)),
    decreases edges.len(),
{
    let to = |e: Edge| (algorithms::place_of(g, e.target), e.weight);
    let from = |e: Edge| (algorithms::place_of(g, e.source), e.weight);
    let (s, t) = (g.id_at(u), g.id_at(v));
    if edges.len() == 0 {
        assert(subgraph::leaving(edges, s).map_values(to).len() == 0);
        assert(subgraph::entering(edges, t).map_values(from).len() == 0);
    } else {
        let rest = edges.drop_last();
        let e = edges.last();
        assert forall|k: int| 0 <= k < rest.len() implies g@.nodes.dom().contains((#[trigger] rest[k]).source)
            && g@.nodes.dom().contains(rest[k].target) by {
            assert(rest[k] == edges[k]);
        }
        lemma_between(value, g, rest, u, v);
        assert(edges[edges.len() - 1] == e);
        algorithms::lemma_place(g, e.source);
        algorithms::lemma_place(g, e.target);
        g.lemma_same_id(algorithms::place_of(g, e.source), u);
        g.lemma_same_id(algorithms::place_of(g, e.target), v);
        if e.source == s {
            let row = subgraph::leaving(edges, s).map_values(to);
            assert(row.drop_last() =~= subgraph::leaving(rest, s).map_values(to));
            assert(row.last() == to(e));
        }
        if e.target == t {
            let row = subgraph::entering(edges, t).map_values(from);
            assert(row.drop_last() =~= subgraph::entering(rest, t).map_values(from));
            assert(row.last() == from(e));
        }
    }
}

/// A loaded graph by number is in order, and each of its edges stands at either
/// end.
pub proof fn lemma_graph_net(g: &Subgraph, value: spec_fn(u64) -> int)
    requires
        algorithms::runnable(g),
        forall|k: int| 0 <= k < g@.edges.len() ==> 0 <= value((#[trigger] g@.edges[k]).weight),
    ensures
        communities::graph_net(g).wf(),
        communities::graph_net(g).mirrored(value),
        communities::graph_net(g).weighs(value),
{
    let net = communities::graph_net(g);
    assert forall|u: int, k: int| 0 <= u < net.size() && 0 <= k < net.incident(u).len() implies 0 <= (
    #[trigger] net.incident(u)[k]).0 < net.size() && 0 <= value(net.incident(u)[k].1) by {
        let out = subgraph::leaving(g@.edges, g.id_at(u));
        let inn = subgraph::entering(g@.edges, g.id_at(u));
        subgraph::lemma_listed_is_edge(g@.edges, g.id_at(u));
        let e = if k < out.len() {
            out[k]
        } else {
            inn[k - out.len()]
        };
        assert(g@.edges.contains(e));
        let i = choose|i: int| 0 <= i < g@.edges.len() && g@.edges[i] == e;
        assert(g@.edges[i] == e);
        algorithms::lemma_place(g, e.source);
        algorithms::lemma_place(g, e.target);
    }
    assert forall|u: int, v: int| 0 <= u < net.size() && 0 <= v < net.size() implies #[trigger] row_to(
        value,
        net.outs[v],
        u,
    ) == row_to(value, net.inns[u], v) by {
        lemma_between(value, g, g@.edges, v, u);
    }
}

/// What is listed scores as the communities found do, and every node on its own
/// as the partition that a run begins with.
pub proof fn lemma_listed_score(
    g: &Subgraph,
    o: Ops,
    value: spec_fn(u64) -> int,
    labels: Seq<usize>,
    alone: Seq<usize>,
)
    requires
        algorithms::runnable(g),
        communities::graph_net(g).wf(),
        labels.len() == g.size(),
        forall|u: int|
            0 <= u < g.size() ==> #[trigger] labels[u] == relabel::renumbered(
                communities::graph_net(g).communities(o),
            )[u],
        alone.len() == g.size(),
        forall|u: int, v: int|
            0 <= u < g.size() && 0 <= v < g.size() && u != v ==> #[trigger] alone[u] != #[trigger] alone[v],
    ensures
        communities::graph_net(g).score(value, labels) == communities::graph_net(g).score(
            value,
            communities::graph_net(g).communities(o),
        ),
        communities::graph_net(g).score(value, alone) == communities::graph_net(g).score(
            value,
            communities::graph_net(g).singletons(o).comm,
        ),
{
    let net = communities::graph_net(g);
    let found = net.communities(o);
    let first = net.singletons(o).comm;
    net.lemma_communities_len(o);
    assert forall|u: int, v: int| 0 <= u < first.len() && 0 <= v < first.len() implies (#[trigger] first[u]
        == #[trigger] first[v] <==> alone[u] == alone[v]) by {
    }
    law_labels_do_not_score(net, value, first, alone);
    assert forall|u: int, v: int| 0 <= u < found.len() && 0 <= v < found.len() implies (#[trigger] found[u]
        == #[trigger] found[v] <==> labels[u] == labels[v]) by {
        relabel::law_renumbering_keeps_the_classes(found, u, v);
    }
    law_labels_do_not_score(net, value, found, labels);
}

/// Where no edge weighs less than nothing and the gains that are compared stand
/// in the order of the exact ones, what the method of Louvain lists scores no
/// lower than every node on its own.
pub proof fn law_louvain_scores_no_lower(
    g: &Subgraph,
    o: Ops,
    value: spec_fn(u64) -> int,
    labels: Seq<usize>,
    alone: Seq<usize>,
)
    requires
        algorithms::runnable(g),
        forall|k: int| 0 <= k < g@.edges.len() ==> 0 <= value((#[trigger] g@.edges[k]).weight),
        binary64::is_zero(communities::graph_net(g).total(o)) || communities::graph_net(g).ranks_run(
            o,
            value,
            communities::graph_net(g).singletons(o),
            MAX_SWEEPS as nat,
        ),
        labels.len() == g.size(),
        forall|u: int|
            0 <= u < g.size() ==> #[trigger] labels[u] == relabel::renumbered(
                communities::graph_net(g).communities(o),
            )[u],
        alone.len() == g.size(),
        forall|u: int, v: int|
            0 <= u < g.size() && 0 <= v < g.size() && u != v ==> #[trigger] alone[u] != #[trigger] alone[v],
    ensures
        communities::graph_net(g).score(value, alone) <= communities::graph_net(g).score(value, labels),
{
    let net = communities::graph_net(g);
    lemma_graph_net(g, value);
    lemma_listed_score(g, o, value, labels, alone);
    law_communities_score_no_lower(net, o, value);
}

} // verus!
