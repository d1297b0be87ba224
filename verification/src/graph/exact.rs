//! Runs in which no operation rounds.
//!
//! A scale says how many units a value is. Where the operations of a run answer
//! exactly, the gains it compares are the exact ones, and a run that goes by
//! them finds no partition worse than the one it began with.

use vstd::prelude::*;

use super::binary64;
use super::communities;
use super::communities::{Net, Ops, Parting, MIN_GAIN, TWO};
use super::quality;

verus! {

/// How many units a value is, and how many of them make one.
pub struct Scale {
    pub value: spec_fn(u64) -> int,
    pub unit: int,
}

impl Scale {
    /// Whether numbers stand in the order of their units, and the constants of
    /// the method are what they are meant to be.
    pub open spec fn wf(self) -> bool {
        &&& 0 < self.unit
        &&& (self.value)(0) == 0
        &&& (self.value)(TWO) == 2 * self.unit
        &&& 0 < (self.value)(MIN_GAIN)
        &&& forall|a: u64, b: u64|
            !binary64::is_nan(a) && !binary64::is_nan(b) ==> (#[trigger] binary64::lt(a, b) <==> (self.value)(a)
                < (self.value)(b))
    }

    /// Whether `a` and `b` are added without rounding.
    pub open spec fn adds(self, o: Ops, a: u64, b: u64) -> bool {
        !binary64::is_nan((o.plus)(a, b)) && (self.value)((o.plus)(a, b)) == (self.value)(a) + (self.value)(b)
    }

    /// Whether `b` is taken from `a` without rounding.
    pub open spec fn subtracts(self, o: Ops, a: u64, b: u64) -> bool {
        !binary64::is_nan((o.minus)(a, b)) && (self.value)((o.minus)(a, b)) == (self.value)(a) - (self.value)(b)
    }

    /// Whether `a` and `b` are multiplied without rounding.
    pub open spec fn multiplies(self, o: Ops, a: u64, b: u64) -> bool {
        (self.value)((o.times)(a, b)) * self.unit == (self.value)(a) * (self.value)(b)
    }

    /// Whether `a` is divided by `b` without rounding.
    pub open spec fn divides(self, o: Ops, a: u64, b: u64) -> bool {
        (self.value)((o.over)(a, b)) * (self.value)(b) == (self.value)(a) * self.unit
    }

    /// Whether the weights of `row` are added to `from` without rounding.
    pub open spec fn adds_row(self, o: Ops, from: u64, row: Seq<(int, u64)>) -> bool
        decreases row.len(),
    {
        row.len() == 0 || self.adds_row(o, from, row.drop_last()) && self.adds(
            o,
            communities::added(o, from, row.drop_last()),
            row.last().1,
        )
    }

    /// Whether the weights of those entries of `row` that lead from `u` to
    /// another node of `c` are added up without rounding.
    pub open spec fn adds_into(self, o: Ops, row: Seq<(int, u64)>, comm: Seq<usize>, u: int, c: usize) -> bool
        decreases row.len(),
    {
        row.len() == 0 || {
            let rest = row.drop_last();
            self.adds_into(o, rest, comm, u, c) && (row.last().0 != u && comm[row.last().0] == c ==> self.adds(
                o,
                communities::added_into(o, rest, comm, u, c),
                row.last().1,
            ))
        }
    }

    /// Whether a gain is worked out without rounding.
    pub open spec fn gains(self, o: Ops, within: u64, held: u64, degree: u64, m: u64) -> bool {
        let chance = (o.times)(held, degree);
        let double = (o.times)(TWO, m);
        let square = (o.times)(double, m);
        &&& self.divides(o, within, m)
        &&& self.multiplies(o, held, degree)
        &&& self.multiplies(o, TWO, m)
        &&& self.multiplies(o, double, m)
        &&& self.divides(o, chance, square)
        &&& self.subtracts(o, (o.over)(within, m), (o.over)(chance, square))
    }
}

impl Net {
    /// Whether the weight of the edges that leave the first `n` nodes is added up
    /// without rounding.
    pub open spec fn totals(self, o: Ops, t: Scale, n: int) -> bool
        decreases n,
    {
        n <= 0 || self.totals(o, t, n - 1) && t.adds_row(o, self.weight_of(o, n - 1), self.outs[n - 1])
    }

    /// Whether the weight at `u` is added up without rounding.
    pub open spec fn weighs_node(self, o: Ops, t: Scale, u: int) -> bool {
        let (out, inn) = (self.outs[u], self.inns[u]);
        &&& t.adds_row(o, 0, out)
        &&& t.adds_row(o, 0, inn)
        &&& t.adds(o, communities::added(o, 0, out), communities::added(o, 0, inn))
    }

    /// Whether a run starts without rounding.
    pub open spec fn starts(self, o: Ops, t: Scale) -> bool {
        &&& self.totals(o, t, self.size() as int)
        &&& forall|u: int|
            0 <= u < self.size() ==> #[trigger] self.weighs_node(o, t, u) && t.adds(o, 0, self.weight_at(o, u))
    }

    /// Whether `u` moves without rounding.
    pub open spec fn moves(self, o: Ops, t: Scale, s: Parting, u: int) -> bool {
        let out = self.withdrawn(o, s, u);
        let near = self.incident(u);
        let to = self.best(o, out, u, self.size() as int).0;
        &&& t.subtracts(o, s.held[s.comm[u] as int], self.weight_at(o, u))
        &&& t.adds(o, out.held[to as int], self.weight_at(o, u))
        &&& forall|c: usize|
            c < self.size() && #[trigger] communities::some_into(near, s.comm, u, c) ==> t.adds_into(
                o,
                near,
                s.comm,
                u,
                c,
            ) && t.gains(
                o,
                communities::added_into(o, near, s.comm, u, c),
                out.held[c as int],
                self.weight_at(o, u),
                self.total(o),
            )
    }

    /// Whether a sweep moves every node without rounding.
    pub open spec fn sweeps(self, o: Ops, t: Scale, s: Parting) -> bool {
        forall|u: int| 0 <= u < self.size() ==> self.moves(o, t, #[trigger] self.swept(o, s, u), u)
    }

    /// Whether as many as `n` sweeps do.
    pub open spec fn runs(self, o: Ops, t: Scale, s: Parting, n: nat) -> bool
        decreases n,
    {
        n == 0 || {
            let next = self.swept(o, s, self.size() as int);
            self.sweeps(o, t, s) && (next.comm == s.comm || self.runs(o, t, next, (n - 1) as nat))
        }
    }

    /// Whether each community is known to hold what the nodes in it do.
    pub open spec fn tallied(self, t: Scale, s: Parting) -> bool {
        forall|c: usize|
            c < self.size() ==> (t.value)(#[trigger] s.held[c as int]) == self.held_by(
                t.value,
                s.comm,
                c,
                self.size() as int,
            )
    }
}

proof fn lemma_row(t: Scale, o: Ops, from: u64, row: Seq<(int, u64)>)
    requires
        t.adds_row(o, from, row),
    ensures
        (t.value)(communities::added(o, from, row)) == (t.value)(from) + quality::row_sum(t.value, row),
        !binary64::is_nan(from) ==> !binary64::is_nan(communities::added(o, from, row)),
    decreases row.len(),
{
    if row.len() > 0 {
        lemma_row(t, o, from, row.drop_last());
    }
}

proof fn lemma_into(t: Scale, o: Ops, row: Seq<(int, u64)>, comm: Seq<usize>, u: int, c: usize)
    requires
        t.wf(),
        t.adds_into(o, row, comm, u, c),
    ensures
        (t.value)(communities::added_into(o, row, comm, u, c)) == quality::row_into(t.value, row, comm, u, c),
    decreases row.len(),
{
    if row.len() > 0 {
        lemma_into(t, o, row.drop_last(), comm, u, c);
    }
}

proof fn lemma_row_sum_split(value: spec_fn(u64) -> int, a: Seq<(int, u64)>, b: Seq<(int, u64)>)
    ensures
        quality::row_sum(value, a + b) == quality::row_sum(value, a) + quality::row_sum(value, b),
    decreases b.len(),
{
    if b.len() == 0 {
        assert(a + b =~= a);
    } else {
        lemma_row_sum_split(value, a, b.drop_last());
        assert((a + b).drop_last() =~= a + b.drop_last());
    }
}

/// A gain worked out without rounding, times twice the square of the weight of
/// all edges.
proof fn lemma_gain(t: Scale, o: Ops, within: u64, held: u64, degree: u64, m: u64)
    requires
        t.wf(),
        t.gains(o, within, held, degree, m),
    ensures
        ({
            let (v, x) = (t.value, (t.value)(m));
            v(communities::gain_of(o, within, held, degree, m)) * (2 * x * x) == t.unit * (2 * x * v(within) - v(held) * v(
                degree,
            ))
        }),
        !binary64::is_nan(communities::gain_of(o, within, held, degree, m)),
{
    let v = t.value;
    let chance = (o.times)(held, degree);
    let double = (o.times)(TWO, m);
    let square = (o.times)(double, m);
    let (x, w, h, d, one) = (v(m), v(within), v(held), v(degree), t.unit);
    let (p, q) = (v((o.over)(within, m)), v((o.over)(chance, square)));
    let (e, f, s) = (v(chance), v(double), v(square));
    assert(f == 2 * x) by (nonlinear_arith)
        requires
            f * one == (2 * one) * x,
            0 < one,
    ;
    assert(p * (2 * x * x) == one * (2 * x * w)) by (nonlinear_arith)
        requires
            p * x == w * one,
    ;
    assert(q * (2 * x * x) == one * (h * d)) by (nonlinear_arith)
        requires
            s * one == f * x,
            f == 2 * x,
            e * one == h * d,
            q * s == e * one,
    ;
    assert((p - q) * (2 * x * x) == one * (2 * x * w - h * d)) by (nonlinear_arith)
        requires
            p * (2 * x * x) == one * (2 * x * w),
            q * (2 * x * x) == one * (h * d),
    ;
}

impl Net {
    proof fn lemma_totals(self, o: Ops, t: Scale, n: int)
        requires
            t.wf(),
            self.totals(o, t, n),
        ensures
            (t.value)(self.weight_of(o, n)) == self.weight(t.value, n),
            !binary64::is_nan(self.weight_of(o, n)),
        decreases n,
    {
        if n > 0 {
            self.lemma_totals(o, t, n - 1);
            lemma_row(t, o, self.weight_of(o, n - 1), self.outs[n - 1]);
        }
    }

    /// The weight at a node, where nothing rounds.
    pub proof fn lemma_weighs_node(self, o: Ops, t: Scale, u: int)
        requires
            t.wf(),
            self.weighs_node(o, t, u),
        ensures
            (t.value)(self.weight_at(o, u)) == self.degree(t.value, u),
    {
        lemma_row(t, o, 0, self.outs[u]);
        lemma_row(t, o, 0, self.inns[u]);
        lemma_row_sum_split(t.value, self.outs[u], self.inns[u]);
    }

    /// A node on its own holds what is at it.
    proof fn lemma_held_alone(self, value: spec_fn(u64) -> int, comm: Seq<usize>, c: usize, n: int)
        requires
            0 <= n <= comm.len(),
            comm.len() <= usize::MAX,
            c < comm.len(),
            forall|u: int| 0 <= u < comm.len() ==> #[trigger] comm[u] == u,
        ensures
            self.held_by(value, comm, c, n) == if c < n {
                self.degree(value, c as int)
            } else {
                0
            },
        decreases n,
    {
        if n > 0 {
            self.lemma_held_alone(value, comm, c, n - 1);
            assert(comm[n - 1] == n - 1);
        }
    }

    /// What a community is known to hold once a node has been withdrawn.
    proof fn lemma_withdrawn(self, o: Ops, t: Scale, s: Parting, u: int)
        requires
            t.wf(),
            self.size() <= usize::MAX,
            s.wf(self.size()),
            0 <= u < self.size(),
            self.starts(o, t),
            self.tallied(t, s),
            self.moves(o, t, s, u),
        ensures
            forall|c: usize|
                c < self.size() ==> (t.value)(#[trigger] self.withdrawn(o, s, u).held[c as int]) == self.held_beside(
                    t.value,
                    s.comm,
                    u,
                    c,
                    self.size() as int,
                ),
    {
        let n = self.size() as int;
        let v = t.value;
        let out = self.withdrawn(o, s, u);
        assert(self.weighs_node(o, t, u));
        self.lemma_weighs_node(o, t, u);
        assert forall|c: usize| c < n implies v(#[trigger] out.held[c as int]) == self.held_beside(
            v,
            s.comm,
            u,
            c,
            n,
        ) by {
            self.lemma_held_moved(v, s.comm, u, 0, c, n);
            assert(v(s.held[c as int]) == self.held_by(v, s.comm, c, n));
        }
    }

    /// The gains of an exact move, times twice the square of the weight of all
    /// edges.
    pub proof fn lemma_exact_gains(self, o: Ops, t: Scale, s: Parting, u: int)
        requires
            t.wf(),
            self.size() <= usize::MAX,
            s.wf(self.size()),
            0 <= u < self.size(),
            self.starts(o, t),
            self.tallied(t, s),
            self.moves(o, t, s, u),
        ensures
            forall|c: usize|
                c < self.size() && #[trigger] communities::some_into(self.incident(u), s.comm, u, c) ==> {
                    let m = self.weight(t.value, self.size() as int);
                    let gain = self.gain(o, self.withdrawn(o, s, u), u, c);
                    (t.value)(gain) * (2 * m * m) == t.unit * self.exact_gain(t.value, s.comm, u, c)
                        && !binary64::is_nan(gain)
                },
    {
        let n = self.size() as int;
        let v = t.value;
        let out = self.withdrawn(o, s, u);
        let m = self.weight(v, n);
        let near = self.incident(u);
        assert(self.weighs_node(o, t, u));
        self.lemma_weighs_node(o, t, u);
        self.lemma_totals(o, t, n);
        self.lemma_withdrawn(o, t, s, u);
        assert forall|c: usize| c < n && #[trigger] communities::some_into(near, s.comm, u, c) implies {
            let gain = self.gain(o, out, u, c);
            v(gain) * (2 * m * m) == t.unit * self.exact_gain(v, s.comm, u, c) && !binary64::is_nan(gain)
        } by {
            lemma_into(t, o, near, s.comm, u, c);
            assert(v(out.held[c as int]) == self.held_beside(v, s.comm, u, c, n));
            lemma_gain(
                t,
                o,
                communities::added_into(o, near, s.comm, u, c),
                out.held[c as int],
                self.weight_at(o, u),
                self.total(o),
            );
        }
    }

    /// The gains of an exact move stand in the order of the exact ones, and the
    /// move keeps what is known of each community.
    proof fn lemma_moves(self, o: Ops, t: Scale, s: Parting, u: int)
        requires
            t.wf(),
            self.size() <= usize::MAX,
            s.wf(self.size()),
            0 <= u < self.size(),
            self.starts(o, t),
            0 < self.weight(t.value, self.size() as int),
            self.tallied(t, s),
            self.moves(o, t, s, u),
        ensures
            self.ranks_gains(o, t.value, s, u),
            self.tallied(t, self.moved(o, s, u)),
    {
        let n = self.size() as int;
        let v = t.value;
        let out = self.withdrawn(o, s, u);
        let a = s.comm[u];
        let to = self.best(o, out, u, n).0;
        let m = self.weight(v, n);
        let near = self.incident(u);
        assert(self.weighs_node(o, t, u));
        self.lemma_weighs_node(o, t, u);
        self.lemma_totals(o, t, n);
        self.lemma_moved_wf(o, s, u);
        self.lemma_withdrawn(o, t, s, u);
        assert forall|c: usize| c < n implies v(#[trigger] self.moved(o, s, u).held[c as int]) == self.held_by(
            v,
            self.moved(o, s, u).comm,
            c,
            n,
        ) by {
            self.lemma_held_moved(v, s.comm, u, to, c, n);
            assert(v(out.held[c as int]) == self.held_beside(v, s.comm, u, c, n));
        }
        self.lemma_exact_gains(o, t, s, u);
        assert forall|c: usize| c < n && #[trigger] communities::some_into(near, s.comm, u, c) && binary64::lt(
            MIN_GAIN,
            self.gain(o, out, u, c),
        ) implies 0 < self.exact_gain(v, s.comm, u, c) by {
            let (g, e, one) = (v(self.gain(o, out, u, c)), self.exact_gain(v, s.comm, u, c), t.unit);
            assert(0 < e) by (nonlinear_arith)
                requires
                    0 < g,
                    0 < m,
                    0 < one,
                    g * (2 * m * m) == one * e,
            ;
        }
        assert forall|c: usize, d: usize|
            c < n && d < n && #[trigger] communities::some_into(near, s.comm, u, c) && #[trigger] communities::some_into(
                near,
                s.comm,
                u,
                d,
            ) implies (binary64::lt(self.gain(o, out, u, c), self.gain(o, out, u, d)) <==> self.exact_gain(
            v,
            s.comm,
            u,
            c,
        ) < self.exact_gain(v, s.comm, u, d)) by {
            let (g, e) = (v(self.gain(o, out, u, c)), self.exact_gain(v, s.comm, u, c));
            let (h, f) = (v(self.gain(o, out, u, d)), self.exact_gain(v, s.comm, u, d));
            lemma_same_order(g, h, e, f, 2 * m * m, t.unit, m);
        }
    }
}

proof fn lemma_same_order(g: int, h: int, e: int, f: int, k: int, one: int, m: int)
    requires
        0 < m,
        k == 2 * m * m,
        0 < one,
        g * k == one * e,
        h * k == one * f,
    ensures
        g < h <==> e < f,
{
    assert(0 < k) by (nonlinear_arith)
        requires
            0 < m,
            k == 2 * m * m,
    ;
    assert(g < h <==> g * k < h * k) by (nonlinear_arith)
        requires
            0 < k,
    ;
    assert(e < f <==> one * e < one * f) by (nonlinear_arith)
        requires
            0 < one,
    ;
}

impl Net {
    /// What an exact sweep keeps.
    pub proof fn lemma_sweeps(self, o: Ops, t: Scale, s: Parting, n: int)
        requires
            t.wf(),
            self.size() <= usize::MAX,
            s.wf(self.size()),
            0 <= n <= self.size(),
            self.starts(o, t),
            0 < self.weight(t.value, self.size() as int),
            self.tallied(t, s),
            self.sweeps(o, t, s),
        ensures
            self.tallied(t, self.swept(o, s, n)),
            forall|u: int| 0 <= u < n ==> self.ranks_gains(o, t.value, #[trigger] self.swept(o, s, u), u),
        decreases n,
    {
        if n > 0 {
            self.lemma_sweeps(o, t, s, n - 1);
            self.lemma_swept_wf(o, s, n - 1);
            self.lemma_moves(o, t, self.swept(o, s, n - 1), n - 1);
        }
    }

    proof fn lemma_runs(self, o: Ops, t: Scale, s: Parting, n: nat)
        requires
            t.wf(),
            self.size() <= usize::MAX,
            s.wf(self.size()),
            self.starts(o, t),
            0 < self.weight(t.value, self.size() as int),
            self.tallied(t, s),
            self.runs(o, t, s, n),
        ensures
            self.ranks_run(o, t.value, s, n),
        decreases n,
    {
        if n > 0 {
            let next = self.swept(o, s, self.size() as int);
            self.lemma_sweeps(o, t, s, self.size() as int);
            self.lemma_swept_wf(o, s, self.size() as int);
            if next.comm != s.comm {
                self.lemma_runs(o, t, next, (n - 1) as nat);
            }
        }
    }

    proof fn lemma_weight_grows(self, value: spec_fn(u64) -> int, n: int)
        requires
            self.weighs(value),
            0 <= n <= self.size(),
        ensures
            0 <= self.weight(value, n),
        decreases n,
    {
        if n > 0 {
            self.lemma_weight_grows(value, n - 1);
            let row = self.outs[n - 1];
            assert forall|k: int| 0 <= k < row.len() implies 0 <= value((#[trigger] row[k]).1) by {
                assert(self.incident(n - 1)[k] == row[k]);
            }
            quality::lemma_row_sum_weighs(value, row);
        }
    }

    /// Edges that weigh something do so exactly.
    pub proof fn lemma_weight_counts(self, o: Ops, t: Scale)
        requires
            t.wf(),
            self.weighs(t.value),
            self.totals(o, t, self.size() as int),
            !binary64::is_zero(self.total(o)),
        ensures
            0 < self.weight(t.value, self.size() as int),
            (t.value)(self.total(o)) == self.weight(t.value, self.size() as int),
    {
        let n = self.size() as int;
        self.lemma_totals(o, t, n);
        self.lemma_weight_grows(t.value, n);
        assert(!binary64::lt(self.total(o), 0) ==> binary64::lt(0, self.total(o)));
    }
}

/// Where nothing rounds, the gains that a run compares stand in the order of the
/// exact ones.
pub proof fn law_exact_runs_rank(net: Net, o: Ops, t: Scale, n: nat)
    requires
        t.wf(),
        net.size() <= usize::MAX,
        net.weighs(t.value),
        !binary64::is_zero(net.total(o)),
        net.starts(o, t),
        net.runs(o, t, net.singletons(o), n),
    ensures
        net.ranks_run(o, t.value, net.singletons(o), n),
{
    let first = net.singletons(o);
    net.lemma_weight_counts(o, t);
    lemma_alone_tallied(net, o, t);
    assert(first.wf(net.size()));
    net.lemma_runs(o, t, first, n);
}

/// Every node on its own is known to hold what is at it.
pub proof fn lemma_alone_tallied(net: Net, o: Ops, t: Scale)
    requires
        t.wf(),
        net.size() <= usize::MAX,
        net.starts(o, t),
    ensures
        net.tallied(t, net.singletons(o)),
{
    let first = net.singletons(o);
    assert forall|c: usize| c < net.size() implies (t.value)(#[trigger] first.held[c as int]) == net.held_by(
        t.value,
        first.comm,
        c,
        net.size() as int,
    ) by {
        net.lemma_held_alone(t.value, first.comm, c, net.size() as int);
        assert(net.weighs_node(o, t, c as int));
        net.lemma_weighs_node(o, t, c as int);
    }
}

} // verus!
