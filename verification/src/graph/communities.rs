//! Communities by greedy moves, and how good a partition is.
//!
//! Everything is computed from edge weights, which are bit patterns of binary64
//! values. The four operations on them are the caller's, and what comes out is
//! stated in terms of them.

use vstd::prelude::*;

use super::algorithms;
use super::binary64;
use super::binary64::{call, less, zero};
use super::dense::Dense;
use super::exact::Scale;
use super::optimum;
use super::relabel;
use super::relabel::renumber;
use super::subgraph;
use super::subgraph::{Edge, Subgraph};
use super::tally::Tally;

verus! {

/// How many times at most every node is looked at.
pub const MAX_SWEEPS: usize = 100;

/// What a move has to gain at the least: the pattern of 1e-12.
pub const MIN_GAIN: u64 = 0x3d71_9799_812d_ea11;

/// The pattern of 2.
pub const TWO: u64 = 0x4000_0000_0000_0000;

/// The four operations on binary64 values.
pub struct Arithmetic<P, M, T, O> {
    pub plus: P,
    pub minus: M,
    pub times: T,
    pub over: O,
}

/// What the four operations answer.
pub struct Ops {
    pub plus: spec_fn(u64, u64) -> u64,
    pub minus: spec_fn(u64, u64) -> u64,
    pub times: spec_fn(u64, u64) -> u64,
    pub over: spec_fn(u64, u64) -> u64,
}

impl<
    P: Fn(u64, u64) -> u64,
    M: Fn(u64, u64) -> u64,
    T: Fn(u64, u64) -> u64,
    O: Fn(u64, u64) -> u64,
> Arithmetic<P, M, T, O> {
    /// Whether each operation answers any two values, and always alike.
    pub open spec fn wf(&self) -> bool {
        &&& binary64::is_function(self.plus)
        &&& binary64::is_function(self.minus)
        &&& binary64::is_function(self.times)
        &&& binary64::is_function(self.over)
    }

    /// What the operations answer.
    pub open spec fn ops(&self) -> Ops {
        Ops {
            plus: |a: u64, b: u64| binary64::value(self.plus, a, b),
            minus: |a: u64, b: u64| binary64::value(self.minus, a, b),
            times: |a: u64, b: u64| binary64::value(self.times, a, b),
            over: |a: u64, b: u64| binary64::value(self.over, a, b),
        }
    }
}

/// A graph by number: for each node the far ends and weights of its edges, in
/// either direction.
pub struct Net {
    pub outs: Seq<Seq<(int, u64)>>,
    pub inns: Seq<Seq<(int, u64)>>,
}

/// The weights of `row` added to `from`, first to last.
pub open spec fn added(o: Ops, from: u64, row: Seq<(int, u64)>) -> u64
    decreases row.len(),
{
    if row.len() == 0 {
        from
    } else {
        (o.plus)(added(o, from, row.drop_last()), row.last().1)
    }
}

/// The weights of those entries of `row` that lead from `u` to another node of
/// community `c`, added up.
pub open spec fn added_into(o: Ops, row: Seq<(int, u64)>, comm: Seq<usize>, u: int, c: usize) -> u64
    decreases row.len(),
{
    if row.len() == 0 {
        0
    } else {
        let before = added_into(o, row.drop_last(), comm, u, c);
        let e = row.last();
        if e.0 != u && comm[e.0] == c {
            (o.plus)(before, e.1)
        } else {
            before
        }
    }
}

/// Whether an entry of `row` leads from `u` to another node of community `c`.
pub open spec fn some_into(row: Seq<(int, u64)>, comm: Seq<usize>, u: int, c: usize) -> bool {
    exists|k: int| 0 <= k < row.len() && (#[trigger] row[k]).0 != u && comm[row[k].0] == c
}

impl Net {
    /// Whether every node has both lists, and every far end is a node.
    pub open spec fn wf(self) -> bool {
        &&& self.outs.len() == self.inns.len()
        &&& forall|u: int, k: int|
            0 <= u < self.outs.len() && 0 <= k < self.incident(u).len() ==> 0 <= (#[trigger] self.incident(u)[k]).0
                < self.outs.len()
    }

    /// How many nodes there are.
    pub open spec fn size(self) -> nat {
        self.outs.len()
    }

    /// The entries of `u`, outgoing before incoming.
    pub open spec fn incident(self, u: int) -> Seq<(int, u64)> {
        self.outs[u] + self.inns[u]
    }

    /// The weight at `u`: what leaves it added up, what enters it added up, and
    /// the two together.
    pub open spec fn weight_at(self, o: Ops, u: int) -> u64 {
        (o.plus)(added(o, 0, self.outs[u]), added(o, 0, self.inns[u]))
    }

    /// The weight of the edges that leave the first `n` nodes.
    pub open spec fn weight_of(self, o: Ops, n: int) -> u64
        decreases n,
    {
        if n <= 0 {
            0
        } else {
            added(o, self.weight_of(o, n - 1), self.outs[n - 1])
        }
    }

    /// The weight of all edges.
    pub open spec fn total(self, o: Ops) -> u64 {
        self.weight_of(o, self.size() as int)
    }
}

/// Which community each node is in, and the weight at the nodes of each.
pub struct Parting {
    pub comm: Seq<usize>,
    pub held: Seq<u64>,
}

/// What a node of weight `degree` gains by joining a community of weight `held`
/// into which its edges weigh `within`, where all edges weigh `m`.
pub open spec fn gain_of(o: Ops, within: u64, held: u64, degree: u64, m: u64) -> u64 {
    (o.minus)((o.over)(within, m), (o.over)((o.times)(held, degree), (o.times)((o.times)(TWO, m), m)))
}

impl Net {
    /// What `u` gains by joining `c`.
    pub open spec fn gain(self, o: Ops, s: Parting, u: int, c: usize) -> u64 {
        gain_of(
            o,
            added_into(o, self.incident(u), s.comm, u, c),
            s.held[c as int],
            self.weight_at(o, u),
            self.total(o),
        )
    }

    /// The community below `n` that `u` gains most by joining, and the gain: the
    /// lowest of those that gain alike, and its own where no neighbour's gains
    /// enough.
    pub open spec fn best(self, o: Ops, s: Parting, u: int, n: int) -> (usize, u64)
        decreases n,
    {
        if n <= 0 {
            (s.comm[u], MIN_GAIN)
        } else {
            let so_far = self.best(o, s, u, n - 1);
            let c = (n - 1) as usize;
            if some_into(self.incident(u), s.comm, u, c) && binary64::lt(so_far.1, self.gain(o, s, u, c)) {
                (c, self.gain(o, s, u, c))
            } else {
                so_far
            }
        }
    }

    /// The partition from which `u` has been withdrawn.
    pub open spec fn withdrawn(self, o: Ops, s: Parting, u: int) -> Parting {
        let c = s.comm[u] as int;
        Parting { comm: s.comm, held: s.held.update(c, (o.minus)(s.held[c], self.weight_at(o, u))) }
    }

    /// The partition after `u` has moved to where it gains most.
    pub open spec fn moved(self, o: Ops, s: Parting, u: int) -> Parting {
        let out = self.withdrawn(o, s, u);
        let c = self.best(o, out, u, self.size() as int).0;
        Parting {
            comm: s.comm.update(u, c),
            held: out.held.update(c as int, (o.plus)(out.held[c as int], self.weight_at(o, u))),
        }
    }

    /// The partition after each of the first `n` nodes has moved, one after the
    /// other.
    pub open spec fn swept(self, o: Ops, s: Parting, n: int) -> Parting
        decreases n,
    {
        if n <= 0 {
            s
        } else {
            self.moved(o, self.swept(o, s, n - 1), n - 1)
        }
    }

    /// The partition after sweeps until one moves nothing, or as many as `n`.
    pub open spec fn settled(self, o: Ops, s: Parting, n: nat) -> Parting
        decreases n,
    {
        if n == 0 {
            s
        } else {
            let next = self.swept(o, s, self.size() as int);
            if next.comm == s.comm {
                next
            } else {
                self.settled(o, next, (n - 1) as nat)
            }
        }
    }

    /// Every node a community of its own.
    pub open spec fn singletons(self, o: Ops) -> Parting {
        Parting {
            comm: Seq::new(self.size(), |u: int| u as usize),
            held: Seq::new(self.size(), |u: int| (o.plus)(0, self.weight_at(o, u))),
        }
    }

    /// The community of each node, by the number of the node it began with.
    pub open spec fn communities(self, o: Ops) -> Seq<usize> {
        if binary64::is_zero(self.total(o)) {
            self.singletons(o).comm
        } else {
            self.settled(o, self.singletons(o), MAX_SWEEPS as nat).comm
        }
    }
}

/// Entries by number.
pub open spec fn wide(row: Seq<(u32, u64)>) -> Seq<(int, u64)> {
    row.map_values(|e: (u32, u64)| (e.0 as int, e.1))
}

/// The graph that a dense view is of, by number.
pub open spec fn net_of(d: &Dense) -> Net {
    Net {
        outs: Seq::new(d.size(), |u: int| wide(d.outs(u))),
        inns: Seq::new(d.size(), |u: int| wide(d.ins(u))),
    }
}

proof fn lemma_net(d: &Dense)
    requires
        d.wf(),
    ensures
        net_of(d).wf(),
{
    let net = net_of(d);
    assert forall|u: int, k: int| 0 <= u < net.outs.len() && 0 <= k < net.incident(u).len() implies 0 <= (
    #[trigger] net.incident(u)[k]).0 < net.outs.len() by {
        let outs = d.outs(u);
        if k < outs.len() {
            assert(net.incident(u)[k] == wide(outs)[k]);
            assert(d.out@[d.out_at@[u] + k].0 < d.size());
        } else {
            let j = k - outs.len();
            assert(net.incident(u)[k] == wide(d.ins(u))[j]);
            assert(d.inn@[d.inn_at@[u] + j].0 < d.size());
        }
    }
}

/// The first entries of a row, one more at a time.
pub proof fn lemma_wide_grows(row: Seq<(u32, u64)>, i: int)
    requires
        0 <= i < row.len(),
    ensures
        wide(row.take(i + 1)).drop_last() == wide(row.take(i)),
        wide(row.take(i + 1)).last() == (row[i].0 as int, row[i].1),
        wide(row.take(i + 1)).len() == i + 1,
{
    assert(wide(row.take(i + 1)).drop_last() =~= wide(row.take(i)));
}

impl<
    P: Fn(u64, u64) -> u64,
    M: Fn(u64, u64) -> u64,
    T: Fn(u64, u64) -> u64,
    O: Fn(u64, u64) -> u64,
> Arithmetic<P, M, T, O> {
    fn add_row(&self, from: u64, row: &[(u32, u64)]) -> (sum: u64)
        requires
            self.wf(),
        ensures
            sum == added(self.ops(), from, wide(row@)),
    {
        let mut sum: u64 = from;
        let mut i: usize = 0;
        while i < row.len()
            invariant
                self.wf(),
                i <= row@.len(),
                sum == added(self.ops(), from, wide(row@.take(i as int))),
            decreases row@.len() - i,
        {
            proof {
                lemma_wide_grows(row@, i as int);
            }
            sum = call(&self.plus, sum, row[i].1);
            i = i + 1;
        }
        proof {
            assert(row@.take(i as int) =~= row@);
        }
        sum
    }

    /// The weight at each node.
    pub(crate) fn weights(&self, g: &Dense) -> (list: Vec<u64>)
        requires
            self.wf(),
            g.wf(),
        ensures
            list@.len() == g.size(),
            forall|u: int| 0 <= u < g.size() ==> #[trigger] list@[u] == net_of(g).weight_at(self.ops(), u),
    {
        let n: usize = g.len();
        let mut list: Vec<u64> = Vec::new();
        let mut u: usize = 0;
        while u < n
            invariant
                self.wf(),
                g.wf(),
                n == g.size(),
                u <= n,
                list@.len() == u,
                forall|v: int| 0 <= v < u ==> #[trigger] list@[v] == net_of(g).weight_at(self.ops(), v),
            decreases n - u,
        {
            let leaving: u64 = self.add_row(0, g.out(u));
            let entering: u64 = self.add_row(0, g.inn(u));
            list.push(call(&self.plus, leaving, entering));
            u = u + 1;
        }
        list
    }

    /// The weight of all edges.
    pub(crate) fn total(&self, g: &Dense) -> (sum: u64)
        requires
            self.wf(),
            g.wf(),
        ensures
            sum == net_of(g).total(self.ops()),
    {
        let n: usize = g.len();
        let mut sum: u64 = 0;
        let mut u: usize = 0;
        while u < n
            invariant
                self.wf(),
                g.wf(),
                n == g.size(),
                u <= n,
                sum == net_of(g).weight_of(self.ops(), u as int),
            decreases n - u,
        {
            sum = self.add_row(sum, g.out(u));
            u = u + 1;
        }
        sum
    }

    fn gain(&self, within: u64, held: u64, degree: u64, m: u64) -> (g: u64)
        requires
            self.wf(),
        ensures
            g == gain_of(self.ops(), within, held, degree, m),
    {
        let share: u64 = call(&self.over, within, m);
        let squared: u64 = call(&self.times, call(&self.times, TWO, m), m);
        call(&self.minus, share, call(&self.over, call(&self.times, held, degree), squared))
    }

    /// Adds up, by community, the weights of a row.
    fn tally_row(
        &self,
        t: &mut Tally,
        row: &[(u32, u64)],
        comm: &[usize],
        u: usize,
        Ghost(before): Ghost<Seq<(int, u64)>>,
    )
        requires
            self.wf(),
            old(t).wf(),
            forall|k: int| 0 <= k < row@.len() ==> (#[trigger] row@[k]).0 < comm@.len(),
            forall|c: usize| #[trigger] old(t).has(c) <==> some_into(before, comm@, u as int, c),
            forall|c: usize| #[trigger]
                old(t).amount(c) == added_into(self.ops(), before, comm@, u as int, c),
        ensures
            final(t).wf(),
            forall|c: usize| #[trigger] final(t).has(c) <==> some_into(before + wide(row@), comm@, u as int, c),
            forall|c: usize| #[trigger]
                final(t).amount(c) == added_into(self.ops(), before + wide(row@), comm@, u as int, c),
    {
        let ghost o = self.ops();
        let mut i: usize = 0;
        proof {
            assert(before + wide(row@.take(0)) =~= before);
        }
        while i < row.len()
            invariant
                self.wf(),
                o == self.ops(),
                t.wf(),
                i <= row@.len(),
                forall|k: int| 0 <= k < row@.len() ==> (#[trigger] row@[k]).0 < comm@.len(),
                forall|c: usize| #[trigger]
                    t.has(c) <==> some_into(before + wide(row@.take(i as int)), comm@, u as int, c),
                forall|c: usize| #[trigger]
                    t.amount(c) == added_into(o, before + wide(row@.take(i as int)), comm@, u as int, c),
            decreases row@.len() - i,
        {
            let other: usize = row[i].0 as usize;
            let w: u64 = row[i].1;
            let ghost part = before + wide(row@.take(i as int));
            let ghost more = before + wide(row@.take(i + 1));
            proof {
                lemma_wide_grows(row@, i as int);
                assert(more.drop_last() =~= part);
                assert(more.last() == (other as int, w));
                lemma_some_into(part, (other as int, w), comm@, u as int);
                assert(more =~= part.push((other as int, w)));
            }
            if other != u {
                t.bump(comm[other], w, &self.plus);
            }
            i = i + 1;
        }
        proof {
            assert(row@.take(i as int) =~= row@);
        }
    }
}

proof fn lemma_some_into(row: Seq<(int, u64)>, e: (int, u64), comm: Seq<usize>, u: int)
    ensures
        forall|c: usize| #[trigger]
            some_into(row.push(e), comm, u, c) <==> some_into(row, comm, u, c) || (e.0 != u && comm[e.0] == c),
{
    let more = row.push(e);
    assert forall|c: usize| #[trigger] some_into(more, comm, u, c) <==> some_into(row, comm, u, c) || (e.0 != u
        && comm[e.0] == c) by {
        if some_into(row, comm, u, c) {
            let k = choose|k: int| 0 <= k < row.len() && (#[trigger] row[k]).0 != u && comm[row[k].0] == c;
            assert(more[k] == row[k]);
        }
        if e.0 != u && comm[e.0] == c {
            assert(more[row.len() as int] == e);
        }
        if some_into(more, comm, u, c) {
            let k = choose|k: int| 0 <= k < more.len() && (#[trigger] more[k]).0 != u && comm[more[k].0] == c;
            if k < row.len() {
                assert(row[k] == more[k]);
            }
        }
    }
}

impl Parting {
    /// Whether every node has a community among `n`, and every community a
    /// weight.
    pub open spec fn wf(self, n: nat) -> bool {
        &&& self.comm.len() == n
        &&& self.held.len() == n
        &&& forall|u: int| 0 <= u < n ==> (#[trigger] self.comm[u]) < n
    }
}

impl Net {
    /// Communities into which no edge of `u` leads change nothing.
    proof fn lemma_best_skips(self, o: Ops, s: Parting, u: int, low: int, high: int)
        requires
            0 <= low <= high <= usize::MAX,
            forall|c: usize| low <= c < high ==> !#[trigger] some_into(self.incident(u), s.comm, u, c),
        ensures
            self.best(o, s, u, high) == self.best(o, s, u, low),
        decreases high,
    {
        if low < high {
            assert(!some_into(self.incident(u), s.comm, u, (high - 1) as usize));
            self.lemma_best_skips(o, s, u, low, high - 1);
        }
    }

    /// What a node joins is a community.
    proof fn lemma_best_within(self, o: Ops, s: Parting, u: int, n: int)
        requires
            0 <= u < self.size(),
            self.size() <= usize::MAX,
            s.wf(self.size()),
            0 <= n <= self.size(),
        ensures
            self.best(o, s, u, n).0 < self.size(),
        decreases n,
    {
        if n > 0 {
            self.lemma_best_within(o, s, u, n - 1);
        }
    }

    /// A move keeps the partition in order.
    pub proof fn lemma_moved_wf(self, o: Ops, s: Parting, u: int)
        requires
            0 <= u < self.size(),
            self.size() <= usize::MAX,
            s.wf(self.size()),
        ensures
            self.withdrawn(o, s, u).wf(self.size()),
            self.moved(o, s, u).wf(self.size()),
            self.best(o, self.withdrawn(o, s, u), u, self.size() as int).0 < self.size(),
    {
        let out = self.withdrawn(o, s, u);
        assert(out.wf(self.size()));
        self.lemma_best_within(o, out, u, self.size() as int);
    }
}

impl<
    P: Fn(u64, u64) -> u64,
    M: Fn(u64, u64) -> u64,
    T: Fn(u64, u64) -> u64,
    O: Fn(u64, u64) -> u64,
> Arithmetic<P, M, T, O> {
    /// The community that `u`, withdrawn from its own, gains most by joining.
    fn best_for(&self, g: &Dense, comm: &[usize], held: &[u64], u: usize, degree: u64, m: u64) -> (c: usize)
        requires
            self.wf(),
            g.wf(),
            u < g.size(),
            (Parting { comm: comm@, held: held@ }).wf(g.size()),
            degree == net_of(g).weight_at(self.ops(), u as int),
            m == net_of(g).total(self.ops()),
        ensures
            c == net_of(g).best(
                self.ops(),
                (Parting { comm: comm@, held: held@ }),
                u as int,
                g.size() as int,
            ).0,
            c < g.size(),
    {
        let ghost o = self.ops();
        let ghost net = net_of(g);
        let ghost s = Parting { comm: comm@, held: held@ };
        let ghost row = net.incident(u as int);
        let n: usize = g.len();
        let mut t = Tally::new();
        proof {
            assert forall|c: usize| #[trigger] t.amount(c) == added_into(o, Seq::empty(), comm@, u as int, c) by {
                assert(!t.has(c));
            }
        }
        self.tally_row(&mut t, g.out(u), comm, u, Ghost(Seq::empty()));
        self.tally_row(&mut t, g.inn(u), comm, u, Ghost(Seq::empty() + wide(g.outs(u as int))));
        proof {
            assert(Seq::empty() + wide(g.outs(u as int)) + wide(g.ins(u as int)) =~= row);
            lemma_net(g);
            assert forall|c: usize| #[trigger] some_into(row, comm@, u as int, c) implies c < n by {
                let k = choose|k: int|
                    0 <= k < row.len() && (#[trigger] row[k]).0 != u && comm@[row[k].0] == c;
                assert(0 <= net.incident(u as int)[k].0 < n);
                assert(s.comm[row[k].0] < n);
            }
        }
        let mut best: usize = comm[u];
        let mut top: u64 = MIN_GAIN;
        let mut i: usize = 0;
        let ghost mut seen: int = 0;
        while i < t.rows.len()
            invariant
                self.wf(),
                o == self.ops(),
                net == net_of(g),
                n == g.size(),
                n == net.size(),
                s == (Parting { comm: comm@, held: held@ }),
                s.wf(n as nat),
                row == net.incident(u as int),
                u < n,
                t.wf(),
                i <= t.rows@.len(),
                degree == net.weight_at(o, u as int),
                m == net.total(o),
                forall|c: usize| #[trigger] t.has(c) <==> some_into(row, comm@, u as int, c),
                forall|c: usize| #[trigger] t.amount(c) == added_into(o, row, comm@, u as int, c),
                forall|c: usize| #[trigger] some_into(row, comm@, u as int, c) ==> c < n,
                seen == (if i == 0 {
                    0
                } else {
                    t.rows@[i - 1].0 + 1
                }),
                seen <= n,
                (best, top) == net.best(o, s, u as int, seen),
            decreases t.rows@.len() - i,
        {
            let c: usize = t.rows[i].0;
            proof {
                t.lemma_at(c, i as int);
                assert(some_into(row, comm@, u as int, c));
                lemma_no_rows_between(&t, i as int, seen, c as int);
                assert forall|x: usize| seen <= x < c implies !#[trigger] some_into(row, s.comm, u as int, x) by {
                    assert(!t.has(x));
                }
                net.lemma_best_skips(o, s, u as int, seen, c as int);
            }
            let gain: u64 = self.gain(t.rows[i].1, held[c], degree, m);
            if less(top, gain) {
                best = c;
                top = gain;
            }
            proof {
                seen = c + 1;
            }
            i = i + 1;
        }
        proof {
            lemma_no_rows_between(&t, i as int, seen, n as int);
            assert forall|x: usize| seen <= x < n implies !#[trigger] some_into(row, s.comm, u as int, x) by {
                assert(!t.has(x));
            }
            net.lemma_best_skips(o, s, u as int, seen, n as int);
            net.lemma_best_within(o, s, u as int, n as int);
        }
        best
    }
}

/// Between a row and the next there is no sum.
proof fn lemma_no_rows_between(t: &Tally, i: int, low: int, high: int)
    requires
        t.wf(),
        0 <= i <= t.rows@.len(),
        low == (if i == 0 {
            0
        } else {
            t.rows@[i - 1].0 + 1
        }),
        i < t.rows@.len() ==> high <= t.rows@[i].0,
    ensures
        forall|c: usize| low <= c < high ==> !#[trigger] t.has(c),
{
    assert forall|c: usize| low <= c < high implies !#[trigger] t.has(c) by {
        if t.has(c) {
            let j = choose|j: int| t.at(c, j);
            assert(t.at(c, j));
            if j < i {
                if j < i - 1 {
                    assert(t.rows@[j].0 < t.rows@[i - 1].0);
                }
            } else if j > i {
                assert(t.rows@[i].0 < t.rows@[j].0);
            }
        }
    }
}

impl Net {
    /// The first sweeps of a partition keep it in order.
    pub proof fn lemma_swept_wf(self, o: Ops, s: Parting, n: int)
        requires
            self.size() <= usize::MAX,
            s.wf(self.size()),
            0 <= n <= self.size(),
        ensures
            self.swept(o, s, n).wf(self.size()),
            forall|u: int| n <= u < self.size() ==> (#[trigger] self.swept(o, s, n).comm[u]) == s.comm[u],
        decreases n,
    {
        if n > 0 {
            self.lemma_swept_wf(o, s, n - 1);
            self.lemma_moved_wf(o, self.swept(o, s, n - 1), n - 1);
        }
    }
}

impl<
    P: Fn(u64, u64) -> u64,
    M: Fn(u64, u64) -> u64,
    T: Fn(u64, u64) -> u64,
    O: Fn(u64, u64) -> u64,
> Arithmetic<P, M, T, O> {
    /// Moves each node in turn to where it gains most, and says whether any
    /// changed its community.
    fn sweep(&self, g: &Dense, weights: &[u64], m: u64, comm: &mut Vec<usize>, held: &mut Vec<u64>) -> (changed: bool)
        requires
            self.wf(),
            g.wf(),
            weights@.len() == g.size(),
            forall|u: int| 0 <= u < g.size() ==> #[trigger] weights@[u] == net_of(g).weight_at(self.ops(), u),
            m == net_of(g).total(self.ops()),
            (Parting { comm: old(comm)@, held: old(held)@ }).wf(g.size()),
        ensures
            (Parting { comm: final(comm)@, held: final(held)@ }).wf(g.size()),
            (Parting { comm: final(comm)@, held: final(held)@ }) == net_of(g).swept(
                self.ops(),
                (Parting { comm: old(comm)@, held: old(held)@ }),
                g.size() as int,
            ),
            changed == (final(comm)@ != old(comm)@),
    {
        let ghost o = self.ops();
        let ghost net = net_of(g);
        let ghost first = Parting { comm: comm@, held: held@ };
        let n: usize = g.len();
        let mut changed: bool = false;
        let mut u: usize = 0;
        while u < n
            invariant
                self.wf(),
                g.wf(),
                o == self.ops(),
                net == net_of(g),
                n == g.size(),
                n == net.size(),
                u <= n,
                weights@.len() == n,
                forall|v: int| 0 <= v < n ==> #[trigger] weights@[v] == net.weight_at(o, v),
                m == net.total(o),
                first.wf(n as nat),
                (Parting { comm: comm@, held: held@ }).wf(n as nat),
                (Parting { comm: comm@, held: held@ }) == net.swept(o, first, u as int),
                changed <==> exists|v: int| 0 <= v < u && #[trigger] comm@[v] != first.comm[v],
            decreases n - u,
        {
            let ghost s = Parting { comm: comm@, held: held@ };
            let own: usize = comm[u];
            let degree: u64 = weights[u];
            assert(s.comm[u as int] < n);
            held.set(own, call(&self.minus, held[own], degree));
            proof {
                assert((Parting { comm: comm@, held: held@ }) == net.withdrawn(o, s, u as int));
                net.lemma_moved_wf(o, s, u as int);
                net.lemma_swept_wf(o, first, u as int);
                assert(s.comm[u as int] == first.comm[u as int]);
            }
            let ghost out = Parting { comm: comm@, held: held@ };
            let best: usize = self.best_for(g, comm.as_slice(), held.as_slice(), u, degree, m);
            held.set(best, call(&self.plus, held[best], degree));
            if best != own {
                comm.set(u, best);
                changed = true;
            }
            proof {
                let next = net.moved(o, s, u as int);
                assert(comm@ =~= next.comm);
                assert(held@ =~= next.held);
                assert(net.swept(o, first, u + 1) == next);
                assert forall|v: int| 0 <= v < u implies #[trigger] comm@[v] == s.comm[v] by {}
                if changed {
                    if best != own {
                        assert(comm@[u as int] != first.comm[u as int]);
                    } else {
                        let v = choose|v: int| 0 <= v < u && #[trigger] s.comm[v] != first.comm[v];
                        assert(comm@[v] != first.comm[v]);
                    }
                }
            }
            u = u + 1;
        }
        proof {
            assert(!changed ==> comm@ =~= first.comm);
        }
        changed
    }

    /// The community of each node, by the number of the node it began with.
    fn communities(&self, g: &Dense) -> (comm: Vec<usize>)
        requires
            self.wf(),
            g.wf(),
        ensures
            comm@ == net_of(g).communities(self.ops()),
    {
        let ghost o = self.ops();
        let ghost net = net_of(g);
        let n: usize = g.len();
        let m: u64 = self.total(g);
        let mut comm: Vec<usize> = Vec::new();
        let mut u: usize = 0;
        while u < n
            invariant
                u <= n,
                comm@.len() == u,
                forall|v: int| 0 <= v < u ==> #[trigger] comm@[v] == v,
            decreases n - u,
        {
            comm.push(u);
            u = u + 1;
        }
        proof {
            assert(comm@ =~= net.singletons(o).comm);
        }
        if zero(m) {
            return comm;
        }
        let weights = self.weights(g);
        let mut held: Vec<u64> = Vec::new();
        u = 0;
        while u < n
            invariant
                self.wf(),
                o == self.ops(),
                net == net_of(g),
                n == g.size(),
                u <= n,
                weights@.len() == n,
                forall|v: int| 0 <= v < n ==> #[trigger] weights@[v] == net.weight_at(o, v),
                held@.len() == u,
                forall|v: int| 0 <= v < u ==> #[trigger] held@[v] == (o.plus)(0, net.weight_at(o, v)),
            decreases n - u,
        {
            held.push(call(&self.plus, 0, weights[u]));
            u = u + 1;
        }
        let ghost first = net.singletons(o);
        proof {
            assert(held@ =~= first.held);
        }
        let mut left: usize = MAX_SWEEPS;
        while left > 0
            invariant_except_break
                net.settled(o, first, MAX_SWEEPS as nat) == net.settled(
                    o,
                    (Parting { comm: comm@, held: held@ }),
                    left as nat,
                ),
            invariant
                self.wf(),
                g.wf(),
                o == self.ops(),
                net == net_of(g),
                n == g.size(),
                weights@.len() == n,
                forall|v: int| 0 <= v < n ==> #[trigger] weights@[v] == net.weight_at(o, v),
                m == net.total(o),
                (Parting { comm: comm@, held: held@ }).wf(n as nat),
            ensures
                net.settled(o, first, MAX_SWEEPS as nat) == (Parting { comm: comm@, held: held@ }),
            decreases left,
        {
            let changed = self.sweep(g, weights.as_slice(), m, &mut comm, &mut held);
            left = left - 1;
            if !changed {
                break;
            }
        }
        comm
    }
}

/// A loaded graph by number, its nodes in ascending order of their ids.
pub open spec fn graph_net(g: &Subgraph) -> Net {
    Net {
        outs: Seq::new(
            g.size(),
            |u: int|
                subgraph::leaving(g@.edges, g.id_at(u)).map_values(
                    |e: Edge| (algorithms::place_of(g, e.target), e.weight),
                ),
        ),
        inns: Seq::new(
            g.size(),
            |u: int|
                subgraph::entering(g@.edges, g.id_at(u)).map_values(
                    |e: Edge| (algorithms::place_of(g, e.source), e.weight),
                ),
        ),
    }
}

/// A dense view is of its graph, by number too.
pub proof fn lemma_same_net(d: &Dense, g: &Subgraph)
    requires
        g.wf(),
        subgraph::is_dense_view(d, g),
    ensures
        net_of(d) == graph_net(g),
{
    let a = net_of(d);
    let b = graph_net(g);
    g.lemma_ids();
    assert forall|u: int| 0 <= u < g.size() implies a.outs[u] == b.outs[u] && a.inns[u] == b.inns[u] by {
        let leaving = subgraph::leaving(g@.edges, g.id_at(u));
        let entering = subgraph::entering(g@.edges, g.id_at(u));
        assert(subgraph::mirrors_targets(d.outs(u), leaving, g));
        assert(subgraph::mirrors_sources(d.ins(u), entering, g));
        assert forall|k: int| 0 <= k < leaving.len() implies a.outs[u][k] == b.outs[u][k] by {
            let e = d.outs(u)[k];
            algorithms::lemma_place(g, g.id_at(e.0 as int));
            g.lemma_same_id(e.0 as int, algorithms::place_of(g, leaving[k].target));
        }
        assert forall|k: int| 0 <= k < entering.len() implies a.inns[u][k] == b.inns[u][k] by {
            let e = d.ins(u)[k];
            algorithms::lemma_place(g, g.id_at(e.0 as int));
            g.lemma_same_id(e.0 as int, algorithms::place_of(g, entering[k].source));
        }
        assert(a.outs[u] =~= b.outs[u]);
        assert(a.inns[u] =~= b.inns[u]);
    }
    assert(a.outs =~= b.outs);
    assert(a.inns =~= b.inns);
}

/// Community detection by the local moves of Louvain's method.
///
/// Every node begins as a community of its own. Node after node moves to the
/// neighbouring community that it gains most by joining, until a sweep moves
/// none or there have been a hundred. Lists every node, ascending by id, with
/// its community; communities are numbered from zero in order of first
/// appearance.
pub fn louvain<
    P: Fn(u64, u64) -> u64,
    M: Fn(u64, u64) -> u64,
    T: Fn(u64, u64) -> u64,
    O: Fn(u64, u64) -> u64,
>(graph: &Subgraph, arithmetic: &Arithmetic<P, M, T, O>) -> (labels: Vec<(String, usize)>)
    requires
        algorithms::runnable(graph),
        arithmetic.wf(),
    ensures
        labels@.len() == graph.size(),
        forall|u: int|
            0 <= u < graph.size() ==> (#[trigger] labels@[u]).0@ == graph.id_at(u) && labels@[u].1
                == relabel::renumbered(graph_net(graph).communities(arithmetic.ops()))[u],
        forall|t: Scale| #[trigger]
            optimum::rests_exactly(graph, arithmetic.ops(), t) ==> optimum::is_at_rest(
                graph_net(graph),
                t,
                optimum::as_found(labels@),
            ),
{
    let g = graph.build_dense();
    let comm = arithmetic.communities(&g);
    let dense = renumber(comm.as_slice());
    proof {
        lemma_same_net(&g, graph);
        net_of(&g).lemma_communities_len(arithmetic.ops());
    }
    let n: usize = g.len();
    let mut labels: Vec<(String, usize)> = Vec::new();
    let mut u: usize = 0;
    while u < n
        invariant
            n == g.size(),
            n == graph.size(),
            subgraph::is_dense_view(&g, graph),
            u <= n,
            dense@.len() == n,
            labels@.len() == u,
            forall|v: int|
                0 <= v < u ==> (#[trigger] labels@[v]).0@ == graph.id_at(v) && labels@[v].1 == dense@[v],
        decreases n - u,
    {
        assert(g.ids@[u as int]@ == graph.id_at(u as int));
        labels.push((g.id(u).to_owned(), dense[u]));
        u = u + 1;
    }
    proof {
        let o = arithmetic.ops();
        let listed = optimum::as_found(labels@);
        assert forall|v: int| 0 <= v < graph.size() implies #[trigger] listed[v] == relabel::renumbered(
            graph_net(graph).communities(o),
        )[v] by {
            assert(labels@[v].1 == dense@[v]);
        }
        assert forall|t: Scale| #[trigger] optimum::rests_exactly(graph, o, t) implies optimum::is_at_rest(
            graph_net(graph),
            t,
            listed,
        ) by {
            optimum::lemma_listed_at_rest(graph, o, t, listed);
        }
    }
    labels
}

impl Net {
    /// Sweeps keep a partition in order.
    pub proof fn lemma_settled_wf(self, o: Ops, s: Parting, n: nat)
        requires
            self.size() <= usize::MAX,
            s.wf(self.size()),
        ensures
            self.settled(o, s, n).wf(self.size()),
        decreases n,
    {
        if n > 0 {
            self.lemma_swept_wf(o, s, self.size() as int);
            self.lemma_settled_wf(o, self.swept(o, s, self.size() as int), (n - 1) as nat);
        }
    }

    /// Communities go by the numbers of nodes.
    pub proof fn lemma_communities_within(self, o: Ops)
        requires
            self.size() <= usize::MAX,
        ensures
            forall|u: int| 0 <= u < self.size() ==> (#[trigger] self.communities(o)[u]) < self.size(),
    {
        assert(self.singletons(o).wf(self.size()));
        self.lemma_settled_wf(o, self.singletons(o), MAX_SWEEPS as nat);
    }

    /// Every node has a community.
    pub proof fn lemma_communities_len(self, o: Ops)
        requires
            self.size() <= usize::MAX,
        ensures
            self.communities(o).len() == self.size(),
    {
        assert(self.singletons(o).wf(self.size()));
        self.lemma_settled_wf(o, self.singletons(o), MAX_SWEEPS as nat);
    }

    /// Whether an edge joins `u` and `v`, whichever way.
    pub open spec fn adjacent(self, u: int, v: int) -> bool {
        ||| exists|k: int| 0 <= k < self.incident(u).len() && (#[trigger] self.incident(u)[k]).0 == v
        ||| exists|k: int| 0 <= k < self.incident(v).len() && (#[trigger] self.incident(v)[k]).0 == u
    }

    /// Whether `path` goes from `u` to `v` along edges, whichever way they lead.
    pub open spec fn is_trail(self, path: Seq<int>, u: int, v: int) -> bool {
        &&& path.len() > 0
        &&& path[0] == u
        &&& path.last() == v
        &&& forall|i: int| 0 <= i < path.len() - 1 ==> #[trigger] self.adjacent(path[i], path[i + 1])
    }

    /// Whether edges join `u` to `v`, one after the other.
    pub open spec fn joined(self, u: int, v: int) -> bool {
        exists|path: Seq<int>| self.is_trail(path, u, v)
    }

    /// Whether every node is joined to the one that its community began with.
    pub open spec fn hangs_together(self, comm: Seq<usize>) -> bool {
        forall|u: int| 0 <= u < self.size() ==> self.joined(u, (#[trigger] comm[u]) as int)
    }

    proof fn lemma_best_is_near(self, o: Ops, s: Parting, u: int, n: int)
        requires
            0 <= n <= usize::MAX,
        ensures
            self.best(o, s, u, n).0 == s.comm[u] || some_into(
                self.incident(u),
                s.comm,
                u,
                self.best(o, s, u, n).0,
            ),
        decreases n,
    {
        if n > 0 {
            self.lemma_best_is_near(o, s, u, n - 1);
        }
    }

    proof fn lemma_moved_together(self, o: Ops, s: Parting, u: int)
        requires
            self.wf(),
            self.size() <= usize::MAX,
            0 <= u < self.size(),
            s.wf(self.size()),
            self.hangs_together(s.comm),
        ensures
            self.hangs_together(self.moved(o, s, u).comm),
    {
        let n = self.size() as int;
        let out = self.withdrawn(o, s, u);
        let c = self.best(o, out, u, n).0;
        let next = self.moved(o, s, u).comm;
        self.lemma_best_is_near(o, out, u, n);
        assert forall|v: int| 0 <= v < n implies self.joined(v, (#[trigger] next[v]) as int) by {
            assert(self.joined(v, s.comm[v] as int));
            if v == u && c != s.comm[u] {
                let row = self.incident(u);
                let k = choose|k: int| 0 <= k < row.len() && (#[trigger] row[k]).0 != u && s.comm[row[k].0] == c;
                let w = row[k].0;
                assert(0 <= self.incident(u)[k].0 < n);
                assert(self.joined(w, s.comm[w] as int));
                let path = choose|path: Seq<int>| self.is_trail(path, w, s.comm[w] as int);
                let longer = seq![u] + path;
                assert(self.adjacent(u, w));
                assert forall|i: int| 0 <= i < longer.len() - 1 implies #[trigger] self.adjacent(
                    longer[i],
                    longer[i + 1],
                ) by {
                    if i > 0 {
                        assert(self.adjacent(path[i - 1], path[i - 1 + 1]));
                    }
                }
                assert(self.is_trail(longer, u, c as int));
            }
        }
    }

    proof fn lemma_swept_together(self, o: Ops, s: Parting, n: int)
        requires
            self.wf(),
            self.size() <= usize::MAX,
            0 <= n <= self.size(),
            s.wf(self.size()),
            self.hangs_together(s.comm),
        ensures
            self.hangs_together(self.swept(o, s, n).comm),
        decreases n,
    {
        if n > 0 {
            self.lemma_swept_together(o, s, n - 1);
            self.lemma_swept_wf(o, s, n - 1);
            self.lemma_moved_together(o, self.swept(o, s, n - 1), n - 1);
        }
    }

    proof fn lemma_settled_together(self, o: Ops, s: Parting, n: nat)
        requires
            self.wf(),
            self.size() <= usize::MAX,
            s.wf(self.size()),
            self.hangs_together(s.comm),
        ensures
            self.hangs_together(self.settled(o, s, n).comm),
        decreases n,
    {
        if n > 0 {
            self.lemma_swept_together(o, s, self.size() as int);
            self.lemma_swept_wf(o, s, self.size() as int);
            self.lemma_settled_together(o, self.swept(o, s, self.size() as int), (n - 1) as nat);
        }
    }
}

/// Two nodes share a community only where edges join them, one after the other
/// and whichever way they lead.
pub proof fn law_communities_are_joined(net: Net, o: Ops, u: int, v: int)
    requires
        net.wf(),
        net.size() <= usize::MAX,
        0 <= u < net.size(),
        0 <= v < net.size(),
        net.communities(o)[u] == net.communities(o)[v],
    ensures
        net.joined(u, v),
{
    let first = net.singletons(o);
    assert forall|w: int| 0 <= w < net.size() implies net.joined(w, (#[trigger] first.comm[w]) as int) by {
        assert(net.is_trail(seq![w], w, w));
    }
    net.lemma_settled_together(o, first, MAX_SWEEPS as nat);
    let comm = net.communities(o);
    assert(net.hangs_together(comm));
    let c = comm[u] as int;
    assert(net.joined(u, comm[u] as int) && net.joined(v, comm[v] as int));
    let there = choose|path: Seq<int>| net.is_trail(path, u, c);
    let back = choose|path: Seq<int>| net.is_trail(path, v, c);
    let way = there + back.reverse().skip(1);
    assert forall|i: int| 0 <= i < way.len() - 1 implies #[trigger] net.adjacent(way[i], way[i + 1]) by {
        if i + 1 < there.len() {
            assert(net.adjacent(there[i], there[i + 1]));
        } else {
            let j = back.len() - 2 - (i + 1 - there.len());
            assert(net.adjacent(back[j], back[j + 1]));
            assert(way[i + 1] == back[j]);
            assert(way[i] == back[j + 1]);
        }
    }
    assert(way.last() == v) by {
        if back.len() == 1 {
            assert(way =~= there);
        }
    }
    assert(net.is_trail(way, u, v));
}

} // verus!
