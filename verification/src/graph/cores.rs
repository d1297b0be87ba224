//! The k-core of a dense graph.

use std::collections::VecDeque;

use vstd::prelude::*;

use super::dense;
use super::dense::Dense;

verus! {

/// How many entries of `edges` lead into `t`.
pub open spec fn count_in(edges: Seq<(u32, u64)>, t: Set<int>) -> nat
    decreases edges.len(),
{
    if edges.len() == 0 {
        0
    } else {
        count_in(edges.drop_last(), t) + if t.contains(edges.last().0 as int) {
            1nat
        } else {
            0nat
        }
    }
}

/// The degree of `u` in the subgraph that `t` induces: entries of both
/// directions, parallel edges counted once each.
pub open spec fn degree_in(g: &Dense, t: Set<int>, u: int) -> nat {
    count_in(g.outs(u), t) + count_in(g.ins(u), t)
}

/// Whether every node of `t` has degree at least `k` within `t`.
pub open spec fn holds_together(g: &Dense, t: Set<int>, k: int) -> bool {
    forall|u: int| #[trigger] t.contains(u) ==> 0 <= u < g.size() && degree_in(g, t, u) >= k
}

/// The nodes not marked.
pub open spec fn unmarked(marks: Seq<bool>) -> Set<int> {
    Set::new(|u: int| 0 <= u < marks.len() && !marks[u])
}

proof fn lemma_count_monotone(edges: Seq<(u32, u64)>, s: Set<int>, t: Set<int>)
    requires
        forall|u: int| #[trigger] s.contains(u) ==> t.contains(u),
    ensures
        count_in(edges, s) <= count_in(edges, t),
    decreases edges.len(),
{
    if edges.len() > 0 {
        lemma_count_monotone(edges.drop_last(), s, t);
    }
}

proof fn lemma_count_without(edges: Seq<(u32, u64)>, s: Set<int>, t: Set<int>, x: int)
    requires
        s.contains(x),
        !t.contains(x),
        forall|u: int| u != x ==> (#[trigger] s.contains(u) <==> t.contains(u)),
    ensures
        count_in(edges, t) + dense::count_to(edges, x) == count_in(edges, s),
    decreases edges.len(),
{
    if edges.len() > 0 {
        lemma_count_without(edges.drop_last(), s, t, x);
    }
}

proof fn lemma_count_all(edges: Seq<(u32, u64)>, t: Set<int>)
    requires
        forall|i: int| 0 <= i < edges.len() ==> t.contains((#[trigger] edges[i]).0 as int),
    ensures
        count_in(edges, t) == edges.len(),
    decreases edges.len(),
{
    if edges.len() > 0 {
        assert(t.contains(edges[edges.len() - 1].0 as int));
        assert forall|i: int| 0 <= i < edges.drop_last().len() implies t.contains(
            (#[trigger] edges.drop_last()[i]).0 as int,
        ) by {
            assert(edges.drop_last()[i] == edges[i]);
        }
        lemma_count_all(edges.drop_last(), t);
    }
}

proof fn lemma_count_take(edges: Seq<(u32, u64)>, k: int, v: int)
    requires
        0 <= k < edges.len(),
    ensures
        dense::count_to(edges.take(k + 1), v) == dense::count_to(edges.take(k), v) + if edges[k].0 == v {
            1nat
        } else {
            0nat
        },
        dense::count_to(edges.take(k + 1), v) <= dense::count_to(edges, v),
    decreases edges.len(),
{
    assert(edges.take(k + 1).drop_last() =~= edges.take(k));
    if k + 1 == edges.len() {
        assert(edges.take(k + 1) =~= edges);
    } else {
        assert(edges.drop_last().take(k + 1) =~= edges.take(k + 1));
        lemma_count_take(edges.drop_last(), k, v);
    }
}

/// Whether `x` waits in `q`.
spec fn waits(q: Seq<usize>, x: int) -> bool {
    exists|i: int| 0 <= i < q.len() && #[trigger] q[i] == x
}

/// The peeling between two steps, `degree` still to be lowered by `owed`.
spec fn peeling(
    g: &Dense,
    k: usize,
    degree: Seq<usize>,
    removed: Seq<bool>,
    q: Seq<usize>,
    owed: spec_fn(int) -> nat,
) -> bool {
    &&& degree.len() == g.size()
    &&& removed.len() == g.size()
    &&& forall|u: int|
        0 <= u < g.size() ==> #[trigger] degree[u] == degree_in(g, unmarked(removed), u) + owed(u)
    &&& forall|i: int| 0 <= i < q.len() ==> (#[trigger] q[i]) < g.size() && degree[q[i] as int] < k
    &&& forall|u: int|
        0 <= u < g.size() && !removed[u] && #[trigger] degree[u] < k ==> waits(q, u)
}

/// Lowers the degree of each far end in `edges` by one per entry, queueing what
/// falls below `k`.
fn lower(
    g: &Dense,
    k: usize,
    edges: &[(u32, u64)],
    degree: &mut Vec<usize>,
    removed: &Vec<bool>,
    queue: &mut VecDeque<usize>,
    rest: Ghost<spec_fn(int) -> nat>,
)
    requires
        forall|i: int| 0 <= i < edges@.len() ==> (#[trigger] edges@[i]).0 < g.size(),
        peeling(g, k, old(degree)@, removed@, old(queue)@, |u: int| rest@(u) + dense::count_to(edges@, u)),
    ensures
        peeling(g, k, final(degree)@, removed@, final(queue)@, rest@),
{
    let mut i: usize = 0;
    let ghost start = degree@;
    proof {
        assert(edges@.take(0) =~= Seq::empty());
    }
    while i < edges.len()
        invariant
            i <= edges@.len(),
            forall|j: int| 0 <= j < edges@.len() ==> (#[trigger] edges@[j]).0 < g.size(),
            start.len() == g.size(),
            degree@.len() == g.size(),
            removed@.len() == g.size(),
            forall|u: int|
                0 <= u < g.size() ==> #[trigger] start[u] == degree_in(g, unmarked(removed@), u)
                    + rest@(u) + dense::count_to(edges@, u),
            forall|u: int|
                0 <= u < g.size() ==> #[trigger] degree@[u] + dense::count_to(edges@.take(i as int), u) == start[u],
            forall|j: int|
                0 <= j < queue@.len() ==> (#[trigger] queue@[j]) < g.size() && degree@[queue@[j] as int] < k,
            forall|u: int|
                0 <= u < g.size() && !removed@[u] && #[trigger] degree@[u] < k ==> waits(queue@, u),
        decreases edges@.len() - i,
    {
        let other: usize = edges[i].0 as usize;
        let ghost d = degree@;
        let ghost q = queue@;
        proof {
            lemma_count_take(edges@, i as int, other as int);
            assert(d[other as int] + dense::count_to(edges@.take(i as int), other as int) == start[other as int]);
        }
        let lowered: usize = degree[other] - 1;
        degree.set(other, lowered);
        if lowered < k && !removed[other] {
            queue.push_back(other);
            proof {
                assert(queue@[q.len() as int] == other);
                assert(waits(queue@, other as int));
                assert forall|u: int| #[trigger] waits(q, u) implies waits(queue@, u) by {
                    let j = choose|j: int| 0 <= j < q.len() && #[trigger] q[j] == u;
                    assert(queue@[j] == u);
                }
            }
        }
        proof {
            assert forall|u: int| 0 <= u < g.size() implies #[trigger] degree@[u] + dense::count_to(
                edges@.take(i + 1),
                u,
            ) == start[u] by {
                lemma_count_take(edges@, i as int, u);
                assert(d[u] + dense::count_to(edges@.take(i as int), u) == start[u]);
            }
            assert forall|j: int| 0 <= j < queue@.len() implies (#[trigger] queue@[j]) < g.size()
                && degree@[queue@[j] as int] < k by {
                if j < q.len() {
                    assert(queue@[j] == q[j]);
                    assert(d[q[j] as int] < k);
                }
            }
            assert forall|u: int| 0 <= u < g.size() && !removed@[u] && #[trigger] degree@[u] < k implies waits(
                queue@,
                u,
            ) by {
                if u != other {
                    assert(d[u] < k);
                }
            }
        }
        i = i + 1;
    }
    proof {
        assert(edges@.take(i as int) =~= edges@);
        assert forall|u: int| 0 <= u < g.size() implies #[trigger] degree@[u] == degree_in(
            g,
            unmarked(removed@),
            u,
        ) + rest@(u) by {
            assert(start[u] == degree_in(g, unmarked(removed@), u) + rest@(u) + dense::count_to(edges@, u));
            assert(degree@[u] + dense::count_to(edges@.take(i as int), u) == start[u]);
        }
    }
}

/// Marking `x` lowers every degree by the entries that lead to `x`.
proof fn lemma_mark(g: &Dense, removed: Seq<bool>, x: int, u: int)
    requires
        g.wf(),
        removed.len() == g.size(),
        0 <= x < g.size(),
        0 <= u < g.size(),
        !removed[x],
    ensures
        degree_in(g, unmarked(removed), u) == degree_in(g, unmarked(removed.update(x, true)), u)
            + dense::count_to(g.outs(x), u) + dense::count_to(g.ins(x), u),
{
    let s = unmarked(removed);
    let t = unmarked(removed.update(x, true));
    lemma_count_without(g.outs(u), s, t, x);
    lemma_count_without(g.ins(u), s, t, x);
    assert(dense::count_to(g.outs(x), u) == dense::count_to(g.ins(u), x));
    assert(dense::count_to(g.outs(u), x) == dense::count_to(g.ins(x), u));
}

/// A set that holds together loses no member to a node of too small a degree.
proof fn lemma_never_a_member(g: &Dense, k: int, removed: Seq<bool>, x: int, t: Set<int>)
    requires
        removed.len() == g.size(),
        0 <= x < g.size(),
        degree_in(g, unmarked(removed), x) < k,
        holds_together(g, t, k),
        forall|u: int| #[trigger] t.contains(u) ==> unmarked(removed).contains(u),
    ensures
        !t.contains(x),
{
    if t.contains(x) {
        lemma_count_monotone(g.outs(x), t, unmarked(removed));
        lemma_count_monotone(g.ins(x), t, unmarked(removed));
    }
}

/// How many nodes are not marked.
spec fn unmarked_count(marks: Seq<bool>) -> nat
    decreases marks.len(),
{
    if marks.len() == 0 {
        0
    } else {
        unmarked_count(marks.drop_last()) + if marks.last() {
            0nat
        } else {
            1nat
        }
    }
}

proof fn lemma_marking_counts(marks: Seq<bool>, x: int)
    requires
        0 <= x < marks.len(),
        !marks[x],
    ensures
        unmarked_count(marks.update(x, true)) == unmarked_count(marks) - 1,
    decreases marks.len(),
{
    if x == marks.len() - 1 {
        assert(marks.update(x, true).drop_last() =~= marks.drop_last());
    } else {
        assert(marks.update(x, true).drop_last() =~= marks.drop_last().update(x, true));
        lemma_marking_counts(marks.drop_last(), x);
    }
}

/// Whether no set that holds together has a marked member.
spec fn outside_every_core(g: &Dense, k: int, removed: Seq<bool>) -> bool {
    forall|t: Set<int>, u: int| #[trigger]
        holds_together(g, t, k) && #[trigger] t.contains(u) ==> unmarked(removed).contains(u)
}

/// Marks the nodes outside the k-core.
///
/// What is left unmarked holds together, and contains every set that does: it
/// is the largest induced subgraph in which every degree is at least `k`.
pub fn peel(g: &Dense, k: usize) -> (removed: Vec<bool>)
    requires
        g.wf(),
        g.out@.len() + g.inn@.len() <= usize::MAX,
    ensures
        removed@.len() == g.size(),
        holds_together(g, unmarked(removed@), k as int),
        forall|t: Set<int>, u: int| #[trigger]
            holds_together(g, t, k as int) && #[trigger] t.contains(u) ==> unmarked(removed@).contains(u),
{
    let n: usize = g.len();
    let mut degree: Vec<usize> = Vec::new();
    let mut removed: Vec<bool> = Vec::new();
    let mut queue: VecDeque<usize> = VecDeque::new();
    let mut i: usize = 0;
    while i < n
        invariant
            n == g.size(),
            g.wf(),
            g.out@.len() + g.inn@.len() <= usize::MAX,
            i <= n,
            degree@.len() == i,
            removed@.len() == i,
            forall|u: int| 0 <= u < i ==> !(#[trigger] removed@[u]),
            forall|u: int| 0 <= u < i ==> #[trigger] degree@[u] == g.outs(u).len() + g.ins(u).len(),
            forall|j: int| 0 <= j < queue@.len() ==> (#[trigger] queue@[j]) < i && degree@[queue@[j] as int] < k,
            forall|u: int| 0 <= u < i && #[trigger] degree@[u] < k ==> waits(queue@, u),
        decreases n - i,
    {
        let d: usize = g.degree(i);
        let ghost q = queue@;
        degree.push(d);
        removed.push(false);
        if d < k {
            queue.push_back(i);
            proof {
                assert(queue@[q.len() as int] == i);
            }
        }
        proof {
            assert forall|u: int| 0 <= u < i + 1 && #[trigger] degree@[u] < k implies waits(queue@, u) by {
                if u < i {
                    assert(waits(q, u));
                    let j = choose|j: int| 0 <= j < q.len() && #[trigger] q[j] == u;
                    assert(queue@[j] == u);
                }
            }
        }
        i = i + 1;
    }
    let ghost nothing = |u: int| 0nat;
    proof {
        let all = unmarked(removed@);
        assert forall|u: int| 0 <= u < g.size() implies #[trigger] degree@[u] == degree_in(g, all, u) + nothing(u) by {
            assert forall|j: int| 0 <= j < g.outs(u).len() implies all.contains(
                (#[trigger] g.outs(u)[j]).0 as int,
            ) by {
                let at = g.out_at@[u] + j;
                assert(g.out@[at].0 < g.size());
            }
            assert forall|j: int| 0 <= j < g.ins(u).len() implies all.contains(
                (#[trigger] g.ins(u)[j]).0 as int,
            ) by {
                let at = g.inn_at@[u] + j;
                assert(g.inn@[at].0 < g.size());
            }
            lemma_count_all(g.outs(u), all);
            lemma_count_all(g.ins(u), all);
        }
        assert(peeling(g, k, degree@, removed@, queue@, nothing));
    }
    while queue.len() > 0
        invariant
            g.wf(),
            nothing == (|u: int| 0nat),
            peeling(g, k, degree@, removed@, queue@, nothing),
            outside_every_core(g, k as int, removed@),
        decreases unmarked_count(removed@), queue@.len(),
    {
        let ghost q = queue@;
        let node = queue.pop_front().unwrap();
        proof {
            assert(q[0] == node);
            assert forall|u: int| #[trigger] waits(q, u) && u != node implies waits(queue@, u) by {
                let j = choose|j: int| 0 <= j < q.len() && #[trigger] q[j] == u;
                assert(queue@[j - 1] == u);
            }
            assert forall|j: int| 0 <= j < queue@.len() implies (#[trigger] queue@[j]) < g.size()
                && degree@[queue@[j] as int] < k by {
                assert(queue@[j] == q[j + 1]);
            }
        }
        if !removed[node] {
            let ghost before = removed@;
            proof {
                assert(degree@[node as int] == degree_in(g, unmarked(before), node as int) + nothing(node as int));
                assert forall|t: Set<int>, u: int| #[trigger] holds_together(g, t, k as int)
                    && #[trigger] t.contains(u) implies unmarked(before.update(node as int, true)).contains(u) by {
                    assert(unmarked(before).contains(u));
                    if u == node {
                        lemma_never_a_member(g, k as int, before, node as int, t);
                    }
                }
                lemma_marking_counts(before, node as int);
            }
            removed.set(node, true);
            let out = g.out(node);
            let inn = g.inn(node);
            let ghost later = |u: int| nothing(u) + dense::count_to(inn@, u);
            let ghost owed = |u: int| later(u) + dense::count_to(out@, u);
            proof {
                assert forall|u: int| 0 <= u < g.size() implies #[trigger] degree@[u] == degree_in(
                    g,
                    unmarked(removed@),
                    u,
                ) + owed(u) by {
                    lemma_mark(g, before, node as int, u);
                    assert(degree@[u] == degree_in(g, unmarked(before), u) + nothing(u));
                }
                assert forall|u: int| 0 <= u < g.size() && !removed@[u] && #[trigger] degree@[u] < k implies waits(
                    queue@,
                    u,
                ) by {
                    assert(waits(q, u));
                }
                assert(peeling(g, k, degree@, removed@, queue@, owed));
            }
            lower(g, k, out, &mut degree, &removed, &mut queue, Ghost(later));
            lower(g, k, inn, &mut degree, &removed, &mut queue, Ghost(nothing));
        }
    }
    proof {
        assert forall|u: int| #[trigger] unmarked(removed@).contains(u) implies 0 <= u < g.size() && degree_in(
            g,
            unmarked(removed@),
            u,
        ) >= k by {
            assert(degree@[u] == degree_in(g, unmarked(removed@), u) + nothing(u));
            if degree@[u] < k {
                assert(waits(queue@, u));
            }
        }
    }
    removed
}

} // verus!
