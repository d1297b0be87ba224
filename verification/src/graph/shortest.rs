//! Shortest distances over a dense graph.
//!
//! A distance is the bit pattern of a non-negative binary64 value: on those,
//! numeric order is the order of the patterns. Adding a weight to a distance is
//! the caller's function, and the result is stated in terms of it.

use vstd::prelude::*;

use super::dense::Dense;
use super::heap::MinHeap;

verus! {

/// The bit pattern of positive infinity: the distance of what is not reached.
pub const UNREACHED: u64 = 0x7ff0_0000_0000_0000;

/// Whether a walk of `steps` edges from `source` ends in `v` at a total of `d`,
/// every total on the way finite.
pub open spec fn walk_costs<F: Fn(u64, u64) -> u64>(
    g: &Dense,
    extend: F,
    source: int,
    v: int,
    d: u64,
    steps: nat,
) -> bool
    decreases steps,
{
    if steps == 0 {
        v == source && d == 0
    } else {
        exists|u: int, k: int, c: u64| #[trigger]
            last_step(g, extend, u, k, c, v, d) && walk_costs(g, extend, source, u, c, (steps - 1) as nat)
    }
}

/// Whether entry `k` of `u` leads to `v`, and takes a total of `c` to `d`.
pub open spec fn last_step<F: Fn(u64, u64) -> u64>(
    g: &Dense,
    extend: F,
    u: int,
    k: int,
    c: u64,
    v: int,
    d: u64,
) -> bool {
    &&& 0 <= u < g.size()
    &&& 0 <= k < g.outs(u).len()
    &&& g.outs(u)[k].0 == v
    &&& c < UNREACHED
    &&& d < UNREACHED
    &&& call_ensures(extend, (c, g.outs(u)[k].1), d)
}

/// Whether `w` is the weight of some edge.
pub open spec fn is_weight(g: &Dense, w: u64) -> bool {
    exists|u: int, k: int|
        0 <= u < g.size() && 0 <= k < g.outs(u).len() && (#[trigger] g.outs(u)[k]).1 == w
}

/// Whether `extend` can be called on any distance and weight, and adding one of
/// the graph's weights never makes a longer distance the shorter one.
pub open spec fn keeps_order<F: Fn(u64, u64) -> u64>(g: &Dense, extend: F) -> bool {
    &&& forall|d: u64, w: u64| #[trigger] call_requires(extend, (d, w))
    &&& forall|c: u64, d: u64, w: u64, x: u64, y: u64|
        is_weight(g, w) && c <= d < UNREACHED && #[trigger] call_ensures(extend, (c, w), x)
            && #[trigger] call_ensures(extend, (d, w), y) ==> x <= y
}

/// Whether entry `k` of `u` offers no better distance than the one recorded.
pub open spec fn relaxed<F: Fn(u64, u64) -> u64>(
    g: &Dense,
    extend: F,
    dist: Seq<u64>,
    u: int,
    d: u64,
    k: int,
) -> bool {
    exists|x: u64| #[trigger]
        call_ensures(extend, (d, g.outs(u)[k].1), x) && dist[g.outs(u)[k].0 as int] <= x
}

/// Whether no entry of `u` offers a better distance.
pub open spec fn settled<F: Fn(u64, u64) -> u64>(
    g: &Dense,
    extend: F,
    dist: Seq<u64>,
    u: int,
    d: u64,
) -> bool {
    forall|k: int| 0 <= k < g.outs(u).len() ==> #[trigger] relaxed(g, extend, dist, u, d, k)
}

/// Whether some walk from `source` ends in `v` at `d`.
pub open spec fn some_walk_costs<F: Fn(u64, u64) -> u64>(
    g: &Dense,
    extend: F,
    source: int,
    v: int,
    d: u64,
) -> bool {
    exists|steps: nat| walk_costs(g, extend, source, v, d, steps)
}

/// The state between two steps: every finite distance is some walk's, every
/// waiting entry is no better than what is recorded, and a node whose own entry
/// does not wait has settled.
spec fn searching<F: Fn(u64, u64) -> u64>(
    g: &Dense,
    extend: F,
    source: int,
    dist: Seq<u64>,
    heap: &MinHeap,
    busy: int,
) -> bool {
    &&& dist.len() == g.size()
    &&& heap.wf()
    &&& dist[source] == 0
    &&& forall|v: int| 0 <= v < g.size() ==> #[trigger] dist[v] <= UNREACHED
    &&& forall|v: int|
        0 <= v < g.size() && #[trigger] dist[v] < UNREACHED ==> some_walk_costs(g, extend, source, v, dist[v])
    &&& forall|e: (u64, usize)| #[trigger] heap@.contains(e) ==> e.1 < g.size() && dist[e.1 as int] <= e.0
    &&& forall|u: int|
        0 <= u < g.size() && u != busy && #[trigger] dist[u] < UNREACHED ==> heap@.contains(
            (dist[u], u as usize),
        ) || settled(g, extend, dist, u, dist[u])
}

proof fn lemma_settled_kept<F: Fn(u64, u64) -> u64>(
    g: &Dense,
    extend: F,
    dist: Seq<u64>,
    lower: Seq<u64>,
    u: int,
    d: u64,
)
    requires
        g.wf(),
        0 <= u < g.size(),
        dist.len() == g.size(),
        lower.len() == g.size(),
        forall|v: int| 0 <= v < g.size() ==> #[trigger] lower[v] <= dist[v],
    ensures
        forall|k: int|
            0 <= k < g.outs(u).len() && relaxed(g, extend, dist, u, d, k) ==> #[trigger] relaxed(
                g,
                extend,
                lower,
                u,
                d,
                k,
            ),
{
    assert forall|k: int| 0 <= k < g.outs(u).len() && relaxed(g, extend, dist, u, d, k) implies
        #[trigger] relaxed(g, extend, lower, u, d, k) by {
        let x = choose|x: u64| #[trigger]
            call_ensures(extend, (d, g.outs(u)[k].1), x) && dist[g.outs(u)[k].0 as int] <= x;
        let at = g.out_at@[u] + k;
        assert(g.out@[at].0 < g.size());
        assert(lower[g.outs(u)[k].0 as int] <= dist[g.outs(u)[k].0 as int]);
        assert(call_ensures(extend, (d, g.outs(u)[k].1), x));
    }
}

/// Once everything has settled, no walk is shorter than what is recorded.
proof fn lemma_no_shorter_walk<F: Fn(u64, u64) -> u64>(
    g: &Dense,
    extend: F,
    source: int,
    dist: Seq<u64>,
    v: int,
    d: u64,
    steps: nat,
)
    requires
        g.wf(),
        0 <= source < g.size(),
        keeps_order(g, extend),
        dist.len() == g.size(),
        dist[source] == 0,
        forall|u: int|
            0 <= u < g.size() && #[trigger] dist[u] < UNREACHED ==> settled(g, extend, dist, u, dist[u]),
        0 <= v < g.size(),
        walk_costs(g, extend, source, v, d, steps),
    ensures
        dist[v] <= d,
    decreases steps,
{
    if steps > 0 {
        let (u, k, c) = choose|u: int, k: int, c: u64| #[trigger]
            last_step(g, extend, u, k, c, v, d) && walk_costs(g, extend, source, u, c, (steps - 1) as nat);
        lemma_no_shorter_walk(g, extend, source, dist, u, c, (steps - 1) as nat);
        assert(settled(g, extend, dist, u, dist[u]));
        assert(relaxed(g, extend, dist, u, dist[u], k));
        let x = choose|x: u64| #[trigger]
            call_ensures(extend, (dist[u], g.outs(u)[k].1), x) && dist[g.outs(u)[k].0 as int] <= x;
        assert(is_weight(g, g.outs(u)[k].1));
        assert(call_ensures(extend, (c, g.outs(u)[k].1), d));
        assert(x <= d);
    }
}

/// The sum of the recorded distances, which every improvement lowers.
pub open spec fn total(dist: Seq<u64>) -> nat
    decreases dist.len(),
{
    if dist.len() == 0 {
        0
    } else {
        total(dist.drop_last()) + dist.last() as nat
    }
}

/// A lower distance makes a lower sum.
pub proof fn lemma_total_drops(dist: Seq<u64>, v: int, d: u64)
    requires
        0 <= v < dist.len(),
        d < dist[v],
    ensures
        total(dist.update(v, d)) < total(dist),
    decreases dist.len(),
{
    if v == dist.len() - 1 {
        assert(dist.update(v, d).drop_last() =~= dist.drop_last());
    } else {
        assert(dist.update(v, d).drop_last() =~= dist.drop_last().update(v, d));
        lemma_total_drops(dist.drop_last(), v, d);
    }
}

/// Improves what the entries of `node`, at distance `d`, can improve.
fn relax_all<F: Fn(u64, u64) -> u64>(
    g: &Dense,
    source: usize,
    extend: &F,
    node: usize,
    d: u64,
    dist: &mut Vec<u64>,
    heap: &mut MinHeap,
)
    requires
        g.wf(),
        source < g.size(),
        node < g.size(),
        keeps_order(g, *extend),
        d < UNREACHED,
        old(dist)@[node as int] == d,
        searching(g, *extend, source as int, old(dist)@, old(heap), node as int),
    ensures
        searching(g, *extend, source as int, final(dist)@, final(heap), -1),
        total(final(dist)@) < total(old(dist)@) || (final(dist)@ == old(dist)@ && final(heap).count()
            == old(heap).count()),
{
    let ghost f = *extend;
    let edges = g.out(node);
    let mut k: usize = 0;
    while k < edges.len()
        invariant
            g.wf(),
            f == *extend,
            source < g.size(),
            node < g.size(),
            keeps_order(g, f),
            d < UNREACHED,
            edges@ == g.outs(node as int),
            forall|q: int| 0 <= q < edges@.len() ==> (#[trigger] edges@[q]).0 < g.size(),
            k <= edges@.len(),
            some_walk_costs(g, f, source as int, node as int, d),
            searching(g, f, source as int, dist@, heap, node as int),
            dist@[node as int] <= d,
            dist@[node as int] == d || heap@.contains((dist@[node as int], node)),
            forall|q: int| 0 <= q < k ==> #[trigger] relaxed(g, f, dist@, node as int, d, q),
            total(dist@) < total(old(dist)@) || (dist@ == old(dist)@ && heap.count() == old(heap).count()),
        decreases edges@.len() - k,
    {
        let next: usize = edges[k].0 as usize;
        let w: u64 = edges[k].1;
        let reached: u64 = (*extend)(d, w);
        assert(edges@[k as int].0 == next);
        if reached < dist[next] {
            let ghost before = dist@;
            let ghost bag = heap@;
            dist.set(next, reached);
            heap.push((reached, next));
            proof {
                lemma_total_drops(before, next as int, reached);
                let steps = choose|steps: nat| walk_costs(g, f, source as int, node as int, d, steps);
                assert(last_step(g, f, node as int, k as int, d, next as int, reached));
                assert(walk_costs(g, f, source as int, next as int, reached, steps + 1));
                assert(some_walk_costs(g, f, source as int, next as int, reached));
                assert forall|u: int| 0 <= u < g.size() && u != node && #[trigger] dist@[u] < UNREACHED implies heap@.contains(
                    (dist@[u], u as usize),
                ) || settled(g, f, dist@, u, dist@[u]) by {
                    if u != next {
                        assert(before[u] < UNREACHED);
                        if bag.contains((before[u], u as usize)) {
                            assert(heap@.contains((before[u], u as usize)));
                        } else {
                            lemma_settled_kept(g, f, before, dist@, u, before[u]);
                        }
                    }
                }
                assert forall|e: (u64, usize)| #[trigger] heap@.contains(e) implies e.1 < g.size()
                    && dist@[e.1 as int] <= e.0 by {
                    if e != (reached, next) {
                        assert(bag.contains(e));
                    }
                }
                lemma_settled_kept(g, f, before, dist@, node as int, d);
                assert(bag.contains((before[node as int], node)) ==> heap@.contains((before[node as int], node)));
                assert(heap@.contains((reached, next)));
            }
        }
        assert(relaxed(g, f, dist@, node as int, d, k as int)) by {
            assert(call_ensures(f, (d, g.outs(node as int)[k as int].1), reached));
        }
        k = k + 1;
    }
    proof {
        assert(dist@[node as int] == d ==> settled(g, f, dist@, node as int, d));
    }
}

/// The distance of every node from `source`, by Dijkstra's algorithm.
///
/// A node's distance is the least total of any walk to it, and `UNREACHED`
/// where no walk has a finite one.
pub fn distances<F: Fn(u64, u64) -> u64>(g: &Dense, source: usize, extend: &F) -> (dist: Vec<u64>)
    requires
        g.wf(),
        source < g.size(),
        keeps_order(g, *extend),
    ensures
        dist@.len() == g.size(),
        forall|v: int| 0 <= v < g.size() ==> #[trigger] dist@[v] <= UNREACHED,
        forall|v: int|
            0 <= v < g.size() && #[trigger] dist@[v] < UNREACHED ==> some_walk_costs(
                g,
                *extend,
                source as int,
                v,
                dist@[v],
            ),
        forall|v: int, d: u64|
            0 <= v < g.size() && #[trigger] some_walk_costs(g, *extend, source as int, v, d) ==> dist@[v] <= d,
{
    let ghost f = *extend;
    let n: usize = g.len();
    let mut dist: Vec<u64> = Vec::new();
    while dist.len() < n
        invariant
            dist@.len() <= n,
            forall|v: int| 0 <= v < dist@.len() ==> #[trigger] dist@[v] == UNREACHED,
        decreases n - dist@.len(),
    {
        dist.push(UNREACHED);
    }
    let mut heap = MinHeap::new();
    dist.set(source, 0);
    heap.push((0, source));
    proof {
        assert(walk_costs(g, f, source as int, source as int, 0, 0));
    }
    loop
        invariant
            g.wf(),
            f == *extend,
            source < g.size(),
            keeps_order(g, f),
            searching(g, f, source as int, dist@, &heap, -1),
        ensures
            searching(g, f, source as int, dist@, &heap, -1),
            heap.count() == 0,
            forall|e: (u64, usize)| !#[trigger] heap@.contains(e),
        decreases total(dist@), heap.count(),
    {
        let ghost bag = heap@;
        match heap.pop() {
            None => {
                proof {
                    heap.lemma_empty();
                }
                break;
            },
            Some(entry) => {
                let d: u64 = entry.0;
                let node: usize = entry.1;
                proof {
                    assert(bag.contains(entry));
                    assert forall|e: (u64, usize)| #[trigger] heap@.contains(e) implies bag.contains(e) by {}
                    assert forall|e: (u64, usize)| #[trigger] bag.contains(e) && e != entry implies heap@.contains(e) by {}
                }
                if d == dist[node] && d < UNREACHED {
                    relax_all(g, source, extend, node, d, &mut dist, &mut heap);
                }
            },
        }
    }
    proof {
        assert forall|u: int| 0 <= u < g.size() && #[trigger] dist@[u] < UNREACHED implies settled(
            g,
            f,
            dist@,
            u,
            dist@[u],
        ) by {
            assert(!heap@.contains((dist@[u], u as usize)));
        }
        assert forall|v: int, d: u64| 0 <= v < g.size() && #[trigger] some_walk_costs(
            g,
            f,
            source as int,
            v,
            d,
        ) implies dist@[v] <= d by {
            let steps = choose|steps: nat| walk_costs(g, f, source as int, v, d, steps);
            lemma_no_shorter_walk(g, f, source as int, dist@, v, d, steps);
        }
    }
    dist
}

} // verus!
