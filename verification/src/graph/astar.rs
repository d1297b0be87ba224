//! A shortest path to one goal, guided by estimates.
//!
//! Totals and estimates are bit patterns of binary64 values. Adding is the
//! caller's function; a total is never negative, so that totals compare as their
//! patterns do.

use std::collections::BTreeMap;

use vstd::prelude::*;

use super::algorithms;
use super::binary64;
use super::binary64::{at_rank, less, rank_of};
use super::chain;
use super::chain::reconstruct;
use super::heap;
use super::heap::MinHeap;
use super::search;
use super::search::Search;
use super::shortest;
use super::shortest::UNREACHED;
use super::subgraph;
use super::subgraph::{GraphView, Subgraph};

verus! {

/// Whether `x` is what `h` estimates from `a` to `b`.
pub open spec fn estimates<H: Fn(&str, &str) -> u64>(h: H, a: Seq<char>, b: Seq<char>, x: u64) -> bool {
    exists|s: &str, t: &str| s@ == a && t@ == b && #[trigger] call_ensures(h, (s, t), x)
}

/// Whether `h` can be called on any two ids and always estimates them alike.
pub open spec fn guides<H: Fn(&str, &str) -> u64>(h: H) -> bool {
    &&& forall|s: &str, t: &str| #[trigger] call_requires(h, (s, t))
    &&& forall|a: Seq<char>, b: Seq<char>, x: u64, y: u64| #[trigger]
        estimates(h, a, b, x) && #[trigger] estimates(h, a, b, y) ==> x == y
}

/// Whether `f` answers a pair of values.
pub open spec fn answers<P: Fn(u64, u64) -> u64>(f: P, a: u64, b: u64) -> bool {
    exists|x: u64| #[trigger] call_ensures(f, (a, b), x)
}

/// Whether `f` answers every pair of values.
pub open spec fn always_answers<P: Fn(u64, u64) -> u64>(f: P) -> bool {
    forall|a: u64, b: u64| #[trigger] answers(f, a, b)
}

/// Whether `x` is a total of `c` and what is estimated from `a` to `goal`.
pub open spec fn promises<H: Fn(&str, &str) -> u64, P: Fn(u64, u64) -> u64>(
    h: H,
    plus: P,
    a: Seq<char>,
    goal: Seq<char>,
    c: u64,
    x: u64,
) -> bool {
    exists|e: u64| estimates(h, a, goal, e) && #[trigger] call_ensures(plus, (c, e), x)
}

impl GraphView {
    /// Whether adding the weight of an edge never lowers a total.
    pub open spec fn never_lowers<P: Fn(u64, u64) -> u64>(self, plus: P) -> bool {
        forall|i: int, c: u64, x: u64|
            0 <= i < self.edges.len() && c < UNREACHED && #[trigger] call_ensures(
                plus,
                (c, self.edges[i].weight),
                x,
            ) ==> c <= x
    }

    /// Whether a walk of `steps` edges that stands in `a` at a total of `c` ends
    /// in `b` at a total of `d`.
    pub open spec fn leads_on<P: Fn(u64, u64) -> u64>(
        self,
        plus: P,
        a: Seq<char>,
        c: u64,
        b: Seq<char>,
        d: u64,
        steps: nat,
    ) -> bool
        decreases steps,
    {
        if steps == 0 {
            a == b && c == d
        } else {
            exists|i: int, e: u64|
                0 <= i < self.edges.len() && self.edges[i].source == a && #[trigger] self.last_step(
                    plus,
                    i,
                    c,
                    self.edges[i].target,
                    e,
                ) && self.leads_on(plus, self.edges[i].target, e, b, d, (steps - 1) as nat)
        }
    }

    /// Whether `h` never overestimates what is left to `goal`: from no greater
    /// total than that of a walk does it promise more than the walk comes to,
    /// and in the goal itself it promises no less than what is there.
    pub open spec fn admissible<H: Fn(&str, &str) -> u64, P: Fn(u64, u64) -> u64>(
        self,
        h: H,
        plus: P,
        goal: Seq<char>,
    ) -> bool {
        &&& forall|c: u64, x: u64|
            c < UNREACHED && #[trigger] promises(h, plus, goal, goal, c, x) ==> binary64::rank(c)
                <= binary64::rank(x)
        &&& forall|a: Seq<char>, b: u64, c: u64, d: u64, steps: nat, x: u64|
            b <= c < UNREACHED && #[trigger] self.leads_on(plus, a, c, goal, d, steps) && #[trigger] promises(
                h,
                plus,
                a,
                goal,
                b,
                x,
            ) ==> binary64::rank(x) <= binary64::rank(d)
    }

    /// Whether the nodes of `path`, one after the other, can be walked at a
    /// total of `d`.
    pub open spec fn along<P: Fn(u64, u64) -> u64>(self, plus: P, path: Seq<Seq<char>>, d: u64) -> bool
        decreases path.len(),
    {
        if path.len() <= 1 {
            path.len() == 1 && d == 0
        } else {
            exists|i: int, c: u64| #[trigger]
                self.last_step(plus, i, c, path.last(), d) && self.edges[i].source == path[path.len() - 2]
                    && self.along(plus, path.drop_last(), c)
        }
    }
}

impl GraphView {
    /// Whether `path` goes from `a` to `b` and through no node twice, some walk
    /// between them comes to `d`, and the path can be walked at no more.
    pub open spec fn is_way<P: Fn(u64, u64) -> u64>(
        self,
        plus: P,
        a: Seq<char>,
        b: Seq<char>,
        d: u64,
        path: Seq<Seq<char>>,
    ) -> bool {
        &&& self.some_walk_costs(plus, a, b, d)
        &&& self.is_path(path, a, b)
        &&& no_repeats(path)
        &&& always_answers(plus) ==> exists|p: u64| p <= d && #[trigger] self.along(plus, path, p)
    }

    /// Whether no walk from `a` to `b` comes to less than `d`, and `path` is
    /// walked at `d`.
    pub open spec fn is_shortest_way<P: Fn(u64, u64) -> u64>(
        self,
        plus: P,
        a: Seq<char>,
        b: Seq<char>,
        d: u64,
        path: Seq<Seq<char>>,
    ) -> bool {
        &&& forall|c: u64| #[trigger] self.some_walk_costs(plus, a, b, c) ==> d <= c
        &&& always_answers(plus) ==> self.along(plus, path, d)
    }
}

/// Whether no node comes twice on a path.
pub open spec fn no_repeats(path: Seq<Seq<char>>) -> bool {
    forall|i: int, j: int| 0 <= i < j < path.len() ==> #[trigger] path[i] != #[trigger] path[j]
}

/// Whether `found` is a way from `start` to `goal`, and the shortest where `h` is
/// admissible; nothing is found exactly where one of the two is no node or no
/// walk between them has a finite total.
pub open spec fn finds<H: Fn(&str, &str) -> u64, P: Fn(u64, u64) -> u64>(
    g: GraphView,
    h: H,
    plus: P,
    start: Seq<char>,
    goal: Seq<char>,
    found: Option<(u64, Seq<Seq<char>>)>,
) -> bool {
    &&& found.is_some() <==> g.nodes.dom().contains(start) && g.nodes.dom().contains(goal) && exists|d: u64|
        g.some_walk_costs(plus, start, goal, d)
    &&& found matches Some((d, path)) ==> g.is_way(plus, start, goal, d, path) && (g.admissible(h, plus, goal)
        ==> g.is_shortest_way(plus, start, goal, d, path))
}

/// The ids of a path.
pub open spec fn path_ids(path: Seq<String>) -> Seq<Seq<char>> {
    path.map_values(|s: String| s@)
}

/// A total and the ids of its path.
pub open spec fn shown(found: Option<(u64, Vec<String>)>) -> Option<(u64, Seq<Seq<char>>)> {
    match found {
        Some((d, path)) => Some((d, path_ids(path@))),
        None => None,
    }
}

/// What is recorded for `v`.
spec fn at(score: Map<usize, u64>, v: int) -> u64 {
    if score.dom().contains(v as usize) {
        score[v as usize]
    } else {
        UNREACHED
    }
}

/// What is recorded for all of `n` nodes.
spec fn reading(score: Map<usize, u64>, n: nat) -> Seq<u64> {
    Seq::new(n, |v: int| at(score, v))
}

/// Whether edge `i` leads from the predecessor of `v` to `v`, and took a total
/// that was no better than the predecessor's to that of `v`.
spec fn linked<P: Fn(u64, u64) -> u64>(
    g: &Subgraph,
    plus: P,
    score: Map<usize, u64>,
    u: usize,
    v: usize,
    i: int,
    c: u64,
) -> bool {
    &&& 0 <= i < g@.edges.len()
    &&& g@.edges[i].source == g.id_at(u as int)
    &&& g@.edges[i].target == g.id_at(v as int)
    &&& score[u] <= c < UNREACHED
    &&& call_ensures(plus, (c, g@.edges[i].weight), score[v])
}

/// Whether the predecessor of `v` stands for how `v` was reached.
spec fn follows<P: Fn(u64, u64) -> u64>(
    g: &Subgraph,
    plus: P,
    score: Map<usize, u64>,
    from: Map<usize, usize>,
    v: usize,
) -> bool {
    &&& score.dom().contains(v)
    &&& score.dom().contains(from[v])
    &&& exists|i: int, c: u64| #[trigger] linked(g, plus, score, from[v], v, i, c)
}

/// Whether `v` has a way back to `start`.
spec fn leads_back(from: Map<usize, usize>, v: usize, start: usize) -> bool {
    exists|k: nat| chain::arrives(from, v, start, k)
}

/// Whether outgoing edge `k` of `u` offers nothing better than what is recorded.
spec fn relaxed<P: Fn(u64, u64) -> u64>(
    g: &Subgraph,
    plus: P,
    score: Map<usize, u64>,
    u: int,
    d: u64,
    k: int,
) -> bool {
    let e = subgraph::leaving(g@.edges, g.id_at(u))[k];
    exists|x: u64| #[trigger]
        call_ensures(plus, (d, e.weight), x) && at(score, algorithms::place_of(g, e.target)) <= x
}

/// Whether no outgoing edge of `u` offers anything better.
spec fn settled<P: Fn(u64, u64) -> u64>(
    g: &Subgraph,
    plus: P,
    score: Map<usize, u64>,
    u: int,
    d: u64,
) -> bool {
    forall|k: int|
        0 <= k < subgraph::leaving(g@.edges, g.id_at(u)).len() ==> #[trigger] relaxed(g, plus, score, u, d, k)
}

/// Whether an entry waits that promises what `u` now has.
spec fn waits<H: Fn(&str, &str) -> u64, P: Fn(u64, u64) -> u64>(
    g: &Subgraph,
    h: H,
    plus: P,
    score: Map<usize, u64>,
    bag: vstd::multiset::Multiset<(u64, usize)>,
    u: usize,
    goal: usize,
) -> bool {
    exists|x: u64| #[trigger]
        promises(h, plus, g.id_at(u as int), g.id_at(goal as int), score[u], x) && bag.contains(
            (binary64::rank(x), u),
        )
}

/// Whether entry `e` promises something that its node once had.
spec fn once_had<H: Fn(&str, &str) -> u64, P: Fn(u64, u64) -> u64>(
    g: &Subgraph,
    h: H,
    plus: P,
    score: Map<usize, u64>,
    e: (u64, usize),
    goal: usize,
) -> bool {
    exists|c: u64, x: u64| #[trigger]
        promises(h, plus, g.id_at(e.1 as int), g.id_at(goal as int), c, x) && score[e.1] <= c < UNREACHED
            && binary64::rank(x) == e.0
}

/// What is recorded, and how it was reached.
spec fn recorded<P: Fn(u64, u64) -> u64>(
    g: &Subgraph,
    plus: P,
    start: usize,
    score: Map<usize, u64>,
    from: Map<usize, usize>,
) -> bool {
    &&& start < g.size()
    &&& forall|v: usize| #[trigger] score.dom().contains(v) ==> v < g.size() && score[v] < UNREACHED
    &&& score.dom().contains(start)
    &&& score[start] == 0
    &&& forall|v: usize| #[trigger]
        score.dom().contains(v) ==> g@.some_walk_costs(
            plus,
            g.id_at(start as int),
            g.id_at(v as int),
            score[v],
        )
    &&& from.dom().finite()
    &&& !from.dom().contains(start)
    &&& forall|v: usize| #[trigger] from.dom().contains(v) ==> follows(g, plus, score, from, v)
    &&& forall|v: usize| #[trigger] score.dom().contains(v) ==> leads_back(from, v, start)
}

/// The state between two steps. A node that is recorded and has no entry
/// waiting has settled, and the goal always waits.
spec fn searching<H: Fn(&str, &str) -> u64, P: Fn(u64, u64) -> u64>(
    g: &Subgraph,
    h: H,
    plus: P,
    goal: usize,
    score: Map<usize, u64>,
    bag: vstd::multiset::Multiset<(u64, usize)>,
    busy: int,
) -> bool {
    &&& goal < g.size()
    &&& busy != goal
    &&& forall|e: (u64, usize)| #[trigger]
        bag.contains(e) ==> score.dom().contains(e.1) && once_had(g, h, plus, score, e, goal)
    &&& forall|u: usize|
        u != busy && #[trigger] score.dom().contains(u) ==> waits(g, h, plus, score, bag, u, goal) || (u != goal
            && settled(g, plus, score, u as int, score[u]))
}

/// What the search needs of its graph and of the functions it is given.
pub open spec fn searchable<H: Fn(&str, &str) -> u64, P: Fn(u64, u64) -> u64>(
    g: &Subgraph,
    h: H,
    plus: P,
) -> bool {
    &&& g.wf()
    &&& g@.is_closed()
    &&& g@.keeps_order(plus)
    &&& g@.never_lowers(plus)
    &&& binary64::is_function(plus)
    &&& guides(h)
}

/// From a node, what is promised is fixed by what it has.
proof fn lemma_one_promise<H: Fn(&str, &str) -> u64, P: Fn(u64, u64) -> u64>(
    h: H,
    plus: P,
    a: Seq<char>,
    goal: Seq<char>,
    c: u64,
    x: u64,
    y: u64,
)
    requires
        guides(h),
        binary64::is_function(plus),
        promises(h, plus, a, goal, c, x),
        promises(h, plus, a, goal, c, y),
    ensures
        x == y,
{
    let d = choose|e: u64| estimates(h, a, goal, e) && #[trigger] call_ensures(plus, (c, e), x);
    let e = choose|e: u64| estimates(h, a, goal, e) && #[trigger] call_ensures(plus, (c, e), y);
    assert(d == e);
}

/// Each node on the way back has no more than the one it leads back from.
proof fn lemma_back_lowers<P: Fn(u64, u64) -> u64>(
    g: &Subgraph,
    plus: P,
    start: usize,
    score: Map<usize, u64>,
    from: Map<usize, usize>,
    v: usize,
    w: usize,
    k: nat,
)
    requires
        g@.never_lowers(plus),
        recorded(g, plus, start, score, from),
        score.dom().contains(v),
        chain::arrives(from, v, start, k),
        chain::passes(from, v, w, k),
    ensures
        score[w] <= score[v],
    decreases k,
{
    if v != w {
        let u = from[v];
        assert(follows(g, plus, score, from, v));
        let (i, c) = choose|i: int, c: u64| #[trigger] linked(g, plus, score, u, v, i, c);
        assert(call_ensures(plus, (c, g@.edges[i].weight), score[v]));
        assert(c <= score[v]);
        lemma_back_lowers(g, plus, start, score, from, u, w, (k - 1) as nat);
    }
}

/// Recording a better total for `v`, reached from `u`, keeps what is recorded
/// in order.
proof fn lemma_recorded<P: Fn(u64, u64) -> u64>(
    g: &Subgraph,
    plus: P,
    start: usize,
    score: Map<usize, u64>,
    from: Map<usize, usize>,
    u: usize,
    v: usize,
    i: int,
    d: u64,
)
    requires
        g.wf(),
        g@.never_lowers(plus),
        recorded(g, plus, start, score, from),
        score.dom().contains(u),
        v < g.size(),
        0 <= i < g@.edges.len(),
        g@.edges[i].source == g.id_at(u as int),
        g@.edges[i].target == g.id_at(v as int),
        call_ensures(plus, (score[u], g@.edges[i].weight), d),
        d < at(score, v as int),
    ensures
        v != start,
        recorded(g, plus, start, score.insert(v, d), from.insert(v, u)),
{
    let next = score.insert(v, d);
    let back = from.insert(v, u);
    assert(score[u] <= d);
    assert(leads_back(from, u, start));
    let j = choose|k: nat| chain::arrives(from, u, start, k);
    if chain::passes(from, u, v, j) {
        lemma_back_lowers(g, plus, start, score, from, u, v, j);
        lemma_recorded_on_way(from, u, v, start, j);
        if v != start {
            assert(follows(g, plus, score, from, v));
        }
    }
    assert(back.dom() =~= from.dom().insert(v));
    let steps = choose|steps: nat|
        g@.walk_costs(plus, g.id_at(start as int), g.id_at(u as int), score[u], steps);
    assert(g@.some_walk_costs(plus, g.id_at(start as int), g.id_at(u as int), score[u]));
    assert(g@.last_step(plus, i, score[u], g.id_at(v as int), d));
    assert(g@.walk_costs(plus, g.id_at(start as int), g.id_at(v as int), d, steps + 1));
    assert forall|x: usize| #[trigger] next.dom().contains(x) implies leads_back(back, x, start) by {
        if x == v {
            chain::lemma_redirected(from, u, j, v, u, j, start);
            let m = chain::lemma_redirected(from, u, j, v, u, j, start);
            assert(back[v] == u);
            assert(chain::arrives(back, v, start, m + 1));
        } else {
            assert(leads_back(from, x, start));
            let k = choose|k: nat| chain::arrives(from, x, start, k);
            let m = chain::lemma_redirected(from, x, k, v, u, j, start);
            assert(chain::arrives(back, x, start, m));
        }
    }
    assert forall|x: usize| #[trigger] back.dom().contains(x) implies follows(g, plus, next, back, x) by {
        if x == v {
            assert(linked(g, plus, next, u, v, i, score[u]));
        } else {
            assert(follows(g, plus, score, from, x));
            let (q, c) = choose|q: int, c: u64| #[trigger] linked(g, plus, score, from[x], x, q, c);
            assert(linked(g, plus, next, back[x], x, q, c));
        }
    }
}

/// What is passed on the way back is the start or has a predecessor.
proof fn lemma_recorded_on_way(from: Map<usize, usize>, u: usize, v: usize, start: usize, k: nat)
    requires
        chain::arrives(from, u, start, k),
        chain::passes(from, u, v, k),
    ensures
        v == start || from.dom().contains(v),
    decreases k,
{
    if u != v {
        lemma_recorded_on_way(from, from[u], v, start, (k - 1) as nat);
    }
}

/// What has settled stays settled when others get better.
proof fn lemma_settled_kept<P: Fn(u64, u64) -> u64>(
    g: &Subgraph,
    plus: P,
    score: Map<usize, u64>,
    v: usize,
    d: u64,
    u: int,
    c: u64,
)
    requires
        d < at(score, v as int),
    ensures
        forall|k: int|
            relaxed(g, plus, score, u, c, k) ==> #[trigger] relaxed(g, plus, score.insert(v, d), u, c, k),
{
    assert forall|k: int| relaxed(g, plus, score, u, c, k) implies #[trigger] relaxed(
        g,
        plus,
        score.insert(v, d),
        u,
        c,
        k,
    ) by {
        let e = subgraph::leaving(g@.edges, g.id_at(u))[k];
        let x = choose|x: u64| #[trigger]
            call_ensures(plus, (c, e.weight), x) && at(score, algorithms::place_of(g, e.target)) <= x;
        let p = algorithms::place_of(g, e.target);
        assert(at(score.insert(v, d), p) <= at(score, p));
        assert(call_ensures(plus, (c, e.weight), x));
    }
}

/// A better total for `v`, and an entry that promises it, keep the search in
/// order.
proof fn lemma_pushed<H: Fn(&str, &str) -> u64, P: Fn(u64, u64) -> u64>(
    g: &Subgraph,
    h: H,
    plus: P,
    goal: usize,
    score: Map<usize, u64>,
    bag: vstd::multiset::Multiset<(u64, usize)>,
    busy: int,
    v: usize,
    d: u64,
    x: u64,
)
    requires
        searching(g, h, plus, goal, score, bag, busy),
        d < at(score, v as int),
        at(score, v as int) <= UNREACHED,
        promises(h, plus, g.id_at(v as int), g.id_at(goal as int), d, x),
    ensures
        searching(g, h, plus, goal, score.insert(v, d), bag.insert((binary64::rank(x), v)), busy),
{
    let next = score.insert(v, d);
    let entry = (binary64::rank(x), v);
    let more = bag.insert(entry);
    assert forall|e: (u64, usize)| #[trigger] more.contains(e) implies next.dom().contains(e.1) && once_had(
        g,
        h,
        plus,
        next,
        e,
        goal,
    ) by {
        if bag.contains(e) {
            assert(once_had(g, h, plus, score, e, goal));
            let (c, y) = choose|c: u64, y: u64| #[trigger]
                promises(h, plus, g.id_at(e.1 as int), g.id_at(goal as int), c, y) && score[e.1] <= c < UNREACHED
                    && binary64::rank(y) == e.0;
            assert(promises(h, plus, g.id_at(e.1 as int), g.id_at(goal as int), c, y));
            assert(next[e.1] <= c);
        } else {
            assert(e == entry);
        }
    }
    assert forall|u: usize| u != busy && #[trigger] next.dom().contains(u) implies waits(
        g,
        h,
        plus,
        next,
        more,
        u,
        goal,
    ) || (u != goal && settled(g, plus, next, u as int, next[u])) by {
        if u == v {
            assert(more.contains(entry));
        } else {
            assert(score.dom().contains(u));
            if waits(g, h, plus, score, bag, u, goal) {
                let y = choose|y: u64| #[trigger]
                    promises(h, plus, g.id_at(u as int), g.id_at(goal as int), score[u], y) && bag.contains(
                        (binary64::rank(y), u),
                    );
                assert(more.contains((binary64::rank(y), u)));
                assert(promises(h, plus, g.id_at(u as int), g.id_at(goal as int), next[u], y));
            } else {
                lemma_settled_kept(g, plus, score, v, d, u as int, score[u]);
            }
        }
    }
}

fn recorded_for(score: &BTreeMap<usize, u64>, v: usize) -> (d: u64)
    ensures
        d == at(score@, v as int),
{
    broadcast use vstd::std_specs::btree::group_btree_axioms;

    match score.get(&v) {
        Some(d) => *d,
        None => UNREACHED,
    }
}

/// What a total and the estimate from `a` to `goal` come to.
fn promise<H: Fn(&str, &str) -> u64, P: Fn(u64, u64) -> u64>(h: &H, plus: &P, a: &str, goal: &str, c: u64) -> (x: u64)
    requires
        guides(*h),
        binary64::is_function(*plus),
    ensures
        promises(*h, *plus, a@, goal@, c, x),
{
    let e: u64 = (*h)(a, goal);
    let x: u64 = (*plus)(c, e);
    assert(estimates(*h, a@, goal@, e));
    assert(call_ensures(*plus, (c, e), x));
    x
}

/// What is promised is one value.
proof fn lemma_promised<H: Fn(&str, &str) -> u64, P: Fn(u64, u64) -> u64>(
    g: &Subgraph,
    h: H,
    plus: P,
    goal: usize,
    u: usize,
    c: u64,
    x: u64,
)
    requires
        guides(h),
        binary64::is_function(plus),
        promises(h, plus, g.id_at(u as int), g.id_at(goal as int), c, x),
    ensures
        x == search::promised(g, h, plus, goal, u, c),
{
    let e = choose|e: u64|
        estimates(h, g.id_at(u as int), g.id_at(goal as int), e) && #[trigger] call_ensures(plus, (c, e), x);
    let f = search::estimate(h, g.id_at(u as int), g.id_at(goal as int));
    assert(estimates(h, g.id_at(u as int), g.id_at(goal as int), f));
    assert(e == f);
    assert(call_ensures(plus, (c, e), binary64::value(plus, c, e)));
}

/// Records what the outgoing edges of `node` improve.
fn relax_all<H: Fn(&str, &str) -> u64, P: Fn(u64, u64) -> u64>(
    g: &Subgraph,
    h: &H,
    plus: &P,
    start: usize,
    goal: usize,
    node: usize,
    score: &mut BTreeMap<usize, u64>,
    from: &mut BTreeMap<usize, usize>,
    heap: &mut MinHeap,
)
    requires
        searchable(g, *h, *plus),
        recorded(g, *plus, start, old(score)@, old(from)@),
        searching(g, *h, *plus, goal, old(score)@, old(heap)@, node as int),
        old(heap).wf(),
        old(score)@.dom().contains(node),
    ensures
        recorded(g, *plus, start, final(score)@, final(from)@),
        searching(g, *h, *plus, goal, final(score)@, final(heap)@, -1),
        final(heap).wf(),
        shortest::total(reading(final(score)@, g.size())) < shortest::total(reading(old(score)@, g.size())) || (
        final(score)@ == old(score)@ && final(heap).count() == old(heap).count()),
        (Search { score: final(score)@, from: final(from)@, bag: final(heap)@ }) == (Search {
            score: old(score)@,
            from: old(from)@,
            bag: old(heap)@,
        }).spread(
            g,
            *h,
            *plus,
            start,
            goal,
            node,
            old(score)@[node],
            subgraph::leaving(g@.edges, g.id_at(node as int)).len(),
        ),
{
    broadcast use vstd::std_specs::btree::group_btree_axioms;

    let ghost f = *plus;
    let ghost q = *h;
    let ghost begun = Search { score: score@, from: from@, bag: heap@ };
    let n: usize = g.node_count();
    let id = g.id(node);
    let edges = g.out_edges(id);
    let ghost es = subgraph::leaving(g@.edges, g.id_at(node as int));
    let d: u64 = recorded_for(score, node);
    let mut k: usize = 0;
    while k < edges.len()
        invariant
            searchable(g, q, f),
            f == *plus,
            q == *h,
            n == g.size(),
            es == subgraph::leaving(g@.edges, g.id_at(node as int)),
            subgraph::shows_targets(g, edges@, es),
            k <= edges@.len(),
            recorded(g, f, start, score@, from@),
            searching(g, q, f, goal, score@, heap@, node as int),
            heap.wf(),
            score@.dom().contains(node),
            score@[node] == d,
            forall|j: int| 0 <= j < k ==> #[trigger] relaxed(g, f, score@, node as int, d, j),
            shortest::total(reading(score@, n as nat)) < shortest::total(reading(old(score)@, n as nat)) || (score@
                == old(score)@ && heap.count() == old(heap).count()),
            (Search { score: score@, from: from@, bag: heap@ }) == begun.spread(
                g,
                q,
                f,
                start,
                goal,
                node,
                d,
                k as nat,
            ),
        decreases edges@.len() - k,
    {
        let e = edges[k];
        let ghost reached = Search { score: score@, from: from@, bag: heap@ };
        assert(e.shows(g, es[k as int], es[k as int].target));
        let far = e.node(g);
        let w: u64 = e.weight();
        let ghost i = choose|i: int| 0 <= i < g@.edges.len() && g@.edges[i] == es[k as int];
        proof {
            subgraph::lemma_listed_is_edge(g@.edges, g.id_at(node as int));
            assert(es[k as int].source == g.id_at(node as int) && g@.edges.contains(es[k as int]));
            assert(g@.nodes.dom().contains(g@.edges[i].target));
            algorithms::lemma_place(g, far@);
        }
        let found = g.place(far);
        if let Some(next) = found {
            let tentative: u64 = (*plus)(d, w);
            let ghost before = score@;
            proof {
                g.lemma_same_id(next as int, algorithms::place_of(g, far@));
                assert(call_ensures(f, (d, g@.edges[i].weight), tentative));
                assert(d <= tentative);
            }
            if tentative < recorded_for(score, next) {
                let ghost back = from@;
                let ghost bag = heap@;
                if next != start {
                    from.insert(next, node);
                }
                score.insert(next, tentative);
                let x: u64 = promise(h, plus, far, g.id(goal), tentative);
                heap.push((rank_of(x), next));
                proof {
                    lemma_recorded(g, f, start, before, back, node, next, i, tentative);
                    lemma_pushed(g, q, f, goal, before, bag, node as int, next, tentative, x);
                    assert(reading(score@, n as nat) =~= reading(before, n as nat).update(next as int, tentative));
                    shortest::lemma_total_drops(reading(before, n as nat), next as int, tentative);
                    lemma_settled_kept(g, f, before, next, tentative, node as int, d);
                    lemma_promised(g, q, f, goal, next, tentative, x);
                }
            }
            proof {
                assert(relaxed(g, f, score@, node as int, d, k as int));
                assert(tentative == binary64::value(f, d, w));
                assert((Search { score: score@, from: from@, bag: heap@ }) == reached.offered(
                    g,
                    q,
                    f,
                    start,
                    goal,
                    node,
                    next,
                    tentative,
                ));
            }
        }
        k = k + 1;
    }
    proof {
        assert(settled(g, f, score@, node as int, d));
    }
}

/// One more edge leads a walk on.
proof fn lemma_leads_further<P: Fn(u64, u64) -> u64>(
    g: GraphView,
    plus: P,
    a: Seq<char>,
    c: u64,
    b: Seq<char>,
    d: u64,
    steps: nat,
    i: int,
    e: u64,
)
    requires
        g.leads_on(plus, a, c, b, d, steps),
        0 <= i < g.edges.len(),
        g.edges[i].source == b,
        g.last_step(plus, i, d, g.edges[i].target, e),
    ensures
        g.leads_on(plus, a, c, g.edges[i].target, e, steps + 1),
    decreases steps,
{
    let t = g.edges[i].target;
    if steps == 0 {
        assert(g.leads_on(plus, t, e, t, e, 0));
        assert(g.last_step(plus, i, c, t, e));
    } else {
        let (j, x) = choose|j: int, x: u64|
            0 <= j < g.edges.len() && g.edges[j].source == a && #[trigger] g.last_step(
                plus,
                j,
                c,
                g.edges[j].target,
                x,
            ) && g.leads_on(plus, g.edges[j].target, x, b, d, (steps - 1) as nat);
        lemma_leads_further(g, plus, g.edges[j].target, x, b, d, (steps - 1) as nat, i, e);
        assert(g.last_step(plus, j, c, g.edges[j].target, x));
    }
}

/// Whether a node waits from which, at no better a total than it has, a walk
/// leads on to `v` at `c`.
spec fn stalls<H: Fn(&str, &str) -> u64, P: Fn(u64, u64) -> u64>(
    g: &Subgraph,
    h: H,
    plus: P,
    goal: usize,
    score: Map<usize, u64>,
    bag: vstd::multiset::Multiset<(u64, usize)>,
    v: Seq<char>,
    c: u64,
) -> bool {
    exists|u: usize, b: u64, steps: nat|
        {
            &&& #[trigger] g@.leads_on(plus, g.id_at(u as int), b, v, c, steps)
            &&& score.dom().contains(u)
            &&& score[u] <= b < UNREACHED
            &&& waits(g, h, plus, score, bag, u, goal)
        }
}

/// A walk has either come to no better than what is recorded, or some node on
/// it waits.
proof fn lemma_frontier<H: Fn(&str, &str) -> u64, P: Fn(u64, u64) -> u64>(
    g: &Subgraph,
    h: H,
    plus: P,
    start: usize,
    goal: usize,
    score: Map<usize, u64>,
    from: Map<usize, usize>,
    bag: vstd::multiset::Multiset<(u64, usize)>,
    v: Seq<char>,
    c: u64,
    steps: nat,
)
    requires
        searchable(g, h, plus),
        g.size() <= usize::MAX,
        recorded(g, plus, start, score, from),
        searching(g, h, plus, goal, score, bag, -1),
        g@.walk_costs(plus, g.id_at(start as int), v, c, steps),
    ensures
        c < UNREACHED,
        0 <= algorithms::place_of(g, v) < g.size(),
        g.id_at(algorithms::place_of(g, v)) == v,
        at(score, algorithms::place_of(g, v)) <= c || stalls(g, h, plus, goal, score, bag, v, c),
    decreases steps,
{
    g.lemma_ids();
    if steps == 0 {
        algorithms::lemma_place(g, v);
        g.lemma_same_id(algorithms::place_of(g, v), start as int);
    } else {
        let (i, b) = choose|i: int, b: u64| #[trigger]
            g@.last_step(plus, i, b, v, c) && g@.walk_costs(
                plus,
                g.id_at(start as int),
                g@.edges[i].source,
                b,
                (steps - 1) as nat,
            );
        let s = g@.edges[i].source;
        lemma_frontier(g, h, plus, start, goal, score, from, bag, s, b, (steps - 1) as nat);
        assert(g@.nodes.dom().contains(g@.edges[i].target));
        algorithms::lemma_place(g, v);
        let p = algorithms::place_of(g, s);
        let u = p as usize;
        if at(score, p) <= b {
            assert(score.dom().contains(u));
            if waits(g, h, plus, score, bag, u, goal) {
                assert(g@.leads_on(plus, s, b, s, b, 0));
                lemma_leads_further(g@, plus, s, b, s, b, 0, i, c);
                assert(g@.leads_on(plus, g.id_at(u as int), b, v, c, 1));
                assert(stalls(g, h, plus, goal, score, bag, v, c));
            } else {
                assert(settled(g, plus, score, u as int, score[u]));
                let es = subgraph::leaving(g@.edges, g.id_at(u as int));
                subgraph::lemma_edge_is_listed(g@.edges, i);
                let k = choose|k: int| 0 <= k < es.len() && es[k] == g@.edges[i];
                assert(relaxed(g, plus, score, u as int, score[u], k));
                let x = choose|x: u64| #[trigger]
                    call_ensures(plus, (score[u], es[k].weight), x) && at(
                        score,
                        algorithms::place_of(g, es[k].target),
                    ) <= x;
                assert(call_ensures(plus, (score[u], g@.edges[i].weight), x));
                assert(call_ensures(plus, (b, g@.edges[i].weight), c));
                assert(x <= c);
            }
        } else {
            let (w, a, m) = choose|w: usize, a: u64, m: nat|
                {
                    &&& #[trigger] g@.leads_on(plus, g.id_at(w as int), a, s, b, m)
                    &&& score.dom().contains(w)
                    &&& score[w] <= a < UNREACHED
                    &&& waits(g, h, plus, score, bag, w, goal)
                };
            lemma_leads_further(g@, plus, g.id_at(w as int), a, s, b, m, i, c);
            assert(g@.leads_on(plus, g.id_at(w as int), a, v, c, m + 1));
        }
    }
}

/// When nothing waits, no walk comes to the goal.
proof fn lemma_out_of_reach<H: Fn(&str, &str) -> u64, P: Fn(u64, u64) -> u64>(
    g: &Subgraph,
    h: H,
    plus: P,
    start: usize,
    goal: usize,
    score: Map<usize, u64>,
    from: Map<usize, usize>,
    bag: vstd::multiset::Multiset<(u64, usize)>,
    d: u64,
)
    requires
        searchable(g, h, plus),
        g.size() <= usize::MAX,
        recorded(g, plus, start, score, from),
        searching(g, h, plus, goal, score, bag, -1),
        forall|e: (u64, usize)| !#[trigger] bag.contains(e),
    ensures
        !g@.some_walk_costs(plus, g.id_at(start as int), g.id_at(goal as int), d),
{
    let v = g.id_at(goal as int);
    if g@.some_walk_costs(plus, g.id_at(start as int), v, d) {
        let steps = choose|steps: nat| g@.walk_costs(plus, g.id_at(start as int), v, d, steps);
        lemma_frontier(g, h, plus, start, goal, score, from, bag, v, d, steps);
        g.lemma_same_id(algorithms::place_of(g, v), goal as int);
        assert(!stalls(g, h, plus, goal, score, bag, v, d));
        assert(score.dom().contains(goal));
        assert(waits(g, h, plus, score, bag, goal, goal));
    }
}

/// When the goal comes out, no walk to it is shorter than what it has, if the
/// estimates are admissible.
proof fn lemma_least<H: Fn(&str, &str) -> u64, P: Fn(u64, u64) -> u64>(
    g: &Subgraph,
    h: H,
    plus: P,
    start: usize,
    goal: usize,
    score: Map<usize, u64>,
    from: Map<usize, usize>,
    bag: vstd::multiset::Multiset<(u64, usize)>,
    key: u64,
    d: u64,
)
    requires
        searchable(g, h, plus),
        g.size() <= usize::MAX,
        g@.admissible(h, plus, g.id_at(goal as int)),
        recorded(g, plus, start, score, from),
        searching(g, h, plus, goal, score, bag, -1),
        bag.contains((key, goal)),
        forall|e: (u64, usize)| #[trigger] bag.contains(e) ==> heap::entry_le((key, goal), e),
        g@.some_walk_costs(plus, g.id_at(start as int), g.id_at(goal as int), d),
    ensures
        score[goal] <= d,
{
    let v = g.id_at(goal as int);
    let steps = choose|steps: nat| g@.walk_costs(plus, g.id_at(start as int), v, d, steps);
    lemma_frontier(g, h, plus, start, goal, score, from, bag, v, d, steps);
    g.lemma_same_id(algorithms::place_of(g, v), goal as int);
    assert(once_had(g, h, plus, score, (key, goal), goal));
    if at(score, goal as int) > d {
        let (u, b, m) = choose|u: usize, b: u64, m: nat|
            {
                &&& #[trigger] g@.leads_on(plus, g.id_at(u as int), b, v, d, m)
                &&& score.dom().contains(u)
                &&& score[u] <= b < UNREACHED
                &&& waits(g, h, plus, score, bag, u, goal)
            };
        let x = choose|x: u64| #[trigger]
            promises(h, plus, g.id_at(u as int), v, score[u], x) && bag.contains((binary64::rank(x), u));
        assert(heap::entry_le((key, goal), (binary64::rank(x), u)));
        assert(binary64::rank(x) <= binary64::rank(d));
        let (c, y) = choose|c: u64, y: u64| #[trigger]
            promises(h, plus, v, v, c, y) && score[goal] <= c < UNREACHED && binary64::rank(y) == key;
        assert(binary64::rank(c) <= binary64::rank(y));
    }
}

/// The ids of the nodes at some places.
spec fn named(g: &Subgraph, places: Seq<usize>) -> Seq<Seq<char>> {
    places.map_values(|u: usize| g.id_at(u as int))
}

/// The way back is a path.
proof fn lemma_path<P: Fn(u64, u64) -> u64>(
    g: &Subgraph,
    plus: P,
    start: usize,
    score: Map<usize, u64>,
    from: Map<usize, usize>,
    v: usize,
    k: nat,
)
    requires
        g.wf(),
        recorded(g, plus, start, score, from),
        score.dom().contains(v),
        chain::arrives(from, v, start, k),
    ensures
        g@.is_path(named(g, chain::trail(from, v, k)), g.id_at(start as int), g.id_at(v as int)),
        forall|i: int| 0 <= i <= k ==> #[trigger] chain::trail(from, v, k)[i] < g.size(),
{
    let t = chain::trail(from, v, k);
    let path = named(g, t);
    g.lemma_ids();
    chain::lemma_trail(from, v, k);
    chain::lemma_trail_linked(from, v, k);
    assert forall|i: int| 0 <= i <= k implies score.dom().contains(#[trigger] t[i]) by {
        if i > 0 {
            assert(follows(g, plus, score, from, t[i]));
        }
    }
    assert forall|i: int| 0 <= i < path.len() implies g@.nodes.dom().contains(#[trigger] path[i]) by {
        assert(score.dom().contains(t[i]));
    }
    assert forall|i: int| 0 <= i < path.len() - 1 implies #[trigger] g@.has_edge(path[i], path[i + 1]) by {
        let w = t[i + 1];
        assert(follows(g, plus, score, from, w));
        let (j, c) = choose|j: int, c: u64| #[trigger] linked(g, plus, score, from[w], w, j, c);
        assert(g@.edges[j].source == path[i]);
    }
}

/// The way back can be walked at no more than what is recorded.
proof fn lemma_along<P: Fn(u64, u64) -> u64>(
    g: &Subgraph,
    plus: P,
    start: usize,
    score: Map<usize, u64>,
    from: Map<usize, usize>,
    v: usize,
    k: nat,
) -> (p: u64)
    requires
        g@.keeps_order(plus),
        always_answers(plus),
        recorded(g, plus, start, score, from),
        score.dom().contains(v),
        chain::arrives(from, v, start, k),
    ensures
        p <= score[v],
        g@.along(plus, named(g, chain::trail(from, v, k)), p),
    decreases k,
{
    let path = named(g, chain::trail(from, v, k));
    chain::lemma_trail(from, v, k);
    if k == 0 {
        0
    } else {
        let u = from[v];
        let j = (k - 1) as nat;
        assert(follows(g, plus, score, from, v));
        let (i, c) = choose|i: int, c: u64| #[trigger] linked(g, plus, score, u, v, i, c);
        let q = lemma_along(g, plus, start, score, from, u, j);
        chain::lemma_trail(from, u, j);
        assert(answers(plus, q, g@.edges[i].weight));
        let p = choose|x: u64| #[trigger] call_ensures(plus, (q, g@.edges[i].weight), x);
        assert(call_ensures(plus, (c, g@.edges[i].weight), score[v]));
        assert(p <= score[v]);
        assert(path.drop_last() =~= named(g, chain::trail(from, u, j)));
        assert(path[path.len() - 2] == named(g, chain::trail(from, u, j)).last());
        assert(g@.last_step(plus, i, q, path.last(), p));
        p
    }
}

/// What can be walked along a path is the total of a walk.
proof fn lemma_along_is_walk<P: Fn(u64, u64) -> u64>(g: GraphView, plus: P, path: Seq<Seq<char>>, d: u64)
    requires
        g.along(plus, path, d),
    ensures
        g.walk_costs(plus, path[0], path.last(), d, (path.len() - 1) as nat),
    decreases path.len(),
{
    if path.len() > 1 {
        let (i, c) = choose|i: int, c: u64| #[trigger]
            g.last_step(plus, i, c, path.last(), d) && g.edges[i].source == path[path.len() - 2] && g.along(
                plus,
                path.drop_last(),
                c,
            );
        lemma_along_is_walk(g, plus, path.drop_last(), c);
        assert(g.last_step(plus, i, c, path.last(), d));
    }
}

/// The way back to the start is found whole within as many steps as there are
/// nodes.
proof fn lemma_whole_way<P: Fn(u64, u64) -> u64>(
    g: &Subgraph,
    plus: P,
    start: usize,
    score: Map<usize, u64>,
    from: Map<usize, usize>,
    v: usize,
    limit: nat,
    path: Seq<usize>,
)
    requires
        recorded(g, plus, start, score, from),
        score.dom().contains(v),
        limit == g.size(),
        exists|k: nat|
            {
                &&& k <= limit
                &&& #[trigger] chain::climbable(from, v, k)
                &&& path == chain::trail(from, v, k)
                &&& k == limit || !from.dom().contains(path[0])
            },
    ensures
        forall|k: nat| #[trigger] chain::arrives(from, v, start, k) ==> path == chain::trail(from, v, k),
        forall|i: int| 0 <= i < path.len() ==> #[trigger] path[i] < g.size(),
        exists|k: nat| chain::arrives(from, v, start, k),
{
    assert(leads_back(from, v, start));
    let k = choose|k: nat| chain::arrives(from, v, start, k);
    let j = choose|k: nat|
        {
            &&& k <= limit
            &&& #[trigger] chain::climbable(from, v, k)
            &&& path == chain::trail(from, v, k)
            &&& k == limit || !from.dom().contains(path[0])
        };
    chain::lemma_short(from, v, start, k);
    assert forall|x: usize| #[trigger] from.dom().insert(start).contains(x) implies x < limit by {
        if x != start {
            assert(follows(g, plus, score, from, x));
        }
    }
    chain::lemma_few(from.dom().insert(start), limit);
    chain::lemma_one_end(from, v, start, j, k);
    chain::lemma_trail(from, v, k);
    chain::lemma_trail_linked(from, v, k);
    assert forall|m: nat| #[trigger] chain::arrives(from, v, start, m) implies path == chain::trail(from, v, m) by {
        chain::lemma_one_count(from, v, start, k, m);
    }
    assert forall|i: int| 0 <= i < path.len() implies #[trigger] path[i] < g.size() by {
        if i > 0 {
            assert(follows(g, plus, score, from, path[i]));
        }
    }
}

/// A way back goes through no node twice.
proof fn lemma_goes_on(g: &Subgraph, start: usize, from: Map<usize, usize>, v: usize, k: nat)
    requires
        g.wf(),
        !from.dom().contains(start),
        chain::arrives(from, v, start, k),
        forall|i: int| 0 <= i <= k ==> #[trigger] chain::trail(from, v, k)[i] < g.size(),
    ensures
        no_repeats(named(g, chain::trail(from, v, k))),
{
    let t = chain::trail(from, v, k);
    let path = named(g, t);
    chain::lemma_trail(from, v, k);
    chain::lemma_no_repeats(from, v, start, k);
    assert forall|i: int, j: int| 0 <= i < j < path.len() implies #[trigger] path[i] != #[trigger] path[j] by {
        assert(t[i] != t[j]);
        g.lemma_same_id(t[i] as int, t[j] as int);
    }
}

/// The ids of the nodes at some places.
fn ids_at(g: &Subgraph, places: &[usize]) -> (ids: Vec<String>)
    requires
        forall|i: int| 0 <= i < places@.len() ==> #[trigger] places@[i] < g.size(),
    ensures
        ids@.len() == places@.len(),
        forall|i: int| 0 <= i < ids@.len() ==> (#[trigger] ids@[i])@ == g.id_at(places@[i] as int),
{
    let mut ids: Vec<String> = Vec::new();
    let mut i: usize = 0;
    while i < places.len()
        invariant
            i <= places@.len(),
            ids@.len() == i,
            forall|j: int| 0 <= j < places@.len() ==> #[trigger] places@[j] < g.size(),
            forall|j: int| 0 <= j < i ==> (#[trigger] ids@[j])@ == g.id_at(places@[j] as int),
        decreases places@.len() - i,
    {
        ids.push(g.id(places[i]).to_owned());
        i = i + 1;
    }
    ids
}

/// An entry that comes out leaves the search in order, but for its own node.
proof fn lemma_taken_out<H: Fn(&str, &str) -> u64, P: Fn(u64, u64) -> u64>(
    g: &Subgraph,
    h: H,
    plus: P,
    goal: usize,
    score: Map<usize, u64>,
    bag: vstd::multiset::Multiset<(u64, usize)>,
    entry: (u64, usize),
)
    requires
        searching(g, h, plus, goal, score, bag, -1),
        bag.contains(entry),
        entry.1 != goal,
    ensures
        searching(g, h, plus, goal, score, bag.remove(entry), entry.1 as int),
        forall|u: usize|
            u != entry.1 && waits(g, h, plus, score, bag, u, goal) ==> #[trigger] waits(
                g,
                h,
                plus,
                score,
                bag.remove(entry),
                u,
                goal,
            ),
{
    let rest = bag.remove(entry);
    assert forall|u: usize| u != entry.1 && waits(g, h, plus, score, bag, u, goal) implies #[trigger] waits(
        g,
        h,
        plus,
        score,
        rest,
        u,
        goal,
    ) by {
        let x = choose|x: u64| #[trigger]
            promises(h, plus, g.id_at(u as int), g.id_at(goal as int), score[u], x) && bag.contains(
                (binary64::rank(x), u),
            );
        assert(rest.contains((binary64::rank(x), u)));
    }
    assert forall|e: (u64, usize)| #[trigger] rest.contains(e) implies score.dom().contains(e.1) && once_had(
        g,
        h,
        plus,
        score,
        e,
        goal,
    ) by {
        assert(bag.contains(e));
    }
}

/// A* search from `start` to `goal`.
///
/// Answers a total and a path of nodes from `start` to `goal`, both ends
/// included, and nothing exactly where one of them is no node or no walk between
/// them has a finite total. The total is some walk's, and the path can be walked
/// at no more than it. Where `heuristic` is admissible, it is the least of all
/// walks' and the path's own. Of several ways, which one comes back is settled
/// by the run of the search, in which ties go to the lesser id.
///
/// `heuristic` estimates, and `plus` adds, on bit patterns of binary64 values.
pub fn astar<H: Fn(&str, &str) -> u64, P: Fn(u64, u64) -> u64>(
    graph: &Subgraph,
    start: &str,
    goal: &str,
    heuristic: &H,
    plus: &P,
) -> (found: Option<(u64, Vec<String>)>)
    requires
        searchable(graph, *heuristic, *plus),
    ensures
        finds(graph@, *heuristic, *plus, start@, goal@, shown(found)),
        search::is_answer(graph, *heuristic, *plus, start@, goal@, shown(found)),
{
    broadcast use vstd::std_specs::btree::group_btree_axioms;

    let ghost f = *plus;
    let ghost h = *heuristic;
    let n: usize = graph.node_count();
    let (source, target) = match (graph.place(start), graph.place(goal)) {
        (Some(a), Some(b)) => (a, b),
        _ => {
            return None;
        },
    };
    let mut score: BTreeMap<usize, u64> = BTreeMap::new();
    let mut came_from: BTreeMap<usize, usize> = BTreeMap::new();
    let mut queue = MinHeap::new();
    score.insert(source, 0);
    let x: u64 = promise(heuristic, plus, start, goal, 0);
    queue.push((rank_of(x), source));
    let ghost mut steps: nat = 0;
    proof {
        graph.lemma_same_id(source as int, algorithms::place_of(graph, start@));
        graph.lemma_same_id(target as int, algorithms::place_of(graph, goal@));
        lemma_promised(graph, h, f, target, source, 0, x);
        assert((Search { score: score@, from: came_from@, bag: queue@ }) == Search::begun(
            graph,
            h,
            f,
            source,
            target,
        ));
        assert(graph@.walk_costs(f, start@, start@, 0, 0));
        assert(chain::arrives(came_from@, source, source, 0));
        let entry = (binary64::rank(x), source);
        assert(queue@.contains(entry));
        assert forall|e: (u64, usize)| #[trigger] queue@.contains(e) implies score@.dom().contains(e.1) && once_had(
            graph,
            h,
            f,
            score@,
            e,
            target,
        ) by {
            assert(e == entry);
            assert(score@.dom().contains(source) && score@[source] == 0);
            assert(promises(h, f, graph.id_at(e.1 as int), graph.id_at(target as int), 0, x));
        }
    }
    loop
        invariant
            searchable(graph, h, f),
            f == *plus,
            h == *heuristic,
            n == graph.size(),
            source < n,
            target < n,
            graph.id_at(source as int) == start@,
            graph.id_at(target as int) == goal@,
            graph@.nodes.dom().contains(start@),
            graph@.nodes.dom().contains(goal@),
            recorded(graph, f, source, score@, came_from@),
            searching(graph, h, f, target, score@, queue@, -1),
            queue.wf(),
            source == algorithms::place_of(graph, start@) as usize,
            target == algorithms::place_of(graph, goal@) as usize,
            (Search { score: score@, from: came_from@, bag: queue@ }) == Search::after(
                graph,
                h,
                f,
                source,
                target,
                steps,
            ),
            forall|m: nat|
                m < steps ==> !(#[trigger] Search::after(graph, h, f, source, target, m)).over(target),
        decreases shortest::total(reading(score@, n as nat)), queue.count(),
    {
        let ghost bag = queue@;
        let ghost now_at = Search { score: score@, from: came_from@, bag: queue@ };
        match queue.pop() {
            None => {
                proof {
                    queue.lemma_empty();
                    assert forall|d: u64| !graph@.some_walk_costs(f, start@, goal@, d) by {
                        lemma_out_of_reach(graph, h, f, source, target, score@, came_from@, queue@, d);
                    }
                    assert(now_at.over(target));
                    assert(now_at.comes_to(graph, source, target, None));
                    assert(search::ends_in(graph, h, f, source, target, steps, None));
                }
                return None;
            },
            Some(entry) => {
                let node: usize = entry.1;
                let d: u64 = recorded_for(&score, node);
                proof {
                    assert(bag.contains(entry));
                    assert(once_had(graph, h, f, score@, entry, target));
                    search::lemma_next(bag, entry);
                    assert(d == now_at.total(node));
                }
                if node == target {
                    let places = reconstruct(&came_from, target, n);
                    proof {
                        lemma_whole_way(graph, f, source, score@, came_from@, target, n as nat, places@);
                    }
                    let path = ids_at(graph, &places);
                    proof {
                        let k = choose|k: nat| chain::arrives(came_from@, target, source, k);
                        assert(path_ids(path@) =~= named(graph, places@));
                        lemma_path(graph, f, source, score@, came_from@, target, k);
                        lemma_goes_on(graph, source, came_from@, target, k);
                        assert(graph@.is_path(path_ids(path@), start@, goal@));
                        assert(graph@.some_walk_costs(f, start@, goal@, d));
                        if always_answers(f) {
                            let p = lemma_along(graph, f, source, score@, came_from@, target, k);
                            lemma_along_is_walk(graph@, f, path_ids(path@), p);
                            assert(p <= d && graph@.along(f, path_ids(path@), p));
                            assert(graph@.some_walk_costs(f, start@, goal@, p));
                        }
                        assert(graph@.is_way(f, start@, goal@, d, path_ids(path@)));
                        if graph@.admissible(h, f, goal@) {
                            assert forall|c: u64| #[trigger] graph@.some_walk_costs(f, start@, goal@, c) implies d
                                <= c by {
                                lemma_least(
                                    graph,
                                    h,
                                    f,
                                    source,
                                    target,
                                    score@,
                                    came_from@,
                                    bag,
                                    entry.0,
                                    c,
                                );
                            }
                            assert(graph@.is_shortest_way(f, start@, goal@, d, path_ids(path@)));
                        }
                        assert(path_ids(path@) =~= search::ids(graph, chain::trail(came_from@, target, k)));
                        assert(now_at.bag.contains(entry));
                        assert(chain::arrives(now_at.from, target, source, k));
                        assert(now_at.comes_to(graph, source, target, Some((d, path_ids(path@)))));
                        assert(search::ends_in(graph, h, f, source, target, steps, Some((d, path_ids(path@)))));
                    }
                    return Some((d, path));
                }
                let now: u64 = promise(heuristic, plus, graph.id(node), goal, d);
                let then: u64 = at_rank(entry.0);
                proof {
                    lemma_promised(graph, h, f, target, node, d, now);
                    assert(!now_at.over(target));
                    steps = steps + 1;
                }
                if !less(now, then) {
                    proof {
                        lemma_taken_out(graph, h, f, target, score@, bag, entry);
                    }
                    relax_all(graph, heuristic, plus, source, target, node, &mut score, &mut came_from, &mut queue);
                } else {
                    proof {
                        lemma_taken_out(graph, h, f, target, score@, bag, entry);
                        assert(waits(graph, h, f, score@, queue@, node, target) || settled(
                            graph,
                            f,
                            score@,
                            node as int,
                            score@[node],
                        )) by {
                            assert(score@.dom().contains(node));
                            if waits(graph, h, f, score@, bag, node, target) {
                                let y = choose|y: u64| #[trigger]
                                    promises(h, f, graph.id_at(node as int), goal@, score@[node], y) && bag.contains(
                                        (binary64::rank(y), node),
                                    );
                                lemma_one_promise(h, f, graph.id_at(node as int), goal@, d, y, now);
                                assert((binary64::rank(y), node) != entry);
                                assert(queue@.contains((binary64::rank(y), node)));
                            }
                        }
                    }
                }
            },
        }
    }
}

} // verus!
