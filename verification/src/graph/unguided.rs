//! A guided search that is given no guidance.

use vstd::prelude::*;

use super::algorithms;
use super::astar;
use super::binary64;
use super::determined;
use super::shortest::UNREACHED;
use super::subgraph::GraphView;

verus! {

/// Whether `h` always estimates nought.
pub open spec fn is_blind<H: Fn(&str, &str) -> u64>(h: H) -> bool {
    forall|a: Seq<char>, b: Seq<char>, x: u64| #[trigger] astar::estimates(h, a, b, x) ==> x == 0
}

/// Whether adding nought changes no total.
pub open spec fn nought_adds_nothing<P: Fn(u64, u64) -> u64>(plus: P) -> bool {
    forall|c: u64, x: u64| c < UNREACHED && #[trigger] call_ensures(plus, (c, 0u64), x) ==> x == c
}

/// A walk that goes on never comes to less than it had.
proof fn lemma_goes_up<P: Fn(u64, u64) -> u64>(
    g: GraphView,
    plus: P,
    a: Seq<char>,
    c: u64,
    b: Seq<char>,
    d: u64,
    steps: nat,
)
    requires
        g.never_lowers(plus),
        c < UNREACHED,
        g.leads_on(plus, a, c, b, d, steps),
    ensures
        c <= d < UNREACHED,
    decreases steps,
{
    if steps > 0 {
        let (i, e) = choose|i: int, e: u64|
            0 <= i < g.edges.len() && g.edges[i].source == a && #[trigger] g.last_step(
                plus,
                i,
                c,
                g.edges[i].target,
                e,
            ) && g.leads_on(plus, g.edges[i].target, e, b, d, (steps - 1) as nat);
        assert(call_ensures(plus, (c, g.edges[i].weight), e));
        lemma_goes_up(g, plus, g.edges[i].target, e, b, d, (steps - 1) as nat);
    }
}

/// No estimate at all is admissible.
pub proof fn law_no_estimate_is_admissible<H: Fn(&str, &str) -> u64, P: Fn(u64, u64) -> u64>(
    g: GraphView,
    h: H,
    plus: P,
    goal: Seq<char>,
)
    requires
        g.never_lowers(plus),
        is_blind(h),
        nought_adds_nothing(plus),
    ensures
        g.admissible(h, plus, goal),
{
    assert forall|c: u64, x: u64| c < UNREACHED && #[trigger] astar::promises(
        h,
        plus,
        goal,
        goal,
        c,
        x,
    ) implies binary64::rank(c) <= binary64::rank(x) by {
        lemma_promises_itself(h, plus, goal, goal, c, x);
    }
    assert forall|a: Seq<char>, b: u64, c: u64, d: u64, steps: nat, x: u64|
        b <= c < UNREACHED && #[trigger] g.leads_on(plus, a, c, goal, d, steps) && #[trigger] astar::promises(
            h,
            plus,
            a,
            goal,
            b,
            x,
        ) implies binary64::rank(x) <= binary64::rank(d) by {
        lemma_promises_itself(h, plus, a, goal, b, x);
        lemma_goes_up(g, plus, a, c, goal, d, steps);
    }
}

proof fn lemma_promises_itself<H: Fn(&str, &str) -> u64, P: Fn(u64, u64) -> u64>(
    h: H,
    plus: P,
    a: Seq<char>,
    goal: Seq<char>,
    c: u64,
    x: u64,
)
    requires
        is_blind(h),
        nought_adds_nothing(plus),
        c < UNREACHED,
        astar::promises(h, plus, a, goal, c, x),
    ensures
        x == c,
{
    let e = choose|e: u64| astar::estimates(h, a, goal, e) && #[trigger] call_ensures(plus, (c, e), x);
    assert(call_ensures(plus, (c, 0u64), x));
}

/// Without estimates, a search finds exactly what has a distance, at that
/// distance, along a path that is walked at it and goes through no node twice;
/// from a node to itself, that is the node alone, at nought.
pub proof fn law_without_estimates_the_total_is_the_distance<H: Fn(&str, &str) -> u64, P: Fn(u64, u64) -> u64>(
    g: GraphView,
    h: H,
    plus: P,
    start: Seq<char>,
    goal: Seq<char>,
    labels: Seq<(String, u64)>,
    found: Option<(u64, Seq<Seq<char>>)>,
)
    requires
        g.is_closed(),
        g.never_lowers(plus),
        is_blind(h),
        nought_adds_nothing(plus),
        astar::always_answers(plus),
        algorithms::are_distances(g, plus, start, labels),
        astar::finds(g, h, plus, start, goal, found),
    ensures
        found.is_some() <==> exists|d: u64| algorithms::is_labelled(labels, goal, d),
        found matches Some((d, path)) ==> {
            &&& algorithms::is_labelled(labels, goal, d)
            &&& g.is_path(path, start, goal)
            &&& astar::no_repeats(path)
            &&& g.along(plus, path, d)
            &&& start == goal ==> d == 0 && path == seq![start]
        },
{
    law_no_estimate_is_admissible(g, h, plus, goal);
    determined::lemma_ids_ascend(g, plus, start, labels);
    if exists|d: u64| algorithms::is_labelled(labels, goal, d) {
        let d = choose|d: u64| algorithms::is_labelled(labels, goal, d);
        let i = choose|i: int| 0 <= i < labels.len() && (#[trigger] labels[i]).0@ == goal && labels[i].1 == d;
        determined::lemma_label_is_walked(g, plus, start, labels, i);
        lemma_ends_in_a_node(g, plus, start, goal, d);
        assert(found.is_some());
    }
    if let Some((d, path)) = found {
        assert(g.is_way(plus, start, goal, d, path));
        assert(g.is_shortest_way(plus, start, goal, d, path));
        let i = determined::lemma_walk_is_labelled(g, plus, start, labels, goal, d);
        determined::lemma_label_is_walked(g, plus, start, labels, i);
        assert(d <= labels[i].1);
        assert(algorithms::is_labelled(labels, goal, d));
        if start == goal {
            assert(g.walk_costs(plus, start, goal, 0, 0));
            assert(g.some_walk_costs(plus, start, goal, 0));
            if path.len() > 1 {
                assert(path[0] == path[path.len() - 1]);
            }
            assert(path =~= seq![start]);
        }
    }
}

/// What a walk from a node ends in is a node.
proof fn lemma_ends_in_a_node<P: Fn(u64, u64) -> u64>(
    g: GraphView,
    plus: P,
    start: Seq<char>,
    v: Seq<char>,
    d: u64,
)
    requires
        g.is_closed(),
        g.nodes.dom().contains(start),
        g.some_walk_costs(plus, start, v, d),
    ensures
        g.nodes.dom().contains(v),
{
    let steps = choose|steps: nat| g.walk_costs(plus, start, v, d, steps);
    if steps > 0 {
        let (i, c) = choose|i: int, c: u64| #[trigger]
            g.last_step(plus, i, c, v, d) && g.walk_costs(
                plus,
                start,
                g.edges[i].source,
                c,
                (steps - 1) as nat,
            );
        assert(g.nodes.dom().contains(g.edges[i].target));
    }
}

} // verus!
