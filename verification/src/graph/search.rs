//! The run of a guided search, step by step.
//!
//! What a search answers depends on its graph and on the two functions it is
//! given alone: of the entries that wait, the one that promises least comes out,
//! and of those that promise the same, the one of the least id.

use vstd::multiset::Multiset;
use vstd::prelude::*;

use super::algorithms;
use super::astar;
use super::binary64;
use super::chain;
use super::heap;
use super::shortest::UNREACHED;
use super::subgraph;
use super::subgraph::Subgraph;

verus! {

/// A search between two steps: the least total so far and the predecessor of
/// each node by its place, and the entries that wait.
pub struct Search {
    pub score: Map<usize, u64>,
    pub from: Map<usize, usize>,
    pub bag: Multiset<(u64, usize)>,
}

/// What `h` estimates from `a` to `b`.
pub open spec fn estimate<H: Fn(&str, &str) -> u64>(h: H, a: Seq<char>, b: Seq<char>) -> u64 {
    choose|x: u64| astar::estimates(h, a, b, x)
}

/// What a total of `c` in the node at `u` promises for the goal.
pub open spec fn promised<H: Fn(&str, &str) -> u64, P: Fn(u64, u64) -> u64>(
    g: &Subgraph,
    h: H,
    plus: P,
    goal: usize,
    u: usize,
    c: u64,
) -> u64 {
    binary64::value(plus, c, estimate(h, g.id_at(u as int), g.id_at(goal as int)))
}

/// Whether `e` comes out of `bag` no later than any other entry.
pub open spec fn comes_first(bag: Multiset<(u64, usize)>, e: (u64, usize)) -> bool {
    bag.contains(e) && forall|x: (u64, usize)| #[trigger] bag.contains(x) ==> heap::entry_le(e, x)
}

/// The entry that comes out next.
pub open spec fn next_of(bag: Multiset<(u64, usize)>) -> (u64, usize) {
    choose|e: (u64, usize)| comes_first(bag, e)
}

impl Search {
    /// Nothing recorded but the start, which waits.
    pub open spec fn begun<H: Fn(&str, &str) -> u64, P: Fn(u64, u64) -> u64>(
        g: &Subgraph,
        h: H,
        plus: P,
        start: usize,
        goal: usize,
    ) -> Search {
        Search {
            score: Map::empty().insert(start, 0),
            from: Map::empty(),
            bag: Multiset::empty().insert((binary64::rank(promised(g, h, plus, goal, start, 0)), start)),
        }
    }

    /// The total recorded for the node at `v`.
    pub open spec fn total(self, v: usize) -> u64 {
        if self.score.dom().contains(v) {
            self.score[v]
        } else {
            UNREACHED
        }
    }

    /// The search once a total of `x` has been offered to the node at `v`, from
    /// the one at `u`. A better one than is recorded takes its place.
    pub open spec fn offered<H: Fn(&str, &str) -> u64, P: Fn(u64, u64) -> u64>(
        self,
        g: &Subgraph,
        h: H,
        plus: P,
        start: usize,
        goal: usize,
        u: usize,
        v: usize,
        x: u64,
    ) -> Search {
        if x < self.total(v) {
            Search {
                score: self.score.insert(v, x),
                from: if v == start {
                    self.from
                } else {
                    self.from.insert(v, u)
                },
                bag: self.bag.insert((binary64::rank(promised(g, h, plus, goal, v, x)), v)),
            }
        } else {
            self
        }
    }

    /// The search once the first `k` edges out of the node at `u`, which has a
    /// total of `d`, have been followed.
    pub open spec fn spread<H: Fn(&str, &str) -> u64, P: Fn(u64, u64) -> u64>(
        self,
        g: &Subgraph,
        h: H,
        plus: P,
        start: usize,
        goal: usize,
        u: usize,
        d: u64,
        k: nat,
    ) -> Search
        decreases k,
    {
        if k == 0 {
            self
        } else {
            let e = subgraph::leaving(g@.edges, g.id_at(u as int))[k - 1];
            self.spread(g, h, plus, start, goal, u, d, (k - 1) as nat).offered(
                g,
                h,
                plus,
                start,
                goal,
                u,
                algorithms::place_of(g, e.target) as usize,
                binary64::value(plus, d, e.weight),
            )
        }
    }

    /// Whether the search is over: nothing waits, or the goal comes out.
    pub open spec fn over(self, goal: usize) -> bool {
        (forall|e: (u64, usize)| !#[trigger] self.bag.contains(e)) || next_of(self.bag).1 == goal
    }

    /// The search once the next entry has come out. Where its node has come to
    /// promise less since, nothing follows; else its edges are followed.
    pub open spec fn stepped<H: Fn(&str, &str) -> u64, P: Fn(u64, u64) -> u64>(
        self,
        g: &Subgraph,
        h: H,
        plus: P,
        start: usize,
        goal: usize,
    ) -> Search {
        let (key, u) = next_of(self.bag);
        let rest = Search { bag: self.bag.remove((key, u)), ..self };
        let d = self.total(u);
        if binary64::lt(promised(g, h, plus, goal, u, d), binary64::unrank(key)) {
            rest
        } else {
            rest.spread(
                g,
                h,
                plus,
                start,
                goal,
                u,
                d,
                subgraph::leaving(g@.edges, g.id_at(u as int)).len(),
            )
        }
    }

    /// The search after `n` steps.
    pub open spec fn after<H: Fn(&str, &str) -> u64, P: Fn(u64, u64) -> u64>(
        g: &Subgraph,
        h: H,
        plus: P,
        start: usize,
        goal: usize,
        n: nat,
    ) -> Search
        decreases n,
    {
        if n == 0 {
            Search::begun(g, h, plus, start, goal)
        } else {
            Search::after(g, h, plus, start, goal, (n - 1) as nat).stepped(g, h, plus, start, goal)
        }
    }

    /// Whether `found` is what a search that is over has come to: the goal's
    /// total, and the way back from it along the predecessors.
    pub open spec fn comes_to(
        self,
        g: &Subgraph,
        start: usize,
        goal: usize,
        found: Option<(u64, Seq<Seq<char>>)>,
    ) -> bool {
        match found {
            Some((d, path)) => {
                &&& exists|e: (u64, usize)| self.bag.contains(e)
                &&& d == self.total(goal)
                &&& exists|k: nat| #[trigger]
                    chain::arrives(self.from, goal, start, k) && path == ids(g, chain::trail(self.from, goal, k))
            },
            None => forall|e: (u64, usize)| !#[trigger] self.bag.contains(e),
        }
    }
}

/// The ids of the nodes at some places.
pub open spec fn ids(g: &Subgraph, places: Seq<usize>) -> Seq<Seq<char>> {
    places.map_values(|u: usize| g.id_at(u as int))
}

/// Whether the search is over after `n` steps, and not before, and comes to
/// `found`.
pub open spec fn ends_in<H: Fn(&str, &str) -> u64, P: Fn(u64, u64) -> u64>(
    g: &Subgraph,
    h: H,
    plus: P,
    start: usize,
    goal: usize,
    n: nat,
    found: Option<(u64, Seq<Seq<char>>)>,
) -> bool {
    &&& forall|m: nat| m < n ==> !(#[trigger] Search::after(g, h, plus, start, goal, m)).over(goal)
    &&& Search::after(g, h, plus, start, goal, n).over(goal)
    &&& Search::after(g, h, plus, start, goal, n).comes_to(g, start, goal, found)
}

/// Whether `found` is what a search from `start` to `goal` answers.
pub open spec fn is_answer<H: Fn(&str, &str) -> u64, P: Fn(u64, u64) -> u64>(
    g: &Subgraph,
    h: H,
    plus: P,
    start: Seq<char>,
    goal: Seq<char>,
    found: Option<(u64, Seq<Seq<char>>)>,
) -> bool {
    if g@.nodes.dom().contains(start) && g@.nodes.dom().contains(goal) {
        exists|n: nat| #[trigger]
            ends_in(
                g,
                h,
                plus,
                algorithms::place_of(g, start) as usize,
                algorithms::place_of(g, goal) as usize,
                n,
                found,
            )
    } else {
        found.is_none()
    }
}

/// One entry comes out first.
pub proof fn lemma_next(bag: Multiset<(u64, usize)>, e: (u64, usize))
    requires
        comes_first(bag, e),
    ensures
        next_of(bag) == e,
{
    let f = next_of(bag);
    assert(comes_first(bag, f));
    assert(bag.contains(e) && bag.contains(f));
}

proof fn lemma_start_has_no_predecessor<H: Fn(&str, &str) -> u64, P: Fn(u64, u64) -> u64>(
    s: Search,
    g: &Subgraph,
    h: H,
    plus: P,
    start: usize,
    goal: usize,
    u: usize,
    d: u64,
    k: nat,
)
    requires
        !s.from.dom().contains(start),
    ensures
        !s.spread(g, h, plus, start, goal, u, d, k).from.dom().contains(start),
    decreases k,
{
    if k > 0 {
        lemma_start_has_no_predecessor(s, g, h, plus, start, goal, u, d, (k - 1) as nat);
    }
}

proof fn lemma_start_stays<H: Fn(&str, &str) -> u64, P: Fn(u64, u64) -> u64>(
    g: &Subgraph,
    h: H,
    plus: P,
    start: usize,
    goal: usize,
    n: nat,
)
    ensures
        !Search::after(g, h, plus, start, goal, n).from.dom().contains(start),
    decreases n,
{
    if n > 0 {
        lemma_start_stays(g, h, plus, start, goal, (n - 1) as nat);
        let s = Search::after(g, h, plus, start, goal, (n - 1) as nat);
        let (key, u) = next_of(s.bag);
        let rest = Search { bag: s.bag.remove((key, u)), ..s };
        lemma_start_has_no_predecessor(
            rest,
            g,
            h,
            plus,
            start,
            goal,
            u,
            s.total(u),
            subgraph::leaving(g@.edges, g.id_at(u as int)).len(),
        );
    }
}

/// A graph, two functions and two nodes have one answer: the same total and the
/// same path, whichever of several equally short ones it is, every time.
pub proof fn law_a_search_has_one_answer<H: Fn(&str, &str) -> u64, P: Fn(u64, u64) -> u64>(
    g: &Subgraph,
    h: H,
    plus: P,
    start: Seq<char>,
    goal: Seq<char>,
    first: Option<(u64, Seq<Seq<char>>)>,
    second: Option<(u64, Seq<Seq<char>>)>,
)
    requires
        is_answer(g, h, plus, start, goal, first),
        is_answer(g, h, plus, start, goal, second),
    ensures
        first == second,
{
    if g@.nodes.dom().contains(start) && g@.nodes.dom().contains(goal) {
        let a = algorithms::place_of(g, start) as usize;
        let b = algorithms::place_of(g, goal) as usize;
        let m = choose|n: nat| #[trigger] ends_in(g, h, plus, a, b, n, first);
        let n = choose|n: nat| #[trigger] ends_in(g, h, plus, a, b, n, second);
        if m < n {
            assert(!Search::after(g, h, plus, a, b, m).over(b));
        } else if n < m {
            assert(!Search::after(g, h, plus, a, b, n).over(b));
        }
        let s = Search::after(g, h, plus, a, b, n);
        lemma_start_stays(g, h, plus, a, b, n);
        match (first, second) {
            (Some((_, p)), Some((_, q))) => {
                let j = choose|k: nat| #[trigger]
                    chain::arrives(s.from, b, a, k) && p == ids(g, chain::trail(s.from, b, k));
                let k = choose|k: nat| #[trigger]
                    chain::arrives(s.from, b, a, k) && q == ids(g, chain::trail(s.from, b, k));
                chain::lemma_one_count(s.from, b, a, j, k);
            },
            _ => {},
        }
    }
}

} // verus!
