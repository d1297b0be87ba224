//! Predecessors, and the way back along them.

use std::collections::BTreeMap;

use vstd::prelude::*;

verus! {

/// Whether `k` steps back from `v` end in `start`.
pub open spec fn arrives(from: Map<usize, usize>, v: usize, start: usize, k: nat) -> bool
    decreases k,
{
    if k == 0 {
        v == start
    } else {
        from.dom().contains(v) && arrives(from, from[v], start, (k - 1) as nat)
    }
}

/// Whether `k` steps back from `v` can be taken.
pub open spec fn climbable(from: Map<usize, usize>, v: usize, k: nat) -> bool
    decreases k,
{
    k > 0 ==> from.dom().contains(v) && climbable(from, from[v], (k - 1) as nat)
}

/// The nodes that `k` steps back from `v` lead through, the last one first.
pub open spec fn trail(from: Map<usize, usize>, v: usize, k: nat) -> Seq<usize>
    decreases k,
{
    if k == 0 {
        seq![v]
    } else {
        trail(from, from[v], (k - 1) as nat).push(v)
    }
}

/// A trail ends at the node it was asked for, and each node of it but the first
/// came from the one before.
pub proof fn law_a_trail_goes_step_by_step(from: Map<usize, usize>, v: usize, k: nat)
    requires
        climbable(from, v, k),
    ensures
        trail(from, v, k).len() == k + 1,
        trail(from, v, k).last() == v,
        forall|i: int|
            0 < i <= k ==> from.dom().contains(#[trigger] trail(from, v, k)[i]) && from[trail(from, v, k)[i]]
                == trail(from, v, k)[i - 1],
    decreases k,
{
    if k > 0 {
        law_a_trail_goes_step_by_step(from, from[v], (k - 1) as nat);
        let before = trail(from, from[v], (k - 1) as nat);
        assert(before.last() == before[k - 1]);
        assert forall|i: int| 0 < i <= k implies from.dom().contains(#[trigger] trail(from, v, k)[i])
            && from[trail(from, v, k)[i]] == trail(from, v, k)[i - 1] by {
            if i < k {
                assert(trail(from, v, k)[i] == before[i]);
                assert(trail(from, v, k)[i - 1] == before[i - 1]);
            }
        }
    }
}

/// Whether `w` is among the nodes that `k` steps back from `v` lead through.
pub open spec fn passes(from: Map<usize, usize>, v: usize, w: usize, k: nat) -> bool
    decreases k,
{
    v == w || (k > 0 && passes(from, from[v], w, (k - 1) as nat))
}

/// A trail has one node more than steps, and begins where the steps end.
pub proof fn lemma_trail(from: Map<usize, usize>, v: usize, k: nat)
    ensures
        trail(from, v, k).len() == k + 1,
        trail(from, v, k).last() == v,
        forall|start: usize| #[trigger]
            arrives(from, v, start, k) <==> climbable(from, v, k) && trail(from, v, k)[0] == start,
    decreases k,
{
    if k > 0 {
        lemma_trail(from, from[v], (k - 1) as nat);
        assert forall|start: usize| #[trigger] arrives(from, v, start, k) <==> climbable(from, v, k) && trail(
            from,
            v,
            k,
        )[0] == start by {
            assert(arrives(from, from[v], start, (k - 1) as nat) <==> climbable(from, from[v], (k - 1) as nat)
                && trail(from, from[v], (k - 1) as nat)[0] == start);
        }
    }
}

/// One more step back puts one more node in front.
pub proof fn lemma_trail_grows(from: Map<usize, usize>, v: usize, k: nat)
    ensures
        trail(from, v, k + 1) == seq![from[trail(from, v, k)[0]]] + trail(from, v, k),
        climbable(from, v, k) && from.dom().contains(trail(from, v, k)[0]) <==> climbable(from, v, k + 1),
    decreases k,
{
    lemma_trail(from, v, k);
    reveal_with_fuel(trail, 3);
    reveal_with_fuel(climbable, 3);
    if k == 0 {
        assert(trail(from, v, 1) =~= seq![from[v]] + seq![v]);
    } else {
        let u = from[v];
        let j = (k - 1) as nat;
        lemma_trail_grows(from, u, j);
        lemma_trail(from, u, j);
        assert(trail(from, v, k + 1) == trail(from, u, k).push(v));
        assert(trail(from, u, k) == seq![from[trail(from, u, j)[0]]] + trail(from, u, j));
        assert(trail(from, v, k + 1) =~= seq![from[trail(from, v, k)[0]]] + trail(from, v, k));
    }
}

/// Where `k` steps back can be taken, fewer can.
pub proof fn lemma_fewer(from: Map<usize, usize>, v: usize, j: nat, k: nat)
    requires
        j <= k,
        climbable(from, v, k),
    ensures
        climbable(from, v, j),
    decreases j,
{
    if j > 0 {
        lemma_fewer(from, from[v], (j - 1) as nat, (k - 1) as nat);
    }
}

/// Of two ways back from one node that end where nothing leads back, both are
/// the same.
pub proof fn lemma_one_end(from: Map<usize, usize>, v: usize, start: usize, j: nat, k: nat)
    requires
        !from.dom().contains(start),
        arrives(from, v, start, k),
        climbable(from, v, j),
        j > k || !from.dom().contains(trail(from, v, j)[0]),
    ensures
        j == k,
{
    lemma_trail(from, v, k);
    if j < k {
        lemma_fewer(from, v, j + 1, k);
        lemma_trail_grows(from, v, j);
    } else if j > k {
        lemma_fewer(from, v, k + 1, j);
        lemma_trail_grows(from, v, k);
    }
}

/// Each node of a trail is the predecessor of the next.
pub proof fn lemma_trail_linked(from: Map<usize, usize>, v: usize, k: nat)
    requires
        climbable(from, v, k),
    ensures
        forall|i: int|
            0 < i <= k ==> from.dom().contains(#[trigger] trail(from, v, k)[i]) && trail(from, v, k)[i - 1]
                == from[trail(from, v, k)[i]],
    decreases k,
{
    if k > 0 {
        let u = from[v];
        let j = (k - 1) as nat;
        lemma_trail_linked(from, u, j);
        lemma_trail(from, u, j);
        assert forall|i: int| 0 < i <= k implies from.dom().contains(#[trigger] trail(from, v, k)[i]) && trail(
            from,
            v,
            k,
        )[i - 1] == from[trail(from, v, k)[i]] by {
            if i < k {
                assert(trail(from, u, j)[i] == trail(from, v, k)[i]);
            }
        }
    }
}

/// Walks the predecessors back from `goal` and answers the way forwards, after
/// `limit` steps at the latest.
pub fn reconstruct(came_from: &BTreeMap<usize, usize>, goal: usize, limit: usize) -> (path: Vec<usize>)
    ensures
        exists|k: nat|
            {
                &&& k <= limit
                &&& #[trigger] climbable(came_from@, goal, k)
                &&& path@ == trail(came_from@, goal, k)
                &&& k == limit || !came_from@.dom().contains(path@[0])
            },
{
    broadcast use vstd::std_specs::btree::group_btree_axioms;

    let mut back: Vec<usize> = Vec::new();
    back.push(goal);
    let mut current: usize = goal;
    let ghost mut k: nat = 0;
    proof {
        assert(back@.reverse() =~= trail(came_from@, goal, 0));
    }
    loop
        invariant
            k <= limit,
            back@.len() == k + 1,
            climbable(came_from@, goal, k),
            back@.reverse() == trail(came_from@, goal, k),
            current == back@.last(),
        ensures
            k <= limit,
            back@.len() == k + 1,
            climbable(came_from@, goal, k),
            back@.reverse() == trail(came_from@, goal, k),
            k == limit || !came_from@.dom().contains(back@.last()),
        decreases limit - k,
    {
        match came_from.get(&current) {
            None => {
                break;
            },
            Some(previous) => {
                if back.len() > limit {
                    break;
                }
                let ghost before = back@;
                back.push(*previous);
                proof {
                    lemma_trail_grows(came_from@, goal, k);
                    assert(before.reverse()[0] == current);
                    assert(back@.reverse() =~= seq![*previous] + before.reverse());
                    k = k + 1;
                }
                current = *previous;
            },
        }
    }
    let ghost whole = back@;
    let mut path: Vec<usize> = Vec::new();
    while back.len() > 0
        invariant
            whole == back@ + path@.reverse(),
        decreases back@.len(),
    {
        let ghost held = back@;
        let ghost done = path@;
        match back.pop() {
            Some(v) => {
                path.push(v);
                proof {
                    assert(held =~= back@.push(v));
                    assert(path@.reverse() =~= seq![v] + done.reverse());
                    assert(whole =~= back@ + path@.reverse());
                }
            },
            None => {},
        }
    }
    proof {
        assert(whole =~= path@.reverse());
        assert(path@ =~= whole.reverse());
        assert(path@[0] == whole.last());
    }
    path
}

/// Where nothing leads back from `start`, the number of steps to it is fixed.
pub proof fn lemma_one_count(from: Map<usize, usize>, v: usize, start: usize, j: nat, k: nat)
    requires
        !from.dom().contains(start),
        arrives(from, v, start, j),
        arrives(from, v, start, k),
    ensures
        j == k,
    decreases j,
{
    if j > 0 && k > 0 {
        lemma_one_count(from, from[v], start, (j - 1) as nat, (k - 1) as nat);
    }
}

/// Each node of a trail has its own number of steps back to the start, so that no
/// node comes twice.
pub proof fn lemma_no_repeats(from: Map<usize, usize>, v: usize, start: usize, k: nat)
    requires
        !from.dom().contains(start),
        arrives(from, v, start, k),
    ensures
        forall|i: int| 0 <= i <= k ==> arrives(from, #[trigger] trail(from, v, k)[i], start, i as nat),
        forall|i: int, j: int|
            0 <= i < j <= k ==> #[trigger] trail(from, v, k)[i] != #[trigger] trail(from, v, k)[j],
    decreases k,
{
    let t = trail(from, v, k);
    lemma_trail(from, v, k);
    if k > 0 {
        let (u, j) = (from[v], (k - 1) as nat);
        lemma_no_repeats(from, u, start, j);
        lemma_trail(from, u, j);
        assert forall|i: int| 0 <= i <= k implies arrives(from, #[trigger] t[i], start, i as nat) by {
            if i < k {
                assert(t[i] == trail(from, u, j)[i]);
            }
        }
    }
    assert forall|i: int, j: int| 0 <= i < j <= k implies #[trigger] t[i] != #[trigger] t[j] by {
        if t[i] == t[j] {
            lemma_one_count(from, t[i], start, i as nat, j as nat);
        }
    }
}

/// From a node on the way, the rest of the way leads on.
proof fn lemma_rest(from: Map<usize, usize>, v: usize, w: usize, start: usize, k: nat) -> (j: nat)
    requires
        arrives(from, v, start, k),
        passes(from, v, w, k),
    ensures
        j <= k,
        arrives(from, w, start, j),
    decreases k,
{
    if v == w {
        k
    } else {
        lemma_rest(from, from[v], w, start, (k - 1) as nat)
    }
}

/// A way on which `v` is not stays when what leads back from `v` is taken away.
proof fn lemma_without(from: Map<usize, usize>, x: usize, v: usize, start: usize, k: nat)
    requires
        arrives(from, x, start, k),
        !passes(from, x, v, k),
    ensures
        arrives(from.remove(v), x, start, k),
    decreases k,
{
    if k > 0 {
        lemma_without(from, from[x], v, start, (k - 1) as nat);
    }
}

/// A way back is no longer than there are predecessors.
pub proof fn lemma_short(from: Map<usize, usize>, v: usize, start: usize, k: nat)
    requires
        from.dom().finite(),
        !from.dom().contains(start),
        arrives(from, v, start, k),
    ensures
        k <= from.dom().len(),
    decreases k,
{
    if k > 0 {
        let u = from[v];
        let j = (k - 1) as nat;
        if passes(from, u, v, j) {
            let i = lemma_rest(from, u, v, start, j);
            lemma_one_count(from, v, start, i, k);
        }
        lemma_without(from, u, v, start, j);
        assert(from.remove(v).dom() =~= from.dom().remove(v));
        lemma_short(from.remove(v), u, start, j);
    }
}

proof fn lemma_kept(from: Map<usize, usize>, x: usize, v: usize, u: usize, start: usize, k: nat)
    requires
        arrives(from, x, start, k),
        !passes(from, x, v, k),
    ensures
        arrives(from.insert(v, u), x, start, k),
    decreases k,
{
    if k > 0 {
        lemma_kept(from, from[x], v, u, start, (k - 1) as nat);
    }
}

/// Giving `v` a predecessor whose own way back avoids it leaves every node a
/// way back.
pub proof fn lemma_redirected(
    from: Map<usize, usize>,
    x: usize,
    k: nat,
    v: usize,
    u: usize,
    j: nat,
    start: usize,
) -> (m: nat)
    requires
        v != start,
        arrives(from, x, start, k),
        arrives(from, u, start, j),
        !passes(from, u, v, j),
    ensures
        arrives(from.insert(v, u), x, start, m),
    decreases k,
{
    let next = from.insert(v, u);
    lemma_kept(from, u, v, u, start, j);
    if x == v {
        assert(next[x] == u);
        assert(arrives(next, x, start, j + 1));
        j + 1
    } else if k == 0 {
        0
    } else {
        let m = lemma_redirected(from, from[x], (k - 1) as nat, v, u, j, start);
        assert(next[x] == from[x]);
        assert(arrives(next, x, start, m + 1));
        m + 1
    }
}

/// Numbers below `n` are `n` at the most.
pub proof fn lemma_few(s: Set<usize>, n: nat)
    requires
        s.finite(),
        forall|x: usize| #[trigger] s.contains(x) ==> x < n,
    ensures
        s.len() <= n,
    decreases n,
{
    if n == 0 {
        assert(s =~= Set::empty());
    } else if n - 1 <= usize::MAX {
        let top = (n - 1) as usize;
        lemma_few(s.remove(top), (n - 1) as nat);
    } else {
        lemma_few(s, (n - 1) as nat);
    }
}

} // verus!
