//! The first pass of the component search: a depth-first finishing order.

use vstd::prelude::*;

use super::dense::Dense;

verus! {

/// Whether `x` is open on the stack: entered, and not finished yet.
pub open spec fn is_open(s: Seq<(usize, bool)>, x: int) -> bool {
    exists|i: int| 0 <= i < s.len() && (#[trigger] s[i]).1 && s[i].0 == x
}

/// Whether `x` has finished.
pub open spec fn is_done(o: Seq<usize>, x: int) -> bool {
    exists|i: int| 0 <= i < o.len() && #[trigger] o[i] == x
}

/// Whether every edge out of stack entry `i` is dealt with: its far end was
/// entered, or waits above.
pub open spec fn covered(g: &Dense, v: Seq<bool>, s: Seq<(usize, bool)>, i: int) -> bool {
    forall|y: int| #[trigger]
        g.has_edge(s[i].0 as int, y) ==> v[y] || exists|j: int|
            i < j < s.len() && (#[trigger] s[j]).0 == y
}

/// What a finished node can reach: something open that it is mutual with, or
/// nodes that finished no later than some node it is mutual with.
pub open spec fn bounded(g: &Dense, o: Seq<usize>, s: Seq<(usize, bool)>, a: int, b: int) -> bool {
    ||| exists|c: int| #[trigger] is_open(s, c) && g.mutual(a, c)
    ||| exists|j: int, k: int|
        0 <= j <= k < o.len() && #[trigger] o[j] == b && g.mutual(a, #[trigger] o[k] as int)
}

/// The state of a depth-first search, all but the coverage of entry `top`.
pub open spec fn search_wf_but(
    g: &Dense,
    v: Seq<bool>,
    o: Seq<usize>,
    s: Seq<(usize, bool)>,
    top: int,
) -> bool {
    &&& v.len() == g.size()
    &&& forall|i: int| 0 <= i < o.len() ==> (#[trigger] o[i]) < g.size() && v[o[i] as int]
    &&& forall|i: int, j: int| 0 <= i < j < o.len() ==> #[trigger] o[i] != #[trigger] o[j]
    &&& forall|i: int| 0 <= i < s.len() ==> (#[trigger] s[i]).0 < g.size()
    &&& forall|i: int|
        0 <= i < s.len() && (#[trigger] s[i]).1 ==> v[s[i].0 as int] && !is_done(o, s[i].0 as int)
    &&& forall|i: int, j: int|
        0 <= i < j < s.len() && (#[trigger] s[i]).1 && (#[trigger] s[j]).1 ==> s[i].0 != s[j].0
    &&& forall|x: int| 0 <= x < g.size() && #[trigger] v[x] ==> is_done(o, x) || is_open(s, x)
    &&& forall|i: int, j: int|
        0 <= i < j < s.len() && (#[trigger] s[i]).1 ==> g.reaches(s[i].0 as int, (#[trigger] s[j]).0 as int)
    &&& forall|i: int| 0 <= i < s.len() && i != top && (#[trigger] s[i]).1 ==> covered(g, v, s, i)
    &&& forall|i: int, y: int|
        0 <= i < o.len() && #[trigger] g.has_edge((#[trigger] o[i]) as int, y) ==> v[y]
    &&& forall|i: int, b: int|
        0 <= i < o.len() && #[trigger] g.reaches((#[trigger] o[i]) as int, b) ==> bounded(
            g,
            o,
            s,
            o[i] as int,
            b,
        )
}

/// The state of a depth-first search between two steps.
pub open spec fn search_wf(g: &Dense, v: Seq<bool>, o: Seq<usize>, s: Seq<(usize, bool)>) -> bool {
    search_wf_but(g, v, o, s, -1)
}

/// How many nodes have not been entered.
pub open spec fn unvisited(v: Seq<bool>) -> nat
    decreases v.len(),
{
    if v.len() == 0 {
        0
    } else {
        unvisited(v.drop_last()) + if v.last() {
            0nat
        } else {
            1nat
        }
    }
}

pub proof fn lemma_unvisited_drops(v: Seq<bool>, x: int)
    requires
        0 <= x < v.len(),
        !v[x],
    ensures
        unvisited(v.update(x, true)) == unvisited(v) - 1,
    decreases v.len(),
{
    if x == v.len() - 1 {
        assert(v.update(x, true).drop_last() =~= v.drop_last());
    } else {
        assert(v.update(x, true).drop_last() =~= v.drop_last().update(x, true));
        lemma_unvisited_drops(v.drop_last(), x);
    }
}

/// Following a path out of the finishing node `x` stays among finished nodes,
/// or meets an open one that `x` is mutual with.
proof fn lemma_exit(
    g: &Dense,
    v: Seq<bool>,
    o: Seq<usize>,
    s: Seq<(usize, bool)>,
    path: Seq<int>,
    b: int,
    m: int,
)
    requires
        search_wf(g, v, o, s),
        s.len() > 0,
        s.last().1,
        g.is_path(path, s.last().0 as int, b),
        0 <= m < path.len(),
        is_done(o, path[m]) || path[m] == s.last().0,
    ensures
        is_done(o, b) || b == s.last().0 || exists|c: int| #[trigger]
            is_open(s.drop_last(), c) && g.mutual(s.last().0 as int, c),
    decreases path.len() - m,
{
    let x = s.last().0 as int;
    if m < path.len() - 1 {
        let y = path[m + 1];
        assert(g.has_edge(path[m], path[m + 1]));
        if is_done(o, path[m]) {
            let i = choose|i: int| 0 <= i < o.len() && #[trigger] o[i] == path[m];
            assert(g.has_edge(o[i] as int, y));
            assert(v[y]);
        } else {
            assert(s[s.len() - 1].1);
            assert(covered(g, v, s, s.len() - 1));
            assert(g.has_edge(s[s.len() - 1].0 as int, y));
            assert(v[y]);
        }
        if is_done(o, y) || y == x {
            lemma_exit(g, v, o, s, path, b, m + 1);
        } else {
            assert(is_open(s, y));
            let i = choose|i: int| 0 <= i < s.len() && (#[trigger] s[i]).1 && s[i].0 == y;
            assert(i < s.len() - 1);
            assert(s.drop_last()[i] == s[i]);
            assert(is_open(s.drop_last(), y));
            assert(g.reaches(s[i].0 as int, s[s.len() - 1].0 as int));
            let prefix = path.take(m + 2);
            assert forall|q: int| 0 <= q < prefix.len() - 1 implies #[trigger] g.has_edge(prefix[q],
                prefix[q + 1],
            ) by {
                assert(g.has_edge(path[q], path[q + 1]));
            }
            assert(g.is_path(prefix, x, y));
            assert(g.mutual(x, y));
        }
    }
}

/// Finishing the node on top of the stack keeps the search well formed.
proof fn lemma_finish(g: &Dense, v: Seq<bool>, o: Seq<usize>, s: Seq<(usize, bool)>)
    requires
        search_wf(g, v, o, s),
        s.len() > 0,
        s.last().1,
    ensures
        search_wf(g, v, o.push(s.last().0), s.drop_last()),
{
    let x = s.last().0;
    let t = s.drop_last();
    let p = o.push(x);
    let last = s.len() - 1;
    assert(s[last].0 == x && s[last].1);
    assert(p[o.len() as int] == x);
    assert forall|i: int| 0 <= i < t.len() implies #[trigger] t[i] == s[i] by {}
    assert forall|i: int| 0 <= i < o.len() implies #[trigger] p[i] == o[i] by {}
    assert forall|z: int| #[trigger] is_done(o, z) implies is_done(p, z) by {
        let i = choose|i: int| 0 <= i < o.len() && #[trigger] o[i] == z;
        assert(p[i] == z);
    }
    assert(is_done(p, x as int));
    assert forall|z: int| #[trigger] is_open(s, z) && z != x implies is_open(t, z) by {
        let i = choose|i: int| 0 <= i < s.len() && (#[trigger] s[i]).1 && s[i].0 == z;
        assert(t[i] == s[i]);
    }
    assert forall|i: int, j: int| 0 <= i < j < p.len() implies #[trigger] p[i] != #[trigger] p[j] by {
        if j == o.len() {
            assert(!is_done(o, x as int));
            assert(o[i] == p[i]);
        }
    }
    assert forall|i: int| 0 <= i < t.len() && (#[trigger] t[i]).1 implies v[t[i].0 as int]
        && !is_done(p, t[i].0 as int) by {
        assert(s[i].1);
        assert(s[i].0 != s[last].0);
        if is_done(p, t[i].0 as int) {
            let k = choose|k: int| 0 <= k < p.len() && #[trigger] p[k] == t[i].0;
            if k < o.len() {
                assert(o[k] == s[i].0);
                assert(is_done(o, s[i].0 as int));
            }
        }
    }
    assert forall|z: int| 0 <= z < g.size() && #[trigger] v[z] implies is_done(p, z) || is_open(t, z) by {
        assert(is_done(o, z) || is_open(s, z));
    }
    assert forall|i: int| 0 <= i < t.len() && (#[trigger] t[i]).1 implies covered(g, v, t, i) by {
        assert(s[i].1);
        assert(covered(g, v, s, i));
        assert forall|y: int| #[trigger] g.has_edge(t[i].0 as int, y) implies v[y] || exists|j: int|
            i < j < t.len() && (#[trigger] t[j]).0 == y by {
            assert(g.has_edge(s[i].0 as int, y));
            if !v[y] {
                let j = choose|j: int| i < j < s.len() && (#[trigger] s[j]).0 == y;
                if j == last {
                    assert(v[x as int]);
                }
                assert(t[j].0 == y);
            }
        }
    }
    assert forall|i: int, y: int| 0 <= i < p.len() && #[trigger] g.has_edge((#[trigger] p[i]) as int,
        y,
    ) implies v[y] by {
        if i == o.len() {
            assert(covered(g, v, s, last));
            assert(g.has_edge(s[last].0 as int, y));
        } else {
            assert(g.has_edge(o[i] as int, y));
        }
    }
    assert forall|i: int, b: int| 0 <= i < p.len() && #[trigger] g.reaches((#[trigger] p[i]) as int,
        b,
    ) implies bounded(g, p, t, p[i] as int, b) by {
        let a = p[i] as int;
        g.lemma_reaches_self(x as int);
        if i < o.len() {
            assert(g.reaches(o[i] as int, b));
            assert(bounded(g, o, s, a, b));
        }
        if i < o.len() && (exists|j: int, k: int|
            0 <= j <= k < o.len() && #[trigger] o[j] == b && g.mutual(a, #[trigger] o[k] as int)) {
            let (j, k) = choose|j: int, k: int|
                0 <= j <= k < o.len() && #[trigger] o[j] == b && g.mutual(a, #[trigger] o[k] as int);
            assert(p[j] == b && g.mutual(a, p[k] as int));
        } else if i < o.len() && (exists|c: int| #[trigger] is_open(s, c) && g.mutual(a, c) && c != x) {
            let c = choose|c: int| #[trigger] is_open(s, c) && g.mutual(a, c) && c != x;
            assert(is_open(t, c));
        } else {
            assert(g.mutual(a, x as int));
            g.lemma_reaches_transitive(x as int, a, b);
            let path = choose|path: Seq<int>| g.is_path(path, x as int, b);
            lemma_exit(g, v, o, s, path, b, 0);
            if is_done(o, b) || b == x {
                assert(is_done(p, b));
                let j = choose|j: int| 0 <= j < p.len() && #[trigger] p[j] == b;
                assert(p[j] == b && g.mutual(a, p[o.len() as int] as int));
            } else {
                let c = choose|c: int| #[trigger] is_open(t, c) && g.mutual(x as int, c);
                g.lemma_reaches_transitive(a, x as int, c);
                g.lemma_reaches_transitive(c, x as int, a);
                assert(is_open(t, c) && g.mutual(a, c));
            }
        }
    }
}

/// Taking an already entered node off the stack keeps the search well formed.
proof fn lemma_skip(g: &Dense, v: Seq<bool>, o: Seq<usize>, s: Seq<(usize, bool)>)
    requires
        search_wf(g, v, o, s),
        s.len() > 0,
        !s.last().1,
        v[s.last().0 as int],
    ensures
        search_wf(g, v, o, s.drop_last()),
{
    let t = s.drop_last();
    assert forall|i: int| 0 <= i < t.len() implies #[trigger] t[i] == s[i] by {}
    lemma_open_kept(s);
    assert forall|i: int| 0 <= i < t.len() && (#[trigger] t[i]).1 implies covered(g, v, t, i) by {
        assert(s[i].1);
        assert(covered(g, v, s, i));
        assert forall|y: int| #[trigger] g.has_edge(t[i].0 as int, y) implies v[y] || exists|j: int|
            i < j < t.len() && (#[trigger] t[j]).0 == y by {
            assert(g.has_edge(s[i].0 as int, y));
            if !v[y] {
                let j = choose|j: int| i < j < s.len() && (#[trigger] s[j]).0 == y;
                assert(t[j].0 == y);
            }
        }
    }
    assert forall|i: int, b: int| 0 <= i < o.len() && #[trigger] g.reaches((#[trigger] o[i]) as int,
        b,
    ) implies bounded(g, o, t, o[i] as int, b) by {
        assert(bounded(g, o, s, o[i] as int, b));
    }
}

/// Removing an entry that is not open leaves the same nodes open.
proof fn lemma_open_kept(s: Seq<(usize, bool)>)
    requires
        s.len() > 0,
        !s.last().1,
    ensures
        forall|z: int| #[trigger] is_open(s, z) ==> is_open(s.drop_last(), z),
        forall|z: int| #[trigger] is_open(s.drop_last(), z) ==> is_open(s, z),
{
    let t = s.drop_last();
    assert forall|z: int| #[trigger] is_open(s, z) implies is_open(t, z) by {
        let i = choose|i: int| 0 <= i < s.len() && (#[trigger] s[i]).1 && s[i].0 == z;
        assert(t[i] == s[i]);
    }
    assert forall|z: int| #[trigger] is_open(t, z) implies is_open(s, z) by {
        let i = choose|i: int| 0 <= i < t.len() && (#[trigger] t[i]).1 && t[i].0 == z;
        assert(s[i] == t[i]);
    }
}

/// Entering the node on top of the stack keeps the search well formed, but for
/// the edges out of that node.
proof fn lemma_enter(g: &Dense, v: Seq<bool>, o: Seq<usize>, s: Seq<(usize, bool)>)
    requires
        search_wf(g, v, o, s),
        s.len() > 0,
        !s.last().1,
        !v[s.last().0 as int],
    ensures
        search_wf_but(
            g,
            v.update(s.last().0 as int, true),
            o,
            s.drop_last().push((s.last().0, true)),
            s.len() - 1,
        ),
{
    let x = s.last().0;
    let last = s.len() - 1;
    let w = v.update(x as int, true);
    let t = s.drop_last().push((x, true));
    assert(s[last].0 == x);
    assert forall|i: int| 0 <= i < last implies #[trigger] t[i] == s[i] by {}
    assert(t[last] == (x, true));
    assert forall|z: int| #[trigger] is_open(s, z) implies is_open(t, z) by {
        let i = choose|i: int| 0 <= i < s.len() && (#[trigger] s[i]).1 && s[i].0 == z;
        assert(t[i] == s[i]);
    }
    assert(is_open(t, x as int));
    assert forall|i: int| 0 <= i < t.len() && (#[trigger] t[i]).1 implies w[t[i].0 as int] && !is_done(
        o,
        t[i].0 as int,
    ) by {
        if i == last {
            if is_done(o, x as int) {
                let k = choose|k: int| 0 <= k < o.len() && #[trigger] o[k] == x;
                assert(v[o[k] as int]);
            }
        } else {
            assert(s[i].1);
        }
    }
    assert forall|i: int, j: int| 0 <= i < j < t.len() && (#[trigger] t[i]).1 && (#[trigger] t[j]).1
        implies t[i].0 != t[j].0 by {
        assert(s[i].1);
        if j == last {
            assert(v[s[i].0 as int]);
        } else {
            assert(s[j].1);
        }
    }
    assert forall|i: int, j: int| 0 <= i < j < t.len() && (#[trigger] t[i]).1 implies g.reaches(t[i].0 as int,
        (#[trigger] t[j]).0 as int,
    ) by {
        assert(s[i].1);
        assert(t[j].0 == s[j].0);
    }
    assert forall|i: int| 0 <= i < t.len() && i != last && (#[trigger] t[i]).1 implies covered(
        g,
        w,
        t,
        i,
    ) by {
        assert(s[i].1);
        assert(covered(g, v, s, i));
        assert forall|y: int| #[trigger] g.has_edge(t[i].0 as int, y) implies w[y] || exists|j: int|
            i < j < t.len() && (#[trigger] t[j]).0 == y by {
            assert(g.has_edge(s[i].0 as int, y));
            if !v[y] {
                let j = choose|j: int| i < j < s.len() && (#[trigger] s[j]).0 == y;
                assert(t[j].0 == y);
            }
        }
    }
    assert forall|i: int, b: int| 0 <= i < o.len() && #[trigger] g.reaches((#[trigger] o[i]) as int,
        b,
    ) implies bounded(g, o, t, o[i] as int, b) by {
        assert(bounded(g, o, s, o[i] as int, b));
    }
}

/// Pushing a neighbour of the node just entered keeps the search well formed,
/// but for the edges out of that node.
proof fn lemma_push(
    g: &Dense,
    v: Seq<bool>,
    o: Seq<usize>,
    s: Seq<(usize, bool)>,
    top: int,
    y: usize,
)
    requires
        search_wf_but(g, v, o, s, top),
        0 <= top < s.len(),
        s[top].1,
        forall|j: int| top < j < s.len() ==> !(#[trigger] s[j]).1,
        g.has_edge(s[top].0 as int, y as int),
    ensures
        search_wf_but(g, v, o, s.push((y, false)), top),
{
    let t = s.push((y, false));
    assert forall|i: int| 0 <= i < s.len() implies #[trigger] t[i] == s[i] by {}
    assert(t.drop_last() =~= s);
    lemma_open_kept(t);
    g.lemma_reaches_edge(s[top].0 as int, y as int);
    assert forall|i: int, j: int| 0 <= i < j < t.len() && (#[trigger] t[i]).1 implies g.reaches(t[i].0 as int,
        (#[trigger] t[j]).0 as int,
    ) by {
        assert(s[i].1);
        if j == s.len() {
            assert(i <= top);
            if i < top {
                assert(g.reaches(s[i].0 as int, s[top].0 as int));
                g.lemma_reaches_transitive(s[i].0 as int, s[top].0 as int, y as int);
            }
        } else {
            assert(t[j] == s[j]);
        }
    }
    assert forall|i: int| 0 <= i < t.len() && i != top && (#[trigger] t[i]).1 implies covered(
        g,
        v,
        t,
        i,
    ) by {
        assert(s[i].1);
        assert(covered(g, v, s, i));
        assert forall|z: int| #[trigger] g.has_edge(t[i].0 as int, z) implies v[z] || exists|j: int|
            i < j < t.len() && (#[trigger] t[j]).0 == z by {
            assert(g.has_edge(s[i].0 as int, z));
            if !v[z] {
                let j = choose|j: int| i < j < s.len() && (#[trigger] s[j]).0 == z;
                assert(t[j].0 == z);
            }
        }
    }
    assert forall|i: int, b: int| 0 <= i < o.len() && #[trigger] g.reaches((#[trigger] o[i]) as int,
        b,
    ) implies bounded(g, o, t, o[i] as int, b) by {
        assert(bounded(g, o, s, o[i] as int, b));
    }
}

/// Enters `x`, which the caller has taken off the stack: marks it, puts it back
/// as open, and stacks those of its neighbours that have not been entered.
fn enter(g: &Dense, x: usize, visited: &mut Vec<bool>, order: &Vec<usize>, stack: &mut Vec<(usize, bool)>)
    requires
        g.wf(),
        x < g.size(),
        search_wf(g, old(visited)@, order@, old(stack)@.push((x, false))),
        !old(visited)@[x as int],
    ensures
        search_wf(g, final(visited)@, order@, final(stack)@),
        final(visited)@ == old(visited)@.update(x as int, true),
        old(stack)@.is_prefix_of(final(stack)@),
{
    let ghost before = stack@.push((x, false));
    proof {
        lemma_enter(g, visited@, order@, before);
        assert(before.drop_last() =~= stack@);
    }
    visited.set(x, true);
    let top: usize = stack.len();
    stack.push((x, true));
    let edges = g.out(x);
    let mut k: usize = 0;
    while k < edges.len()
        invariant
            g.wf(),
            x < g.size(),
            edges@ == g.outs(x as int),
            forall|q: int| 0 <= q < edges@.len() ==> (#[trigger] edges@[q]).0 < g.size(),
            k <= edges@.len(),
            top < stack@.len(),
            stack@[top as int] == (x, true),
            search_wf_but(g, visited@, order@, stack@, top as int),
            visited@ == old(visited)@.update(x as int, true),
            top == old(stack)@.len(),
            old(stack)@.is_prefix_of(stack@),
            forall|j: int| top < j < stack@.len() ==> !(#[trigger] stack@[j]).1,
            forall|q: int|
                0 <= q < k ==> visited@[(#[trigger] edges@[q]).0 as int] || exists|j: int|
                    top < j < stack@.len() && (#[trigger] stack@[j]).0 == edges@[q].0,
        decreases edges@.len() - k,
    {
        let next: usize = edges[k].0 as usize;
        if !visited[next] {
            let ghost s = stack@;
            proof {
                assert(g.outs(x as int)[k as int].0 == next);
                lemma_push(g, visited@, order@, stack@, top as int, next);
            }
            stack.push((next, false));
            proof {
                assert forall|q: int| 0 <= q < k + 1 implies visited@[(#[trigger] edges@[q]).0 as int]
                    || exists|j: int| top < j < stack@.len() && (#[trigger] stack@[j]).0 == edges@[q].0 by {
                    if q == k {
                        assert(stack@[s.len() as int].0 == edges@[q].0);
                    } else if !visited@[edges@[q].0 as int] {
                        let j = choose|j: int| top < j < s.len() && (#[trigger] s[j]).0 == edges@[q].0;
                        assert(stack@[j].0 == edges@[q].0);
                    }
                }
            }
        }
        k = k + 1;
    }
    proof {
        assert(covered(g, visited@, stack@, top as int)) by {
            assert forall|y: int| #[trigger] g.has_edge(stack@[top as int].0 as int, y) implies visited@[y]
                || exists|j: int| top < j < stack@.len() && (#[trigger] stack@[j]).0 == y by {
                let q = choose|q: int|
                    0 <= q < g.outs(x as int).len() && (#[trigger] g.outs(x as int)[q]).0 == y;
                assert(edges@[q].0 == y);
            }
        }
    }
}

/// Searches depth first from `root`, appending each node met as it finishes.
fn visit_from(g: &Dense, root: usize, visited: &mut Vec<bool>, order: &mut Vec<usize>)
    requires
        g.wf(),
        root < g.size(),
        search_wf(g, old(visited)@, old(order)@, Seq::empty()),
        !old(visited)@[root as int],
    ensures
        search_wf(g, final(visited)@, final(order)@, Seq::empty()),
        final(visited)@[root as int],
        forall|u: int| 0 <= u < g.size() && #[trigger] old(visited)@[u] ==> final(visited)@[u],
{
    let mut stack: Vec<(usize, bool)> = Vec::new();
    stack.push((root, false));
    proof {
        assert forall|i: int, b: int| 0 <= i < order@.len() && #[trigger] g.reaches((#[trigger] order@[i]) as int,
            b,
        ) implies bounded(g, order@, stack@, order@[i] as int, b) by {
            assert(bounded(g, order@, Seq::empty(), order@[i] as int, b));
        }
        assert(search_wf(g, visited@, order@, stack@));
        assert(stack@[0].0 == root);
    }
    while stack.len() > 0
        invariant
            g.wf(),
            root < g.size(),
            search_wf(g, visited@, order@, stack@),
            forall|u: int| 0 <= u < g.size() && #[trigger] old(visited)@[u] ==> visited@[u],
            visited@[root as int] || exists|j: int| 0 <= j < stack@.len() && (#[trigger] stack@[j]).0 == root,
        decreases unvisited(visited@), stack@.len(),
    {
        let ghost s = stack@;
        let ghost v = visited@;
        assert(s[s.len() - 1].0 < g.size());
        let entry = stack.pop().unwrap();
        proof {
            assert(stack@ =~= s.drop_last());
            assert(s.last() == entry);
        }
        if entry.1 {
            proof {
                lemma_finish(g, visited@, order@, s);
            }
            order.push(entry.0);
        } else if visited[entry.0] {
            proof {
                lemma_skip(g, visited@, order@, s);
            }
        } else {
            proof {
                assert(stack@.push((entry.0, false)) =~= s);
                lemma_unvisited_drops(visited@, entry.0 as int);
            }
            enter(g, entry.0, visited, order, &mut stack);
        }
        proof {
            if !visited@[root as int] {
                let j = choose|j: int| 0 <= j < s.len() && (#[trigger] s[j]).0 == root;
                assert(j < s.len() - 1);
                assert(s.drop_last()[j] == s[j]);
                assert(stack@[j].0 == root);
            }
        }
    }
    proof {
        assert(stack@ =~= Seq::empty());
    }
}

/// With nothing open, the search's order has the property the second pass needs.
proof fn lemma_finished(g: &Dense, v: Seq<bool>, o: Seq<usize>, i: int, j: int)
    requires
        search_wf(g, v, o, Seq::empty()),
        0 <= i < o.len(),
        0 <= j < o.len(),
        g.reaches(o[i] as int, o[j] as int),
    ensures
        exists|k: int| j <= k < o.len() && g.mutual(o[i] as int, #[trigger] o[k] as int),
{
    let a = o[i] as int;
    let b = o[j] as int;
    assert(bounded(g, o, Seq::empty(), a, b));
    assert(forall|c: int| !#[trigger] is_open(Seq::<(usize, bool)>::empty(), c));
    let (q, k) = choose|q: int, k: int|
        0 <= q <= k < o.len() && #[trigger] o[q] == b && g.mutual(a, #[trigger] o[k] as int);
    if q < j {
        assert(o[q] != o[j]);
    } else if j < q {
        assert(o[j] != o[q]);
    }
}

/// Whether some node mutual with the `i`-th stands at `j` or later in `order`.
pub open spec fn lasts_until(g: &Dense, order: Seq<usize>, i: int, j: int) -> bool {
    exists|k: int| j <= k < order.len() && g.mutual(order[i] as int, #[trigger] order[k] as int)
}

/// Whether a node reached from another one stands no later in `order` than some
/// node mutual with that other one.
pub open spec fn finishing(g: &Dense, order: Seq<usize>) -> bool {
    forall|i: int, j: int|
        0 <= i < order.len() && 0 <= j < order.len() && g.reaches(order[i] as int, order[j] as int)
            ==> #[trigger] lasts_until(g, order, i, j)
}

/// Every node, in the order a depth-first search finishes with it.
pub fn finish_order(g: &Dense) -> (order: Vec<usize>)
    requires
        g.wf(),
    ensures
        forall|i: int| 0 <= i < order@.len() ==> #[trigger] order@[i] < g.size(),
        forall|u: int| 0 <= u < g.size() ==> #[trigger] is_done(order@, u),
        finishing(g, order@),
{
    let n: usize = g.len();
    let mut visited: Vec<bool> = Vec::new();
    let mut i: usize = 0;
    while i < n
        invariant
            i <= n,
            visited@.len() == i,
            forall|u: int| 0 <= u < i ==> !(#[trigger] visited@[u]),
        decreases n - i,
    {
        visited.push(false);
        i = i + 1;
    }
    let mut order: Vec<usize> = Vec::new();
    let mut node: usize = 0;
    while node < n
        invariant
            n == g.size(),
            g.wf(),
            node <= n,
            search_wf(g, visited@, order@, Seq::empty()),
            forall|u: int| 0 <= u < node ==> #[trigger] visited@[u],
        decreases n - node,
    {
        let ghost v = visited@;
        if !visited[node] {
            visit_from(g, node, &mut visited, &mut order);
        }
        assert forall|u: int| 0 <= u < node + 1 implies #[trigger] visited@[u] by {
            assert(u < node ==> v[u]);
        }
        node = node + 1;
    }
    proof {
        assert forall|u: int| 0 <= u < g.size() implies #[trigger] is_done(order@, u) by {
            assert(visited@[u]);
        }
        assert forall|i: int, j: int| 0 <= i < order@.len() && 0 <= j < order@.len() && g.reaches(order@[i] as int,
            order@[j] as int,
        ) implies #[trigger] lasts_until(g, order@, i, j) by {
            lemma_finished(g, visited@, order@, i, j);
        }
    }
    order
}

} // verus!
