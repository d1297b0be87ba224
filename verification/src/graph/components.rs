//! Strongly connected components of a dense graph.

use vstd::prelude::*;

use super::dense::Dense;
use super::finish;
use super::finish::finish_order;

verus! {

/// Whether `label` gives every labelled node a node it is mutual with, and gives
/// all nodes that are mutual with it the same one.
pub open spec fn labels_wf(g: &Dense, label: Seq<usize>) -> bool {
    &&& label.len() == g.size()
    &&& forall|u: int|
        0 <= u < g.size() && (#[trigger] label[u]) < g.size() ==> g.mutual(label[u] as int, u)
    &&& forall|u: int, w: int|
        0 <= u < g.size() && 0 <= w < g.size() && label[u] < g.size() && #[trigger] g.mutual(u, w)
            ==> label[w] == label[u]
}

/// Whether `x` is among `s`.
pub open spec fn is_among(s: Seq<usize>, x: int) -> bool {
    exists|i: int| 0 <= i < s.len() && #[trigger] s[i] == x
}

/// The backward search from `root`: what has been labelled leads to `root`, and
/// so does what waits.
pub open spec fn backward_wf(
    g: &Dense,
    before: Seq<usize>,
    label: Seq<usize>,
    root: usize,
    s: Seq<usize>,
) -> bool {
    &&& label.len() == g.size()
    &&& before.len() == g.size()
    &&& forall|u: int|
        0 <= u < g.size() ==> (#[trigger] label[u] == before[u] || (label[u] == root && before[u]
            >= g.size() && g.reaches(u, root as int)))
    &&& forall|i: int| 0 <= i < s.len() ==> (#[trigger] s[i]) < g.size() && g.reaches(s[i] as int, root as int)
    &&& forall|u: int, p: int|
        0 <= u < g.size() && label[u] != before[u] && #[trigger] g.has_edge(p, u) ==> label[p]
            < g.size() || is_among(s, p)
    &&& label[root as int] == root || is_among(s, root as int)
}

/// How many nodes have no label.
pub open spec fn unlabelled(label: Seq<usize>, n: nat) -> nat
    decreases label.len(),
{
    if label.len() == 0 {
        0
    } else {
        unlabelled(label.drop_last(), n) + if label.last() < n {
            0nat
        } else {
            1nat
        }
    }
}

proof fn lemma_unlabelled_drops(label: Seq<usize>, n: nat, x: int, r: usize)
    requires
        0 <= x < label.len(),
        label[x] >= n,
        r < n,
    ensures
        unlabelled(label.update(x, r), n) == unlabelled(label, n) - 1,
    decreases label.len(),
{
    if x == label.len() - 1 {
        assert(label.update(x, r).drop_last() =~= label.drop_last());
    } else {
        assert(label.update(x, r).drop_last() =~= label.drop_last().update(x, r));
        lemma_unlabelled_drops(label.drop_last(), n, x, r);
    }
}

/// A suffix of a path into a labelled node is labelled.
proof fn lemma_whole_path_labelled(
    g: &Dense,
    before: Seq<usize>,
    label: Seq<usize>,
    root: usize,
    path: Seq<int>,
    m: int,
)
    requires
        g.wf(),
        root < g.size(),
        labels_wf(g, before),
        before[root as int] >= g.size(),
        backward_wf(g, before, label, root, Seq::empty()),
        path.len() > 0,
        g.is_path(path, path[0], root as int),
        g.mutual(path[0], root as int),
        0 <= m < path.len(),
    ensures
        label[path[m]] == root,
    decreases path.len() - m,
{
    if m == path.len() - 1 {
        assert(!is_among(Seq::<usize>::empty(), root as int));
    } else {
        lemma_whole_path_labelled(g, before, label, root, path, m + 1);
        let p = path[m];
        let u = path[m + 1];
        assert(g.has_edge(path[m], path[m + 1]));
        lemma_on_cycle(g, path, root as int, m);
        lemma_on_cycle(g, path, root as int, m + 1);
        if before[u] < g.size() {
            assert(before[root as int] == before[u]);
        }
        assert(label[u] != before[u]);
        assert(!is_among(Seq::<usize>::empty(), p));
        assert(label[p] < g.size());
        if before[p] < g.size() {
            assert(before[root as int] == before[p]);
        }
    }
}

/// Every node of a path between mutual ends is mutual with the last.
proof fn lemma_on_cycle(g: &Dense, path: Seq<int>, root: int, m: int)
    requires
        path.len() > 0,
        g.is_path(path, path[0], root),
        g.mutual(path[0], root),
        0 <= m < path.len(),
    ensures
        g.mutual(path[m], root),
        g.mutual(root, path[m]),
{
    let head = path.take(m + 1);
    assert forall|q: int| 0 <= q < head.len() - 1 implies #[trigger] g.has_edge(head[q], head[q + 1]) by {
        assert(g.has_edge(path[q], path[q + 1]));
    }
    assert(g.is_path(head, path[0], path[m]));
    let tail = path.subrange(m, path.len() as int);
    assert forall|q: int| 0 <= q < tail.len() - 1 implies #[trigger] g.has_edge(tail[q], tail[q + 1]) by {
        assert(g.has_edge(path[m + q], path[m + q + 1]));
    }
    assert(g.is_path(tail, path[m], root));
    g.lemma_reaches_transitive(root, path[0], path[m]);
}

/// Labels `root`'s component with `root`, walking edges backward through nodes
/// without a label.
fn label_component(g: &Dense, root: usize, label: &mut Vec<usize>)
    requires
        g.wf(),
        root < g.size(),
        labels_wf(g, old(label)@),
        old(label)@[root as int] >= g.size(),
        forall|u: int|
            0 <= u < g.size() && old(label)@[u] >= g.size() && #[trigger] g.reaches(u, root as int)
                ==> g.mutual(u, root as int),
    ensures
        labels_wf(g, final(label)@),
        final(label)@[root as int] < g.size(),
        forall|u: int|
            0 <= u < g.size() && #[trigger] old(label)@[u] < g.size() ==> final(label)@[u]
                == old(label)@[u],
{
    let ghost before = label@;
    let mut stack: Vec<usize> = Vec::new();
    stack.push(root);
    proof {
        g.lemma_reaches_self(root as int);
        assert(stack@[0] == root);
    }
    while stack.len() > 0
        invariant
            g.wf(),
            root < g.size(),
            labels_wf(g, before),
            before[root as int] >= g.size(),
            backward_wf(g, before, label@, root, stack@),
        decreases unlabelled(label@, g.size()), stack@.len(),
    {
        let ghost s = stack@;
        let ghost l = label@;
        assert(s[s.len() - 1] < g.size() && g.reaches(s[s.len() - 1] as int, root as int));
        let curr = stack.pop().unwrap();
        proof {
            assert(stack@ =~= s.drop_last());
            assert forall|x: int| #[trigger] is_among(s, x) && x != curr implies is_among(stack@, x) by {
                let i = choose|i: int| 0 <= i < s.len() && #[trigger] s[i] == x;
                assert(stack@[i] == x);
            }
        }
        if label[curr] < g.len() {
            proof {
                assert(backward_wf(g, before, label@, root, stack@));
            }
        } else {
            proof {
                lemma_unlabelled_drops(label@, g.size(), curr as int, root);
            }
            label.set(curr, root);
            let edges = g.inn(curr);
            let mut k: usize = 0;
            proof {
                assert forall|u: int, p: int| 0 <= u < g.size() && u != curr && label@[u] != before[u]
                    && #[trigger] g.has_edge(p, u) implies label@[p] < g.size() || is_among(stack@, p) by {
                    assert(l[u] != before[u]);
                    assert(l[p] < g.size() || is_among(s, p));
                }
            }
            while k < edges.len()
                invariant
                    g.wf(),
                    root < g.size(),
                    curr < g.size(),
                    g.reaches(curr as int, root as int),
                    edges@ == g.ins(curr as int),
                    forall|q: int| 0 <= q < edges@.len() ==> (#[trigger] edges@[q]).0 < g.size(),
                    k <= edges@.len(),
                    label@.len() == g.size(),
                    before.len() == g.size(),
                    forall|u: int|
                        0 <= u < g.size() ==> (#[trigger] label@[u] == before[u] || (label@[u] == root
                            && before[u] >= g.size() && g.reaches(u, root as int))),
                    forall|i: int|
                        0 <= i < stack@.len() ==> (#[trigger] stack@[i]) < g.size() && g.reaches(stack@[i] as int,
                            root as int,
                        ),
                    forall|u: int, p: int|
                        0 <= u < g.size() && u != curr && label@[u] != before[u] && #[trigger] g.has_edge(p,
                            u,
                        ) ==> label@[p] < g.size() || is_among(stack@, p),
                    label@[root as int] == root || is_among(stack@, root as int),
                    forall|q: int|
                        0 <= q < k ==> label@[(#[trigger] edges@[q]).0 as int] < g.size() || is_among(
                            stack@,
                            edges@[q].0 as int,
                        ),
                decreases edges@.len() - k,
            {
                let prev: usize = edges[k].0 as usize;
                if label[prev] >= g.len() {
                    let ghost t = stack@;
                    proof {
                        g.lemma_edge_both_ends(prev as int, curr as int);
                        assert(g.ins(curr as int)[k as int].0 == prev);
                        g.lemma_reaches_edge(prev as int, curr as int);
                        g.lemma_reaches_transitive(prev as int, curr as int, root as int);
                    }
                    stack.push(prev);
                    proof {
                        assert forall|x: int| #[trigger] is_among(t, x) implies is_among(stack@, x) by {
                            let i = choose|i: int| 0 <= i < t.len() && #[trigger] t[i] == x;
                            assert(stack@[i] == x);
                        }
                        assert(stack@[t.len() as int] == prev);
                        assert(is_among(stack@, prev as int));
                    }
                }
                k = k + 1;
            }
            proof {
                assert forall|u: int, p: int| 0 <= u < g.size() && label@[u] != before[u]
                    && #[trigger] g.has_edge(p, u) implies label@[p] < g.size() || is_among(stack@, p) by {
                    if u == curr {
                        g.lemma_edge_both_ends(p, curr as int);
                        let q = choose|q: int|
                            0 <= q < g.ins(curr as int).len() && (#[trigger] g.ins(curr as int)[q]).0 == p;
                        assert(edges@[q].0 == p);
                    }
                }
            }
        }
    }
    proof {
        assert(stack@ =~= Seq::empty());
        assert forall|u: int| 0 <= u < g.size() && #[trigger] g.mutual(u, root as int) implies label@[u]
            == root by {
            let path = choose|path: Seq<int>| g.is_path(path, u, root as int);
            lemma_whole_path_labelled(g, before, label@, root, path, 0);
        }
        assert forall|u: int| 0 <= u < g.size() && #[trigger] label@[u] != before[u] implies g.mutual(u,
            root as int,
        ) by {
            assert(g.reaches(u, root as int));
        }
        g.lemma_reaches_self(root as int);
        assert forall|u: int, w: int| 0 <= u < g.size() && 0 <= w < g.size() && label@[u] < g.size()
            && #[trigger] g.mutual(u, w) implies label@[w] == label@[u] by {
            if label@[u] != before[u] {
                assert(g.mutual(u, root as int));
                g.lemma_reaches_transitive(w, u, root as int);
                g.lemma_reaches_transitive(root as int, u, w);
                assert(g.mutual(w, root as int));
            } else {
                assert(before[w] == before[u]);
                assert(label@[w] == before[w] || before[w] >= g.size());
            }
        }
    }
}

/// Among the nodes without a label, those that reach the last to finish are
/// mutual with it.
proof fn lemma_last_leads(g: &Dense, order: Seq<usize>, label: Seq<usize>, i: int)
    requires
        g.wf(),
        labels_wf(g, label),
        0 <= i < order.len(),
        forall|k: int| 0 <= k < order.len() ==> #[trigger] order[k] < g.size(),
        forall|u: int| 0 <= u < g.size() ==> #[trigger] finish::is_done(order, u),
        finish::finishing(g, order),
        forall|k: int| i < k < order.len() ==> label[#[trigger] order[k] as int] < g.size(),
    ensures
        forall|u: int|
            0 <= u < g.size() && label[u] >= g.size() && #[trigger] g.reaches(u, order[i] as int)
                ==> g.mutual(u, order[i] as int),
{
    assert forall|u: int| 0 <= u < g.size() && label[u] >= g.size() && #[trigger] g.reaches(u,
        order[i] as int,
    ) implies g.mutual(u, order[i] as int) by {
        assert(finish::is_done(order, u));
        let a = choose|a: int| 0 <= a < order.len() && #[trigger] order[a] == u;
        assert(finish::lasts_until(g, order, a, i));
        let k = choose|k: int| i <= k < order.len() && g.mutual(order[a] as int, #[trigger] order[k] as int);
        if k > i {
            assert(label[order[k] as int] < g.size());
            assert(g.mutual(order[k] as int, u));
        }
    }
}

/// A node of each node's own component, the same one throughout a component.
fn component_labels(g: &Dense) -> (label: Vec<usize>)
    requires
        g.wf(),
    ensures
        labels_wf(g, label@),
        forall|u: int| 0 <= u < g.size() ==> #[trigger] label@[u] < g.size(),
{
    let n: usize = g.len();
    let order = finish_order(g);
    let mut label: Vec<usize> = Vec::new();
    while label.len() < n
        invariant
            label@.len() <= n,
            forall|u: int| 0 <= u < label@.len() ==> #[trigger] label@[u] == n,
        decreases n - label@.len(),
    {
        label.push(n);
    }
    let mut i: usize = order.len();
    while i > 0
        invariant
            n == g.size(),
            g.wf(),
            i <= order@.len(),
            labels_wf(g, label@),
            forall|k: int| 0 <= k < order@.len() ==> #[trigger] order@[k] < g.size(),
            forall|u: int| 0 <= u < g.size() ==> #[trigger] finish::is_done(order@, u),
            finish::finishing(g, order@),
            forall|k: int| i <= k < order@.len() ==> label@[#[trigger] order@[k] as int] < g.size(),
        decreases i,
    {
        i = i - 1;
        let root: usize = order[i];
        let ghost before = label@;
        if label[root] >= n {
            proof {
                lemma_last_leads(g, order@, label@, i as int);
            }
            label_component(g, root, &mut label);
        }
        assert forall|k: int| i <= k < order@.len() implies label@[#[trigger] order@[k] as int]
            < g.size() by {
            if k > i {
                assert(before[order@[k] as int] < g.size());
            }
        }
    }
    proof {
        assert forall|u: int| 0 <= u < g.size() implies #[trigger] label@[u] < g.size() by {
            assert(finish::is_done(order@, u));
            let a = choose|a: int| 0 <= a < order@.len() && #[trigger] order@[a] == u;
            assert(label@[order@[a] as int] < g.size());
        }
    }
    label
}

/// Whether `comps` lists classes of `0..n` by first member, each class ascending.
pub open spec fn canonical(comps: Seq<Vec<usize>>, n: int) -> bool {
    &&& forall|c: int| 0 <= c < comps.len() ==> (#[trigger] comps[c])@.len() > 0
    &&& forall|c: int, i: int|
        0 <= c < comps.len() && 0 <= i < comps[c]@.len() ==> #[trigger] comps[c]@[i] < n
    &&& forall|c: int, i: int, j: int|
        0 <= c < comps.len() && 0 <= i < j < comps[c]@.len() ==> #[trigger] comps[c]@[i]
            < #[trigger] comps[c]@[j]
    &&& forall|c: int, d: int|
        0 <= c < d < comps.len() ==> (#[trigger] comps[c])@[0] < (#[trigger] comps[d])@[0]
}

/// Whether node `u` is in component `c`.
pub open spec fn in_component(comps: Seq<Vec<usize>>, c: int, u: int) -> bool {
    exists|i: int| 0 <= i < comps[c]@.len() && #[trigger] comps[c]@[i] == u
}

/// Whether node `u` is in some component.
pub open spec fn is_grouped(comps: Seq<Vec<usize>>, u: int) -> bool {
    exists|c: int| 0 <= c < comps.len() && #[trigger] in_component(comps, c, u)
}

/// Whether `comps` are the classes of `label` on `0..upto`, in canonical form.
spec fn grouped(label: Seq<usize>, comps: Seq<Vec<usize>>, slot: Seq<usize>, upto: int) -> bool {
    let n = label.len() as int;
    &&& canonical(comps, upto)
    &&& comps.len() <= upto
    &&& slot.len() == n
    &&& forall|c: int, i: int|
        0 <= c < comps.len() && 0 <= i < comps[c]@.len() ==> slot[label[#[trigger] comps[c]@[i] as int] as int]
            == c
    &&& forall|r: int| 0 <= r < n ==> #[trigger] slot[r] == n || slot[r] < comps.len()
    &&& forall|u: int| 0 <= u < upto ==> slot[#[trigger] label[u] as int] < n && in_component(
        comps,
        slot[label[u] as int] as int,
        u,
    )
    &&& forall|r: int, q: int|
        0 <= r < n && 0 <= q < n && #[trigger] slot[r] == #[trigger] slot[q] && slot[r] < n ==> r == q
}

/// Lists the classes of equal labels, each ascending, ordered by first member.
fn group(label: &Vec<usize>) -> (comps: Vec<Vec<usize>>)
    requires
        forall|u: int| 0 <= u < label@.len() ==> #[trigger] label@[u] < label@.len(),
    ensures
        canonical(comps@, label@.len() as int),
        forall|u: int| 0 <= u < label@.len() ==> #[trigger] is_grouped(comps@, u),
        forall|c: int, d: int, u: int, w: int|
            0 <= c < comps@.len() && 0 <= d < comps@.len() && #[trigger] in_component(comps@, c, u)
                && #[trigger] in_component(comps@, d, w) ==> (label@[u] == label@[w] <==> c == d),
{
    let n: usize = label.len();
    let mut slot: Vec<usize> = Vec::new();
    while slot.len() < n
        invariant
            slot@.len() <= n,
            forall|u: int| 0 <= u < slot@.len() ==> #[trigger] slot@[u] == n,
        decreases n - slot@.len(),
    {
        slot.push(n);
    }
    let mut comps: Vec<Vec<usize>> = Vec::new();
    let mut u: usize = 0;
    while u < n
        invariant
            n == label@.len(),
            u <= n,
            forall|w: int| 0 <= w < label@.len() ==> #[trigger] label@[w] < label@.len(),
            grouped(label@, comps@, slot@, u as int),
        decreases n - u,
    {
        let ghost old_comps = comps@;
        let ghost old_slot = slot@;
        let r: usize = label[u];
        let c: usize = slot[r];
        if c == n {
            slot.set(r, comps.len());
            let mut fresh: Vec<usize> = Vec::new();
            fresh.push(u);
            comps.push(fresh);
            proof {
                lemma_fresh(label@, old_comps, old_slot, comps@, slot@, u);
            }
        } else {
            let comp = &mut comps[c];
            comp.push(u);
            proof {
                lemma_extended(label@, old_comps, slot@, comps@, u);
            }
        }
        u = u + 1;
    }
    proof {
        assert forall|w: int| 0 <= w < label@.len() implies #[trigger] is_grouped(comps@, w) by {
            assert(slot@[label@[w] as int] < n);
            assert(in_component(comps@, slot@[label@[w] as int] as int, w));
        }
        assert forall|c: int, d: int, x: int, w: int| 0 <= c < comps@.len() && 0 <= d < comps@.len()
            && #[trigger] in_component(comps@, c, x) && #[trigger] in_component(comps@, d, w) implies (
        label@[x] == label@[w] <==> c == d) by {
            let i = choose|i: int| 0 <= i < comps@[c]@.len() && #[trigger] comps@[c]@[i] == x;
            let j = choose|j: int| 0 <= j < comps@[d]@.len() && #[trigger] comps@[d]@[j] == w;
            assert(slot@[label@[comps@[c]@[i] as int] as int] == c);
            assert(slot@[label@[comps@[d]@[j] as int] as int] == d);
        }
    }
    comps
}

proof fn lemma_fresh(
    label: Seq<usize>,
    old_comps: Seq<Vec<usize>>,
    old_slot: Seq<usize>,
    comps: Seq<Vec<usize>>,
    slot: Seq<usize>,
    u: usize,
)
    requires
        u < label.len(),
        label.len() <= usize::MAX,
        forall|w: int| 0 <= w < label.len() ==> #[trigger] label[w] < label.len(),
        grouped(label, old_comps, old_slot, u as int),
        old_slot[label[u as int] as int] == label.len(),
        slot == old_slot.update(label[u as int] as int, old_comps.len() as usize),
        comps.len() == old_comps.len() + 1,
        forall|c: int| 0 <= c < old_comps.len() ==> #[trigger] comps[c] == old_comps[c],
        comps[old_comps.len() as int]@ == seq![u],
    ensures
        grouped(label, comps, slot, u + 1),
{
    let m = old_comps.len() as int;
    let r = label[u as int] as int;
    assert(comps[m]@[0] == u);
    assert(in_component(comps, m, u as int));
    assert forall|w: int| 0 <= w < u + 1 implies slot[#[trigger] label[w] as int] < label.len()
        && in_component(comps, slot[label[w] as int] as int, w) by {
        if w < u {
            assert(old_slot[label[w] as int] < label.len());
            assert(label[w] != r);
            let c = old_slot[label[w] as int] as int;
            assert(in_component(old_comps, c, w));
            assert(comps[c] == old_comps[c]);
        }
    }
    assert forall|c: int, i: int| 0 <= c < comps.len() && 0 <= i < comps[c]@.len() implies slot[label[
    #[trigger] comps[c]@[i] as int] as int] == c by {
        if c < m {
            assert(comps[c] == old_comps[c]);
            assert(old_comps[c]@[i] < u);
            assert(old_slot[label[old_comps[c]@[i] as int] as int] == c);
        }
    }
    assert forall|c: int, d: int| 0 <= c < d < comps.len() implies (#[trigger] comps[c])@[0] < (
    #[trigger] comps[d])@[0] by {
        assert(comps[c] == old_comps[c]);
        if d == m {
            assert(old_comps[c]@[0] < u);
        } else {
            assert(comps[d] == old_comps[d]);
        }
    }
    assert forall|c: int, i: int, j: int| 0 <= c < comps.len() && 0 <= i < j < comps[c]@.len() implies
        #[trigger] comps[c]@[i] < #[trigger] comps[c]@[j] by {
        if c < m {
            assert(comps[c] == old_comps[c]);
        }
    }
}

proof fn lemma_extended(
    label: Seq<usize>,
    old_comps: Seq<Vec<usize>>,
    slot: Seq<usize>,
    comps: Seq<Vec<usize>>,
    u: usize,
)
    requires
        u < label.len(),
        forall|w: int| 0 <= w < label.len() ==> #[trigger] label[w] < label.len(),
        grouped(label, old_comps, slot, u as int),
        slot[label[u as int] as int] < label.len(),
        comps.len() == old_comps.len(),
        forall|c: int|
            0 <= c < comps.len() && c != slot[label[u as int] as int] ==> #[trigger] comps[c] == old_comps[c],
        comps[slot[label[u as int] as int] as int]@ == old_comps[slot[label[u as int] as int] as int]@.push(u),
    ensures
        grouped(label, comps, slot, u + 1),
{
    let t = slot[label[u as int] as int] as int;
    assert(t < comps.len());
    assert(comps[t]@[old_comps[t]@.len() as int] == u);
    assert forall|w: int| 0 <= w < u + 1 implies slot[#[trigger] label[w] as int] < label.len()
        && in_component(comps, slot[label[w] as int] as int, w) by {
        if w < u {
            let c = slot[label[w] as int] as int;
            assert(in_component(old_comps, c, w));
            let i = choose|i: int| 0 <= i < old_comps[c]@.len() && #[trigger] old_comps[c]@[i] == w;
            assert(comps[c]@[i] == w);
        }
    }
    assert forall|c: int, i: int| 0 <= c < comps.len() && 0 <= i < comps[c]@.len() implies slot[label[
    #[trigger] comps[c]@[i] as int] as int] == c by {
        if c == t && i == old_comps[t]@.len() {
        } else {
            assert(comps[c]@[i] == old_comps[c]@[i]);
        }
    }
    assert forall|c: int| 0 <= c < comps.len() implies (#[trigger] comps[c])@.len() > 0 by {
        assert(old_comps[c]@.len() > 0);
    }
    assert forall|c: int, i: int| 0 <= c < comps.len() && 0 <= i < comps[c]@.len() implies
        #[trigger] comps[c]@[i] < u + 1 by {
        if c == t && i == old_comps[t]@.len() {
        } else {
            assert(comps[c]@[i] == old_comps[c]@[i]);
        }
    }
    assert forall|c: int, i: int, j: int| 0 <= c < comps.len() && 0 <= i < j < comps[c]@.len() implies
        #[trigger] comps[c]@[i] < #[trigger] comps[c]@[j] by {
        assert(comps[c]@[i] == old_comps[c]@[i]);
        if c == t && j == old_comps[t]@.len() {
            assert(old_comps[c]@[i] < u);
        } else {
            assert(comps[c]@[j] == old_comps[c]@[j]);
        }
    }
    assert forall|c: int, d: int| 0 <= c < d < comps.len() implies (#[trigger] comps[c])@[0] < (
    #[trigger] comps[d])@[0] by {
        assert(old_comps[c]@.len() > 0 && old_comps[d]@.len() > 0);
        assert(comps[c]@[0] == old_comps[c]@[0]);
        assert(comps[d]@[0] == old_comps[d]@[0]);
        assert(old_comps[c]@[0] < old_comps[d]@[0]);
    }
}

/// The strongly connected components, by Kosaraju's two passes.
///
/// Every node is in one component, two nodes share a component exactly when
/// each reaches the other, and the list is in canonical form.
pub fn components(g: &Dense) -> (comps: Vec<Vec<usize>>)
    requires
        g.wf(),
    ensures
        canonical(comps@, g.size() as int),
        forall|u: int| 0 <= u < g.size() ==> #[trigger] is_grouped(comps@, u),
        forall|c: int, d: int, u: int, w: int|
            0 <= c < comps@.len() && 0 <= d < comps@.len() && #[trigger] in_component(comps@, c, u)
                && #[trigger] in_component(comps@, d, w) ==> (g.mutual(u, w) <==> c == d),
{
    let label = component_labels(g);
    let comps = group(&label);
    proof {
        assert forall|c: int, d: int, u: int, w: int| 0 <= c < comps@.len() && 0 <= d < comps@.len()
            && #[trigger] in_component(comps@, c, u) && #[trigger] in_component(comps@, d, w) implies (
        g.mutual(u, w) <==> c == d) by {
            let i = choose|i: int| 0 <= i < comps@[c]@.len() && #[trigger] comps@[c]@[i] == u;
            let j = choose|j: int| 0 <= j < comps@[d]@.len() && #[trigger] comps@[d]@[j] == w;
            assert(0 <= u < g.size() && 0 <= w < g.size());
            if c == d {
                assert(g.mutual(label@[u] as int, u));
                assert(g.mutual(label@[w] as int, w));
                g.lemma_reaches_transitive(u, label@[u] as int, w);
                g.lemma_reaches_transitive(w, label@[u] as int, u);
            }
        }
    }
    comps
}

} // verus!
