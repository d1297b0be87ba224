//! Reachability in a dense graph.

use vstd::prelude::*;

use super::dense;
use super::dense::Dense;

verus! {

/// An entry is counted.
pub proof fn lemma_count_positive(edges: Seq<(u32, u64)>, v: int)
    ensures
        dense::count_to(edges, v) > 0 <==> exists|k: int|
            0 <= k < edges.len() && (#[trigger] edges[k]).0 == v,
    decreases edges.len(),
{
    if edges.len() > 0 {
        lemma_count_positive(edges.drop_last(), v);
        if dense::count_to(edges, v) > 0 {
            if edges.last().0 == v {
                assert(edges[edges.len() - 1].0 == v);
            } else {
                let k = choose|k: int|
                    0 <= k < edges.drop_last().len() && (#[trigger] edges.drop_last()[k]).0 == v;
                assert(edges[k].0 == v);
            }
        }
        if exists|k: int| 0 <= k < edges.len() && (#[trigger] edges[k]).0 == v {
            let k = choose|k: int| 0 <= k < edges.len() && (#[trigger] edges[k]).0 == v;
            if k < edges.len() - 1 {
                assert(edges.drop_last()[k].0 == v);
            }
        }
    }
}

impl<'g> Dense<'g> {
    /// Whether an edge leads from `u` to `v`.
    pub open spec fn has_edge(&self, u: int, v: int) -> bool {
        &&& 0 <= u < self.size()
        &&& 0 <= v < self.size()
        &&& exists|k: int| 0 <= k < self.outs(u).len() && (#[trigger] self.outs(u)[k]).0 == v
    }

    /// Whether `path` goes from `u` to `v` along edges.
    pub open spec fn is_path(&self, path: Seq<int>, u: int, v: int) -> bool {
        &&& path.len() > 0
        &&& path[0] == u
        &&& path.last() == v
        &&& forall|i: int| 0 <= i < path.len() ==> 0 <= #[trigger] path[i] < self.size()
        &&& forall|i: int| 0 <= i < path.len() - 1 ==> #[trigger] self.has_edge(path[i], path[i + 1])
    }

    /// Whether `v` can be reached from `u`, by a path of no edges or more.
    pub open spec fn reaches(&self, u: int, v: int) -> bool {
        exists|path: Seq<int>| self.is_path(path, u, v)
    }

    /// Whether each of `u` and `v` can be reached from the other.
    pub open spec fn mutual(&self, u: int, v: int) -> bool {
        self.reaches(u, v) && self.reaches(v, u)
    }

    pub proof fn lemma_reaches_self(&self, u: int)
        requires
            0 <= u < self.size(),
        ensures
            self.reaches(u, u),
            self.mutual(u, u),
    {
        assert(self.is_path(seq![u], u, u));
    }

    pub proof fn lemma_reaches_edge(&self, u: int, v: int)
        requires
            self.has_edge(u, v),
        ensures
            self.reaches(u, v),
    {
        let path = seq![u, v];
        assert(self.has_edge(path[0], path[1]));
        assert(self.is_path(path, u, v));
    }

    pub proof fn lemma_reaches_transitive(&self, u: int, v: int, w: int)
        requires
            self.reaches(u, v),
            self.reaches(v, w),
        ensures
            self.reaches(u, w),
    {
        let p = choose|p: Seq<int>| self.is_path(p, u, v);
        let q = choose|q: Seq<int>| self.is_path(q, v, w);
        let r = p + q.subrange(1, q.len() as int);
        assert forall|i: int| 0 <= i < r.len() - 1 implies #[trigger] self.has_edge(r[i], r[i + 1]) by {
            if i < p.len() - 1 {
                assert(self.has_edge(p[i], p[i + 1]));
            } else {
                let k = i - (p.len() - 1);
                assert(r[i] == q[k]);
                assert(r[i + 1] == q[k + 1]);
                assert(self.has_edge(q[k], q[k + 1]));
            }
        }
        assert forall|i: int| 0 <= i < r.len() implies 0 <= #[trigger] r[i] < self.size() by {
            if i < p.len() {
                assert(r[i] == p[i]);
            } else {
                assert(r[i] == q[i - p.len() + 1]);
            }
        }
        assert(r.last() == w);
        assert(self.is_path(r, u, w));
    }

    /// An edge is recorded at its far end too.
    pub proof fn lemma_edge_both_ends(&self, u: int, v: int)
        requires
            self.wf(),
            0 <= u < self.size(),
            0 <= v < self.size(),
        ensures
            self.has_edge(u, v) <==> exists|k: int| 0 <= k < self.ins(v).len() && (#[trigger] self.ins(v)[k]).0 == u,
    {
        lemma_count_positive(self.outs(u), v);
        lemma_count_positive(self.ins(v), u);
        assert(dense::count_to(self.outs(u), v) == dense::count_to(self.ins(v), u));
    }
}

} // verus!
