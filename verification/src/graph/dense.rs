//! The integer-indexed view the algorithms run on.
//!
//! Node `u` is the `u`-th id in ascending order, so a tie broken by index is a
//! tie broken by id. Edges are flat arrays with an offset table per direction.

use vstd::prelude::*;
use vstd::slice::slice_subrange;

use crate::text;
use crate::text::{text_order, Order};

verus! {

/// How many entries of `edges` lead to `v`.
pub open spec fn count_to(edges: Seq<(u32, u64)>, v: int) -> nat
    decreases edges.len(),
{
    if edges.len() == 0 {
        0
    } else {
        count_to(edges.drop_last(), v) + if edges.last().0 == v {
            1nat
        } else {
            0nat
        }
    }
}

/// Whether `at` cuts an array of `total` entries into `n` runs.
pub open spec fn offsets_wf(at: Seq<u32>, n: int, total: int) -> bool {
    &&& at.len() == n + 1
    &&& at[0] == 0
    &&& at[n] == total
    &&& forall|i: int, j: int| 0 <= i <= j <= n ==> at[i] <= at[j]
}

/// The `u`-th run of `flat`.
pub open spec fn run_of(flat: Seq<(u32, u64)>, at: Seq<u32>, u: int) -> Seq<(u32, u64)> {
    flat.subrange(at[u] as int, at[u + 1] as int)
}

/// A dense view of one graph, borrowing its ids.
///
/// A weight is carried as the bit pattern of its binary64 value: nothing here
/// does arithmetic on it.
#[derive(Debug)]
pub struct Dense<'g> {
    /// The ids, strictly ascending.
    pub ids: Vec<&'g str>,
    /// Outgoing edges: `out[out_at[u]..out_at[u + 1]]` are those of `u`.
    pub out: Vec<(u32, u64)>,
    pub out_at: Vec<u32>,
    /// Incoming edges, cut the same way.
    pub inn: Vec<(u32, u64)>,
    pub inn_at: Vec<u32>,
}

impl<'g> Dense<'g> {
    /// The number of nodes.
    pub open spec fn size(&self) -> nat {
        self.ids@.len()
    }

    /// The outgoing entries of `u`.
    pub open spec fn outs(&self, u: int) -> Seq<(u32, u64)> {
        run_of(self.out@, self.out_at@, u)
    }

    /// The incoming entries of `u`.
    pub open spec fn ins(&self, u: int) -> Seq<(u32, u64)> {
        run_of(self.inn@, self.inn_at@, u)
    }

    /// The offset tables fit, every end is a node, and every edge is recorded
    /// from both of its ends the same number of times.
    pub open spec fn wf(&self) -> bool {
        &&& self.size() < 0xffff_ffff
        &&& offsets_wf(self.out_at@, self.size() as int, self.out@.len() as int)
        &&& offsets_wf(self.inn_at@, self.size() as int, self.inn@.len() as int)
        &&& forall|k: int| 0 <= k < self.out@.len() ==> (#[trigger] self.out@[k]).0 < self.size()
        &&& forall|k: int| 0 <= k < self.inn@.len() ==> (#[trigger] self.inn@[k]).0 < self.size()
        &&& forall|u: int, v: int|
            0 <= u < self.size() && 0 <= v < self.size() ==> #[trigger] count_to(self.outs(u), v)
                == #[trigger] count_to(self.ins(v), u)
        &&& forall|i: int, j: int|
            0 <= i < j < self.size() ==> text::text_lt(#[trigger] self.ids@[i]@, #[trigger] self.ids@[j]@)
    }

    /// The number of nodes.
    pub fn len(&self) -> (n: usize)
        ensures
            n == self.size(),
    {
        self.ids.len()
    }

    /// The id of node `u`.
    pub fn id(&self, u: usize) -> (id: &'g str)
        requires
            u < self.size(),
        ensures
            id@ == self.ids@[u as int]@,
    {
        self.ids[u]
    }

    /// The outgoing entries of node `u`, in the order the graph holds them.
    pub fn out(&self, u: usize) -> (edges: &[(u32, u64)])
        requires
            self.wf(),
            u < self.size(),
        ensures
            edges@ == self.outs(u as int),
            forall|k: int| 0 <= k < edges@.len() ==> (#[trigger] edges@[k]).0 < self.size(),
    {
        let from: usize = self.out_at[u] as usize;
        let to: usize = self.out_at[u + 1] as usize;
        slice_subrange(self.out.as_slice(), from, to)
    }

    /// The incoming entries of node `u`, in the order the graph holds them.
    pub fn inn(&self, u: usize) -> (edges: &[(u32, u64)])
        requires
            self.wf(),
            u < self.size(),
        ensures
            edges@ == self.ins(u as int),
            forall|k: int| 0 <= k < edges@.len() ==> (#[trigger] edges@[k]).0 < self.size(),
    {
        let from: usize = self.inn_at[u] as usize;
        let to: usize = self.inn_at[u + 1] as usize;
        slice_subrange(self.inn.as_slice(), from, to)
    }

    /// The entries incident to `u`, both directions counted.
    pub fn degree(&self, u: usize) -> (n: usize)
        requires
            self.wf(),
            u < self.size(),
            self.out@.len() + self.inn@.len() <= usize::MAX,
        ensures
            n == self.outs(u as int).len() + self.ins(u as int).len(),
    {
        let out_len: usize = (self.out_at[u + 1] - self.out_at[u]) as usize;
        let inn_len: usize = (self.inn_at[u + 1] - self.inn_at[u]) as usize;
        out_len + inn_len
    }

    /// The node whose id is `id`, by binary search.
    pub fn index_of(&self, id: &str) -> (at: Option<usize>)
        requires
            self.wf(),
        ensures
            at.is_some() == exists|i: int| 0 <= i < self.size() && self.ids@[i]@ == id@,
            at.is_some() ==> at.unwrap() < self.size() && self.ids@[at.unwrap() as int]@ == id@,
    {
        let mut lo: usize = 0;
        let mut hi: usize = self.ids.len();
        while lo < hi
            invariant
                self.wf(),
                lo <= hi <= self.size(),
                forall|i: int| 0 <= i < lo ==> text::text_lt(#[trigger] self.ids@[i]@, id@),
                forall|i: int| hi <= i < self.size() ==> text::text_lt(id@, #[trigger] self.ids@[i]@),
            decreases hi - lo,
        {
            let mid: usize = lo + (hi - lo) / 2;
            match text_order(self.ids[mid], id) {
                Order::Equal => {
                    return Some(mid);
                },
                Order::Less => {
                    proof {
                        assert forall|i: int| 0 <= i < mid + 1 implies text::text_lt(
                            #[trigger] self.ids@[i]@,
                            id@,
                        ) by {
                            if i < mid {
                                text::lemma_text_lt_transitive(
                                    self.ids@[i]@,
                                    self.ids@[mid as int]@,
                                    id@,
                                );
                            }
                        }
                    }
                    lo = mid + 1;
                },
                Order::Greater => {
                    proof {
                        assert forall|i: int| mid <= i < self.size() implies text::text_lt(
                            id@,
                            #[trigger] self.ids@[i]@,
                        ) by {
                            if mid < i {
                                text::lemma_text_lt_transitive(
                                    id@,
                                    self.ids@[mid as int]@,
                                    self.ids@[i]@,
                                );
                            }
                        }
                    }
                    hi = mid;
                },
            }
        }
        proof {
            text::lemma_text_lt_asymmetric(id@, id@);
        }
        None
    }
}

} // verus!
