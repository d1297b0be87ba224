//! A binary min-heap of keyed nodes.

use vstd::multiset::Multiset;
use vstd::prelude::*;

verus! {

/// Whether `a` comes out no later than `b`: by key, then by node.
pub open spec fn entry_le(a: (u64, usize), b: (u64, usize)) -> bool {
    a.0 < b.0 || (a.0 == b.0 && a.1 <= b.1)
}

fn entry_before(a: (u64, usize), b: (u64, usize)) -> (yes: bool)
    ensures
        yes == !entry_le(b, a),
{
    a.0 < b.0 || (a.0 == b.0 && a.1 < b.1)
}

/// The parent of position `i`.
pub open spec fn parent(i: int) -> int {
    (i - 1) / 2
}

/// Whether no entry comes out before its parent, but perhaps the one at `hole`.
pub open spec fn ordered_but(s: Seq<(u64, usize)>, hole: int) -> bool {
    &&& forall|i: int| 0 < i < s.len() && i != hole ==> entry_le(s[parent(i)], #[trigger] s[i])
    &&& forall|i: int|
        0 < i < s.len() && parent(i) == hole && 0 < hole ==> entry_le(s[parent(hole)], #[trigger] s[i])
}

/// Whether no entry comes out before its parent, but perhaps the children of
/// `hole`.
pub open spec fn ordered_below(s: Seq<(u64, usize)>, hole: int) -> bool {
    &&& forall|i: int| 0 < i < s.len() && parent(i) != hole ==> entry_le(s[parent(i)], #[trigger] s[i])
    &&& forall|i: int|
        0 < i < s.len() && parent(i) == hole && 0 < hole ==> entry_le(s[parent(hole)], #[trigger] s[i])
}

/// Whether no entry comes out before its parent.
pub open spec fn ordered(s: Seq<(u64, usize)>) -> bool {
    forall|i: int| 0 < i < s.len() ==> entry_le(s[parent(i)], #[trigger] s[i])
}

/// A priority queue of `(key, node)` pairs, least first.
#[derive(Debug)]
pub struct MinHeap {
    items: Vec<(u64, usize)>,
}

impl View for MinHeap {
    type V = Multiset<(u64, usize)>;

    closed spec fn view(&self) -> Multiset<(u64, usize)> {
        self.items@.to_multiset()
    }
}

proof fn lemma_swap_keeps(s: Seq<(u64, usize)>, i: int, j: int)
    requires
        0 <= i < s.len(),
        0 <= j < s.len(),
    ensures
        s.update(i, s[j]).update(j, s[i]).to_multiset() == s.to_multiset(),
{
    broadcast use vstd::seq_lib::group_to_multiset_ensures;

    let a = s.update(i, s[j]);
    let b = a.update(j, s[i]);
    vstd::seq_lib::to_multiset_update(s, i, s[j]);
    vstd::seq_lib::to_multiset_update(a, j, s[i]);
    assert(b.to_multiset() =~= s.to_multiset());
}

/// The entry at the root comes out no later than any other.
proof fn lemma_root_is_least(s: Seq<(u64, usize)>, i: int)
    requires
        ordered(s),
        0 <= i < s.len(),
    ensures
        entry_le(s[0], s[i]),
    decreases i,
{
    if i > 0 {
        lemma_root_is_least(s, parent(i));
    }
}

impl MinHeap {
    /// Whether the entries stand in heap order.
    pub closed spec fn wf(&self) -> bool {
        ordered(self.items@)
    }

    /// How many entries wait.
    pub closed spec fn count(&self) -> nat {
        self.items@.len()
    }

    /// A queue in which nothing waits has no entry.
    pub proof fn lemma_empty(&self)
        requires
            self.count() == 0,
        ensures
            forall|e: (u64, usize)| !#[trigger] self@.contains(e),
    {
        broadcast use vstd::seq_lib::group_to_multiset_ensures;

    }

    /// An empty queue.
    pub fn new() -> (h: MinHeap)
        ensures
            h.wf(),
            h@ == Multiset::<(u64, usize)>::empty(),
            h.count() == 0,
    {
        broadcast use vstd::seq_lib::group_to_multiset_ensures;

        let items: Vec<(u64, usize)> = Vec::new();
        MinHeap { items }
    }

    /// Adds an entry.
    pub fn push(&mut self, entry: (u64, usize))
        requires
            old(self).wf(),
        ensures
            final(self).wf(),
            final(self)@ == old(self)@.insert(entry),
            final(self).count() == old(self).count() + 1,
    {
        broadcast use vstd::seq_lib::group_to_multiset_ensures;

        let mut i: usize = self.items.len();
        self.items.push(entry);
        let ghost bag = self.items@.to_multiset();
        while i > 0
            invariant
                i < self.items@.len(),
                ordered_but(self.items@, i as int),
                self.items@.to_multiset() == bag,
                self.items@.len() == old(self).items@.len() + 1,
                bag == old(self)@.insert(entry),
            decreases i,
        {
            let p: usize = (i - 1) / 2;
            let a = self.items[p];
            let b = self.items[i];
            if !entry_before(b, a) {
                proof {
                    assert(ordered(self.items@));
                }
                return;
            }
            proof {
                lemma_swap_keeps(self.items@, i as int, p as int);
            }
            self.items.set(i, a);
            self.items.set(p, b);
            i = p;
        }
    }

    /// Takes out an entry that comes out no later than any other.
    pub fn pop(&mut self) -> (least: Option<(u64, usize)>)
        requires
            old(self).wf(),
        ensures
            final(self).wf(),
            least.is_none() <==> old(self).count() == 0,
            least.is_none() ==> final(self)@ == old(self)@ && final(self).count() == 0,
            least.is_some() ==> {
                &&& old(self)@.contains(least.unwrap())
                &&& final(self)@ == old(self)@.remove(least.unwrap())
                &&& final(self).count() == old(self).count() - 1
                &&& forall|e: (u64, usize)| #[trigger]
                    old(self)@.contains(e) ==> entry_le(least.unwrap(), e)
            },
    {
        broadcast use vstd::seq_lib::group_to_multiset_ensures;

        let ghost before = self.items@;
        let n: usize = self.items.len();
        if n == 0 {
            return None;
        }
        let least = self.items[0];
        proof {
            assert forall|e: (u64, usize)| #[trigger] before.to_multiset().contains(e) implies entry_le(
                least,
                e,
            ) by {
                assert(before.contains(e));
                let i = choose|i: int| 0 <= i < before.len() && before[i] == e;
                lemma_root_is_least(before, i);
            }
            assert(before.contains(least));
        }
        let last = self.items.pop().unwrap();
        proof {
            assert(self.items@ =~= before.drop_last());
            assert(before =~= self.items@.push(last));
        }
        if n == 1 {
            proof {
                assert(self.items@.to_multiset() =~= before.to_multiset().remove(least));
            }
            return Some(least);
        }
        let ghost short = self.items@;
        self.items.set(0, last);
        proof {
            vstd::seq_lib::to_multiset_update(short, 0, last);
            assert(self.items@.to_multiset() =~= before.to_multiset().remove(least));
            assert forall|i: int| 0 < i < self.items@.len() && parent(i) != 0 implies entry_le(
                self.items@[parent(i)],
                #[trigger] self.items@[i],
            ) by {
                assert(entry_le(before[parent(i)], before[i]));
            }
        }
        self.sift_down();
        Some(least)
    }

    fn sift_down(&mut self)
        requires
            ordered_below(old(self).items@, 0),
            old(self).items@.len() > 0,
        ensures
            ordered(final(self).items@),
            final(self).items@.to_multiset() == old(self).items@.to_multiset(),
            final(self).items@.len() == old(self).items@.len(),
    {
        let n: usize = self.items.len();
        let mut i: usize = 0;
        while i < n / 2
            invariant
                n == self.items@.len(),
                n == old(self).items@.len(),
                i < n,
                ordered_below(self.items@, i as int),
                self.items@.to_multiset() == old(self).items@.to_multiset(),
            decreases n - i,
        {
            let left: usize = 2 * i + 1;
            let mut child: usize = left;
            if left + 1 < n && entry_before(self.items[left + 1], self.items[left]) {
                child = left + 1;
            }
            let a = self.items[i];
            let b = self.items[child];
            if !entry_before(b, a) {
                proof {
                    assert forall|j: int| 0 < j < n implies entry_le(
                        self.items@[parent(j)],
                        #[trigger] self.items@[j],
                    ) by {
                        if parent(j) == i {
                            assert(j == left || j == left + 1);
                        }
                    }
                }
                return;
            }
            let ghost s = self.items@;
            proof {
                lemma_swap_keeps(self.items@, i as int, child as int);
            }
            self.items.set(i, b);
            self.items.set(child, a);
            proof {
                let t = self.items@;
                assert forall|j: int| 0 < j < n && parent(j) != child implies entry_le(
                    t[parent(j)],
                    #[trigger] t[j],
                ) by {
                    if parent(j) == i {
                        assert(j == left || j == left + 1);
                        assert(s[left as int] == s[left as int]);
                        if left + 1 < n {
                            assert(s[left + 1] == s[left + 1]);
                        }
                    } else if j == i {
                        assert(entry_le(s[parent(i as int)], s[child as int]));
                    } else {
                        assert(entry_le(s[parent(j)], s[j]));
                    }
                }
                assert forall|j: int| 0 < j < n && parent(j) == child implies entry_le(
                    t[parent(child as int)],
                    #[trigger] t[j],
                ) by {
                    assert(entry_le(s[parent(j)], s[j]));
                }
            }
            i = child;
        }
        proof {
            assert forall|j: int| 0 < j < n implies entry_le(
                self.items@[parent(j)],
                #[trigger] self.items@[j],
            ) by {
                assert(parent(j) != i);
            }
        }
    }
}

} // verus!
