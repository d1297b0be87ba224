//! The string pool that edges index into.

use vstd::prelude::*;
use vstd::utf8::*;

use crate::table::Table;

verus! {

/// What pooling `s` costs in bytes: its text once in the pool and once as the
/// key of the index, plus the overhead of both.
pub open spec fn entry_bytes(s: Seq<char>) -> nat {
    2 * encode_utf8(s).len() + vstd::layout::size_of::<String>() + vstd::layout::size_of::<u32>()
}

/// What pooling `s` adds to a pool that already holds `pooled`.
pub open spec fn fresh_bytes(pooled: Set<Seq<char>>, s: Seq<char>) -> nat {
    if pooled.contains(s) {
        0
    } else {
        entry_bytes(s)
    }
}

/// How many strings pooling `s` adds.
pub open spec fn fresh_count(pooled: Set<Seq<char>>, s: Seq<char>) -> nat {
    if pooled.contains(s) {
        0
    } else {
        1
    }
}

spec fn total_bytes(strings: Seq<String>) -> nat
    decreases strings.len(),
{
    if strings.len() == 0 {
        0
    } else {
        total_bytes(strings.drop_last()) + entry_bytes(strings.last()@)
    }
}

/// Each distinct string once, found again by a small index.
#[derive(Debug, Clone)]
pub struct Interner {
    strings: Vec<String>,
    index: Table<u32>,
    bytes: usize,
}

impl Interner {
    /// The strings held.
    pub closed spec fn pooled(&self) -> Set<Seq<char>> {
        self.index@.dom()
    }

    /// How many strings are held.
    pub closed spec fn count(&self) -> nat {
        self.strings@.len()
    }

    /// The string with index `i`.
    pub closed spec fn text(&self, i: int) -> Seq<char> {
        self.strings@[i]@
    }

    /// The running total of what the strings held cost.
    pub closed spec fn cost(&self) -> nat {
        self.bytes as nat
    }

    /// Index and pool agree, and the running total is the total.
    pub closed spec fn wf(&self) -> bool {
        &&& self.index.wf()
        &&& self.bytes == total_bytes(self.strings@)
        &&& forall|k: Seq<char>| #[trigger]
            self.index@.dom().contains(k) ==> self.index@[k] < self.strings@.len()
                && self.strings@[self.index@[k] as int]@ == k
        &&& forall|i: int|
            0 <= i < self.strings@.len() ==> self.index@.dom().contains((#[trigger] self.strings@[i])@)
                && self.index@[self.strings@[i]@] == i
    }

    /// Distinct indices name distinct strings, and every string held has one.
    pub proof fn lemma_distinct(&self)
        requires
            self.wf(),
        ensures
            forall|i: int, j: int|
                0 <= i < self.count() && 0 <= j < self.count() && #[trigger] self.text(i)
                    == #[trigger] self.text(j) ==> i == j,
            forall|i: int| 0 <= i < self.count() ==> self.pooled().contains(#[trigger] self.text(i)),
    {
        assert forall|i: int, j: int| 0 <= i < self.count() && 0 <= j < self.count()
            && #[trigger] self.text(i) == #[trigger] self.text(j) implies i == j by {
            assert(self.index@[self.strings@[i]@] == i);
            assert(self.index@[self.strings@[j]@] == j);
        }
    }

    /// An empty pool.
    pub fn new() -> (p: Interner)
        ensures
            p.wf(),
            p.pooled() == Set::<Seq<char>>::empty(),
            p.count() == 0,
            p.cost() == 0,
    {
        let p = Interner { strings: Vec::new(), index: Table::new(), bytes: 0 };
        proof {
            assert(p.pooled() =~= Set::empty());
        }
        p
    }

    /// The index of `s`, pooling it first where it is new, and what that cost.
    pub fn intern(&mut self, s: &str) -> (found: (u32, usize))
        requires
            old(self).wf(),
            old(self).count() + fresh_count(old(self).pooled(), s@) <= u32::MAX + 1,
            old(self).cost() + fresh_bytes(old(self).pooled(), s@) <= usize::MAX,
        ensures
            final(self).wf(),
            found.0 < final(self).count(),
            final(self).text(found.0 as int) == s@,
            found.1 == fresh_bytes(old(self).pooled(), s@),
            final(self).pooled() == old(self).pooled().insert(s@),
            final(self).cost() == old(self).cost() + found.1,
            final(self).count() == old(self).count() + fresh_count(old(self).pooled(), s@),
            forall|i: int| 0 <= i < old(self).count() ==> #[trigger] final(self).text(i) == old(self).text(i),
    {
        match self.index.find(s) {
            Ok(at) => {
                proof {
                    self.index.lemma_at(s@, at as int);
                    assert(self.pooled().insert(s@) =~= self.pooled());
                }
                (self.index.rows[at].1, 0)
            },
            Err(at) => {
                let i: u32 = self.strings.len() as u32;
                let cost: usize = 2 * s.as_bytes().len() + core::mem::size_of::<String>()
                    + core::mem::size_of::<u32>();
                let ghost before = *self;
                self.strings.push(s.to_owned());
                self.index.place(at, s.to_owned(), i);
                self.bytes = self.bytes + cost;
                proof {
                    assert(self.strings@.drop_last() =~= before.strings@);
                    assert forall|k: Seq<char>| #[trigger] self.index@.dom().contains(k) implies self.index@[k]
                        < self.strings@.len() && self.strings@[self.index@[k] as int]@ == k by {
                        if k != s@ {
                            assert(before.index@.dom().contains(k));
                        }
                    }
                    assert forall|j: int| 0 <= j < self.strings@.len() implies self.index@.dom().contains(
                        (#[trigger] self.strings@[j])@,
                    ) && self.index@[self.strings@[j]@] == j by {
                        if j < before.strings@.len() {
                            assert(self.strings@[j] == before.strings@[j]);
                            assert(before.index@.dom().contains(before.strings@[j]@));
                        }
                    }
                    assert(self.pooled() =~= before.pooled().insert(s@));
                }
                (i, cost)
            },
        }
    }

    /// The string with index `i`.
    pub fn get(&self, i: u32) -> (s: &str)
        requires
            i < self.count(),
        ensures
            s@ == self.text(i as int),
    {
        self.strings[i as usize].as_str()
    }

    /// How many strings are held.
    pub fn len(&self) -> (n: usize)
        ensures
            n == self.count(),
    {
        self.strings.len()
    }

    /// The index of `s`, where it is held.
    pub fn index_of(&self, s: &str) -> (at: Option<u32>)
        requires
            self.wf(),
        ensures
            at.is_some() == self.pooled().contains(s@),
            at.is_some() ==> at.unwrap() < self.count() && self.text(at.unwrap() as int) == s@,
    {
        match self.index.get(s) {
            Some(i) => Some(*i),
            None => None,
        }
    }

    /// What the strings held cost in bytes.
    pub fn estimated_bytes(&self) -> (n: usize)
        ensures
            n == self.cost(),
    {
        self.bytes
    }
}

} // verus!
