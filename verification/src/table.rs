//! An ordered table: string keys in ascending order, one value each.

use vstd::prelude::*;

use crate::text;
use crate::text::{text_order, Order};

verus! {

/// Rows keyed by string, kept in ascending key order.
#[derive(Debug, Clone)]
pub struct Table<V> {
    pub rows: Vec<(String, V)>,
}

impl<V> View for Table<V> {
    type V = Map<Seq<char>, V>;

    open spec fn view(&self) -> Map<Seq<char>, V> {
        Map::new(
            |key: Seq<char>| self.has(key),
            |key: Seq<char>| self.rows@[choose|i: int| self.at(key, i)].1,
        )
    }
}

impl<V> Table<V> {
    /// Whether row `i` is keyed by `key`.
    pub open spec fn at(&self, key: Seq<char>, i: int) -> bool {
        0 <= i < self.rows@.len() && self.rows@[i].0@ == key
    }

    /// Whether some row is keyed by `key`.
    pub open spec fn has(&self, key: Seq<char>) -> bool {
        exists|i: int| self.at(key, i)
    }

    /// The keys strictly ascend.
    pub open spec fn wf(&self) -> bool {
        forall|i: int, j: int|
            0 <= i < j < self.rows@.len() ==> text::text_lt(
                (#[trigger] self.rows@[i]).0@,
                (#[trigger] self.rows@[j]).0@,
            )
    }

    /// A key stands in one row, and the table holds that row's value.
    pub proof fn lemma_at(&self, key: Seq<char>, i: int)
        requires
            self.wf(),
            self.at(key, i),
        ensures
            self@.dom().contains(key),
            self@[key] == self.rows@[i].1,
            forall|j: int| #[trigger] self.at(key, j) ==> j == i,
    {
        assert forall|j: int| #[trigger] self.at(key, j) implies j == i by {
            text::lemma_text_lt_asymmetric(key, key);
            if i < j {
                assert(text::text_lt(self.rows@[i].0@, self.rows@[j].0@));
            } else if j < i {
                assert(text::text_lt(self.rows@[j].0@, self.rows@[i].0@));
            }
        }
    }

    /// A table without rows.
    pub fn new() -> (t: Table<V>)
        ensures
            t.wf(),
            t.rows@.len() == 0,
            t@ == Map::<Seq<char>, V>::empty(),
    {
        let t = Table { rows: Vec::new() };
        proof {
            assert(t@ =~= Map::empty());
        }
        t
    }

    /// The row keyed by `key`, or where such a row would go.
    pub fn find(&self, key: &str) -> (found: Result<usize, usize>)
        requires
            self.wf(),
        ensures
            found.is_ok() == self@.dom().contains(key@),
            match found {
                Ok(i) => self.at(key@, i as int),
                Err(i) => {
                    &&& i <= self.rows@.len()
                    &&& forall|j: int| 0 <= j < i ==> text::text_lt((#[trigger] self.rows@[j]).0@, key@)
                    &&& forall|j: int|
                        i <= j < self.rows@.len() ==> text::text_lt(key@, (#[trigger] self.rows@[j]).0@)
                },
            },
    {
        let mut lo: usize = 0;
        let mut hi: usize = self.rows.len();
        while lo < hi
            invariant
                self.wf(),
                lo <= hi <= self.rows@.len(),
                forall|j: int| 0 <= j < lo ==> text::text_lt((#[trigger] self.rows@[j]).0@, key@),
                forall|j: int| hi <= j < self.rows@.len() ==> text::text_lt(key@, (#[trigger] self.rows@[j]).0@),
            decreases hi - lo,
        {
            let mid: usize = lo + (hi - lo) / 2;
            match text_order(self.rows[mid].0.as_str(), key) {
                Order::Equal => {
                    proof {
                        self.lemma_at(key@, mid as int);
                    }
                    return Ok(mid);
                },
                Order::Less => {
                    proof {
                        assert forall|j: int| 0 <= j < mid + 1 implies text::text_lt(
                            (#[trigger] self.rows@[j]).0@,
                            key@,
                        ) by {
                            if j < mid {
                                text::lemma_text_lt_transitive(self.rows@[j].0@, self.rows@[mid as int].0@, key@);
                            }
                        }
                    }
                    lo = mid + 1;
                },
                Order::Greater => {
                    proof {
                        assert forall|j: int| mid <= j < self.rows@.len() implies text::text_lt(
                            key@,
                            (#[trigger] self.rows@[j]).0@,
                        ) by {
                            if mid < j {
                                text::lemma_text_lt_transitive(key@, self.rows@[mid as int].0@, self.rows@[j].0@);
                            }
                        }
                    }
                    hi = mid;
                },
            }
        }
        proof {
            text::lemma_text_lt_asymmetric(key@, key@);
            if self.has(key@) {
                let j = choose|j: int| self.at(key@, j);
                assert(text::text_lt(self.rows@[j].0@, key@) || text::text_lt(key@, self.rows@[j].0@));
            }
        }
        Err(lo)
    }

    /// Whether some row is keyed by `key`.
    pub fn contains(&self, key: &str) -> (yes: bool)
        requires
            self.wf(),
        ensures
            yes == self@.dom().contains(key@),
    {
        self.find(key).is_ok()
    }

    /// The value keyed by `key`.
    pub fn get(&self, key: &str) -> (value: Option<&V>)
        requires
            self.wf(),
        ensures
            value.is_some() == self@.dom().contains(key@),
            value.is_some() ==> *value.unwrap() == self@[key@],
    {
        match self.find(key) {
            Ok(i) => {
                proof {
                    self.lemma_at(key@, i as int);
                }
                Some(&self.rows[i].1)
            },
            Err(_) => None,
        }
    }

    /// Puts a new row where `find` said it would go.
    pub fn place(&mut self, i: usize, key: String, value: V)
        requires
            old(self).wf(),
            i <= old(self).rows@.len(),
            forall|j: int| 0 <= j < i ==> text::text_lt((#[trigger] old(self).rows@[j]).0@, key@),
            forall|j: int|
                i <= j < old(self).rows@.len() ==> text::text_lt(key@, (#[trigger] old(self).rows@[j]).0@),
        ensures
            final(self).wf(),
            final(self).rows@ == old(self).rows@.insert(i as int, (key, value)),
            final(self)@ == old(self)@.insert(key@, value),
    {
        let ghost before = *self;
        self.rows.insert(i, (key, value));
        proof {
            let after = *self;
            assert forall|a: int, b: int| 0 <= a < b < after.rows@.len() implies text::text_lt(
                (#[trigger] after.rows@[a]).0@,
                (#[trigger] after.rows@[b]).0@,
            ) by {
                let a0 = if a < i { a } else { a - 1 };
                let b0 = if b < i { b } else { b - 1 };
                if a != i && b != i {
                    assert(text::text_lt(before.rows@[a0].0@, before.rows@[b0].0@));
                } else if a == i {
                    assert(text::text_lt(key@, before.rows@[b0].0@));
                } else {
                    assert(text::text_lt(before.rows@[a0].0@, key@));
                }
            }
            assert(after.at(key@, i as int));
            after.lemma_at(key@, i as int);
            assert forall|k: Seq<char>| #[trigger] after.has(k) <==> before.has(k) || k == key@ by {
                if after.has(k) {
                    let j = choose|j: int| after.at(k, j);
                    if j != i {
                        assert(before.at(k, if j < i { j } else { j - 1 }));
                    }
                }
                if before.has(k) {
                    let j = choose|j: int| before.at(k, j);
                    assert(after.at(k, if j < i { j } else { j + 1 }));
                }
            }
            assert forall|k: Seq<char>| before.has(k) && k != key@ implies #[trigger] after@[k] == before@[k] by {
                let j = choose|j: int| before.at(k, j);
                before.lemma_at(k, j);
                let j1 = if j < i { j } else { j + 1 };
                assert(after.at(k, j1));
                after.lemma_at(k, j1);
            }
            assert(after@ =~= before@.insert(key@, value));
        }
    }

    /// Replaces the value of row `i`, handing back the one it held.
    pub fn replace(&mut self, i: usize, value: V) -> (held: V)
        requires
            old(self).wf(),
            i < old(self).rows@.len(),
        ensures
            final(self).wf(),
            held == old(self).rows@[i as int].1,
            final(self).rows@ == old(self).rows@.update(i as int, (old(self).rows@[i as int].0, value)),
            final(self)@ == old(self)@.insert(old(self).rows@[i as int].0@, value),
    {
        let ghost before = *self;
        let mut value = value;
        let ghost put = value;
        let row = &mut self.rows[i];
        core::mem::swap(&mut row.1, &mut value);
        proof {
            let after = *self;
            let key = before.rows@[i as int].0@;
            assert(after.rows@ =~= before.rows@.update(i as int, (before.rows@[i as int].0, put)));
            assert forall|k: Seq<char>, j: int| #[trigger] after.at(k, j) <==> before.at(k, j) by {}
            assert forall|k: Seq<char>| #[trigger] after.has(k) <==> before.has(k) by {
                if after.has(k) {
                    let j = choose|j: int| after.at(k, j);
                    assert(before.at(k, j));
                }
                if before.has(k) {
                    let j = choose|j: int| before.at(k, j);
                    assert(after.at(k, j));
                }
            }
            assert(before.at(key, i as int) && after.at(key, i as int));
            before.lemma_at(key, i as int);
            assert(after.wf());
            after.lemma_at(key, i as int);
            assert forall|k: Seq<char>| before.has(k) && k != key implies #[trigger] after@[k] == before@[k] by {
                let j = choose|j: int| before.at(k, j);
                before.lemma_at(k, j);
                assert(after.at(k, j));
                after.lemma_at(k, j);
            }
            assert(after@ =~= before@.insert(key, put));
        }
        value
    }

    /// Adds or replaces a row, handing back the value it replaced.
    pub fn insert(&mut self, key: String, value: V) -> (held: Option<V>)
        requires
            old(self).wf(),
        ensures
            final(self).wf(),
            final(self)@ == old(self)@.insert(key@, value),
            held.is_some() == old(self)@.dom().contains(key@),
            held.is_some() ==> held.unwrap() == old(self)@[key@],
    {
        match self.find(key.as_str()) {
            Ok(i) => {
                proof {
                    self.lemma_at(key@, i as int);
                }
                Some(self.replace(i, value))
            },
            Err(i) => {
                self.place(i, key, value);
                None
            },
        }
    }
}

} // verus!
