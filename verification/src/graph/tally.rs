//! Sums kept by number.

use vstd::prelude::*;

use super::binary64;
use super::binary64::call;

verus! {

/// A sum for each of some numbers, by ascending number.
#[derive(Debug)]
pub struct Tally {
    pub rows: Vec<(usize, u64)>,
}

impl Tally {
    /// Whether the numbers stand in strictly ascending order.
    pub open spec fn wf(&self) -> bool {
        forall|i: int, j: int| 0 <= i < j < self.rows@.len() ==> (#[trigger] self.rows@[i]).0 < (#[trigger] self.rows@[j]).0
    }

    /// Whether row `i` is that of `key`.
    pub open spec fn at(&self, key: usize, i: int) -> bool {
        0 <= i < self.rows@.len() && self.rows@[i].0 == key
    }

    /// Whether there is a sum for `key`.
    pub open spec fn has(&self, key: usize) -> bool {
        exists|i: int| self.at(key, i)
    }

    /// The sum for `key`: nothing where there is none.
    pub open spec fn amount(&self, key: usize) -> u64 {
        if self.has(key) {
            self.rows@[choose|i: int| self.at(key, i)].1
        } else {
            0
        }
    }

    /// The row of a number holds its sum.
    pub proof fn lemma_at(&self, key: usize, i: int)
        requires
            self.wf(),
            self.at(key, i),
        ensures
            self.has(key),
            self.amount(key) == self.rows@[i].1,
    {
        let j = choose|j: int| self.at(key, j);
        assert(self.at(key, j));
        assert(i == j);
    }

    /// No sums.
    pub fn new() -> (t: Tally)
        ensures
            t.wf(),
            t.rows@.len() == 0,
            forall|key: usize| !#[trigger] t.has(key),
    {
        Tally { rows: Vec::new() }
    }

    fn find(&self, key: usize) -> (found: Result<usize, usize>)
        requires
            self.wf(),
        ensures
            match found {
                Ok(i) => self.at(key, i as int),
                Err(i) => {
                    &&& i <= self.rows@.len()
                    &&& forall|j: int| 0 <= j < i ==> (#[trigger] self.rows@[j]).0 < key
                    &&& forall|j: int| i <= j < self.rows@.len() ==> key < (#[trigger] self.rows@[j]).0
                },
            },
    {
        let mut lo: usize = 0;
        let mut hi: usize = self.rows.len();
        while lo < hi
            invariant
                self.wf(),
                lo <= hi <= self.rows@.len(),
                forall|j: int| 0 <= j < lo ==> (#[trigger] self.rows@[j]).0 < key,
                forall|j: int| hi <= j < self.rows@.len() ==> key < (#[trigger] self.rows@[j]).0,
            decreases hi - lo,
        {
            let mid: usize = lo + (hi - lo) / 2;
            let held: usize = self.rows[mid].0;
            if held == key {
                return Ok(mid);
            }
            if held < key {
                lo = mid + 1;
            } else {
                hi = mid;
            }
        }
        Err(lo)
    }

    /// The sum for `key`: nothing where there is none.
    pub fn get(&self, key: usize) -> (sum: u64)
        requires
            self.wf(),
        ensures
            sum == self.amount(key),
    {
        match self.find(key) {
            Ok(i) => {
                proof {
                    self.lemma_at(key, i as int);
                }
                self.rows[i].1
            },
            Err(i) => {
                proof {
                    if self.has(key) {
                        let j = choose|j: int| self.at(key, j);
                        assert(self.rows@[j].0 == key);
                    }
                }
                0
            },
        }
    }

    /// Adds to the sum for `key`.
    pub fn bump<P: Fn(u64, u64) -> u64>(&mut self, key: usize, w: u64, plus: &P)
        requires
            old(self).wf(),
            binary64::is_function(*plus),
        ensures
            final(self).wf(),
            forall|k: usize| #[trigger] final(self).has(k) <==> k == key || old(self).has(k),
            forall|k: usize| #[trigger]
                final(self).amount(k) == if k == key {
                    binary64::value(*plus, old(self).amount(key), w)
                } else {
                    old(self).amount(k)
                },
    {
        let ghost before = *self;
        match self.find(key) {
            Ok(i) => {
                let sum: u64 = call(plus, self.rows[i].1, w);
                self.rows.set(i, (key, sum));
                proof {
                    before.lemma_at(key, i as int);
                    assert(self.wf());
                    assert forall|k: usize| #[trigger] self.has(k) <==> k == key || before.has(k) by {
                        if self.has(k) {
                            let j = choose|j: int| self.at(k, j);
                            assert(before.at(k, j));
                        }
                        if before.has(k) {
                            let j = choose|j: int| before.at(k, j);
                            assert(self.at(k, j));
                        }
                        assert(self.at(key, i as int));
                    }
                    self.lemma_at(key, i as int);
                    assert forall|k: usize| k != key implies #[trigger] self.amount(k) == before.amount(k) by {
                        if before.has(k) {
                            let j = choose|j: int| before.at(k, j);
                            before.lemma_at(k, j);
                            assert(self.at(k, j));
                            self.lemma_at(k, j);
                        } else {
                            assert(!self.has(k));
                        }
                    }
                }
            },
            Err(i) => {
                let sum: u64 = call(plus, 0, w);
                self.rows.insert(i, (key, sum));
                proof {
                    let s = before.rows@;
                    let t = self.rows@;
                    assert(t =~= s.insert(i as int, (key, sum)));
                    assert(!before.has(key)) by {
                        if before.has(key) {
                            let j = choose|j: int| before.at(key, j);
                            assert(s[j].0 == key);
                        }
                    }
                    assert(self.wf()) by {
                        assert forall|a: int, b: int| 0 <= a < b < t.len() implies (#[trigger] t[a]).0 < (
                        #[trigger] t[b]).0 by {
                            let x = if a < i {
                                a
                            } else {
                                a - 1
                            };
                            let y = if b < i {
                                b
                            } else {
                                b - 1
                            };
                            if a != i && b != i {
                                assert(s[x].0 < s[y].0);
                            } else if a == i {
                                assert(key < s[y].0);
                            } else {
                                assert(s[x].0 < key);
                            }
                        }
                    }
                    assert(self.at(key, i as int));
                    self.lemma_at(key, i as int);
                    assert forall|k: usize| #[trigger] self.has(k) <==> k == key || before.has(k) by {
                        if self.has(k) && k != key {
                            let j = choose|j: int| self.at(k, j);
                            assert(before.at(k, if j < i { j } else { j - 1 }));
                        }
                        if before.has(k) {
                            let j = choose|j: int| before.at(k, j);
                            assert(self.at(k, if j < i { j } else { j + 1 }));
                        }
                    }
                    assert forall|k: usize| k != key implies #[trigger] self.amount(k) == before.amount(k) by {
                        if before.has(k) {
                            let j = choose|j: int| before.at(k, j);
                            before.lemma_at(k, j);
                            let q = if j < i {
                                j
                            } else {
                                j + 1
                            };
                            assert(self.at(k, q));
                            self.lemma_at(k, q);
                        } else {
                            assert(!self.has(k));
                        }
                    }
                }
            },
        }
    }
}

} // verus!
