//! Numbers made dense.

use std::collections::BTreeMap;

use vstd::prelude::*;

verus! {

/// Whether the number at `i` stands nowhere before.
pub open spec fn is_fresh(list: Seq<usize>, i: int) -> bool {
    forall|j: int| 0 <= j < i ==> #[trigger] list[j] != list[i]
}

/// How many numbers there are among the first `n`.
pub open spec fn distinct(list: Seq<usize>, n: int) -> nat
    decreases n,
{
    if n <= 0 {
        0
    } else if is_fresh(list, n - 1) {
        distinct(list, n - 1) + 1
    } else {
        distinct(list, n - 1)
    }
}

/// Whether `j` is where the number at `i` first stands.
pub open spec fn is_first(list: Seq<usize>, i: int, j: int) -> bool {
    0 <= j <= i && list[j] == list[i] && is_fresh(list, j)
}

/// Where the number at `i` first stands.
pub open spec fn first_of(list: Seq<usize>, i: int) -> int {
    choose|j: int| is_first(list, i, j)
}

/// Each number as how many others appeared before it did.
pub open spec fn renumbered(list: Seq<usize>) -> Seq<nat> {
    Seq::new(list.len(), |i: int| distinct(list, first_of(list, i)))
}

proof fn lemma_first(list: Seq<usize>, i: int)
    requires
        0 <= i < list.len(),
    ensures
        is_first(list, i, first_of(list, i)),
        forall|j: int| #[trigger] is_first(list, i, j) ==> j == first_of(list, i),
    decreases i,
{
    if is_fresh(list, i) {
        assert(is_first(list, i, i));
    } else {
        let k = choose|k: int| 0 <= k < i && #[trigger] list[k] == list[i];
        lemma_first(list, k);
        assert(is_first(list, i, first_of(list, k)));
    }
    let f = first_of(list, i);
    assert forall|j: int| #[trigger] is_first(list, i, j) implies j == f by {
        if j < f {
            assert(list[j] != list[f]);
        } else if f < j {
            assert(list[f] != list[j]);
        }
    }
}

proof fn lemma_distinct_grows(list: Seq<usize>, m: int, n: int)
    requires
        0 <= m <= n,
    ensures
        distinct(list, m) <= distinct(list, n),
        m < n && is_fresh(list, m) ==> distinct(list, m) < distinct(list, n),
        distinct(list, n) <= n,
    decreases n,
{
    if m < n {
        lemma_distinct_grows(list, m, n - 1);
    } else if n > 0 {
        lemma_distinct_grows(list, n - 1, n - 1);
    }
}

/// Where a number below `distinct(list, n)` is first given.
proof fn lemma_given(list: Seq<usize>, n: int, label: nat) -> (j: int)
    requires
        0 <= n <= list.len(),
        label < distinct(list, n),
    ensures
        0 <= j < n,
        is_fresh(list, j),
        distinct(list, j) == label,
    decreases n,
{
    if is_fresh(list, n - 1) && distinct(list, n - 1) == label {
        n - 1
    } else {
        lemma_given(list, n - 1, label)
    }
}

/// Renumbering keeps apart what was apart, and together what was together.
pub proof fn law_renumbering_keeps_the_classes(list: Seq<usize>, i: int, j: int)
    requires
        0 <= i < list.len(),
        0 <= j < list.len(),
    ensures
        renumbered(list)[i] == renumbered(list)[j] <==> list[i] == list[j],
{
    lemma_first(list, i);
    lemma_first(list, j);
    let a = first_of(list, i);
    let b = first_of(list, j);
    if list[i] == list[j] {
        if a <= j {
            assert(is_first(list, j, a));
        } else {
            assert(is_first(list, i, b));
        }
    } else if a < b {
        lemma_distinct_grows(list, a, b);
    } else {
        assert(a != b);
        lemma_distinct_grows(list, b, a);
    }
}

/// Renumbering counts up from zero in the order of first appearance: before a
/// number appears, every lower one has.
pub proof fn law_renumbering_is_dense(list: Seq<usize>, i: int, lower: nat) -> (j: int)
    requires
        0 <= i < list.len(),
        lower < renumbered(list)[i],
    ensures
        0 <= j < i,
        renumbered(list)[j] == lower,
{
    lemma_first(list, i);
    let f = first_of(list, i);
    let j = lemma_given(list, f, lower);
    lemma_first(list, j);
    assert(is_first(list, j, j));
    j
}

/// Compacts numbers to `0..n`, in order of first appearance.
pub fn renumber(list: &[usize]) -> (labels: Vec<usize>)
    ensures
        labels@.len() == list@.len(),
        forall|i: int| 0 <= i < list@.len() ==> #[trigger] labels@[i] == renumbered(list@)[i],
{
    broadcast use vstd::std_specs::btree::group_btree_axioms;

    let ghost s = list@;
    let mut dense: BTreeMap<usize, usize> = BTreeMap::new();
    let mut next: usize = 0;
    let mut labels: Vec<usize> = Vec::new();
    let mut i: usize = 0;
    while i < list.len()
        invariant
            s == list@,
            i <= s.len(),
            next == distinct(s, i as int),
            labels@.len() == i,
            forall|j: int| 0 <= j < i ==> #[trigger] labels@[j] == renumbered(s)[j],
            forall|j: int| 0 <= j < i ==> dense@.dom().contains(#[trigger] s[j]),
            forall|c: usize| #[trigger]
                dense@.dom().contains(c) ==> exists|j: int|
                    0 <= j < i && #[trigger] is_fresh(s, j) && s[j] == c && dense@[c] == distinct(s, j),
        decreases s.len() - i,
    {
        let c: usize = list[i];
        proof {
            lemma_first(s, i as int);
            lemma_distinct_grows(s, i as int, i as int);
        }
        match dense.get(&c) {
            Some(label) => {
                proof {
                    let j = choose|j: int|
                        0 <= j < i && #[trigger] is_fresh(s, j) && s[j] == c && dense@[c] == distinct(s, j);
                    assert(is_first(s, i as int, j));
                    assert(s[j] == s[i as int]);
                }
                labels.push(*label);
            },
            None => {
                let ghost before = dense@;
                proof {
                    assert(is_fresh(s, i as int));
                    assert(is_first(s, i as int, i as int));
                }
                dense.insert(c, next);
                labels.push(next);
                proof {
                    assert forall|d: usize| #[trigger] dense@.dom().contains(d) implies exists|j: int|
                        0 <= j < i + 1 && #[trigger] is_fresh(s, j) && s[j] == d && dense@[d] == distinct(s, j) by {
                        if d != c {
                            assert(before.dom().contains(d));
                            let j = choose|j: int|
                                0 <= j < i && #[trigger] is_fresh(s, j) && s[j] == d && before[d] == distinct(s, j);
                            assert(is_fresh(s, j));
                        } else {
                            assert(is_fresh(s, i as int));
                        }
                    }
                }
                next = next + 1;
            },
        }
        i = i + 1;
    }
    labels
}

} // verus!
