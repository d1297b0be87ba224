//! How long a whole batch is estimated to hold the write lock.

use std::collections::HashMap;
use vstd::prelude::*;

use crate::graph::edge;
use crate::graph::edge::EdgeAssertion;
use crate::table::Table;

verus! {

/// Whether two edges have the same source, target and type.
pub open spec fn same_edge(a: edge::AssertionView, b: edge::AssertionView) -> bool {
    a.source == b.source && a.target == b.target && a.edge_type == b.edge_type
}

/// How many of the first `n` edges have the source, target and type of `e`.
pub open spec fn alike(edges: Seq<EdgeAssertion>, n: int, e: edge::AssertionView) -> int
    decreases n,
{
    if n <= 0 {
        0
    } else {
        alike(edges, n - 1, e) + if same_edge(edges[n - 1]@, e) {
            1int
        } else {
            0
        }
    }
}

/// How many pairs among the first `n` edges have the same source, target and
/// type.
pub open spec fn matching(edges: Seq<EdgeAssertion>, n: int) -> int
    decreases n,
{
    if n <= 0 {
        0
    } else {
        matching(edges, n - 1) + alike(edges, n - 1, edges[n - 1]@)
    }
}

/// `n`, or the largest `u64` where it is larger.
pub open spec fn saturated(n: int) -> int {
    if n > u64::MAX {
        u64::MAX as int
    } else {
        n
    }
}

/// How many pairs a batch of `n` edges has.
pub open spec fn all_pairs(n: int) -> int {
    saturated(n * (n - 1)) / 2
}

/// The estimate, in nanoseconds: 73,000 for each row, 5.5 for each pair that
/// the guard tells apart, and 86 for each pair that it has to compare.
pub open spec fn bulk_hold(rows: int, matching: int) -> int {
    saturated(
        saturated(saturated(73_000 * rows) + saturated((all_pairs(rows) - matching) * 11) / 2) + saturated(
            matching * 86,
        ),
    )
}

/// A batch has as many pairs of one edge as it has in all exactly where every edge
/// is the same, and none exactly where no two are.
pub proof fn law_pairs_of_one_edge_are_told(edges: Seq<EdgeAssertion>, n: int)
    requires
        0 <= n <= edges.len(),
    ensures
        0 <= matching(edges, n),
        2 * matching(edges, n) <= n * (n - 1),
        matching(edges, n) == 0 <==> forall|i: int, j: int|
            0 <= i < j < n ==> !same_edge((#[trigger] edges[i])@, (#[trigger] edges[j])@),
        2 * matching(edges, n) == n * (n - 1) <==> forall|i: int, j: int|
            0 <= i < j < n ==> same_edge((#[trigger] edges[i])@, (#[trigger] edges[j])@),
    decreases n,
{
    if n > 0 {
        law_pairs_of_one_edge_are_told(edges, n - 1);
        lemma_alike_told(edges, n - 1, edges[n - 1]@);
        assert(n * (n - 1) == (n - 1) * (n - 2) + 2 * (n - 1)) by (nonlinear_arith);
        let last = edges[n - 1]@;
        if matching(edges, n) == 0 {
            assert forall|i: int, j: int| 0 <= i < j < n implies !same_edge(
                (#[trigger] edges[i])@,
                (#[trigger] edges[j])@,
            ) by {}
        }
        if forall|i: int, j: int|
            0 <= i < j < n ==> !same_edge((#[trigger] edges[i])@, (#[trigger] edges[j])@) {
            assert(forall|i: int| 0 <= i < n - 1 ==> !same_edge((#[trigger] edges[i])@, last));
        }
        if forall|i: int, j: int| 0 <= i < j < n ==> same_edge((#[trigger] edges[i])@, (#[trigger] edges[j])@) {
            assert(forall|i: int| 0 <= i < n - 1 ==> same_edge((#[trigger] edges[i])@, last));
        }
    }
}

proof fn lemma_alike_told(edges: Seq<EdgeAssertion>, n: int, e: edge::AssertionView)
    requires
        0 <= n <= edges.len(),
    ensures
        0 <= alike(edges, n, e) <= n,
        alike(edges, n, e) == 0 <==> forall|i: int| 0 <= i < n ==> !same_edge((#[trigger] edges[i])@, e),
        alike(edges, n, e) == n <==> forall|i: int| 0 <= i < n ==> same_edge((#[trigger] edges[i])@, e),
    decreases n,
{
    if n > 0 {
        lemma_alike_told(edges, n - 1, e);
    }
}

/// An estimate takes 73 microseconds for each row, five and a half nanoseconds for
/// each pair of different edges and 86 for each pair of one edge, and drops what is
/// less than a nanosecond.
pub proof fn law_an_estimate_prices_rows_and_pairs(rows: int, matching: int)
    requires
        0 <= rows <= 1_000_000,
        0 <= matching,
        2 * matching <= rows * (rows - 1),
    ensures
        4 * bulk_hold(rows, matching) <= 292_000 * rows + 11 * (rows * (rows - 1) - 2 * matching) + 344 * matching,
        4 * bulk_hold(rows, matching) + 4 > 292_000 * rows + 11 * (rows * (rows - 1) - 2 * matching) + 344 * matching,
{
    let pairs = rows * (rows - 1);
    assert(0 <= pairs <= 1_000_000_000_000) by (nonlinear_arith)
        requires
            pairs == rows * (rows - 1),
            0 <= rows <= 1_000_000,
    ;
    assert(pairs % 2 == 0) by {
        lemma_neighbours_are_even(rows);
    }
}

proof fn lemma_neighbours_are_even(n: int)
    ensures
        (n * (n - 1)) % 2 == 0,
{
    let h = n / 2;
    if n % 2 == 0 {
        assert(n * (n - 1) == 2 * (h * (n - 1))) by (nonlinear_arith)
            requires
                n == 2 * h,
        ;
    } else {
        assert(n * (n - 1) == 2 * (n * h)) by (nonlinear_arith)
            requires
                n == 2 * h + 1,
        ;
    }
}

proof fn lemma_alike_bound(edges: Seq<EdgeAssertion>, n: int, e: edge::AssertionView)
    requires
        0 <= n,
    ensures
        0 <= alike(edges, n, e) <= n,
    decreases n,
{
    if n > 0 {
        lemma_alike_bound(edges, n - 1, e);
    }
}

proof fn lemma_matching_bound(edges: Seq<EdgeAssertion>, n: int)
    requires
        0 <= n,
    ensures
        0 <= matching(edges, n),
        2 * matching(edges, n) <= n * (n - 1),
    decreases n,
{
    if n > 0 {
        lemma_matching_bound(edges, n - 1);
        lemma_alike_bound(edges, n - 1, edges[n - 1]@);
        let m = n - 1;
        assert(m * (m - 1) + 2 * m == (m + 1) * m) by (nonlinear_arith);
        assert((m + 1) * m == n * (n - 1));
    } else {
        assert(n * (n - 1) == 0) by (nonlinear_arith)
            requires
                n == 0,
        ;
    }
}

/// Gives texts numbers, the same to the same text alone.
struct Numbers {
    table: Table<u64>,
}

impl Numbers {
    spec fn wf(&self) -> bool {
        &&& self.table.wf()
        &&& forall|k: Seq<char>| #[trigger]
            self.table@.dom().contains(k) ==> self.table@[k] < self.table.rows@.len()
        &&& forall|a: Seq<char>, b: Seq<char>| #[trigger]
            self.table@.dom().contains(a) && #[trigger] self.table@.dom().contains(b) && self.table@[a]
                == self.table@[b] ==> a == b
    }

    fn number(&mut self, s: &str) -> (id: u64)
        requires
            old(self).wf(),
        ensures
            final(self).wf(),
            final(self).table@.dom().contains(s@),
            final(self).table@[s@] == id,
            forall|k: Seq<char>| #[trigger]
                old(self).table@.dom().contains(k) ==> final(self).table@.dom().contains(k)
                    && final(self).table@[k] == old(self).table@[k],
    {
        match self.table.find(s) {
            Ok(i) => {
                proof {
                    self.table.lemma_at(s@, i as int);
                }
                self.table.rows[i].1
            },
            Err(i) => {
                let id: u64 = self.table.rows.len() as u64;
                self.table.place(i, s.to_owned(), id);
                id
            },
        }
    }
}

/// The code of an ordered pair of numbers.
spec fn coded(a: u64, b: u64) -> int {
    a * 0x1_0000_0000_0000_0000 + b
}

fn code(a: u64, b: u64) -> (c: u128)
    ensures
        c == coded(a, b),
{
    a as u128 * 0x1_0000_0000_0000_0000 + b as u128
}

/// Gives ordered pairs numbers, the same to the same pair alone.
struct PairNumbers {
    map: HashMap<u128, u64>,
    next: u64,
}

impl PairNumbers {
    spec fn wf(&self) -> bool {
        &&& forall|k: u128| #[trigger] self.map@.dom().contains(k) ==> self.map@[k] < self.next
        &&& forall|a: u128, b: u128| #[trigger]
            self.map@.dom().contains(a) && #[trigger] self.map@.dom().contains(b) && self.map@[a]
                == self.map@[b] ==> a == b
    }

    fn number(&mut self, a: u64, b: u64) -> (id: u64)
        requires
            old(self).wf(),
            old(self).next < u64::MAX,
        ensures
            final(self).wf(),
            final(self).map@.dom().contains(coded(a, b) as u128),
            final(self).map@[coded(a, b) as u128] == id,
            final(self).next <= old(self).next + 1,
            forall|k: u128| #[trigger]
                old(self).map@.dom().contains(k) ==> final(self).map@.dom().contains(k)
                    && final(self).map@[k] == old(self).map@[k],
    {
        broadcast use vstd::std_specs::hash::group_hash_axioms;

        let key: u128 = code(a, b);
        match self.map.get(&key) {
            Some(id) => *id,
            None => {
                let id: u64 = self.next;
                self.map.insert(key, id);
                self.next = id + 1;
                id
            },
        }
    }
}

/// Whether `c` is the code of the edge under two numberings.
spec fn has_code(names: Map<Seq<char>, u64>, pairs: Map<u128, u64>, e: edge::AssertionView, c: u128) -> bool {
    &&& names.dom().contains(e.source)
    &&& names.dom().contains(e.target)
    &&& names.dom().contains(e.edge_type)
    &&& pairs.dom().contains(coded(names[e.source], names[e.target]) as u128)
    &&& c == coded(
        pairs[coded(names[e.source], names[e.target]) as u128],
        names[e.edge_type],
    )
}

spec fn distinct<K>(m: Map<K, u64>) -> bool {
    forall|a: K, b: K| #[trigger]
        m.dom().contains(a) && #[trigger] m.dom().contains(b) && m[a] == m[b] ==> a == b
}

proof fn lemma_code_tells(
    names: Map<Seq<char>, u64>,
    pairs: Map<u128, u64>,
    a: edge::AssertionView,
    b: edge::AssertionView,
    ca: u128,
    cb: u128,
)
    requires
        distinct(names),
        distinct(pairs),
        has_code(names, pairs, a, ca),
        has_code(names, pairs, b, cb),
    ensures
        ca == cb <==> same_edge(a, b),
{
    if ca == cb {
        let pa = coded(names[a.source], names[a.target]) as u128;
        let pb = coded(names[b.source], names[b.target]) as u128;
        assert(pairs[pa] == pairs[pb]);
        assert(pa == pb);
        assert(names[a.source] == names[b.source] && names[a.target] == names[b.target]);
        assert(names[a.edge_type] == names[b.edge_type]);
    }
}

/// How often `c` stands in `codes`.
spec fn occurrences(codes: Seq<u128>, c: u128) -> int
    decreases codes.len(),
{
    if codes.len() == 0 {
        0
    } else {
        occurrences(codes.drop_last(), c) + if codes.last() == c {
            1int
        } else {
            0
        }
    }
}

proof fn lemma_occurrences_are_alike(edges: Seq<EdgeAssertion>, codes: Seq<u128>, e: edge::AssertionView, c: u128)
    requires
        codes.len() <= edges.len(),
        forall|j: int| 0 <= j < codes.len() ==> ((#[trigger] codes[j] == c) <==> same_edge(edges[j]@, e)),
    ensures
        occurrences(codes, c) == alike(edges, codes.len() as int, e),
    decreases codes.len(),
{
    if codes.len() > 0 {
        assert forall|j: int| 0 <= j < codes.drop_last().len() implies ((#[trigger] codes.drop_last()[j] == c)
            <==> same_edge(edges[j]@, e)) by {
            assert(codes[j] == codes.drop_last()[j]);
        }
        lemma_occurrences_are_alike(edges, codes.drop_last(), e, c);
    }
}

/// The number of matching pairs in a batch.
fn matching_pairs(edges: &[EdgeAssertion]) -> (pairs: u128)
    ensures
        pairs == matching(edges@, edges@.len() as int),
{
    broadcast use vstd::std_specs::hash::group_hash_axioms;

    let mut names = Numbers { table: Table::new() };
    let mut pairs = PairNumbers { map: HashMap::new(), next: 0 };
    let mut counts: HashMap<u128, u64> = HashMap::new();
    let mut found: u128 = 0;
    let ghost mut codes: Seq<u128> = Seq::empty();
    let n: usize = edges.len();
    let mut i: usize = 0;
    while i < n
        invariant
            n == edges@.len(),
            i <= n,
            codes.len() == i,
            names.wf(),
            pairs.wf(),
            pairs.next <= i,
            forall|j: int|
                0 <= j < i ==> has_code(names.table@, pairs.map@, edges@[j]@, #[trigger] codes[j]),
            forall|c: u128|
                (#[trigger] counts@.dom().contains(c) ==> counts@[c] == occurrences(codes, c)) && (
                !counts@.dom().contains(c) ==> occurrences(codes, c) == 0),
            found == matching(edges@, i as int),
        decreases n - i,
    {
        broadcast use vstd::std_specs::hash::group_hash_axioms;

        let e = &edges[i];
        let ghost names0 = names.table@;
        let ghost pairs0 = pairs.map@;
        let s: u64 = names.number(e.source.as_str());
        let t: u64 = names.number(e.target.as_str());
        let k: u64 = names.number(e.edge_type.as_str());
        let p: u64 = pairs.number(s, t);
        let c: u128 = code(p, k);
        proof {
            assert(has_code(names.table@, pairs.map@, e@, c));
            assert forall|j: int| 0 <= j < i implies has_code(
                names.table@,
                pairs.map@,
                edges@[j]@,
                #[trigger] codes[j],
            ) && ((codes[j] == c) <==> same_edge(edges@[j]@, e@)) by {
                assert(has_code(names0, pairs0, edges@[j]@, codes[j]));
                lemma_code_tells(names.table@, pairs.map@, edges@[j]@, e@, codes[j], c);
            }
            lemma_occurrences_are_alike(edges@, codes, e@, c);
            lemma_alike_bound(edges@, i as int, e@);
            lemma_matching_bound(edges@, i as int);
            lemma_matching_bound(edges@, i + 1);
            assert((i + 1) * i <= 0x1_0000_0000_0000_0000 * 0x1_0000_0000_0000_0000) by (nonlinear_arith)
                requires
                    0 <= i < 0x1_0000_0000_0000_0000,
            ;
        }
        let seen: u64 = match counts.get(&c) {
            Some(seen) => *seen,
            None => 0,
        };
        counts.insert(c, seen + 1);
        found = found + seen as u128;
        proof {
            let longer = codes.push(c);
            assert(longer.drop_last() =~= codes);
            assert forall|x: u128|
                occurrences(longer, x) == occurrences(codes, x) + if x == c {
                    1int
                } else {
                    0
                } by {}
            codes = longer;
        }
        i = i + 1;
    }
    found
}

fn saturate(n: u128) -> (s: u64)
    ensures
        s == saturated(n as int),
{
    if n > u64::MAX as u128 {
        u64::MAX
    } else {
        n as u64
    }
}

/// The time for which writing `edges` as one is estimated to hold the lock, in
/// nanoseconds.
pub fn estimated_bulk_hold(edges: &[EdgeAssertion]) -> (nanos: u128)
    requires
        2 * matching(edges@, edges@.len() as int) <= u64::MAX,
    ensures
        nanos == bulk_hold(edges@.len() as int, matching(edges@, edges@.len() as int)),
{
    let rows: u128 = edges.len() as u128;
    let ghost n = edges@.len() as int;
    proof {
        lemma_matching_bound(edges@, n);
        assert(n * (n - 1) <= 0xFFFF_FFFF_FFFF_FFFF * 0xFFFF_FFFF_FFFF_FFFF) by (nonlinear_arith)
            requires
                0 <= n <= 0xFFFF_FFFF_FFFF_FFFF,
        ;
        assert(n == 0 ==> n * (n - 1) == 0) by (nonlinear_arith);
        assert(n > 0 ==> n * (n - 1) >= 0) by (nonlinear_arith);
    }
    let ordered: u128 = if rows == 0 {
        0
    } else {
        rows * (rows - 1)
    };
    let pairs: u128 = (saturate(ordered) / 2) as u128;
    let matching: u128 = matching_pairs(edges);
    let apart: u128 = pairs - matching;
    let base: u64 = saturate(73_000 * rows);
    let told: u64 = saturate(apart * 11) / 2;
    let compared: u64 = saturate(matching * 86);
    saturate(saturate(base as u128 + told as u128) as u128 + compared as u128) as u128
}

} // verus!
