//! What the price of a vector search comes to.

use vstd::prelude::*;

use crate::graph::vector_filter;
use crate::graph::vector_filter::{CandidateCount, CostEstimate, CostEstimator, VectorFilterStrategy};
use crate::relation::extreme;
use crate::relation::query::World;
use crate::sql::SqlView;

verus! {

/// So many neighbours are asked of the index that `k` can be expected to pass: as
/// many as stand to `k` as the corpus does to the candidates, one more being too
/// many, and never more than there are. Nothing to go by leaves `k` as it is.
pub proof fn law_neighbours_are_asked_for_in_proportion(cost: CostEstimator, k: int, n: int)
    requires
        0 <= k,
        0 <= n,
    ensures
        n == 0 || cost.corpus == 0 ==> cost.inflated(k, n) == k,
        0 < n && 0 < cost.corpus ==> {
            &&& cost.inflated(k, n) <= cost.corpus
            &&& k <= cost.corpus ==> cost.inflated(k, n) >= k
            &&& k > cost.corpus ==> cost.inflated(k, n) == cost.corpus
        },
        0 < n <= cost.corpus ==> {
            &&& cost.inflated(k, n) * n <= k * cost.corpus
            &&& cost.inflated(k, n) == cost.corpus || (cost.inflated(k, n) + 1) * n > k * cost.corpus
        },
        cost.corpus < n && 0 < cost.corpus && k <= cost.corpus ==> cost.inflated(k, n) == k,
{
    let c = cost.corpus as int;
    let r = cost.inflated(k, n);
    if 0 < n <= c {
        let q = k * c / n;
        assert(q * n <= k * c < (q + 1) * n) by (nonlinear_arith)
            requires
                q == k * c / n,
                0 < n,
        ;
        assert(k <= q) by (nonlinear_arith)
            requires
                k * c < (q + 1) * n,
                0 <= k,
                0 < n <= c,
        ;
        if q >= c {
            assert(c * n <= q * n) by (nonlinear_arith)
                requires
                    c <= q,
                    0 < n,
            ;
        }
    }
}

/// Of two ways the cheaper is taken, the index where they are level. Reading the
/// candidates one by one is taken only where they are fewer than what the index
/// would have to give.
pub proof fn law_the_cheaper_way_is_taken(cost: CostEstimator, k: int, candidates: CandidateCount, e: CostEstimate)
    requires
        cost.is_estimate(k, candidates, e),
    ensures
        e.strategy == VectorFilterStrategy::PostFilter ==> e.post_filter_bytes <= e.pre_filter_bytes,
        e.strategy == VectorFilterStrategy::PreFilterCTE ==> e.pre_filter_bytes < e.post_filter_bytes,
        e.strategy == VectorFilterStrategy::PreFilterCTE || e.strategy == VectorFilterStrategy::PostFilter,
        e.strategy == VectorFilterStrategy::PreFilterCTE ==> (match candidates {
            CandidateCount::Exact(n) => n,
            CandidateCount::AtLeast(n) => n,
        }) < e.k_prime,
{
    let n = candidates.at_least() as int;
    let each = vector_filter::capped(cost.vector_bytes + vector_filter::row_bytes());
    assert(0 <= each);
    if e.k_prime <= n {
        assert(e.k_prime * each <= n * each) by (nonlinear_arith)
            requires
                e.k_prime <= n,
                0 <= each,
        ;
    }
}

/// What counts the vectors of a table counts its rows.
pub proof fn law_vectors_are_counted(table: Seq<char>, w: World, v: SqlView)
    requires
        extreme::size(table).reads(w, v),
    ensures
        vector_filter::corpus_text(table) == extreme::size(table).text,
        v matches SqlView::Integer(n) && n == w.rows(table).len(),
{
}

} // verus!
