//! Nearest neighbours among the concepts that a traversal reaches: which of two
//! ways is cheaper, and why the choice cannot change the answer.

use vstd::prelude::*;

use crate::error::{DbError, Result};
use crate::graph::builder::TraversalBuilder;
use crate::graph::plan;
use crate::sql;
use crate::sql::{bind, cuts_of, slots, text_value, SqlValue, SqlView};
use crate::table::Table;
use crate::text;
use crate::text::{opt_str, push_decimal, text_order, Order};
use crate::vector;
use crate::vector::{HitView, ModelName, VectorSearchResult};

verus! {

/// How a filter and a nearest-neighbour search are put together.
#[derive(Debug, Clone, Copy, PartialEq, Eq, Structural)]
pub enum VectorFilterStrategy {
    /// Ask the index for more than enough and drop what fails the filter.
    PostFilter,
    /// Measure every candidate.
    PreFilterCTE,
}

/// How many candidates a probe found.
#[derive(Debug, Clone, Copy, PartialEq, Eq, Structural)]
pub enum CandidateCount {
    Exact(usize),
    /// The probe was cut here.
    AtLeast(usize),
}

impl CandidateCount {
    /// No fewer than this.
    pub open spec fn at_least(self) -> usize {
        match self {
            CandidateCount::Exact(n) => n,
            CandidateCount::AtLeast(n) => n,
        }
    }

    /// No fewer than this.
    pub fn lower_bound(self) -> (n: usize)
        ensures
            n == self.at_least(),
    {
        match self {
            CandidateCount::Exact(n) => n,
            CandidateCount::AtLeast(n) => n,
        }
    }

    /// Whether the probe was cut.
    pub fn is_capped(self) -> (yes: bool)
        ensures
            yes == (self is AtLeast),
    {
        matches!(self, CandidateCount::AtLeast(_))
    }
}

/// A choice between the two ways, and the figures behind it.
#[derive(Debug, Clone, Copy, PartialEq, Eq, Structural)]
pub struct CostEstimate {
    pub strategy: VectorFilterStrategy,
    pub candidates: CandidateCount,
    pub post_filter_bytes: usize,
    pub pre_filter_bytes: usize,
    pub k_prime: usize,
}

/// What holding one id costs.
pub open spec fn id_bytes() -> int {
    capped(26 + vstd::layout::size_of::<String>() as int)
}

/// What holding one result costs, its vector aside.
pub open spec fn row_bytes() -> int {
    capped(id_bytes() + 4)
}

/// `n`, or the largest `usize` where it is larger.
pub open spec fn capped(n: int) -> int {
    if n > usize::MAX {
        usize::MAX as int
    } else {
        n
    }
}

/// Prices the two ways.
#[derive(Debug, Clone)]
pub struct CostEstimator {
    pub byte_budget: usize,
    /// How many vectors there are.
    pub corpus: usize,
    /// What one vector costs.
    pub vector_bytes: usize,
}

impl CostEstimator {
    /// How many neighbours to ask the index for so that `k` can be expected to
    /// pass a filter that `candidates` of the corpus pass: in proportion, `k`
    /// itself where more pass than there are vectors, and no more than there
    /// are. Where nothing passes or there is nothing, it is `k`.
    pub open spec fn inflated(&self, k: int, candidates: int) -> int {
        if candidates == 0 || self.corpus == 0 {
            k
        } else {
            let wanted = if candidates > self.corpus {
                k
            } else {
                k * self.corpus / candidates
            };
            if wanted < self.corpus {
                wanted
            } else {
                self.corpus as int
            }
        }
    }

    /// What handling `n` vectors costs.
    pub open spec fn priced(&self, n: int) -> int {
        capped(n * capped(self.vector_bytes + row_bytes()))
    }

    /// Whether `e` prices both ways for `k` neighbours among so many candidates
    /// and takes the cheaper, the index where they are level.
    pub open spec fn is_estimate(&self, k: int, candidates: CandidateCount, e: CostEstimate) -> bool {
        let n = candidates.at_least() as int;
        let filter = capped(n * id_bytes());
        &&& e.candidates == candidates
        &&& e.k_prime == self.inflated(k, n)
        &&& e.post_filter_bytes == capped(self.priced(self.inflated(k, n)) + filter)
        &&& e.pre_filter_bytes == capped(self.priced(n) + filter)
        &&& e.strategy == (if e.post_filter_bytes <= e.pre_filter_bytes {
            VectorFilterStrategy::PostFilter
        } else {
            VectorFilterStrategy::PreFilterCTE
        })
    }

    /// Prices for a corpus of vectors of this size.
    pub fn new(byte_budget: usize, corpus: usize, vector_bytes: usize) -> (c: CostEstimator)
        ensures
            c.byte_budget == byte_budget,
            c.corpus == corpus,
            c.vector_bytes == vector_bytes,
    {
        CostEstimator { byte_budget, corpus, vector_bytes }
    }

    /// How many neighbours to ask the index for.
    pub fn k_prime(&self, k: usize, candidates: usize) -> (n: usize)
        ensures
            n == self.inflated(k as int, candidates as int),
    {
        if candidates == 0 || self.corpus == 0 {
            return k;
        }
        proof {
            let (a, b) = (k as int, self.corpus as int);
            assert(0 <= a * b <= usize::MAX * usize::MAX) by (nonlinear_arith)
                requires
                    0 <= a <= usize::MAX,
                    0 <= b <= usize::MAX,
            ;
            assert(usize::MAX * usize::MAX <= u128::MAX) by (nonlinear_arith)
                requires
                    usize::MAX <= 0xFFFF_FFFF_FFFF_FFFF,
            ;
        }
        let wanted: u128 = if candidates > self.corpus {
            k as u128
        } else {
            (k as u128 * self.corpus as u128) / candidates as u128
        };
        if wanted < self.corpus as u128 {
            wanted as usize
        } else {
            self.corpus
        }
    }

    /// Prices both ways and takes the cheaper. A candidate set past the budget
    /// is refused, whichever way it would go.
    pub fn estimate(&self, k: usize, candidates: CandidateCount) -> (e: Result<CostEstimate>)
        ensures
            e.is_ok() == (capped(candidates.at_least() * id_bytes()) <= self.byte_budget),
            e matches Ok(est) ==> self.is_estimate(k as int, candidates, est),
            e matches Err(err) ==> (err matches DbError::SubgraphTooLarge { n, budget } && n == capped(
                candidates.at_least() * id_bytes(),
            ) && budget == self.byte_budget),
    {
        let n: usize = candidates.lower_bound();
        let id: usize = saturating_sum(26, core::mem::size_of::<String>());
        let candidate_bytes: usize = saturating_product(n, id);
        if candidate_bytes > self.byte_budget {
            return Err(DbError::SubgraphTooLarge { n: candidate_bytes, budget: self.byte_budget });
        }
        let k_prime: usize = self.k_prime(k, n);
        let each: usize = saturating_sum(self.vector_bytes, saturating_sum(id, 4));
        let post: usize = saturating_sum(saturating_product(k_prime, each), candidate_bytes);
        let pre: usize = saturating_sum(saturating_product(n, each), candidate_bytes);
        let strategy = if post <= pre {
            VectorFilterStrategy::PostFilter
        } else {
            VectorFilterStrategy::PreFilterCTE
        };
        Ok(
            CostEstimate {
                strategy,
                candidates,
                post_filter_bytes: post,
                pre_filter_bytes: pre,
                k_prime,
            },
        )
    }
}

fn saturating_sum(a: usize, b: usize) -> (c: usize)
    ensures
        c == capped(a + b),
{
    if b <= usize::MAX - a {
        a + b
    } else {
        usize::MAX
    }
}

fn saturating_product(a: usize, b: usize) -> (c: usize)
    ensures
        c == capped(a * b),
{
    match a.checked_mul(b) {
        Some(c) => c,
        None => usize::MAX,
    }
}

/// The budget of a search that states none.
pub const DEFAULT_BYTE_BUDGET: usize = 67_108_864;

/// How many candidates a probe takes where the search does not say.
pub const DEFAULT_PROBE_CAP: usize = 10_000;

/// How many candidates one statement measures.
pub const IDS_PER_STATEMENT: usize = 500;

/// A search for the nearest neighbours of a vector among the concepts that a
/// traversal reaches.
#[derive(Debug, Clone)]
pub struct FilteredVectorSearch {
    pub model: ModelName,
    /// The vector, as binary32 bits.
    pub query: Vec<u32>,
    pub top_k: usize,
    pub traversal: TraversalBuilder,
    pub forced: Option<VectorFilterStrategy>,
    pub byte_budget: usize,
    pub probe_cap: usize,
}

/// What is left to do for a search once its candidates are known.
#[derive(Debug)]
pub enum SearchPlan {
    /// Nothing: there is nothing to find.
    Nothing(CostEstimate),
    /// Ask the index for `estimate.k_prime` neighbours and filter them.
    Post { candidates: Vec<String>, estimate: CostEstimate },
    /// Measure the candidates.
    Pre { candidates: Vec<String>, estimate: CostEstimate },
}

/// The estimate of a search for no neighbours at all.
pub open spec fn nothing_wanted() -> CostEstimate {
    CostEstimate {
        strategy: VectorFilterStrategy::PreFilterCTE,
        candidates: CandidateCount::Exact(0),
        post_filter_bytes: 0,
        pre_filter_bytes: 0,
        k_prime: 0,
    }
}

/// How many candidates a probe that found `found` reports under a cap.
pub open spec fn probed(found: nat, cap: usize) -> CandidateCount {
    if found > cap {
        CandidateCount::AtLeast(cap)
    } else {
        CandidateCount::Exact(found as usize)
    }
}

/// The candidates that a probe keeps under a cap.
pub open spec fn kept(ids: Seq<Seq<char>>, cap: usize) -> Seq<Seq<char>> {
    if ids.len() > cap {
        ids.take(cap as int)
    } else {
        ids
    }
}

impl FilteredVectorSearch {
    /// A search for the ten nearest.
    pub fn new(model: ModelName, query: Vec<u32>, traversal: TraversalBuilder) -> (s: FilteredVectorSearch)
        ensures
            s == (FilteredVectorSearch {
                model,
                query,
                top_k: 10,
                traversal,
                forced: None,
                byte_budget: DEFAULT_BYTE_BUDGET,
                probe_cap: DEFAULT_PROBE_CAP,
            }),
    {
        FilteredVectorSearch {
            model,
            query,
            top_k: 10,
            traversal,
            forced: None,
            byte_budget: DEFAULT_BYTE_BUDGET,
            probe_cap: DEFAULT_PROBE_CAP,
        }
    }

    /// The same search for the `k` nearest.
    pub fn top_k(self, k: usize) -> (s: FilteredVectorSearch)
        ensures
            s == (FilteredVectorSearch { top_k: k, ..self }),
    {
        let mut s = self;
        s.top_k = k;
        s
    }

    /// The same search under this budget.
    pub fn byte_budget(self, budget: usize) -> (s: FilteredVectorSearch)
        ensures
            s == (FilteredVectorSearch { byte_budget: budget, ..self }),
    {
        let mut s = self;
        s.byte_budget = budget;
        s
    }

    /// The same search among at most `cap` candidates.
    pub fn probe_cap(self, cap: usize) -> (s: FilteredVectorSearch)
        ensures
            s == (FilteredVectorSearch { probe_cap: cap, ..self }),
    {
        let mut s = self;
        s.probe_cap = cap;
        s
    }

    /// The same search, this way whatever it costs.
    pub fn strategy(self, strategy: VectorFilterStrategy) -> (s: FilteredVectorSearch)
        ensures
            s == (FilteredVectorSearch { forced: Some(strategy), ..self }),
    {
        let mut s = self;
        s.forced = Some(strategy);
        s
    }

    /// The estimate of a search that wants nothing, which needs no probe.
    pub fn wants_nothing(&self) -> (e: Option<CostEstimate>)
        ensures
            e.is_some() == (self.top_k == 0),
            e matches Some(est) ==> est == nothing_wanted(),
    {
        if self.top_k == 0 {
            Some(
                CostEstimate {
                    strategy: VectorFilterStrategy::PreFilterCTE,
                    candidates: CandidateCount::Exact(0),
                    post_filter_bytes: 0,
                    pre_filter_bytes: 0,
                    k_prime: 0,
                },
            )
        } else {
            None
        }
    }

    /// The candidates that a probe keeps, and how many there are.
    pub fn probe(&self, ids: Vec<String>) -> (found: (Vec<String>, CandidateCount))
        ensures
            plan::texts(found.0@) == kept(plan::texts(ids@), self.probe_cap),
            found.1 == probed(ids@.len(), self.probe_cap),
    {
        let mut ids = ids;
        let n: usize = ids.len();
        let ghost all = plan::texts(ids@);
        if n > self.probe_cap {
            ids.truncate(self.probe_cap);
            proof {
                assert(plan::texts(ids@) =~= all.take(self.probe_cap as int));
            }
            (ids, CandidateCount::AtLeast(self.probe_cap))
        } else {
            (ids, CandidateCount::Exact(n))
        }
    }

    /// Whether `e` is the estimate of the search for so many candidates in a
    /// corpus of `corpus` vectors of `dim` numbers.
    pub open spec fn is_estimated(&self, count: CandidateCount, dim: int, corpus: usize, e: CostEstimate) -> bool {
        let estimator = CostEstimator {
            byte_budget: self.byte_budget,
            corpus,
            vector_bytes: (dim * 4) as usize,
        };
        exists|est: CostEstimate| #[trigger]
            estimator.is_estimate(self.top_k as int, count, est) && e == (match self.forced {
                Some(strategy) => CostEstimate { strategy, ..est },
                None => est,
            })
    }

    /// What is left to do once the traversal gave back `ids`, in a corpus of
    /// `corpus` vectors of `dim` numbers each.
    pub fn plan(&self, ids: Vec<String>, dim: usize, corpus: usize) -> (p: Result<SearchPlan>)
        requires
            dim * 4 <= usize::MAX,
        ensures
            self.top_k == 0 ==> (p matches Ok(plan) && plan == SearchPlan::Nothing(nothing_wanted())),
            self.top_k > 0 ==> ({
                let count = probed(ids@.len(), self.probe_cap);
                let bytes = capped(count.at_least() * id_bytes());
                if bytes > self.byte_budget {
                    p matches Err(err) && (err matches DbError::SubgraphTooLarge { n, budget } && n == bytes
                        && budget == self.byte_budget)
                } else {
                    p matches Ok(plan) && match plan {
                        SearchPlan::Nothing(e) => {
                            &&& kept(plan::texts(ids@), self.probe_cap).len() == 0
                            &&& self.is_estimated(count, dim as int, corpus, e)
                        },
                        SearchPlan::Post { candidates, estimate } => {
                            &&& plan::texts(candidates@) == kept(plan::texts(ids@), self.probe_cap)
                            &&& candidates@.len() > 0
                            &&& self.is_estimated(count, dim as int, corpus, estimate)
                            &&& estimate.strategy == VectorFilterStrategy::PostFilter
                        },
                        SearchPlan::Pre { candidates, estimate } => {
                            &&& plan::texts(candidates@) == kept(plan::texts(ids@), self.probe_cap)
                            &&& candidates@.len() > 0
                            &&& self.is_estimated(count, dim as int, corpus, estimate)
                            &&& estimate.strategy == VectorFilterStrategy::PreFilterCTE
                        },
                    }
                }
            }),
    {
        if let Some(estimate) = self.wants_nothing() {
            return Ok(SearchPlan::Nothing(estimate));
        }
        let (candidates, count) = self.probe(ids);
        let estimator = CostEstimator::new(self.byte_budget, corpus, dim * 4);
        let mut estimate = match estimator.estimate(self.top_k, count) {
            Ok(estimate) => estimate,
            Err(e) => {
                return Err(e);
            },
        };
        if let Some(strategy) = self.forced {
            estimate.strategy = strategy;
        }
        proof {
            assert(plan::texts(candidates@).len() == candidates@.len());
        }
        if candidates.len() == 0 {
            return Ok(SearchPlan::Nothing(estimate));
        }
        match estimate.strategy {
            VectorFilterStrategy::PostFilter => Ok(SearchPlan::Post { candidates, estimate }),
            VectorFilterStrategy::PreFilterCTE => Ok(SearchPlan::Pre { candidates, estimate }),
        }
    }
}

/// Measures candidates against a query.
pub open spec fn measure_sql_text(table: Seq<char>, visible: Seq<char>, ids: nat, k: nat) -> Seq<char> {
    r"SELECT e.concept_id, vector_distance_cos(e.embedding, ?1)
                   FROM "@
        + table
        + r" AS e
                   JOIN concepts AS c ON c.id = e.concept_id
                  WHERE e.concept_id IN ("@
        + sql::slot_list(2, ids)
        + r")
                    AND "@
        + visible
        + r"
                  ORDER BY 2 ASC
                  LIMIT "@
        + text::decimal(k)
}

/// Measures the candidates in `ids` slots from the second on against the query in
/// the first, and reads the `k` nearest. `visible` says which concepts may be
/// seen.
pub fn measure_sql(table: &str, visible: &str, ids: usize, k: usize) -> (sql: String)
    requires
        ids + 2 <= usize::MAX,
    ensures
        sql@ == measure_sql_text(table@, visible@, ids as nat, k as nat),
{
    let placeholders = slots(2, ids);
    let mut out = r"SELECT e.concept_id, vector_distance_cos(e.embedding, ?1)
                   FROM ".to_owned();
    out.append(table);
    out.append(r" AS e
                   JOIN concepts AS c ON c.id = e.concept_id
                  WHERE e.concept_id IN (");
    out.append(placeholders.as_str());
    out.append(r")
                    AND ");
    out.append(visible);
    out.append(r"
                  ORDER BY 2 ASC
                  LIMIT ");
    push_decimal(&mut out, k as u64);
    out
}

/// Counts the vectors of a table.
pub open spec fn corpus_text(table: Seq<char>) -> Seq<char> {
    "SELECT COUNT(*) FROM "@ + table
}

/// Counts the vectors of a table.
pub fn corpus_sql(table: &str) -> (sql: String)
    ensures
        sql@ == corpus_text(table@),
{
    let mut out = "SELECT COUNT(*) FROM ".to_owned();
    out.append(table);
    out
}

impl FilteredVectorSearch {
    /// How many vectors there are, as the count of `table` says. A table that
    /// answered nothing is that of a model nobody registered.
    pub fn corpus_size(&self, table: &str, count: Option<i64>) -> (n: Result<usize>)
        ensures
            n.is_ok() == count.is_some(),
            n matches Ok(size) ==> size == count->0 as usize,
            n matches Err(e) ==> (e matches DbError::ModelNotRegistered { model, table: t } && model@
                == self.model@ && t@ == table@),
    {
        match count {
            Some(count) => Ok(count as usize),
            None => Err(
                DbError::ModelNotRegistered {
                    model: self.model.as_str().to_owned(),
                    table: table.to_owned(),
                },
            ),
        }
    }
}

/// What a statement that measures candidates binds.
pub open spec fn measure_row(blob: Seq<u8>, ids: Seq<Seq<char>>, at: Option<Seq<char>>) -> Seq<SqlView> {
    seq![SqlView::Blob(blob)] + ids.map_values(|id: Seq<char>| SqlView::Text(id)) + (match at {
        Some(ts) => seq![SqlView::Text(ts)],
        None => Seq::empty(),
    })
}

impl FilteredVectorSearch {
    /// The slot of the instant at which candidates must hold, after `ids`
    /// candidates; none where the search is of the present.
    pub fn instant_slot(&self, ids: usize) -> (slot: Option<usize>)
        requires
            ids + 2 <= usize::MAX,
        ensures
            slot == (if self.traversal.as_of_valid.is_some() {
                Some((ids + 2) as usize)
            } else {
                None
            }),
    {
        if self.traversal.as_of_valid.is_some() {
            Some(ids + 2)
        } else {
            None
        }
    }

    /// The statement that measures one chunk of candidates against the encoded
    /// query, and what it binds.
    pub fn measure(&self, table: &str, visible: &str, blob: Vec<u8>, ids: &[String]) -> (query: (
        String,
        Vec<SqlValue>,
    ))
        requires
            ids@.len() + 2 <= usize::MAX,
        ensures
            query.0@ == measure_sql_text(table@, visible@, ids@.len(), self.top_k as nat),
            sql::values(query.1@) == measure_row(blob@, plan::texts(ids@), self.traversal@.as_of_valid),
    {
        let n: usize = ids.len();
        let mut row: Vec<SqlValue> = Vec::new();
        let ghost head = seq![SqlView::Blob(blob@)];
        bind(&mut row, SqlValue::Blob(blob));
        let ghost texts = plan::texts(ids@).map_values(|id: Seq<char>| SqlView::Text(id));
        proof {
            assert(sql::values(row@) =~= head + texts.take(0));
        }
        let mut i: usize = 0;
        while i < n
            invariant
                n == ids@.len(),
                i <= n,
                texts == plan::texts(ids@).map_values(|id: Seq<char>| SqlView::Text(id)),
                sql::values(row@) == head + texts.take(i as int),
            decreases n - i,
        {
            bind(&mut row, text_value(ids[i].as_str()));
            proof {
                assert(texts.take(i + 1) =~= texts.take(i as int).push(SqlView::Text(ids@[i as int]@)));
                assert(sql::values(row@) =~= head + texts.take(i + 1));
            }
            i = i + 1;
        }
        proof {
            assert(texts.take(n as int) =~= texts);
        }
        if let Some(ts) = &self.traversal.as_of_valid {
            bind(&mut row, text_value(ts.as_str()));
        }
        proof {
            assert(sql::values(row@) =~= measure_row(blob@, plan::texts(ids@), self.traversal@.as_of_valid));
        }
        (measure_sql(table, visible, n, self.top_k), row)
    }
}

/// The chunks in which `total` candidates are measured, each as the first and
/// the one after the last.
pub fn id_chunks(total: usize) -> (chunks: Vec<(usize, usize)>)
    ensures
        sql::are_cuts(chunks@, total as int, IDS_PER_STATEMENT as int),
{
    cuts_of(total, IDS_PER_STATEMENT)
}

/// Whether `a` is reported before `b`: it is nearer, or as near and of the
/// lesser id.
pub open spec fn nearer(a: HitView, b: HitView) -> bool {
    a.score < b.score || (a.score == b.score && text::text_lt(a.concept_id, b.concept_id))
}

/// Whether no result stands after one that it is reported before.
pub open spec fn in_order(hits: Seq<HitView>) -> bool {
    forall|i: int, j: int| 0 <= i < j < hits.len() ==> !nearer(#[trigger] hits[j], #[trigger] hits[i])
}

/// The first `k` of a list, or all of it.
pub open spec fn first(hits: Seq<HitView>, k: int) -> Seq<HitView> {
    if hits.len() <= k {
        hits
    } else {
        hits.take(k)
    }
}

/// The first of a list are as many as are wanted, or all there are, and stand as
/// they did.
pub proof fn law_the_first_are_the_foremost(hits: Seq<HitView>, k: int)
    requires
        0 <= k,
    ensures
        first(hits, k).len() <= k,
        first(hits, k).len() == k || first(hits, k).len() == hits.len(),
        first(hits, k).is_prefix_of(hits),
{
}

/// Whether `out` is the `k` nearest of `all`.
pub open spec fn are_nearest(all: Seq<HitView>, k: int, out: Seq<HitView>) -> bool {
    exists|order: Seq<HitView>| #[trigger]
        in_order(order) && order.to_multiset() == all.to_multiset() && out == first(order, k)
}

fn is_nearer(a: &VectorSearchResult, b: &VectorSearchResult) -> (yes: bool)
    ensures
        yes == nearer(a@, b@),
{
    a.score < b.score || (a.score == b.score && text_order(a.concept_id.as_str(), b.concept_id.as_str())
        == Order::Less)
}

proof fn lemma_nearer_is_transitive(a: HitView, b: HitView, c: HitView)
    ensures
        !nearer(b, a) && !nearer(c, b) ==> !nearer(c, a),
        nearer(a, b) ==> !nearer(b, a),
{
    text::lemma_text_lt_asymmetric(a.concept_id, b.concept_id);
    if !nearer(b, a) && !nearer(c, b) && nearer(c, a) {
        text::lemma_text_lt_total(a.concept_id, b.concept_id);
        text::lemma_text_lt_total(b.concept_id, c.concept_id);
        text::lemma_text_lt_asymmetric(c.concept_id, a.concept_id);
        if text::text_lt(a.concept_id, b.concept_id) && text::text_lt(b.concept_id, c.concept_id) {
            text::lemma_text_lt_transitive(a.concept_id, b.concept_id, c.concept_id);
        }
    }
}

/// The `k` nearest of the results of all chunks, in an order that does not
/// depend on which chunk they came from.
pub fn merge(hits: Vec<VectorSearchResult>, k: usize) -> (out: Vec<VectorSearchResult>)
    ensures
        are_nearest(vector::hits_view(hits@), k as int, vector::hits_view(out@)),
{
    broadcast use vstd::seq_lib::group_to_multiset_ensures;

    let ghost all = vector::hits_view(hits@);
    let mut out: Vec<VectorSearchResult> = Vec::new();
    proof {
        assert(vector::hits_view(out@) =~= all.take(0));
    }
    for h in it: hits
        invariant
            all == vector::hits_view(it.seq()),
            in_order(vector::hits_view(out@)),
            vector::hits_view(out@).to_multiset() == all.take(it.index() as int).to_multiset(),
    {
        broadcast use vstd::seq_lib::group_to_multiset_ensures;

        let ghost i = it.index() as int;
        let ghost before = vector::hits_view(out@);
        let mut p: usize = out.len();
        while p > 0 && is_nearer(&h, &out[p - 1])
            invariant
                p <= out@.len(),
                before == vector::hits_view(out@),
                forall|q: int| p <= q < before.len() ==> nearer(h@, #[trigger] before[q]),
            decreases p,
        {
            proof {
                assert(before[p - 1] == out@[p - 1]@);
            }
            p = p - 1;
        }
        proof {
            if p > 0 {
                assert(before[p - 1] == out@[p - 1]@);
                assert(!nearer(h@, before[p - 1]));
            }
        }
        out.insert(p, h);
        proof {
            let after = vector::hits_view(out@);
            assert(after =~= before.insert(p as int, h@));
            assert forall|a: int, b: int| 0 <= a < b < after.len() implies !nearer(
                #[trigger] after[b],
                #[trigger] after[a],
            ) by {
                let a0 = if a < p { a } else { a - 1 };
                let b0 = if b < p { b } else { b - 1 };
                if a != p && b != p {
                    assert(!nearer(before[b0], before[a0]));
                } else if b == p {
                    assert(after[a] == before[a]);
                    if a < p - 1 {
                        assert(!nearer(before[p - 1], before[a]));
                        lemma_nearer_is_transitive(before[a], before[p - 1], h@);
                    }
                } else {
                    assert(after[b] == before[b - 1]);
                    lemma_nearer_is_transitive(h@, before[b - 1], h@);
                }
            }
            assert(all.take(i + 1) =~= all.take(i).push(h@));
            assert(after.remove(p as int) =~= before);
            assert(after[p as int] == h@);
            assert(after.contains(h@));
            assert(after.to_multiset() =~= before.to_multiset().insert(h@));
        }
    }
    let ghost order = vector::hits_view(out@);
    proof {
        assert(all.take(all.len() as int) =~= all);
    }
    if out.len() > k {
        out.truncate(k);
    }
    proof {
        assert(vector::hits_view(out@) =~= first(order, k as int));
    }
    out
}

/// The results among `hits` that are of a candidate, in their order.
pub open spec fn passing(hits: Seq<HitView>, allowed: Set<Seq<char>>) -> Seq<HitView>
    decreases hits.len(),
{
    if hits.len() == 0 {
        Seq::empty()
    } else if allowed.contains(hits.last().concept_id) {
        passing(hits.drop_last(), allowed).push(hits.last())
    } else {
        passing(hits.drop_last(), allowed)
    }
}

/// What passes are the results of a candidate, each once and in their order: `of`
/// tells which.
pub proof fn law_what_passes_is_of_a_candidate(hits: Seq<HitView>, allowed: Set<Seq<char>>) -> (of: Seq<int>)
    ensures
        of.len() == passing(hits, allowed).len(),
        forall|k: int|
            0 <= k < of.len() ==> 0 <= (#[trigger] of[k]) < hits.len() && passing(hits, allowed)[k] == hits[of[k]]
                && allowed.contains(hits[of[k]].concept_id),
        forall|k: int, l: int| 0 <= k < l < of.len() ==> #[trigger] of[k] < #[trigger] of[l],
        forall|i: int|
            0 <= i < hits.len() && allowed.contains((#[trigger] hits[i]).concept_id) ==> of.contains(i),
    decreases hits.len(),
{
    if hits.len() == 0 {
        Seq::empty()
    } else {
        let n = hits.len() - 1;
        let before = law_what_passes_is_of_a_candidate(hits.drop_last(), allowed);
        if allowed.contains(hits.last().concept_id) {
            let of = before.push(n);
            assert forall|i: int| 0 <= i < hits.len() && allowed.contains(
                (#[trigger] hits[i]).concept_id,
            ) implies of.contains(i) by {
                if i < n {
                    assert(hits.drop_last()[i] == hits[i]);
                    let k = before.index_of(i);
                    assert(of[k] == i);
                } else {
                    assert(of[before.len() as int] == i);
                }
            }
            of
        } else {
            assert forall|i: int| 0 <= i < hits.len() && allowed.contains(
                (#[trigger] hits[i]).concept_id,
            ) implies before.contains(i) by {
                assert(hits.drop_last()[i] == hits[i]);
            }
            before
        }
    }
}

/// The candidates, as a set.
pub open spec fn allowed_by(candidates: Seq<Seq<char>>) -> Set<Seq<char>> {
    Set::new(|id: Seq<char>| candidates.contains(id))
}

fn name_set(candidates: &[String]) -> (t: Table<bool>)
    ensures
        t.wf(),
        t@.dom() == allowed_by(plan::texts(candidates@)),
{
    let mut t: Table<bool> = Table::new();
    let n: usize = candidates.len();
    let mut i: usize = 0;
    let ghost texts = plan::texts(candidates@);
    proof {
        assert(t@.dom() =~= allowed_by(texts.take(0)));
    }
    while i < n
        invariant
            n == candidates@.len(),
            texts == plan::texts(candidates@),
            i <= n,
            t.wf(),
            t@.dom() == allowed_by(texts.take(i as int)),
        decreases n - i,
    {
        let _ = t.insert(candidates[i].clone(), true);
        proof {
            let id = texts[i as int];
            let (shorter, longer) = (texts.take(i as int), texts.take(i + 1));
            assert forall|s: Seq<char>| #[trigger] longer.contains(s) <==> shorter.contains(s) || s == id by {
                if longer.contains(s) {
                    let j = choose|j: int| 0 <= j < longer.len() && longer[j] == s;
                    if j < i {
                        assert(shorter[j] == s);
                    }
                }
                if shorter.contains(s) {
                    let j = choose|j: int| 0 <= j < shorter.len() && shorter[j] == s;
                    assert(longer[j] == s);
                }
                assert(longer[i as int] == id);
            }
            assert(t@.dom() =~= allowed_by(texts.take(i + 1)));
        }
        i = i + 1;
    }
    proof {
        assert(texts.take(n as int) =~= texts);
    }
    t
}

/// What filtering the neighbours that an index gave back comes to.
#[derive(Debug)]
pub enum PostOutcome {
    /// These are the answer.
    Answer(Vec<VectorSearchResult>),
    /// Too few passed and the index had more: the answer may lie past what it
    /// gave back, so every candidate is to be measured.
    Escalate,
}

impl FilteredVectorSearch {
    /// Filters the `k_prime` neighbours that the index was asked for.
    pub fn post_filter(&self, hits: Vec<VectorSearchResult>, candidates: &[String], k_prime: usize) -> (o:
        PostOutcome)
        ensures
            ({
                let found = first(
                    passing(vector::hits_view(hits@), allowed_by(plan::texts(candidates@))),
                    self.top_k as int,
                );
                match o {
                    PostOutcome::Escalate => found.len() < self.top_k && hits@.len() >= k_prime,
                    PostOutcome::Answer(out) => {
                        &&& !(found.len() < self.top_k && hits@.len() >= k_prime)
                        &&& vector::hits_view(out@) == found
                    },
                }
            }),
    {
        let saturated = hits.len() >= k_prime;
        let allow = name_set(candidates);
        let ghost all = vector::hits_view(hits@);
        let ghost allowed = allowed_by(plan::texts(candidates@));
        let mut out: Vec<VectorSearchResult> = Vec::new();
        proof {
            assert(vector::hits_view(out@) =~= passing(all.take(0), allowed));
        }
        for h in it: hits
            invariant
                all == vector::hits_view(it.seq()),
                allow.wf(),
                allow@.dom() == allowed,
                vector::hits_view(out@) == passing(all.take(it.index() as int), allowed),
        {
            let ghost i = it.index() as int;
            let ghost before = vector::hits_view(out@);
            proof {
                assert(all.take(i + 1).drop_last() =~= all.take(i));
                assert(all.take(i + 1).last() == h@);
            }
            if allow.contains(h.concept_id.as_str()) {
                out.push(h);
                proof {
                    assert(vector::hits_view(out@) =~= before.push(h@));
                }
            }
        }
        proof {
            assert(all.take(all.len() as int) =~= all);
        }
        let ghost found = vector::hits_view(out@);
        if out.len() > self.top_k {
            out.truncate(self.top_k);
        }
        proof {
            assert(vector::hits_view(out@) =~= first(found, self.top_k as int));
        }
        if out.len() < self.top_k && saturated {
            PostOutcome::Escalate
        } else {
            PostOutcome::Answer(out)
        }
    }
}

proof fn lemma_passing_splits(hits: Seq<HitView>, allowed: Set<Seq<char>>, n: int)
    requires
        0 <= n <= hits.len(),
    ensures
        passing(hits.take(n), allowed).len() <= passing(hits, allowed).len(),
        passing(hits, allowed).take(passing(hits.take(n), allowed).len() as int) == passing(
            hits.take(n),
            allowed,
        ),
    decreases hits.len(),
{
    if n == hits.len() {
        assert(hits.take(n) =~= hits);
        assert(passing(hits, allowed).take(passing(hits, allowed).len() as int) =~= passing(hits, allowed));
    } else {
        let shorter = hits.drop_last();
        assert(shorter.take(n) =~= hits.take(n));
        lemma_passing_splits(shorter, allowed, n);
        let m = passing(hits.take(n), allowed).len() as int;
        assert(passing(hits, allowed).take(m) =~= passing(shorter, allowed).take(m));
    }
}

/// Which way a search goes cannot change its answer. Let `order` be everything
/// the index holds, nearest first, of which it gives back the first `k_prime`.
/// Then what is left of those after the filter, cut at `k`, is what is left of
/// all of `order`, cut at `k` — unless too few are left while the index had
/// more, and then the search measures every candidate instead.
pub proof fn law_the_strategy_does_not_change_the_answer(
    order: Seq<HitView>,
    allowed: Set<Seq<char>>,
    k: int,
    k_prime: int,
)
    requires
        0 <= k,
        0 <= k_prime,
    ensures
        ({
            let given = first(order, k_prime);
            let found = first(passing(given, allowed), k);
            !(found.len() < k && given.len() >= k_prime) ==> found == first(passing(order, allowed), k)
        }),
{
    let given = first(order, k_prime);
    let all = passing(order, allowed);
    if order.len() > k_prime {
        lemma_passing_splits(order, allowed, k_prime);
        let some = passing(given, allowed);
        if some.len() >= k {
            assert(first(some, k) =~= first(all, k)) by {
                assert forall|i: int| 0 <= i < k implies some[i] == all[i] by {
                    assert(all.take(some.len() as int)[i] == some[i]);
                }
            }
        }
    }
}

} // verus!
