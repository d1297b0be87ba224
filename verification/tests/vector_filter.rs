//! Nearest neighbours among what a traversal reaches.

use macrame::graph::vector_filter::{
    corpus_sql, id_chunks, measure_sql, merge, PostOutcome, SearchPlan, IDS_PER_STATEMENT,
};
use macrame::graph::{
    CandidateCount, CostEstimator, FilteredVectorSearch, TraversalBuilder, VectorFilterStrategy,
    DEFAULT_BYTE_BUDGET, DEFAULT_PROBE_CAP,
};
use macrame::sql::cuts_of;
use macrame::sql::SqlValue;
use macrame::vector::{ModelName, VectorSearchResult};
use macrame::DbError;

fn hit(id: &str, score: u64) -> VectorSearchResult {
    VectorSearchResult { concept_id: id.into(), score }
}

fn search() -> FilteredVectorSearch {
    FilteredVectorSearch::new(
        ModelName::new("minilm").unwrap(),
        vec![0; 4],
        TraversalBuilder::new("start"),
    )
}

fn ids(n: usize) -> Vec<String> {
    (0..n).map(|i| format!("c{i:05}")).collect()
}

#[test]
fn a_wider_corpus_asks_for_more() {
    let c = CostEstimator::new(DEFAULT_BYTE_BUDGET, 1_000, 16);
    assert_eq!(c.k_prime(10, 100), 100);
    assert_eq!(c.k_prime(10, 1_000), 10);
    assert_eq!(c.k_prime(10, 1), 1_000, "no more than there are");
    assert_eq!(c.k_prime(10, 0), 10);
    assert_eq!(c.k_prime(10, 5_000), 10, "no fewer than asked for");
    assert_eq!(CostEstimator::new(1, 5, 16).k_prime(10, 1), 5);
    assert_eq!(CostEstimator::new(1, 5, 16).k_prime(10, 5), 5);
    assert_eq!(CostEstimator::new(1, 5, 16).k_prime(10, 9), 5);
    assert_eq!(CostEstimator::new(1, 0, 16).k_prime(10, 9), 10);
}

#[test]
fn the_cheaper_way_is_taken_and_the_index_where_they_are_level() {
    let c = CostEstimator::new(DEFAULT_BYTE_BUDGET, 1_000, 16);
    let id = 26 + std::mem::size_of::<String>();
    let each = 16 + id + 4;
    let few = c.estimate(10, CandidateCount::Exact(20)).unwrap();
    assert_eq!(few.k_prime, 500);
    assert_eq!(few.post_filter_bytes, 500 * each + 20 * id);
    assert_eq!(few.pre_filter_bytes, 20 * each + 20 * id);
    assert_eq!(few.strategy, VectorFilterStrategy::PreFilterCTE);
    let many = c.estimate(10, CandidateCount::AtLeast(900)).unwrap();
    assert_eq!(many.strategy, VectorFilterStrategy::PostFilter);
    assert!(many.candidates.is_capped());
    assert_eq!(many.candidates.lower_bound(), 900);
    let level = c.estimate(10, CandidateCount::Exact(100)).unwrap();
    assert_eq!(level.post_filter_bytes, level.pre_filter_bytes);
    assert_eq!(level.strategy, VectorFilterStrategy::PostFilter);
    assert!(matches!(
        CostEstimator::new(id, 1_000, 16).estimate(10, CandidateCount::Exact(2)),
        Err(DbError::SubgraphTooLarge { n, budget }) if n == 2 * id && budget == id
    ));
}

#[test]
fn a_search_is_planned_from_what_its_probe_found() {
    assert_eq!(search().probe_cap, DEFAULT_PROBE_CAP);
    let s = search().top_k(10).probe_cap(3);
    let (kept, count) = s.probe(ids(5));
    assert_eq!(kept.len(), 3);
    assert_eq!(count, CandidateCount::AtLeast(3));
    assert_eq!(s.probe(ids(3)).1, CandidateCount::Exact(3));

    assert!(search().top_k(0).wants_nothing().is_some());
    assert!(s.wants_nothing().is_none());
    assert!(matches!(
        search().top_k(0).plan(ids(5), 4, 100),
        Ok(SearchPlan::Nothing(e)) if e.k_prime == 0
    ));
    assert!(matches!(s.plan(ids(0), 4, 100), Ok(SearchPlan::Nothing(_))));
    assert!(matches!(
        s.plan(ids(2), 4, 1_000),
        Ok(SearchPlan::Pre { candidates, .. }) if candidates.len() == 2
    ));
    let forced = s.strategy(VectorFilterStrategy::PostFilter);
    assert!(matches!(
        forced.plan(ids(2), 4, 1_000),
        Ok(SearchPlan::Post { estimate, .. }) if estimate.k_prime == 1_000
    ));
    assert!(matches!(
        forced.byte_budget(1).plan(ids(2), 4, 1_000),
        Err(DbError::SubgraphTooLarge { budget: 1, .. })
    ));
}

#[test]
fn too_few_passing_neighbours_of_a_full_answer_escalate() {
    let s = search().top_k(2);
    let allowed = ["a".to_string(), "c".to_string()];
    match s.post_filter(vec![hit("a", 1), hit("b", 2), hit("c", 3)], &allowed, 3) {
        PostOutcome::Answer(out) => {
            assert_eq!(out.iter().map(|h| h.concept_id.as_str()).collect::<Vec<_>>(), ["a", "c"]);
        }
        other => panic!("{other:?}"),
    }
    assert!(matches!(
        s.post_filter(vec![hit("a", 1), hit("b", 2)], &allowed, 2),
        PostOutcome::Escalate
    ));
    assert!(matches!(
        s.post_filter(vec![hit("a", 1), hit("b", 2)], &allowed, 3),
        PostOutcome::Answer(out) if out.len() == 1
    ));
}

#[test]
fn a_corpus_smaller_than_what_is_asked_for_is_answered() {
    let s = search().top_k(10);
    let all = vec![hit("a", 1), hit("b", 2)];
    let k_prime = CostEstimator::new(1 << 20, 2, 16).k_prime(10, 2);
    assert_eq!(k_prime, 2);
    let allowed = ["a".to_string(), "b".to_string()];
    assert!(matches!(s.post_filter(all.clone(), &allowed, k_prime), PostOutcome::Escalate));
    assert_eq!(merge(all, 10).len(), 2, "measuring every candidate finds both");
}

#[test]
fn both_ways_give_the_same_answer() {
    let all = vec![hit("d", 4), hit("a", 1), hit("c", 1), hit("b", 2)];
    let measured = merge(all.clone(), 3);
    assert_eq!(
        measured.iter().map(|h| h.concept_id.as_str()).collect::<Vec<_>>(),
        ["a", "c", "b"],
        "nearest first, and by id where they are level"
    );
    let everyone: Vec<String> = all.iter().map(|h| h.concept_id.clone()).collect();
    match search().top_k(3).post_filter(merge(all, 4), &everyone, 4) {
        PostOutcome::Answer(out) => {
            assert_eq!(
                out.iter().map(|h| (&h.concept_id, h.score)).collect::<Vec<_>>(),
                measured.iter().map(|h| (&h.concept_id, h.score)).collect::<Vec<_>>()
            );
        }
        other => panic!("{other:?}"),
    }
}

#[test]
fn candidates_are_measured_in_bounded_statements() {
    assert!(id_chunks(0).is_empty());
    assert_eq!(
        id_chunks(2 * IDS_PER_STATEMENT + 1),
        [
            (0, IDS_PER_STATEMENT),
            (IDS_PER_STATEMENT, 2 * IDS_PER_STATEMENT),
            (2 * IDS_PER_STATEMENT, 2 * IDS_PER_STATEMENT + 1)
        ]
    );
    let sql = measure_sql("vec_minilm", "c.retired = 0", 2, 5);
    assert!(sql.contains("FROM vec_minilm AS e"), "{sql}");
    assert!(sql.contains("IN (?2, ?3)"), "{sql}");
    assert!(sql.ends_with("LIMIT 5"), "{sql}");
    assert_eq!(corpus_sql("t"), "SELECT COUNT(*) FROM t");

    let dated = FilteredVectorSearch::new(
        ModelName::new("minilm").unwrap(),
        vec![],
        TraversalBuilder::new("start").as_of_valid("2026-01-01T00:00:00.000000Z"),
    );
    assert_eq!(dated.instant_slot(2), Some(4));
    assert_eq!(search().instant_slot(2), None);
    let (_, row) = dated.measure("t", "1 = 1", vec![1, 2], &ids(2));
    assert!(matches!(&row[0], SqlValue::Blob(b) if b == &[1, 2]));
    assert!(matches!(&row[3], SqlValue::Text(t) if t.starts_with("2026")));
}

#[test]
fn a_model_nobody_registered_is_named() {
    assert_eq!(search().corpus_size("t", Some(7)).unwrap(), 7);
    assert!(matches!(
        search().corpus_size("vec_minilm", None),
        Err(DbError::ModelNotRegistered { model, table }) if model == "minilm" && table == "vec_minilm"
    ));
}

#[test]
fn a_list_is_cut_into_runs() {
    assert!(cuts_of(0, 3).is_empty());
    assert_eq!(cuts_of(3, 3), [(0, 3)]);
    assert_eq!(cuts_of(7, 3), [(0, 3), (3, 6), (6, 7)]);
    assert_eq!(cuts_of(usize::MAX, usize::MAX), [(0, usize::MAX)]);
}
