//! What measuring candidates gives back.

use vstd::multiset::Multiset;
use vstd::prelude::*;

use crate::graph::vector_filter;
use crate::relation::names;
use crate::relation::query;
use crate::relation::query::{Cols, Query, World};
use crate::relation::term;
use crate::relation::term::{Cond, Gap, Row, Term};
use crate::sql;
use crate::sql::SqlView;
use crate::text;
use crate::vector::HitView;

verus! {

/// How far an embedded concept lies from the query.
#[verifier::opaque]
pub open spec fn measured() -> Term {
    term::call("vector_distance_cos"@, term::column("e"@, "embedding"@), term::slot(1))
}

/// A concept and how far it lies.
#[verifier::opaque]
pub open spec fn measured_columns() -> Cols {
    query::also(query::one(term::column("e"@, "concept_id"@), "concept_id"@), Gap::Blank, measured(), "distance"@)
}

/// What joins a concept to its vector.
#[verifier::opaque]
pub open spec fn of_concept() -> Cond {
    term::eq(term::column("c"@, "id"@), term::column("e"@, "concept_id"@))
}

/// Whether a vector is of a candidate that may be seen.
#[verifier::opaque]
pub open spec fn of_candidate(ids: nat, visible: Cond) -> Cond {
    term::and(term::among(term::column("e"@, "concept_id"@), 2, ids), Gap::Line(20), visible)
}

/// The query that measures every candidate.
pub open spec fn measure_all(table: Seq<char>, visible: Cond, ids: nat) -> Query {
    query::select(
        measured_columns(),
        Gap::Line(19),
        query::join(
            query::table_as_word(table, "e"@),
            Gap::Line(19),
            " AS "@,
            "concepts"@,
            "c"@,
            of_concept(),
        ),
        Gap::Line(18),
        of_candidate(ids, visible),
    )
}

/// The nearest first.
#[verifier::opaque]
pub open spec fn nearest_first() -> query::Order {
    query::ascending(query::position(measured_columns(), 2))
}

/// The query that reads the nearest candidates.
pub open spec fn measure(table: Seq<char>, visible: Cond, ids: nat, k: nat) -> Query {
    query::limited(
        query::ordered(measure_all(table, visible, ids), Gap::Line(18), nearest_first()),
        Gap::Line(18),
        term::number(k),
    )
}

/// How far a vector lies from the bound query.
pub open spec fn distance(w: World, e: Row) -> SqlView {
    (w.calls)("vector_distance_cos"@, seq![e("embedding"@), w.bound[0]])
}

/// Whether a vector is of a concept that is bound as a candidate and may be seen.
pub open spec fn is_candidate(w: World, visible: Cond, ids: nat, e: Row, c: Row) -> bool {
    &&& term::equal(c("id"@), e("concept_id"@))
    &&& exists|i: int| 0 <= i < ids && #[trigger] term::equal(e("concept_id"@), w.bound[1 + i])
    &&& visible.of(query::paired(w, e, "c"@, c))
}

/// Whether `all` lists every candidate once, with how far it lies, and `pairs`
/// the vector and the concept of each.
pub open spec fn lists_candidates(
    w: World,
    table: Seq<char>,
    visible: Cond,
    ids: nat,
    pairs: Seq<(int, int)>,
    all: Seq<Row>,
) -> bool {
    let (es, cs) = (w.rows(table), w.rows("concepts"@));
    &&& all.len() == pairs.len()
    &&& forall|m: int|
        0 <= m < all.len() ==> {
            let (i, j) = #[trigger] pairs[m];
            &&& 0 <= i < es.len() && 0 <= j < cs.len() && is_candidate(w, visible, ids, es[i], cs[j])
            &&& all[m]("concept_id"@) == es[i]("concept_id"@)
            &&& all[m]("distance"@) == distance(w, es[i])
        }
    &&& forall|m: int, n: int| 0 <= m < n < all.len() ==> #[trigger] pairs[m] != #[trigger] pairs[n]
    &&& forall|i: int, j: int|
        0 <= i < es.len() && 0 <= j < cs.len() && is_candidate(w, visible, ids, es[i], cs[j])
            ==> #[trigger] query::is_among(pairs, i, j)
}

/// Whether `out` are `k` of `all`, or all where there are fewer, the nearest first,
/// and none left out is nearer than one of them.
pub open spec fn are_nearest_of(all: Seq<Row>, k: nat, out: Seq<Row>) -> bool {
    &&& out.len() == (if all.len() <= k {
        all.len()
    } else {
        k
    })
    &&& forall|m: int| 0 <= m < out.len() ==> #[trigger] out[m] == all[m]
    &&& forall|m: int, n: int|
        0 <= m < out.len() && m < n < all.len() ==> !term::before(
            (#[trigger] all[n])("distance"@),
            (#[trigger] out[m])("distance"@),
        )
}

proof fn lemma_measured_columns_text()
    ensures
        measured_columns().text == "e.concept_id, vector_distance_cos(e.embedding, ?1)"@,
{
    reveal(measured_columns);
    reveal(measured);
    reveal_strlit("e.concept_id, vector_distance_cos(e.embedding, ?1)");
    reveal_strlit("e");
    reveal_strlit("concept_id");
    reveal_strlit("embedding");
    reveal_strlit("vector_distance_cos");
    reveal_strlit(".");
    reveal_strlit(",");
    reveal_strlit(", ");
    reveal_strlit("(");
    reveal_strlit(")");
    reveal_strlit("?");
    reveal_with_fuel(text::decimal, 2);
}

proof fn lemma_conditions_text(ids: nat, visible: Cond)
    ensures
        of_concept().text == "c.id = e.concept_id"@,
        of_candidate(ids, visible).text == "e.concept_id IN ("@ + sql::slot_list(2, ids)
            + ")\n                    AND "@ + visible.text,
        nearest_first().text == "2 ASC"@,
{
    reveal(of_concept);
    reveal(of_candidate);
    reveal(nearest_first);
    reveal_strlit("c.id = e.concept_id");
    reveal_strlit("e.concept_id IN (");
    reveal_strlit(")\n                    AND ");
    reveal_strlit("2 ASC");
    reveal_strlit("c");
    reveal_strlit("e");
    reveal_strlit("id");
    reveal_strlit("concept_id");
    reveal_strlit(".");
    reveal_strlit("=");
    reveal_strlit(" ");
    reveal_strlit(" IN (");
    reveal_strlit(")");
    reveal_strlit("AND ");
    reveal_strlit(" ASC");
    reveal_with_fuel(text::decimal, 2);
    assert(of_candidate(ids, visible).text =~= "e.concept_id IN ("@ + sql::slot_list(2, ids)
        + ")\n                    AND "@ + visible.text);
}

/// The measuring statement is written as its query is.
proof fn lemma_measure_text(table: Seq<char>, visible: Cond, ids: nat, k: nat)
    ensures
        vector_filter::measure_sql_text(table, visible.text, ids, k) == measure(table, visible, ids, k).text,
{
    lemma_measured_columns_text();
    lemma_conditions_text(ids, visible);
    reveal_strlit(r"SELECT e.concept_id, vector_distance_cos(e.embedding, ?1)
                   FROM ");
    reveal_strlit(
        r" AS e
                   JOIN concepts AS c ON c.id = e.concept_id
                  WHERE e.concept_id IN (",
    );
    reveal_strlit(r")
                    AND ");
    reveal_strlit(r"
                  ORDER BY 2 ASC
                  LIMIT ");
    reveal_strlit("e.concept_id, vector_distance_cos(e.embedding, ?1)");
    reveal_strlit("c.id = e.concept_id");
    reveal_strlit("e.concept_id IN (");
    reveal_strlit("2 ASC");
    reveal_strlit("e");
    reveal_strlit("c");
    reveal_strlit("concepts");
    reveal_strlit(" AS ");
    reveal_strlit(" ON ");
    reveal_strlit("JOIN ");
    reveal_strlit("SELECT ");
    reveal_strlit("FROM ");
    reveal_strlit("WHERE ");
    reveal_strlit("ORDER BY ");
    reveal_strlit("LIMIT ");
    let list = sql::slot_list(2, ids);
    let n = text::decimal(k);
    assert(vector_filter::measure_sql_text(table, visible.text, ids, k) =~= measure(table, visible, ids, k).text);
}

proof fn lemma_candidate(w: World, visible: Cond, ids: nat, e: Row, c: Row)
    requires
        !visible.loose,
    ensures
        ({
            let s = query::paired(w, e, "c"@, c);
            &&& of_concept().of(s) && of_candidate(ids, visible).of(s) <==> is_candidate(w, visible, ids, e, c)
            &&& measured_columns().of(s)("concept_id"@) == e("concept_id"@)
            &&& measured_columns().of(s)("distance"@) == distance(w, e)
        }),
{
    reveal(of_concept);
    reveal(of_candidate);
    reveal(measured_columns);
    reveal(measured);
    names::lemma_aliases();
    names::lemma_columns();
    reveal_strlit("distance");
    let s = query::paired(w, e, "c"@, c);
    assert(s.read("e"@, "concept_id"@) == e("concept_id"@));
    assert(s.read("e"@, "embedding"@) == e("embedding"@));
    assert(s.read("c"@, "id"@) == c("id"@));
    assert(of_concept().of(s) <==> term::equal(c("id"@), e("concept_id"@)));
    let id = term::column("e"@, "concept_id"@);
    let among = term::among(id, 2, ids);
    assert(term::equal(c("id"@), e("concept_id"@)) ==> (among.of(s) <==> exists|i: int|
        0 <= i < ids && #[trigger] term::equal(e("concept_id"@), w.bound[1 + i]))) by {
        if among.of(s) {
            let i = choose|i: int|
                0 <= i < ids && #[trigger] term::same(id.of(s), s.bound[2 - 1 + i]) && !(id.of(s) is Null);
            assert(term::equal(e("concept_id"@), w.bound[1 + i]));
        }
        if exists|i: int| 0 <= i < ids && #[trigger] term::equal(e("concept_id"@), w.bound[1 + i]) {
            let i = choose|i: int| 0 <= i < ids && #[trigger] term::equal(e("concept_id"@), w.bound[1 + i]);
            assert(term::same(id.of(s), s.bound[2 - 1 + i]) && !(id.of(s) is Null));
        }
    }
    assert(of_candidate(ids, visible).of(s) <==> among.of(s) && visible.of(s));
}

/// Measuring gives back the `k` nearest of the candidates that may be seen, or all
/// of them where there are fewer: the nearest first, and none left out is nearer
/// than one given back.
pub proof fn law_measuring_gives_the_nearest(
    table: Seq<char>,
    visible: Cond,
    ids: nat,
    k: nat,
    w: World,
    out: Seq<Row>,
) -> (r: (Seq<(int, int)>, Seq<Row>))
    requires
        !visible.loose,
        k <= i64::MAX,
        measure(table, visible, ids, k).answers(w, out),
    ensures
        vector_filter::measure_sql_text(table, visible.text, ids, k) == measure(table, visible, ids, k).text,
        lists_candidates(w, table, visible, ids, r.0, r.1),
        are_nearest_of(r.1, k, out),
{
    lemma_measure_text(table, visible, ids, k);
    let q = query::ordered(measure_all(table, visible, ids), Gap::Line(18), nearest_first());
    let full = choose|full: Seq<Row>| #[trigger] query::cut(q, w, k as int, full, out);
    assert(q.answers(w, full));
    let (es, cs) = (w.rows(table), w.rows("concepts"@));
    let pairs = query::lemma_select_join(
        measured_columns(),
        Gap::Line(19),
        query::table_as_word(table, "e"@),
        table,
        Gap::Line(19),
        " AS "@,
        "concepts"@,
        "c"@,
        of_concept(),
        Gap::Line(18),
        of_candidate(ids, visible),
        w,
        full,
    );
    assert forall|m: int| 0 <= m < full.len() implies {
        let (i, j) = #[trigger] pairs[m];
        &&& 0 <= i < es.len() && 0 <= j < cs.len() && is_candidate(w, visible, ids, es[i], cs[j])
        &&& full[m]("concept_id"@) == es[i]("concept_id"@)
        &&& full[m]("distance"@) == distance(w, es[i])
    } by {
        let (i, j) = pairs[m];
        lemma_candidate(w, visible, ids, es[i], cs[j]);
    }
    assert forall|i: int, j: int|
        0 <= i < es.len() && 0 <= j < cs.len() && is_candidate(w, visible, ids, es[i], cs[j])
            implies #[trigger] query::is_among(pairs, i, j) by {
        lemma_candidate(w, visible, ids, es[i], cs[j]);
    }
    assert forall|m: int, n: int| 0 <= m < n < full.len() implies !term::before(
        (#[trigger] full[n])("distance"@),
        (#[trigger] full[m])("distance"@),
    ) by {
        assert(!nearest_first().puts(w.over(full[n]), w.over(full[m])));
        reveal(nearest_first);
        reveal(measured_columns);
        assert(measured_columns().names[1] == "distance"@);
    }
    (pairs, full)
}

/// What measuring binds are the query, from which every distance is taken, and the
/// candidates: a vector is of a candidate exactly where its concept is one of them
/// and may be seen.
pub proof fn law_measuring_binds_the_query_and_the_candidates(
    blob: Seq<u8>,
    ids: Seq<Seq<char>>,
    at: Option<Seq<char>>,
    visible: Cond,
    w: World,
    e: Row,
    c: Row,
)
    requires
        w.bound == vector_filter::measure_row(blob, ids, at),
        e("concept_id"@) is Text,
    ensures
        distance(w, e) == (w.calls)("vector_distance_cos"@, seq![e("embedding"@), SqlView::Blob(blob)]),
        is_candidate(w, visible, ids.len(), e, c) <==> c("id"@) == e("concept_id"@) && ids.contains(
            e("concept_id"@)->Text_0,
        ) && visible.of(query::paired(w, e, "c"@, c)),
        at matches Some(ts) ==> w.bound.len() == ids.len() + 2 && w.bound.last() == SqlView::Text(ts),
{
    let id = e("concept_id"@)->Text_0;
    assert forall|i: int| 0 <= i < ids.len() implies #[trigger] w.bound[1 + i] == SqlView::Text(ids[i]) by {}
    if ids.contains(id) {
        let i = ids.index_of(id);
        assert(term::equal(e("concept_id"@), w.bound[1 + i]));
    }
    if exists|i: int| 0 <= i < ids.len() && #[trigger] term::equal(e("concept_id"@), w.bound[1 + i]) {
        let i = choose|i: int| 0 <= i < ids.len() && #[trigger] term::equal(e("concept_id"@), w.bound[1 + i]);
        assert(w.bound[1 + i] == SqlView::Text(ids[i]));
        assert(ids[i] == id);
    }
}

/// Whether `got` are `k` of `all`, or all where there are fewer, and none left out
/// is nearer than one of them.
pub open spec fn none_nearer(all: Multiset<HitView>, k: nat, got: Multiset<HitView>) -> bool {
    &&& got.subset_of(all)
    &&& got.len() == (if all.len() <= k {
        all.len()
    } else {
        k
    })
    &&& forall|g: HitView, h: HitView| #[trigger]
        got.count(g) > 0 && #[trigger] all.sub(got).count(h) > 0 ==> g.score <= h.score
}

/// Where a chunk left out `h`, nothing among the nearest is further away.
proof fn lemma_full_chunk(
    a: Multiset<HitView>,
    x: Multiset<HitView>,
    y: Multiset<HitView>,
    k: nat,
    got: Multiset<HitView>,
    g: HitView,
    h: HitView,
)
    requires
        none_nearer(a, k, x),
        none_nearer(x.add(y), k, got),
        got.count(g) > 0,
        a.sub(x).count(h) > 0,
    ensures
        g.score <= h.score,
{
    broadcast use vstd::multiset::group_multiset_axioms;

    let some = x.add(y);
    if g.score > h.score {
        assert(a.sub(x).len() == a.len() - x.len());
        assert(x.len() == k) by {
            if a.len() <= k {
                assert(a.sub(x).len() == 0);
                vstd::multiset::lemma_multiset_empty_len(a.sub(x));
                assert(a.sub(x).count(h) == 0);
            }
        }
        assert(x.subset_of(got)) by {
            assert forall|v: HitView| #[trigger] x.count(v) <= got.count(v) by {
                if x.count(v) > got.count(v) {
                    assert(v.score <= h.score);
                    assert(some.sub(got).count(v) > 0);
                    assert(g.score <= v.score);
                }
            }
        }
        assert(got.len() == k);
        assert(got.sub(x).len() == 0);
        vstd::multiset::lemma_multiset_empty_len(got.sub(x));
        assert(got.sub(x).count(g) == 0);
        assert(x.count(g) > 0);
    }
}

/// What the chunks hold together.
pub open spec fn together(chunks: Seq<Multiset<HitView>>) -> Multiset<HitView>
    decreases chunks.len(),
{
    if chunks.len() == 0 {
        Multiset::empty()
    } else {
        together(chunks.drop_last()).add(chunks.last())
    }
}

/// The first of a list in order are nearer than the rest.
proof fn lemma_first_are_nearest(order: Seq<HitView>, k: nat)
    requires
        vector_filter::in_order(order),
    ensures
        none_nearer(order.to_multiset(), k, vector_filter::first(order, k as int).to_multiset()),
{
    broadcast use vstd::multiset::group_multiset_axioms;

    let head = vector_filter::first(order, k as int);
    let tail = if order.len() <= k {
        Seq::empty()
    } else {
        order.skip(k as int)
    };
    assert(head + tail =~= order);
    vstd::seq_lib::lemma_multiset_commutative(head, tail);
    assert(order.to_multiset() =~= head.to_multiset().add(tail.to_multiset()));
    head.to_multiset_ensures();
    tail.to_multiset_ensures();
    order.to_multiset_ensures();
    assert(order.to_multiset().sub(head.to_multiset()) =~= tail.to_multiset());
    assert forall|g: HitView, h: HitView| #[trigger]
        head.to_multiset().count(g) > 0 && #[trigger] order.to_multiset().sub(head.to_multiset()).count(h)
            > 0 implies g.score <= h.score by {
        assert(head.contains(g));
        assert(tail.contains(h));
        let m = choose|m: int| 0 <= m < head.len() && head[m] == g;
        let n = choose|n: int| 0 <= n < tail.len() && tail[n] == h;
        assert(order[m] == g && order[k + n] == h);
        assert(!vector_filter::nearer(order[k + n], order[m]));
    }
}

/// What the chunks gave back is of them, and enough.
proof fn lemma_given(all: Seq<Multiset<HitView>>, given: Seq<Multiset<HitView>>, k: nat)
    requires
        all.len() == given.len(),
        forall|i: int| 0 <= i < all.len() ==> none_nearer(#[trigger] all[i], k, given[i]),
    ensures
        together(given).subset_of(together(all)),
        together(given).len() <= together(all).len(),
        together(given).len() >= k || together(given).len() == together(all).len(),
    decreases all.len(),
{
    broadcast use vstd::multiset::group_multiset_axioms;

    if all.len() > 0 {
        let n = all.len() - 1;
        assert forall|i: int| 0 <= i < all.drop_last().len() implies none_nearer(
            #[trigger] all.drop_last()[i],
            k,
            given.drop_last()[i],
        ) by {
            assert(none_nearer(all[i], k, given[i]));
        }
        lemma_given(all.drop_last(), given.drop_last(), k);
        assert(none_nearer(all[n], k, given[n]));
        assert forall|h: HitView| #[trigger] together(given).count(h) <= together(all).count(h) by {
            assert(together(given.drop_last()).count(h) <= together(all.drop_last()).count(h));
            assert(given[n].count(h) <= all[n].count(h));
        }
    }
}

/// What was left out was left out by a chunk.
proof fn lemma_left_out(all: Seq<Multiset<HitView>>, given: Seq<Multiset<HitView>>, k: nat, h: HitView) -> (i: int)
    requires
        all.len() == given.len(),
        forall|i: int| 0 <= i < all.len() ==> none_nearer(#[trigger] all[i], k, given[i]),
        together(given).count(h) < together(all).count(h),
    ensures
        0 <= i < all.len(),
        all[i].sub(given[i]).count(h) > 0,
        given[i].subset_of(together(given)),
    decreases all.len(),
{
    broadcast use vstd::multiset::group_multiset_axioms;

    let n = all.len() - 1;
    assert(none_nearer(all[n], k, given[n]));
    if given[n].count(h) < all[n].count(h) {
        assert(given[n].subset_of(together(given)));
        n
    } else {
        assert forall|i: int| 0 <= i < all.drop_last().len() implies none_nearer(
            #[trigger] all.drop_last()[i],
            k,
            given.drop_last()[i],
        ) by {
            assert(none_nearer(all[i], k, given[i]));
        }
        assert(given[n].count(h) <= all[n].count(h));
        let i = lemma_left_out(all.drop_last(), given.drop_last(), k, h);
        assert forall|v: HitView| #[trigger] given[i].count(v) <= together(given).count(v) by {
            assert(given.drop_last()[i].count(v) <= together(given.drop_last()).count(v));
        }
        i
    }
}

/// Candidates are measured chunk by chunk, each of which gives back the `k` nearest
/// of its own. What is merged of those are the `k` nearest of all candidates: none
/// left out, by its chunk or by the merge, is nearer than one given back. They
/// stand nearest first.
pub proof fn law_merging_gives_the_nearest(
    all: Seq<Multiset<HitView>>,
    given: Seq<Multiset<HitView>>,
    k: nat,
    hits: Seq<HitView>,
    out: Seq<HitView>,
)
    requires
        all.len() == given.len(),
        forall|i: int| 0 <= i < all.len() ==> none_nearer(#[trigger] all[i], k, given[i]),
        hits.to_multiset() == together(given),
        vector_filter::are_nearest(hits, k as int, out),
    ensures
        none_nearer(together(all), k, out.to_multiset()),
        forall|m: int, n: int| 0 <= m < n < out.len() ==> (#[trigger] out[m]).score <= (#[trigger] out[n]).score,
{
    broadcast use vstd::multiset::group_multiset_axioms;

    let order = choose|order: Seq<HitView>| #[trigger]
        vector_filter::in_order(order) && order.to_multiset() == hits.to_multiset() && out
            == vector_filter::first(order, k as int);
    lemma_first_are_nearest(order, k);
    lemma_given(all, given, k);
    let (every, some, got) = (together(all), together(given), out.to_multiset());
    assert forall|h: HitView| #[trigger] got.count(h) <= every.count(h) by {
        assert(got.count(h) <= some.count(h));
        assert(some.count(h) <= every.count(h));
    }
    assert forall|g: HitView, h: HitView| #[trigger] got.count(g) > 0 && #[trigger] every.sub(got).count(h)
        > 0 implies g.score <= h.score by {
        if some.sub(got).count(h) == 0 {
            assert(some.count(h) <= every.count(h));
            let i = lemma_left_out(all, given, k, h);
            let rest = some.sub(given[i]);
            assert(given[i].add(rest) =~= some);
            lemma_full_chunk(all[i], given[i], rest, k, got, g, h);
        }
    }
    assert forall|m: int, n: int| 0 <= m < n < out.len() implies (#[trigger] out[m]).score <= (
    #[trigger] out[n]).score by {
        assert(!vector_filter::nearer(order[n], order[m]));
    }
}

/// A measured row as a result, its distance as `rank` has it.
pub open spec fn hit_of(row: Row, rank: spec_fn(SqlView) -> u64) -> HitView {
    HitView { concept_id: row("concept_id"@)->Text_0, score: rank(row("distance"@)) }
}

/// The rows that a chunk gave back, as results.
pub open spec fn hits_of(rows: Seq<Row>, rank: spec_fn(SqlView) -> u64) -> Seq<HitView> {
    rows.map_values(|r: Row| hit_of(r, rank))
}

/// Where scores grow with distances, what measuring gives back of a chunk are the
/// nearest of the chunk.
pub proof fn law_a_chunk_gives_its_nearest(all: Seq<Row>, k: nat, out: Seq<Row>, rank: spec_fn(SqlView) -> u64)
    requires
        are_nearest_of(all, k, out),
        forall|a: SqlView, b: SqlView| !term::before(b, a) ==> #[trigger] rank(a) <= #[trigger] rank(b),
    ensures
        none_nearer(hits_of(all, rank).to_multiset(), k, hits_of(out, rank).to_multiset()),
{
    broadcast use vstd::multiset::group_multiset_axioms;

    let (order, head) = (hits_of(all, rank), hits_of(out, rank));
    let tail = order.skip(head.len() as int);
    assert(head + tail =~= order);
    vstd::seq_lib::lemma_multiset_commutative(head, tail);
    assert(order.to_multiset() =~= head.to_multiset().add(tail.to_multiset()));
    head.to_multiset_ensures();
    tail.to_multiset_ensures();
    order.to_multiset_ensures();
    assert(order.to_multiset().sub(head.to_multiset()) =~= tail.to_multiset());
    assert forall|g: HitView, h: HitView| #[trigger]
        head.to_multiset().count(g) > 0 && #[trigger] order.to_multiset().sub(head.to_multiset()).count(h)
            > 0 implies g.score <= h.score by {
        assert(head.contains(g));
        assert(tail.contains(h));
        let m = choose|m: int| 0 <= m < head.len() && head[m] == g;
        let n = choose|n: int| 0 <= n < tail.len() && tail[n] == h;
        assert(order[head.len() + n] == h);
        assert(!term::before(all[head.len() + n]("distance"@), out[m]("distance"@)));
    }
}

} // verus!
