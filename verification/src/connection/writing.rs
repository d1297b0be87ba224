//! What the statements of a write make of their tables.

use vstd::prelude::*;

use crate::connection::rows;
use crate::connection::rows::{Annotation, ConceptView};
use crate::graph::edge::AssertionView;
use crate::relation::change;
use crate::relation::change::{Change, Names, Sets};
use crate::relation::names;
use crate::relation::query;
use crate::relation::query::{Cols, World};
use crate::relation::term;
use crate::relation::term::{Gap, Row};
use crate::sql;
use crate::sql::SqlView;
use crate::text;

verus! {

/// The columns of an asserted edge.
#[verifier::opaque]
pub open spec fn link_columns() -> Cols {
    let c1 = query::one(term::slot(1), "source_id"@);
    let c2 = query::also(c1, Gap::Blank, term::slot(2), "target_id"@);
    let c3 = query::also(c2, Gap::Blank, term::slot(3), "edge_type"@);
    let c4 = query::also(c3, Gap::Blank, term::slot(4), "valid_from"@);
    let c5 = query::also(c4, Gap::Blank, term::slot(5), "valid_to"@);
    let c6 = query::also(c5, Gap::Blank, term::slot(6), "weight"@);
    let c7 = query::also(c6, Gap::Blank, term::slot(7), "properties"@);
    let c8 = query::also(c7, Gap::Blank, term::slot(8), "recorded_at"@);
    query::also(c8, Gap::Blank, term::slot(9), "branch_id"@)
}

/// The assertion of an edge.
pub open spec fn assertion() -> Change {
    change::insert("links"@, link_columns())
}

/// Whether a row is of an asserted edge, recorded at a stamp.
pub open spec fn asserts(row: Row, e: AssertionView, stamp: Seq<char>) -> bool {
    &&& row("source_id"@) == SqlView::Text(e.source)
    &&& row("target_id"@) == SqlView::Text(e.target)
    &&& row("edge_type"@) == SqlView::Text(e.edge_type)
    &&& row("valid_from"@) == SqlView::Text(e.valid_from)
    &&& row("valid_to"@) == SqlView::Text(e.valid_to)
    &&& row("weight"@) == SqlView::Real(e.weight)
    &&& row("properties"@) == SqlView::Text(e.properties)
    &&& row("recorded_at"@) == SqlView::Text(stamp)
    &&& row("branch_id"@) == SqlView::Text(e.lineage())
}

proof fn lemma_link_text()
    ensures
        rows::INSERT_LINK@ == assertion().text,
{
    reveal(link_columns);
    reveal_with_fuel(text::decimal, 2);
    reveal_strlit(
        "INSERT INTO links (source_id, target_id, edge_type, valid_from, valid_to, weight, properties, recorded_at, branch_id) VALUES (?1, ?2, ?3, ?4, ?5, ?6, ?7, ?8, ?9)",
    );
    reveal_strlit("INSERT INTO ");
    reveal_strlit("links");
    reveal_strlit(" (");
    reveal_strlit(") VALUES (");
    reveal_strlit(")");
    reveal_strlit("source_id");
    reveal_strlit("target_id");
    reveal_strlit("edge_type");
    reveal_strlit("valid_from");
    reveal_strlit("valid_to");
    reveal_strlit("weight");
    reveal_strlit("properties");
    reveal_strlit("recorded_at");
    reveal_strlit("branch_id");
    reveal_strlit("?");
    reveal_strlit(",");
    reveal_strlit(", ");
}

/// Asserting an edge adds one row to the ledger, which says of the edge what was
/// asserted, on its lineage and under the stamp, and changes none that is there.
pub proof fn law_an_assertion_adds_what_was_asserted(e: AssertionView, stamp: Seq<char>, w: World, after: Seq<Row>)
    requires
        w.bound == rows::edge_row(e, stamp),
        assertion().leaves(w, after),
    ensures
        rows::INSERT_LINK@ == assertion().text,
        after.len() == w.rows("links"@).len() + 1,
        forall|i: int| 0 <= i < w.rows("links"@).len() ==> #[trigger] after[i] == w.rows("links"@)[i],
        asserts(after.last(), e, stamp),
{
    lemma_link_text();
    reveal(link_columns);
    names::lemma_columns();
}

/// The columns of a concept.
#[verifier::opaque]
pub open spec fn concept_columns() -> Cols {
    let c1 = query::one(term::slot(1), "id"@);
    let c2 = query::also(c1, Gap::Blank, term::slot(2), "title"@);
    let c3 = query::also(c2, Gap::Blank, term::slot(3), "content"@);
    let c4 = query::also(c3, Gap::Blank, term::slot(4), "embedding_model"@);
    let c5 = query::also(c4, Gap::Blank, term::slot(5), "valid_from"@);
    let c6 = query::also(c5, Gap::Blank, term::slot(6), "valid_to"@);
    let c7 = query::also(c6, Gap::Blank, term::slot(7), "recorded_at"@);
    let c8 = query::also(c7, Gap::Blank, term::slot(8), "retired"@);
    query::also(c8, Gap::Blank, term::slot(9), "branch_id"@)
}

/// What a concept that is written again takes on.
#[verifier::opaque]
pub open spec fn concept_sets() -> Sets {
    let s1 = change::set("title"@);
    let s2 = change::and_set(s1, "content"@);
    let s3 = change::and_set(s2, "embedding_model"@);
    let s4 = change::and_set(s3, "valid_from"@);
    let s5 = change::and_set(s4, "valid_to"@);
    let s6 = change::and_set(s5, "recorded_at"@);
    change::and_set(s6, "retired"@)
}

/// The writing of a concept.
pub open spec fn concept_written() -> Change {
    change::upsert("concepts"@, concept_columns(), change::name("id"@), concept_sets())
}

/// Whether a row says of a concept what was written at a stamp.
pub open spec fn says_of(row: Row, c: ConceptView, stamp: Seq<char>) -> bool {
    &&& row("id"@) == SqlView::Text(c.id)
    &&& row("title"@) == SqlView::Text(c.title)
    &&& row("content"@) == SqlView::Text(c.content)
    &&& row("embedding_model"@) == sql::nullable(c.embedding_model)
    &&& row("valid_from"@) == SqlView::Text(c.valid_from)
    &&& row("valid_to"@) == SqlView::Text(c.valid_to)
    &&& row("recorded_at"@) == SqlView::Text(stamp)
    &&& row("retired"@) == SqlView::Integer(
        if c.retired {
            1
        } else {
            0
        },
    )
}

proof fn lemma_concept_names()
    ensures
        "id"@.len() == 2,
        "title"@.len() == 5,
        "content"@.len() == 7 && "content"@[0] == 'c',
        "embedding_model"@.len() == 15,
        "valid_from"@.len() == 10,
        "valid_to"@.len() == 8,
        "recorded_at"@.len() == 11,
        "retired"@.len() == 7 && "retired"@[0] == 'r',
        "branch_id"@.len() == 9,
{
    reveal_strlit("id");
    reveal_strlit("title");
    reveal_strlit("content");
    reveal_strlit("embedding_model");
    reveal_strlit("valid_from");
    reveal_strlit("valid_to");
    reveal_strlit("recorded_at");
    reveal_strlit("retired");
    reveal_strlit("branch_id");
}

proof fn lemma_concept_text()
    ensures
        rows::UPSERT_CONCEPT@ == concept_written().text,
{
    assert(concept_columns().header
        == "id, title, content, embedding_model, valid_from, valid_to, recorded_at, retired, branch_id"@
        && concept_columns().text == "?1, ?2, ?3, ?4, ?5, ?6, ?7, ?8, ?9"@) by {
        reveal(concept_columns);
        reveal_with_fuel(text::decimal, 2);
        reveal_strlit("id, title, content, embedding_model, valid_from, valid_to, recorded_at, retired, branch_id");
        reveal_strlit("?1, ?2, ?3, ?4, ?5, ?6, ?7, ?8, ?9");
        reveal_strlit("id");
        reveal_strlit("title");
        reveal_strlit("content");
        reveal_strlit("embedding_model");
        reveal_strlit("valid_from");
        reveal_strlit("valid_to");
        reveal_strlit("recorded_at");
        reveal_strlit("retired");
        reveal_strlit("branch_id");
        reveal_strlit("?");
        reveal_strlit(",");
        reveal_strlit(", ");
    }
    assert(concept_sets().text
        == "title = excluded.title, content = excluded.content, embedding_model = excluded.embedding_model, valid_from = excluded.valid_from, valid_to = excluded.valid_to, recorded_at = excluded.recorded_at, retired = excluded.retired"@)
        by {
        reveal(concept_sets);
        reveal_strlit(
            "title = excluded.title, content = excluded.content, embedding_model = excluded.embedding_model, valid_from = excluded.valid_from, valid_to = excluded.valid_to, recorded_at = excluded.recorded_at, retired = excluded.retired",
        );
        reveal_strlit("title");
        reveal_strlit("content");
        reveal_strlit("embedding_model");
        reveal_strlit("valid_from");
        reveal_strlit("valid_to");
        reveal_strlit("recorded_at");
        reveal_strlit("retired");
        reveal_strlit(" = excluded.");
        reveal_strlit(", ");
    }
    reveal_strlit(
        "INSERT INTO concepts (id, title, content, embedding_model, valid_from, valid_to, recorded_at, retired, branch_id) VALUES (?1, ?2, ?3, ?4, ?5, ?6, ?7, ?8, ?9) ON CONFLICT(id) DO UPDATE SET title = excluded.title, content = excluded.content, embedding_model = excluded.embedding_model, valid_from = excluded.valid_from, valid_to = excluded.valid_to, recorded_at = excluded.recorded_at, retired = excluded.retired",
    );
    reveal_strlit("id, title, content, embedding_model, valid_from, valid_to, recorded_at, retired, branch_id");
    reveal_strlit("?1, ?2, ?3, ?4, ?5, ?6, ?7, ?8, ?9");
    reveal_strlit(
        "title = excluded.title, content = excluded.content, embedding_model = excluded.embedding_model, valid_from = excluded.valid_from, valid_to = excluded.valid_to, recorded_at = excluded.recorded_at, retired = excluded.retired",
    );
    reveal_strlit("INSERT INTO ");
    reveal_strlit("concepts");
    reveal_strlit(" (");
    reveal_strlit(") VALUES (");
    reveal_strlit(")");
    reveal_strlit(" ON CONFLICT(");
    reveal_strlit("id");
    reveal_strlit(") DO UPDATE SET ");
}

/// Whether concepts go by one id each.
pub open spec fn one_of_each(rows: Seq<Row>) -> bool {
    forall|i: int, j: int| 0 <= i < j < rows.len() ==> (#[trigger] rows[i])("id"@) != (#[trigger] rows[j])("id"@)
}

/// Writing a concept leaves one of its id, which says what was written. A concept
/// that was there keeps its lineage, and one that was not is of the writer's.
/// Every other stays as it is.
pub proof fn law_writing_a_concept_leaves_what_was_written(
    c: ConceptView,
    stamp: Seq<char>,
    w: World,
    after: Seq<Row>,
) -> (at: int)
    requires
        one_of_each(w.rows("concepts"@)),
        w.bound == rows::concept_row(c, stamp),
        concept_written().leaves(w, after),
    ensures
        rows::UPSERT_CONCEPT@ == concept_written().text,
        0 <= at < after.len(),
        says_of(after[at], c, stamp),
        forall|i: int| 0 <= i < w.rows("concepts"@).len() && i != at ==> #[trigger] after[i] == w.rows("concepts"@)[i],
        forall|i: int| 0 <= i < after.len() && i != at ==> (#[trigger] after[i])("id"@) != SqlView::Text(c.id),
        at < w.rows("concepts"@).len() ==> after.len() == w.rows("concepts"@).len() && w.rows("concepts"@)[at]("id"@)
            == SqlView::Text(c.id) && after[at]("branch_id"@) == w.rows("concepts"@)[at]("branch_id"@),
        at == w.rows("concepts"@).len() ==> after.len() == w.rows("concepts"@).len() + 1 && after[at]("branch_id"@)
            == SqlView::Text(c.lineage()),
{
    lemma_concept_text();
    lemma_concept_names();
    let before = w.rows("concepts"@);
    let row = concept_columns().of(w.nowhere());
    assert(says_of(row, c, stamp) && row("branch_id"@) == SqlView::Text(c.lineage())) by {
        reveal(concept_columns);
    }
    let keys = change::name("id"@).list;
    assert(keys[0] == "id"@);
    if change::is_new(before, keys, row) {
        assert forall|i: int| 0 <= i < after.len() && i != before.len() implies (#[trigger] after[i])("id"@)
            != SqlView::Text(c.id) by {
            assert(!query::same_in(keys, before[i], row));
        }
        before.len() as int
    } else {
        let sets = concept_sets().names;
        let i = choose|i: int|
            0 <= i < before.len() && query::same_in(keys, #[trigger] before[i], row) && after == before.update(
                i,
                change::overwritten(before[i], row, sets),
            );
        assert(before[i](keys[0]) == row(keys[0]));
        assert(says_of(after[i], c, stamp) && after[i]("branch_id"@) == before[i]("branch_id"@)) by {
            reveal(concept_sets);
            assert(sets =~= seq![
                "title"@,
                "content"@,
                "embedding_model"@,
                "valid_from"@,
                "valid_to"@,
                "recorded_at"@,
                "retired"@,
            ]);
            assert(sets[0] == "title"@ && sets[1] == "content"@ && sets[2] == "embedding_model"@ && sets[3]
                == "valid_from"@ && sets[4] == "valid_to"@ && sets[5] == "recorded_at"@ && sets[6] == "retired"@);
            assert(sets.contains("title"@) && sets.contains("content"@) && sets.contains("embedding_model"@)
                && sets.contains("valid_from"@) && sets.contains("valid_to"@) && sets.contains("recorded_at"@)
                && sets.contains("retired"@));
            assert(!sets.contains("id"@) && !sets.contains("branch_id"@));
        }
        assert forall|j: int| 0 <= j < after.len() && j != i implies (#[trigger] after[j])("id"@) != SqlView::Text(
            c.id,
        ) by {
            assert(after[j] == before[j]);
            if j < i {
                assert(before[j]("id"@) != before[i]("id"@));
            } else {
                assert(before[i]("id"@) != before[j]("id"@));
            }
        }
        i
    }
}

/// The columns of an annotation.
#[verifier::opaque]
pub open spec fn annotation_columns() -> Cols {
    let c1 = query::one(term::slot(1), "concept_id"@);
    let c2 = query::also(c1, Gap::Blank, term::slot(2), "label"@);
    let c3 = query::also(c2, Gap::Blank, term::slot(3), "value"@);
    query::also(c3, Gap::Blank, term::slot(4), "computed_at"@)
}

/// What an annotation that is written again takes on.
#[verifier::opaque]
pub open spec fn annotation_sets() -> Sets {
    change::and_set(change::set("value"@), "computed_at"@)
}

/// What tells annotations apart.
#[verifier::opaque]
pub open spec fn annotation_keys() -> Names {
    change::and_name(change::name("concept_id"@), "label"@)
}

/// The writing of an annotation.
pub open spec fn annotation_written() -> Change {
    change::upsert("analytics_annotations"@, annotation_columns(), annotation_keys(), annotation_sets())
}

proof fn lemma_annotation_text()
    ensures
        rows::UPSERT_ANNOTATION@ == annotation_written().text,
{
    reveal(annotation_columns);
    reveal(annotation_sets);
    reveal(annotation_keys);
    reveal_with_fuel(text::decimal, 2);
    reveal_strlit(
        "INSERT INTO analytics_annotations (concept_id, label, value, computed_at) VALUES (?1, ?2, ?3, ?4) ON CONFLICT(concept_id, label) DO UPDATE SET value = excluded.value, computed_at = excluded.computed_at",
    );
    reveal_strlit("INSERT INTO ");
    reveal_strlit("analytics_annotations");
    reveal_strlit(" (");
    reveal_strlit(") VALUES (");
    reveal_strlit(")");
    reveal_strlit(" ON CONFLICT(");
    reveal_strlit(") DO UPDATE SET ");
    reveal_strlit(" = excluded.");
    reveal_strlit("concept_id");
    reveal_strlit("label");
    reveal_strlit("value");
    reveal_strlit("computed_at");
    reveal_strlit("?");
    reveal_strlit(",");
    reveal_strlit(", ");
}

/// Whether a row is an annotation of a concept under a label.
pub open spec fn is_under(row: Row, id: SqlView, label: SqlView) -> bool {
    row("concept_id"@) == id && row("label"@) == label
}

/// Writing an annotation leaves, of its concept and label, one row with its value
/// and the stamp of the write, and every other as it is.
pub proof fn law_writing_an_annotation_leaves_what_was_written(
    a: Annotation,
    stamp: Seq<char>,
    w: World,
    after: Seq<Row>,
) -> (at: int)
    requires
        w.bound == rows::annotation_row(a, stamp),
        annotation_written().leaves(w, after),
    ensures
        rows::UPSERT_ANNOTATION@ == annotation_written().text,
        0 <= at < after.len(),
        is_under(after[at], SqlView::Text(a.concept_id@), SqlView::Text(a.label@)),
        after[at]("value"@) == SqlView::Text(a.value@),
        after[at]("computed_at"@) == SqlView::Text(stamp),
        forall|i: int|
            0 <= i < w.rows("analytics_annotations"@).len() && i != at ==> #[trigger] after[i] == w.rows(
                "analytics_annotations"@,
            )[i],
        at < w.rows("analytics_annotations"@).len() ==> after.len() == w.rows("analytics_annotations"@).len()
            && is_under(w.rows("analytics_annotations"@)[at], SqlView::Text(a.concept_id@), SqlView::Text(a.label@)),
        at == w.rows("analytics_annotations"@).len() ==> after.len() == w.rows("analytics_annotations"@).len() + 1 && (
        forall|i: int|
            0 <= i < w.rows("analytics_annotations"@).len() ==> !is_under(
                #[trigger] w.rows("analytics_annotations"@)[i],
                SqlView::Text(a.concept_id@),
                SqlView::Text(a.label@),
            )),
{
    lemma_annotation_text();
    reveal(annotation_columns);
    reveal(annotation_sets);
    reveal(annotation_keys);
    reveal_strlit("concept_id");
    reveal_strlit("label");
    reveal_strlit("value");
    reveal_strlit("computed_at");
    assert("label"@[0] == 'l' && "value"@[0] == 'v');
    let before = w.rows("analytics_annotations"@);
    let row = annotation_columns().of(w.nowhere());
    let keys = annotation_keys().list;
    assert(keys[0] == "concept_id"@ && keys[1] == "label"@);
    assert(is_under(row, SqlView::Text(a.concept_id@), SqlView::Text(a.label@)) && row("value"@) == SqlView::Text(a.value@) && row("computed_at"@) == SqlView::Text(stamp));
    if change::is_new(before, keys, row) {
        assert forall|i: int| 0 <= i < before.len() implies !is_under(#[trigger] before[i], SqlView::Text(a.concept_id@), SqlView::Text(a.label@)) by {
            assert(!query::same_in(keys, before[i], row));
        }
        before.len() as int
    } else {
        let sets = annotation_sets().names;
        let i = choose|i: int|
            0 <= i < before.len() && query::same_in(keys, #[trigger] before[i], row) && after == before.update(
                i,
                change::overwritten(before[i], row, sets),
            );
        assert(before[i](keys[0]) == row(keys[0]) && before[i](keys[1]) == row(keys[1]));
        assert(sets =~= seq!["value"@, "computed_at"@]);
        assert(sets[0] == "value"@ && sets[1] == "computed_at"@);
        assert(sets.contains("value"@) && sets.contains("computed_at"@));
        assert(!sets.contains("concept_id"@) && !sets.contains("label"@));
        i
    }
}

} // verus!
