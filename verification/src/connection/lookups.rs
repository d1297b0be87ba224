//! What the writer looks up before it decides.

use vstd::prelude::*;

use crate::connection::archive;
use crate::connection::concepts;
use crate::connection::rows;
use crate::connection::rows::ConceptView;
use crate::relation::extreme;
use crate::relation::extreme::stands_in;
use crate::relation::query;
use crate::relation::query::{Query, World};
use crate::relation::term;
use crate::relation::term::{Cond, Gap, Row};
use crate::sql::SqlView;
use crate::text;

verus! {

/// Whether a row was recorded before the first bound.
#[verifier::opaque]
pub open spec fn recorded_before() -> Cond {
    term::lt(term::bare("recorded_at"@), term::slot(1))
}

/// The oldest stamp of a table before a cutoff is one of its stamps, is before the
/// cutoff, and none is before it. There is none exactly where no stamp is before
/// the cutoff.
pub proof fn law_the_oldest_comes_before_all(table: Seq<char>, cutoff: Seq<char>, w: World, v: SqlView)
    requires
        w.bound == seq![SqlView::Text(cutoff)],
        forall|i: int| 0 <= i < w.rows(table).len() ==> #[trigger] w.rows(table)[i]("recorded_at"@) is Text,
        extreme::least("recorded_at"@, table, recorded_before()).reads(w, v),
    ensures
        archive::oldest_text(table) == extreme::least("recorded_at"@, table, recorded_before()).text,
        v is Null <==> forall|i: int|
            0 <= i < w.rows(table).len() ==> !term::before(
                #[trigger] w.rows(table)[i]("recorded_at"@),
                SqlView::Text(cutoff),
            ),
        !(v is Null) ==> stands_in(w.rows(table), "recorded_at"@, v) && term::before(v, SqlView::Text(cutoff)),
        !(v is Null) ==> forall|i: int|
            0 <= i < w.rows(table).len() ==> !term::before(#[trigger] w.rows(table)[i]("recorded_at"@), v),
{
    let col = "recorded_at"@;
    let rows = w.rows(table);
    let list = query::scopes(w, rows);
    assert(archive::oldest_text(table) =~= extreme::least(col, table, recorded_before()).text) by {
        reveal(recorded_before);
        reveal_with_fuel(text::decimal, 2);
        reveal_strlit("SELECT MIN(recorded_at) FROM ");
        reveal_strlit(" WHERE recorded_at < ?1");
        reveal_strlit("SELECT MIN(");
        reveal_strlit("recorded_at");
        reveal_strlit(") FROM ");
        reveal_strlit(" WHERE ");
        reveal_strlit("<");
        reveal_strlit(" ");
        reveal_strlit("?");
    }
    assert forall|i: int| 0 <= i < rows.len() implies #[trigger] term::bare(col).of(list[i]) == rows[i](col) && (
    recorded_before().of(list[i]) <==> term::before(rows[i](col), SqlView::Text(cutoff))) by {
        reveal(recorded_before);
        assert(rows[i](col) is Text);
        assert(list[i] == w.over(rows[i]));
    }
    if v is Null {
        assert forall|i: int| 0 <= i < rows.len() implies !term::before(
            #[trigger] rows[i](col),
            SqlView::Text(cutoff),
        ) by {
            assert(term::bare(col).of(list[i]) == rows[i](col));
        }
    } else {
        let m = choose|m: int|
            0 <= m < list.len() && recorded_before().of(list[m]) && term::bare(col).of(#[trigger] list[m]) == v;
        assert(rows[m](col) == v);
        assert forall|i: int| 0 <= i < rows.len() implies !term::before(#[trigger] rows[i](col), v) by {
            assert(term::bare(col).of(list[i]) == rows[i](col));
            if term::before(rows[i](col), v) {
                text::lemma_text_lt_transitive(rows[i](col)->Text_0, v->Text_0, cutoff);
            }
        }
    }
}

/// The earlier of two stamps is one of them, and neither is before it; there is one
/// exactly where there is one of the two.
pub proof fn law_the_earlier_is_not_passed(a: Option<Seq<char>>, b: Option<Seq<char>>)
    ensures
        archive::earlier_of(a, b).is_none() <==> a.is_none() && b.is_none(),
        archive::earlier_of(a, b) == a || archive::earlier_of(a, b) == b,
        a.is_some() ==> !text::text_lt(a->0, archive::earlier_of(a, b)->0),
        b.is_some() ==> !text::text_lt(b->0, archive::earlier_of(a, b)->0),
{
    if a.is_some() && b.is_some() {
        if text::text_lt(a->0, b->0) {
            text::lemma_text_lt_asymmetric(a->0, b->0);
        }
        if text::text_lt(b->0, a->0) {
            text::lemma_text_lt_asymmetric(b->0, a->0);
        }
        if text::text_lt(a->0, a->0) {
            text::lemma_text_lt_asymmetric(a->0, a->0);
        }
        if text::text_lt(b->0, b->0) {
            text::lemma_text_lt_asymmetric(b->0, b->0);
        }
    } else if a.is_some() {
        if text::text_lt(a->0, a->0) {
            text::lemma_text_lt_asymmetric(a->0, a->0);
        }
    } else if b.is_some() {
        if text::text_lt(b->0, b->0) {
            text::lemma_text_lt_asymmetric(b->0, b->0);
        }
    }
}

/// Whether a concept is the one that is bound.
#[verifier::opaque]
pub open spec fn is_the_one() -> Cond {
    term::eq(term::bare("id"@), term::slot(1))
}

/// The query of one column of a concept.
pub open spec fn of_concept(col: Seq<char>) -> Query {
    query::select(
        query::one(term::bare(col), col),
        Gap::Blank,
        query::table("concepts"@),
        Gap::Blank,
        is_the_one(),
    )
}

proof fn lemma_lookup_texts()
    ensures
        rows::CONCEPT_STAMP@ == of_concept("recorded_at"@).text,
        rows::CONCEPT_LINEAGE@ == of_concept("branch_id"@).text,
{
    reveal(is_the_one);
    reveal_with_fuel(text::decimal, 2);
    reveal_strlit("SELECT recorded_at FROM concepts WHERE id = ?1");
    reveal_strlit("SELECT branch_id FROM concepts WHERE id = ?1");
    reveal_strlit("SELECT ");
    reveal_strlit("recorded_at");
    reveal_strlit("branch_id");
    reveal_strlit("FROM ");
    reveal_strlit("concepts");
    reveal_strlit("WHERE ");
    reveal_strlit("id");
    reveal_strlit("=");
    reveal_strlit(" ");
    reveal_strlit("?");
    assert(rows::CONCEPT_STAMP@ =~= of_concept("recorded_at"@).text);
    assert(rows::CONCEPT_LINEAGE@ =~= of_concept("branch_id"@).text);
}

/// Whether a concept with this identifier has this in a column.
pub open spec fn concept_has(concepts: Seq<Row>, id: Seq<char>, col: Seq<char>, v: SqlView) -> bool {
    exists|i: int|
        0 <= i < concepts.len() && (#[trigger] concepts[i])("id"@) == SqlView::Text(id) && concepts[i](col) == v
}

/// The stamp and the lineage of a concept are read from the concept with that
/// identifier and from no other; nothing is read exactly where there is none.
pub proof fn law_a_concept_is_looked_up_by_its_identifier(
    c: ConceptView,
    w: World,
    stamps: Seq<Row>,
    lineages: Seq<Row>,
)
    requires
        w.bound == concepts::holder_row(c),
        of_concept("recorded_at"@).answers(w, stamps),
        of_concept("branch_id"@).answers(w, lineages),
    ensures
        rows::CONCEPT_STAMP@ == of_concept("recorded_at"@).text,
        rows::CONCEPT_LINEAGE@ == of_concept("branch_id"@).text,
        forall|k: int|
            0 <= k < stamps.len() ==> concept_has(
                w.rows("concepts"@),
                c.id,
                "recorded_at"@,
                (#[trigger] stamps[k])("recorded_at"@),
            ),
        forall|k: int|
            0 <= k < lineages.len() ==> concept_has(
                w.rows("concepts"@),
                c.id,
                "branch_id"@,
                (#[trigger] lineages[k])("branch_id"@),
            ),
        forall|i: int|
            0 <= i < w.rows("concepts"@).len() && (#[trigger] w.rows("concepts"@)[i])("id"@) == SqlView::Text(c.id)
                ==> stands_in(stamps, "recorded_at"@, w.rows("concepts"@)[i]("recorded_at"@)) && stands_in(
                lineages,
                "branch_id"@,
                w.rows("concepts"@)[i]("branch_id"@),
            ),
{
    lemma_lookup_texts();
    lemma_looked_up(c.id, "recorded_at"@, w, stamps);
    lemma_looked_up(c.id, "branch_id"@, w, lineages);
}

proof fn lemma_looked_up(id: Seq<char>, col: Seq<char>, w: World, out: Seq<Row>)
    requires
        w.bound == seq![SqlView::Text(id)],
        of_concept(col).answers(w, out),
    ensures
        forall|k: int|
            0 <= k < out.len() ==> concept_has(w.rows("concepts"@), id, col, (#[trigger] out[k])(col)),
        forall|i: int|
            0 <= i < w.rows("concepts"@).len() && (#[trigger] w.rows("concepts"@)[i])("id"@) == SqlView::Text(id)
                ==> stands_in(out, col, w.rows("concepts"@)[i](col)),
{
    let list = w.rows("concepts"@);
    let of = query::lemma_select_table(
        query::one(term::bare(col), col),
        Gap::Blank,
        query::table("concepts"@),
        "concepts"@,
        Gap::Blank,
        is_the_one(),
        w,
        out,
    );
    assert forall|i: int| 0 <= i < list.len() implies (#[trigger] is_the_one().of(w.over(list[i])) <==> list[i](
        "id"@,
    ) == SqlView::Text(id)) by {
        reveal(is_the_one);
    }
    assert forall|k: int| 0 <= k < out.len() implies concept_has(list, id, col, (#[trigger] out[k])(col)) by {
        assert(is_the_one().of(w.over(list[of[k]])));
        assert(out[k](col) == list[of[k]](col));
    }
    assert forall|i: int| 0 <= i < list.len() && (#[trigger] list[i])("id"@) == SqlView::Text(id) implies stands_in(
        out,
        col,
        list[i](col),
    ) by {
        assert(is_the_one().of(w.over(list[i])));
        assert(query::is_one_of(of, i));
        let k = choose|k: int| 0 <= k < of.len() && #[trigger] of[k] == i;
        assert(out[k](col) == list[i](col));
    }
}

} // verus!
