//! What the projection of the ledger holds.

use vstd::prelude::*;

use crate::integrity;
use crate::relation::names;
use crate::relation::query;
use crate::relation::query::{Cols, Query, World};
use crate::relation::ranked;
use crate::relation::ranked::Class;
use crate::relation::term;
use crate::relation::term::{Cond, Gap, Row};

verus! {

/// The columns of a belief, the fifth on a line that is indented by `n`.
#[verifier::opaque]
pub open spec fn belief_columns(n: nat) -> Cols {
    let c1 = query::one(term::bare("source_id"@), "source_id"@);
    let c2 = query::also(c1, Gap::Blank, term::bare("target_id"@), "target_id"@);
    let c3 = query::also(c2, Gap::Blank, term::bare("edge_type"@), "edge_type"@);
    let c4 = query::also(c3, Gap::Blank, term::bare("valid_from"@), "valid_from"@);
    let c5 = query::also(c4, Gap::Line(n), term::bare("valid_to"@), "valid_to"@);
    let c6 = query::also(c5, Gap::Blank, term::bare("weight"@), "weight"@);
    let c7 = query::also(c6, Gap::Blank, term::bare("properties"@), "properties"@);
    let c8 = query::also(c7, Gap::Blank, term::bare("recorded_at"@), "recorded_at"@);
    query::also(c8, Gap::Blank, term::bare("branch_id"@), "branch_id"@)
}

/// The key of a belief.
#[verifier::opaque]
pub open spec fn belief_class() -> Class {
    let k1 = ranked::classed(term::bare("source_id"@));
    let k2 = ranked::and_classed(k1, term::bare("target_id"@));
    let k3 = ranked::and_classed(k2, term::bare("edge_type"@));
    let k4 = ranked::and_classed(k3, term::bare("valid_from"@));
    ranked::and_classed(k4, term::bare("branch_id"@))
}

/// The assertions for which a clause holds, numbered from the latest down.
pub open spec fn numbered_beliefs(clause: Cond) -> Query {
    ranked::select_ranked(
        belief_columns(15),
        belief_class(),
        query::descending(term::bare("recorded_at"@)),
        (Gap::Line(15), Gap::Line(19), Gap::Line(15), Gap::Line(8), Gap::Line(8)),
        query::table("links"@),
        clause,
    )
}

/// The query of the projection.
pub open spec fn projection(clause: Cond) -> Query {
    ranked::firsts(
        belief_columns(11),
        numbered_beliefs(clause),
        (Gap::Line(4), Gap::Line(8), Gap::Line(4), Gap::Blank),
    )
}

/// Whether two rows are of one edge, one start and one lineage.
pub open spec fn same_key(a: Row, b: Row) -> bool {
    &&& a("source_id"@) == b("source_id"@)
    &&& a("target_id"@) == b("target_id"@)
    &&& a("edge_type"@) == b("edge_type"@)
    &&& a("valid_from"@) == b("valid_from"@)
    &&& a("branch_id"@) == b("branch_id"@)
}

/// Whether two rows say the same.
pub open spec fn same_belief(a: Row, b: Row) -> bool {
    &&& same_key(a, b)
    &&& a("valid_to"@) == b("valid_to"@)
    &&& a("weight"@) == b("weight"@)
    &&& a("properties"@) == b("properties"@)
    &&& a("recorded_at"@) == b("recorded_at"@)
}

/// Whether a clause admits a row of the ledger.
pub open spec fn admits(clause: Cond, w: World, row: Row) -> bool {
    clause.of(w.over(row))
}

/// Whether `row` is one of the ledger that a clause admits, and none of its key
/// that the clause admits was recorded later.
pub open spec fn is_latest(clause: Cond, w: World, row: Row) -> bool {
    &&& exists|i: int|
        0 <= i < w.rows("links"@).len() && admits(clause, w, #[trigger] w.rows("links"@)[i]) && same_belief(
            row,
            w.rows("links"@)[i],
        )
    &&& forall|i: int|
        0 <= i < w.rows("links"@).len() && admits(clause, w, #[trigger] w.rows("links"@)[i]) && same_key(
            row,
            w.rows("links"@)[i],
        ) ==> !term::before(row("recorded_at"@), w.rows("links"@)[i]("recorded_at"@))
}

/// Whether `out` holds the latest of each key that a clause admits, and nothing
/// else.
pub open spec fn are_latest(clause: Cond, w: World, out: Seq<Row>) -> bool {
    &&& forall|j: int| 0 <= j < out.len() ==> is_latest(clause, w, #[trigger] out[j])
    &&& forall|j: int, k: int| 0 <= j < k < out.len() ==> !same_key(#[trigger] out[j], #[trigger] out[k])
    &&& forall|i: int|
        0 <= i < w.rows("links"@).len() && admits(clause, w, #[trigger] w.rows("links"@)[i]) ==> exists|j: int|
            0 <= j < out.len() && same_key(#[trigger] out[j], w.rows("links"@)[i])
}

pub proof fn lemma_belief_columns_text(n: nat)
    ensures
        belief_columns(n).text == "source_id, target_id, edge_type, valid_from,"@ + Gap::Line(n).text()
            + "valid_to, weight, properties, recorded_at, branch_id"@,
{
    reveal(belief_columns);
    reveal_strlit("source_id, target_id, edge_type, valid_from,");
    reveal_strlit("valid_to, weight, properties, recorded_at, branch_id");
    reveal_strlit("source_id");
    reveal_strlit("target_id");
    reveal_strlit("edge_type");
    reveal_strlit("valid_from");
    reveal_strlit("valid_to");
    reveal_strlit("weight");
    reveal_strlit("properties");
    reveal_strlit("recorded_at");
    reveal_strlit("branch_id");
    reveal_strlit(",");
}

proof fn lemma_belief_class_text()
    ensures
        belief_class().text == "source_id, target_id, edge_type, valid_from, branch_id"@,
{
    reveal(belief_class);
    reveal_strlit("source_id, target_id, edge_type, valid_from, branch_id");
    reveal_strlit("source_id");
    reveal_strlit("target_id");
    reveal_strlit("edge_type");
    reveal_strlit("valid_from");
    reveal_strlit("branch_id");
    reveal_strlit(", ");
}

/// The projection is written as its query is.
pub proof fn lemma_projection_text(clause: Cond)
    ensures
        integrity::projection_where_text(clause.text) == Gap::Line(4).text() + projection(clause).text
            + Gap::Line(0).text(),
{
    lemma_belief_columns_text(11);
    lemma_belief_columns_text(15);
    lemma_belief_class_text();
    ranked::lemma_numbered_one_text();
    reveal_strlit(
        r"
    SELECT source_id, target_id, edge_type, valid_from,
           valid_to, weight, properties, recorded_at, branch_id
    FROM (
        SELECT source_id, target_id, edge_type, valid_from,
               valid_to, weight, properties, recorded_at, branch_id,
               ROW_NUMBER() OVER (
                   PARTITION BY source_id, target_id, edge_type, valid_from, branch_id
                   ORDER BY recorded_at DESC
               ) AS rn
        FROM links
        WHERE ",
    );
    reveal_strlit(r"
    ) WHERE rn = 1
");
    reveal_strlit("source_id, target_id, edge_type, valid_from,");
    reveal_strlit("valid_to, weight, properties, recorded_at, branch_id");
    reveal_strlit("source_id, target_id, edge_type, valid_from, branch_id");
    reveal_strlit("rn = 1");
    reveal_strlit("recorded_at");
    reveal_strlit("rn");
    reveal_strlit("links");
    reveal_strlit(",");
    reveal_strlit("(");
    reveal_strlit(")");
    reveal_strlit(" DESC");
    reveal_strlit("SELECT ");
    reveal_strlit("FROM ");
    reveal_strlit("WHERE ");
    reveal_strlit("ROW_NUMBER() OVER (");
    reveal_strlit("PARTITION BY ");
    reveal_strlit("ORDER BY ");
    reveal_strlit(") AS ");
}

/// What a row of columns shows of the one it is of.
pub proof fn lemma_columns_show(n: nat, w: World, row: Row)
    ensures
        same_belief(belief_columns(n).of(w.over(row)), row),
{
    reveal(belief_columns);
    names::lemma_columns();
}

proof fn lemma_class(w: World, a: Row, b: Row)
    ensures
        belief_class().of(w.over(a)) == belief_class().of(w.over(b)) <==> same_key(a, b),
{
    reveal(belief_class);
    let (x, y) = (belief_class().of(w.over(a)), belief_class().of(w.over(b)));
    assert(x =~= seq![a("source_id"@), a("target_id"@), a("edge_type"@), a("valid_from"@), a("branch_id"@)]);
    assert(y =~= seq![b("source_id"@), b("target_id"@), b("edge_type"@), b("valid_from"@), b("branch_id"@)]);
    if x == y {
        assert(x[0] == y[0] && x[1] == y[1] && x[2] == y[2] && x[3] == y[3] && x[4] == y[4]);
    }
}

/// The projection holds, for each edge, start and lineage among the assertions
/// that a clause admits, exactly one of them, and none of its key that was
/// recorded later.
pub proof fn law_projection_keeps_the_latest(clause: Cond, w: World, out: Seq<Row>)
    requires
        projection(clause).answers(w, out),
    ensures
        integrity::projection_where_text(clause.text) == Gap::Line(4).text() + projection(clause).text
            + Gap::Line(0).text(),
        are_latest(clause, w, out),
{
    lemma_projection_text(clause);
    let order = query::descending(term::bare("recorded_at"@));
    let rows = w.rows("links"@);
    let (list, chosen) = ranked::lemma_firsts_lead(
        belief_columns(11),
        belief_columns(15),
        belief_class(),
        order,
        (Gap::Line(15), Gap::Line(19), Gap::Line(15), Gap::Line(8), Gap::Line(8)),
        (Gap::Line(4), Gap::Line(8), Gap::Line(4), Gap::Blank),
        query::table("links"@),
        clause,
        numbered_beliefs(clause),
        w,
        out,
    );
    assert forall|i: int| 0 <= i < rows.len() implies #[trigger] list[i] == w.over(rows[i]) by {}
    assert forall|j: int| 0 <= j < out.len() implies same_belief(#[trigger] out[j], rows[chosen[j]]) && admits(
        clause,
        w,
        rows[chosen[j]],
    ) by {
        names::lemma_columns();
        let row = rows[chosen[j]];
        let shown = ranked::numbered(belief_columns(15).of(w.over(row)), 1);
        lemma_columns_show(15, w, row);
        lemma_columns_show(11, w, shown);
    }
    assert forall|j: int| 0 <= j < out.len() implies is_latest(clause, w, #[trigger] out[j]) by {
        assert(same_belief(out[j], rows[chosen[j]]));
        assert forall|i: int| 0 <= i < rows.len() && admits(clause, w, #[trigger] rows[i]) && same_key(
            out[j],
            rows[i],
        ) implies !term::before(out[j]("recorded_at"@), rows[i]("recorded_at"@)) by {
            lemma_class(w, rows[i], rows[chosen[j]]);
            assert(!order.puts(list[i], list[chosen[j]]));
        }
    }
    assert forall|j: int, k: int| 0 <= j < k < out.len() implies !same_key(#[trigger] out[j], #[trigger] out[k]) by {
        lemma_class(w, rows[chosen[j]], rows[chosen[k]]);
        assert(belief_class().of(list[chosen[j]]) != belief_class().of(list[chosen[k]]));
    }
    assert forall|i: int| 0 <= i < rows.len() && admits(clause, w, #[trigger] rows[i]) implies exists|j: int|
        0 <= j < out.len() && same_key(#[trigger] out[j], rows[i]) by {
        assert(ranked::is_led(list, belief_class(), chosen, i));
        let j = choose|j: int|
            0 <= j < chosen.len() && belief_class().of(list[#[trigger] chosen[j]]) == belief_class().of(list[i]);
        lemma_class(w, rows[chosen[j]], rows[i]);
        assert(same_belief(out[j], rows[chosen[j]]));
    }
}

} // verus!
