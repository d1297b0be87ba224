//! What a write sees of the edge it is about.

use vstd::prelude::*;

use crate::connection::rows;
use crate::connection::rows::Retirement;
use crate::graph::cut;
use crate::graph::edge::AssertionView;
use crate::graph::ledger;
use crate::graph::lineage::{AncestorView, LineageShape};
use crate::graph::lineage_sql::KeySlots;
use crate::graph::plan;
use crate::graph::reading;
use crate::graph::resolved;
use crate::graph::seen;
use crate::relation::names;
use crate::relation::query;
use crate::relation::query::{Cols, Query, World};
use crate::relation::term;
use crate::relation::term::{Cond, Gap, Row, Scope};
use crate::sql::SqlView;
use crate::text;

verus! {

/// The one edge that a write is about, in the first three slots.
pub open spec fn this_edge() -> KeySlots {
    KeySlots { source: 1, target: 2, edge_type: 3 }
}

/// What keeps a write to its lineage and its edge, where no expression has.
#[verifier::opaque]
pub open spec fn of_this_edge(c: Cond, shape: LineageShape) -> Cond {
    match shape {
        LineageShape::Resolved => c,
        LineageShape::TrunkOnForked => term::and(
            term::and(c, Gap::Blank, reading::on_branch(5)),
            Gap::Blank,
            cut::keyed(this_edge(), "l"@),
        ),
        LineageShape::Trunk => term::and(c, Gap::Blank, cut::keyed(this_edge(), "l"@)),
    }
}

/// Whether a validity begins elsewhere.
pub open spec fn begins_elsewhere() -> Cond {
    term::differ(seen::of_edge("valid_from"@), Gap::Blank, term::slot(4))
}

/// Whether a validity begins there.
pub open spec fn begins_there() -> Cond {
    term::eq(seen::of_edge("valid_from"@), term::slot(4))
}

/// The ends of a validity.
#[verifier::opaque]
pub open spec fn validity_columns() -> Cols {
    query::also(
        query::one(seen::of_edge("valid_from"@), "valid_from"@),
        Gap::Blank,
        seen::of_edge("valid_to"@),
        "valid_to"@,
    )
}

/// The relation that a write reads.
pub open spec fn source(shape: LineageShape) -> Seq<char> {
    resolved::write_resolution(shape, 0, 0).source()
}

/// The query of the validities that a write may not overlap.
pub open spec fn overlapping(shape: LineageShape) -> Query {
    query::select(
        validity_columns(),
        Gap::Blank,
        query::table_as(source(shape), "l"@),
        Gap::Blank,
        of_this_edge(begins_elsewhere(), shape),
    )
}

/// The columns of an assertion that ends a validity.
#[verifier::opaque]
pub open spec fn ended_columns() -> Cols {
    let c1 = query::one(term::slot(1), "source_id"@);
    let c2 = query::also(c1, Gap::Blank, term::slot(2), "target_id"@);
    let c3 = query::also(c2, Gap::Blank, term::slot(3), "edge_type"@);
    let c4 = query::also(c3, Gap::Blank, term::slot(4), "valid_from"@);
    let c5 = query::also(c4, Gap::Blank, term::slot(6), "valid_to"@);
    let c6 = query::also(c5, Gap::Blank, seen::of_edge("weight"@), "weight"@);
    let c7 = query::also(c6, Gap::Blank, seen::of_edge("properties"@), "properties"@);
    let c8 = query::also(c7, Gap::Blank, term::slot(7), "recorded_at"@);
    query::also(c8, Gap::Blank, term::slot(5), "branch_id"@)
}

/// The query of the assertions that end a validity.
pub open spec fn ending(shape: LineageShape) -> Query {
    query::select(
        ended_columns(),
        Gap::Blank,
        query::table_as(source(shape), "l"@),
        Gap::Blank,
        of_this_edge(begins_there(), shape),
    )
}

/// Whether a row is of an edge, and of a lineage where the write has to tell.
pub open spec fn is_of(
    shape: LineageShape,
    source: Seq<char>,
    target: Seq<char>,
    edge_type: Seq<char>,
    lineage: Seq<char>,
    row: Row,
) -> bool {
    &&& shape != LineageShape::Resolved ==> {
        &&& row("source_id"@) == SqlView::Text(source)
        &&& row("target_id"@) == SqlView::Text(target)
        &&& row("edge_type"@) == SqlView::Text(edge_type)
    }
    &&& shape == LineageShape::TrunkOnForked ==> row("branch_id"@) == SqlView::Text(lineage)
}

proof fn lemma_own_text(c: Cond, shape: LineageShape, entries: nat, slot: nat)
    ensures
        ({
            let r = resolved::write_resolution(shape, entries, slot);
            of_this_edge(c, shape).text == c.text + (r.own_lineage() + r.own_edge())
        }),
        resolved::write_resolution(shape, entries, slot).source() == source(shape),
{
    reveal(of_this_edge);
    reading::lemma_holds_at_text(5);
    cut::lemma_keyed_text(this_edge(), "l"@);
    reveal_strlit(" AND +l.branch_id = ?");
    reveal_strlit("+l.branch_id = ?");
    reveal_strlit(" AND ");
    reveal_strlit("AND ");
    reveal_strlit("");
    let r = resolved::write_resolution(shape, entries, slot);
    let own = this_edge().equalities_text("l"@);
    assert(of_this_edge(c, shape).text =~= c.text + (r.own_lineage() + r.own_edge()));
}

proof fn lemma_pieces_text()
    ensures
        begins_elsewhere().text == "l.valid_from <> ?4"@,
        begins_there().text == "l.valid_from = ?4"@,
        validity_columns().text == "l.valid_from, l.valid_to"@,
        ended_columns().text == "?1, ?2, ?3, ?4, ?6, l.weight, l.properties, ?7, ?5"@,
        ended_columns().header
            == "source_id, target_id, edge_type, valid_from, valid_to, weight, properties, recorded_at, branch_id"@,
{
    reveal(validity_columns);
    reveal(ended_columns);
    reveal_with_fuel(text::decimal, 2);
    reveal_strlit("l.valid_from <> ?4");
    reveal_strlit("l.valid_from = ?4");
    reveal_strlit("l.valid_from, l.valid_to");
    reveal_strlit("?1, ?2, ?3, ?4, ?6, l.weight, l.properties, ?7, ?5");
    reveal_strlit("source_id, target_id, edge_type, valid_from, valid_to, weight, properties, recorded_at, branch_id");
    reveal_strlit("source_id");
    reveal_strlit("target_id");
    reveal_strlit("edge_type");
    reveal_strlit("valid_from");
    reveal_strlit("valid_to");
    reveal_strlit("weight");
    reveal_strlit("properties");
    reveal_strlit("recorded_at");
    reveal_strlit("branch_id");
    reveal_strlit("l");
    reveal_strlit(".");
    reveal_strlit("?");
    reveal_strlit("=");
    reveal_strlit("<>");
    reveal_strlit(" ");
    reveal_strlit(",");
    reveal_strlit(", ");
}

proof fn lemma_overlap_text(shape: LineageShape, entries: nat)
    ensures
        resolved::overlap_text(shape, entries) == plan::with_clause_text(
            resolved::write_resolution(shape, entries, resolved::GUARD_ANCESTRY_SLOT as nat).ctes(),
        ) + overlapping(shape).text,
{
    let r = resolved::write_resolution(shape, entries, resolved::GUARD_ANCESTRY_SLOT as nat);
    lemma_own_text(begins_elsewhere(), shape, entries, resolved::GUARD_ANCESTRY_SLOT as nat);
    lemma_pieces_text();
    let head = plan::with_clause_text(r.ctes());
    let own = r.own_lineage() + r.own_edge();
    let from = source(shape);
    lemma_overlap_pieces(head, from, own);
}

proof fn lemma_overlap_pieces(head: Seq<char>, from: Seq<char>, own: Seq<char>)
    ensures
        head + "SELECT l.valid_from, l.valid_to FROM "@ + from + " l WHERE l.valid_from <> ?4"@ + own == head + (
        "SELECT "@ + "l.valid_from, l.valid_to"@ + Gap::Blank.text() + "FROM "@ + (from + " "@ + "l"@)
            + Gap::Blank.text() + "WHERE "@ + ("l.valid_from <> ?4"@ + own)),
{
    reveal_strlit("SELECT l.valid_from, l.valid_to FROM ");
    reveal_strlit(" l WHERE l.valid_from <> ?4");
    reveal_strlit("l.valid_from, l.valid_to");
    reveal_strlit("l.valid_from <> ?4");
    reveal_strlit("l");
    reveal_strlit(" ");
    reveal_strlit("SELECT ");
    reveal_strlit("FROM ");
    reveal_strlit("WHERE ");
}

proof fn lemma_retire_text(shape: LineageShape, entries: nat)
    ensures
        resolved::retire_text(shape, entries) == plan::with_clause_text(
            resolved::write_resolution(shape, entries, resolved::RETIRE_ANCESTRY_SLOT as nat).ctes(),
        ) + ("INSERT INTO "@ + "links"@ + " ("@ + ending(shape).header + ") "@ + ending(shape).text),
{
    let r = resolved::write_resolution(shape, entries, resolved::RETIRE_ANCESTRY_SLOT as nat);
    lemma_own_text(begins_there(), shape, entries, resolved::RETIRE_ANCESTRY_SLOT as nat);
    lemma_pieces_text();
    let head = plan::with_clause_text(r.ctes());
    let own = r.own_lineage() + r.own_edge();
    lemma_retire_pieces(head, source(shape), own);
}

proof fn lemma_retire_pieces(head: Seq<char>, from: Seq<char>, own: Seq<char>)
    ensures
        head
            + "INSERT INTO links (source_id, target_id, edge_type, valid_from, valid_to, weight, properties, recorded_at, branch_id) SELECT ?1, ?2, ?3, ?4, ?6, l.weight, l.properties, ?7, ?5 FROM "@
            + from + " l WHERE l.valid_from = ?4"@ + own == head + ("INSERT INTO "@ + "links"@ + " ("@
            + "source_id, target_id, edge_type, valid_from, valid_to, weight, properties, recorded_at, branch_id"@ + ") "@
            + ("SELECT "@ + "?1, ?2, ?3, ?4, ?6, l.weight, l.properties, ?7, ?5"@ + Gap::Blank.text() + "FROM "@ + (from
            + " "@ + "l"@) + Gap::Blank.text() + "WHERE "@ + ("l.valid_from = ?4"@ + own))),
{
    reveal_strlit(
        "INSERT INTO links (source_id, target_id, edge_type, valid_from, valid_to, weight, properties, recorded_at, branch_id) SELECT ?1, ?2, ?3, ?4, ?6, l.weight, l.properties, ?7, ?5 FROM ",
    );
    reveal_strlit(" l WHERE l.valid_from = ?4");
    reveal_strlit("source_id, target_id, edge_type, valid_from, valid_to, weight, properties, recorded_at, branch_id");
    reveal_strlit("?1, ?2, ?3, ?4, ?6, l.weight, l.properties, ?7, ?5");
    reveal_strlit("l.valid_from = ?4");
    reveal_strlit("INSERT INTO ");
    reveal_strlit("links");
    reveal_strlit(" (");
    reveal_strlit(") ");
    reveal_strlit("l");
    reveal_strlit(" ");
    reveal_strlit("SELECT ");
    reveal_strlit("FROM ");
    reveal_strlit("WHERE ");
}

/// What keeps a write to its edge, said of a row.
proof fn lemma_of_this_edge(
    c: Cond,
    shape: LineageShape,
    s: Scope,
    row: Row,
    from: Seq<char>,
    to: Seq<char>,
    edge_type: Seq<char>,
    lineage: Seq<char>,
)
    requires
        !c.loose,
        s.bound[0] == SqlView::Text(from),
        s.bound[1] == SqlView::Text(to),
        s.bound[2] == SqlView::Text(edge_type),
        shape == LineageShape::TrunkOnForked ==> s.bound[4] == SqlView::Text(lineage),
        forall|col: Seq<char>| #[trigger] s.read("l"@, col) == row(col),
    ensures
        of_this_edge(c, shape).of(s) <==> c.of(s) && is_of(shape, from, to, edge_type, lineage, row),
{
    reveal(of_this_edge);
    ledger::lemma_keyed(this_edge(), "l"@, s);
    reading::lemma_holds_at(5, s);
    assert(s.read("l"@, "source_id"@) == row("source_id"@));
    assert(s.read("l"@, "target_id"@) == row("target_id"@));
    assert(s.read("l"@, "edge_type"@) == row("edge_type"@));
    assert(s.read("l"@, "branch_id"@) == row("branch_id"@));
    let on = term::and(c, Gap::Blank, reading::on_branch(5));
    assert(on.of(s) <==> c.of(s) && reading::on_branch(5).of(s));
    let keyed = cut::keyed(this_edge(), "l"@);
    assert(keyed.of(s) <==> row("source_id"@) == SqlView::Text(from) && row("target_id"@) == SqlView::Text(to) && row(
        "edge_type"@,
    ) == SqlView::Text(edge_type));
}

/// Whether a write that begins at `start` may not overlap a row: it is of the same
/// edge, and begins at another instant.
pub open spec fn is_candidate(e: AssertionView, shape: LineageShape, row: Row) -> bool {
    &&& is_of(shape, e.source, e.target, e.edge_type, e.lineage(), row)
    &&& !(row("valid_from"@) is Null) && row("valid_from"@) != SqlView::Text(e.valid_from)
}

/// The guard reads, once each, exactly the validities of the edge that a write is
/// about, but the one that begins where it does, which the write corrects.
pub proof fn law_the_guard_reads_the_other_validities(
    e: AssertionView,
    shape: LineageShape,
    ancestry: Seq<AncestorView>,
    w: World,
    out: Seq<Row>,
) -> (of: Seq<int>)
    requires
        w.bound == rows::guard_row(e, shape, ancestry),
        overlapping(shape).answers(w, out),
    ensures
        resolved::overlap_text(shape, ancestry.len()) == plan::with_clause_text(
            resolved::write_resolution(shape, ancestry.len(), resolved::GUARD_ANCESTRY_SLOT as nat).ctes(),
        ) + overlapping(shape).text,
        of.len() == out.len(),
        forall|k: int|
            0 <= k < out.len() ==> 0 <= #[trigger] of[k] < w.rows(source(shape)).len() && is_candidate(
                e,
                shape,
                w.rows(source(shape))[of[k]],
            ) && out[k]("valid_from"@) == w.rows(source(shape))[of[k]]("valid_from"@) && out[k]("valid_to"@) == w.rows(
                source(shape),
            )[of[k]]("valid_to"@),
        forall|k: int, l: int| 0 <= k < l < out.len() ==> #[trigger] of[k] != #[trigger] of[l],
        forall|i: int|
            0 <= i < w.rows(source(shape)).len() && is_candidate(e, shape, w.rows(source(shape))[i])
                ==> #[trigger] query::is_one_of(of, i),
{
    lemma_overlap_text(shape, ancestry.len());
    let list = w.rows(source(shape));
    let cond = of_this_edge(begins_elsewhere(), shape);
    let of = query::lemma_select_table(
        validity_columns(),
        Gap::Blank,
        query::table_as(source(shape), "l"@),
        source(shape),
        Gap::Blank,
        cond,
        w,
        out,
    );
    assert forall|row: Row| #[trigger] cond.of(w.over(row)) <==> is_candidate(e, shape, row) by {
        let s = w.over(row);
        lemma_of_this_edge(
            begins_elsewhere(),
            shape,
            s,
            row,
            e.source,
            e.target,
            e.edge_type,
            e.lineage(),
        );
        assert(s.read("l"@, "valid_from"@) == row("valid_from"@));
        assert(s.bound[3] == SqlView::Text(e.valid_from));
    }
    assert forall|k: int| 0 <= k < out.len() implies 0 <= #[trigger] of[k] < list.len() && is_candidate(
        e,
        shape,
        list[of[k]],
    ) && out[k]("valid_from"@) == list[of[k]]("valid_from"@) && out[k]("valid_to"@) == list[of[k]]("valid_to"@) by {
        let row = list[of[k]];
        assert(cond.of(w.over(row)));
        reveal(validity_columns);
        names::lemma_columns();
        assert(w.over(row).read("l"@, "valid_from"@) == row("valid_from"@));
        assert(w.over(row).read("l"@, "valid_to"@) == row("valid_to"@));
    }
    assert forall|i: int| 0 <= i < list.len() && is_candidate(e, shape, list[i]) implies #[trigger] query::is_one_of(
        of,
        i,
    ) by {
        assert(cond.of(w.over(list[i])));
    }
    of
}

/// Whether a retirement ends a row: it is of the same edge, and begins where that
/// is said.
pub open spec fn is_ended(r: Retirement, shape: LineageShape, row: Row) -> bool {
    &&& is_of(shape, r.source@, r.target@, r.edge_type@, r.lineage(), row)
    &&& row("valid_from"@) == SqlView::Text(r.valid_from@)
}

/// Whether a row is the assertion that ends a validity: the edge as it was, on the
/// retirement's lineage, with another end and the stamp of the write.
pub open spec fn ends(r: Retirement, stamp: Seq<char>, row: Row, was: Row) -> bool {
    &&& row("source_id"@) == SqlView::Text(r.source@)
    &&& row("target_id"@) == SqlView::Text(r.target@)
    &&& row("edge_type"@) == SqlView::Text(r.edge_type@)
    &&& row("valid_from"@) == SqlView::Text(r.valid_from@)
    &&& row("valid_to"@) == SqlView::Text(r.valid_to@)
    &&& row("weight"@) == was("weight"@)
    &&& row("properties"@) == was("properties"@)
    &&& row("recorded_at"@) == SqlView::Text(stamp)
    &&& row("branch_id"@) == SqlView::Text(r.lineage())
}

/// A retirement asserts anew, once each, exactly the validities of its edge that
/// begin where it says: with the end that it gives, on its own lineage, under its
/// own stamp, and otherwise as its lineage sees them. So it asserts nothing where
/// there is none.
pub proof fn law_a_retirement_ends_what_its_lineage_sees(
    r: Retirement,
    stamp: Seq<char>,
    shape: LineageShape,
    ancestry: Seq<AncestorView>,
    w: World,
    out: Seq<Row>,
) -> (of: Seq<int>)
    requires
        w.bound == rows::retire_row(r, stamp, shape, ancestry),
        ending(shape).answers(w, out),
    ensures
        resolved::retire_text(shape, ancestry.len()) == plan::with_clause_text(
            resolved::write_resolution(shape, ancestry.len(), resolved::RETIRE_ANCESTRY_SLOT as nat).ctes(),
        ) + ("INSERT INTO "@ + "links"@ + " ("@ + ending(shape).header + ") "@ + ending(shape).text),
        of.len() == out.len(),
        forall|k: int|
            0 <= k < out.len() ==> 0 <= #[trigger] of[k] < w.rows(source(shape)).len() && is_ended(
                r,
                shape,
                w.rows(source(shape))[of[k]],
            ) && ends(r, stamp, out[k], w.rows(source(shape))[of[k]]),
        forall|k: int, l: int| 0 <= k < l < out.len() ==> #[trigger] of[k] != #[trigger] of[l],
        forall|i: int|
            0 <= i < w.rows(source(shape)).len() && is_ended(r, shape, w.rows(source(shape))[i])
                ==> #[trigger] query::is_one_of(of, i),
{
    lemma_retire_text(shape, ancestry.len());
    let list = w.rows(source(shape));
    let cond = of_this_edge(begins_there(), shape);
    let of = query::lemma_select_table(
        ended_columns(),
        Gap::Blank,
        query::table_as(source(shape), "l"@),
        source(shape),
        Gap::Blank,
        cond,
        w,
        out,
    );
    assert forall|row: Row| #[trigger] cond.of(w.over(row)) <==> is_ended(r, shape, row) by {
        let s = w.over(row);
        lemma_of_this_edge(
            begins_there(),
            shape,
            s,
            row,
            r.source@,
            r.target@,
            r.edge_type@,
            r.lineage(),
        );
        assert(s.read("l"@, "valid_from"@) == row("valid_from"@));
        assert(s.bound[3] == SqlView::Text(r.valid_from@));
    }
    assert forall|k: int| 0 <= k < out.len() implies 0 <= #[trigger] of[k] < list.len() && is_ended(
        r,
        shape,
        list[of[k]],
    ) && ends(r, stamp, out[k], list[of[k]]) by {
        let row = list[of[k]];
        assert(cond.of(w.over(row)));
        reveal(ended_columns);
        names::lemma_columns();
        assert(w.over(row).read("l"@, "weight"@) == row("weight"@));
        assert(w.over(row).read("l"@, "properties"@) == row("properties"@));
    }
    assert forall|i: int| 0 <= i < list.len() && is_ended(r, shape, list[i]) implies #[trigger] query::is_one_of(
        of,
        i,
    ) by {
        assert(cond.of(w.over(list[i])));
    }
    of
}

} // verus!
