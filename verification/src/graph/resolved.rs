//! The statements that read across lineages: what a write must not overlap,
//! what a retirement starts from, and how two lineages differ.

use vstd::prelude::*;

use crate::graph::builder;
use crate::graph::lineage;
use crate::graph::lineage::{Ancestor, AncestorView, LineageShape};
use crate::graph::lineage_sql;
use crate::graph::lineage_sql::{ancestry_params, KeySlots};
use crate::graph::plan;
use crate::graph::plan::{lower, Resolution};
use crate::sql;
use crate::sql::{bind, text_value, SqlValue, SqlView};
use crate::text;

verus! {

/// Where a write binds its branch.
pub const WRITE_BRANCH_SLOT: usize = 5;

/// Where the overlap guard binds the ancestry.
pub const GUARD_ANCESTRY_SLOT: usize = 6;

/// Where a retirement binds the ancestry.
pub const RETIRE_ANCESTRY_SLOT: usize = 8;

/// Where a difference binds the first ancestry.
pub const DIFF_ANCESTRY_SLOT: usize = 3;

/// What a write asks the lowering for: one edge, in the first three slots.
pub open spec fn write_resolution(
    shape: LineageShape,
    entries: nat,
    ancestry_slot: nat,
) -> plan::ResolutionView {
    plan::ResolutionView {
        shape,
        branch_slot: WRITE_BRANCH_SLOT as nat,
        recorded_slot: None,
        tag: ""@,
        key: Some(KeySlots { source: 1, target: 2, edge_type: 3 }),
        entries,
        ancestry_slot,
    }
}

/// The stored validities that a write may not overlap.
pub open spec fn overlap_text(shape: LineageShape, entries: nat) -> Seq<char> {
    let r = write_resolution(shape, entries, GUARD_ANCESTRY_SLOT as nat);
    plan::with_clause_text(r.ctes()) + "SELECT l.valid_from, l.valid_to FROM "@ + r.source()
        + " l WHERE l.valid_from <> ?4"@ + (r.own_lineage() + r.own_edge())
}

/// The stored validities that a write may not overlap: all of the same edge
/// that its lineage can see, but the one it corrects.
pub fn overlap_candidates_resolved(shape: LineageShape, ancestry: &[Ancestor]) -> (sql: String)
    requires
        GUARD_ANCESTRY_SLOT + 3 * ancestry@.len() <= usize::MAX,
    ensures
        sql@ == overlap_text(shape, ancestry@.len()),
{
    let r = Resolution {
        shape,
        branch_slot: WRITE_BRANCH_SLOT,
        recorded_slot: None,
        tag: "",
        key: Some(KeySlots { source: 1, target: 2, edge_type: 3 }),
        ancestry,
        ancestry_slot: GUARD_ANCESTRY_SLOT,
    };
    let l = lower(&r);
    let mut out = l.with_clause();
    out.append("SELECT l.valid_from, l.valid_to FROM ");
    out.append(l.source.as_str());
    out.append(" l WHERE l.valid_from <> ?4");
    out.append(l.filter.as_str());
    out
}

/// The assertion that ends a validity.
pub open spec fn retire_text(shape: LineageShape, entries: nat) -> Seq<char> {
    let r = write_resolution(shape, entries, RETIRE_ANCESTRY_SLOT as nat);
    plan::with_clause_text(r.ctes())
        + "INSERT INTO links (source_id, target_id, edge_type, valid_from, valid_to, weight, properties, recorded_at, branch_id) SELECT ?1, ?2, ?3, ?4, ?6, l.weight, l.properties, ?7, ?5 FROM "@
        + r.source() + " l WHERE l.valid_from = ?4"@ + (r.own_lineage() + r.own_edge())
}

/// The assertion that ends a validity: the edge as its lineage sees it, written
/// on that lineage with another end.
pub fn retire_from_resolved(shape: LineageShape, ancestry: &[Ancestor]) -> (sql: String)
    requires
        RETIRE_ANCESTRY_SLOT + 3 * ancestry@.len() <= usize::MAX,
    ensures
        sql@ == retire_text(shape, ancestry@.len()),
{
    let r = Resolution {
        shape,
        branch_slot: WRITE_BRANCH_SLOT,
        recorded_slot: None,
        tag: "",
        key: Some(KeySlots { source: 1, target: 2, edge_type: 3 }),
        ancestry,
        ancestry_slot: RETIRE_ANCESTRY_SLOT,
    };
    let l = lower(&r);
    let mut out = l.with_clause();
    out.append(
        "INSERT INTO links (source_id, target_id, edge_type, valid_from, valid_to, weight, properties, recorded_at, branch_id) SELECT ?1, ?2, ?3, ?4, ?6, l.weight, l.properties, ?7, ?5 FROM ",
    );
    out.append(l.source.as_str());
    out.append(" l WHERE l.valid_from = ?4");
    out.append(l.filter.as_str());
    out
}

/// What one side of a difference asks the lowering for.
pub open spec fn side(
    branch_slot: nat,
    tag: Seq<char>,
    entries: nat,
    ancestry_slot: nat,
) -> plan::ResolutionView {
    plan::ResolutionView {
        shape: LineageShape::Resolved,
        branch_slot,
        recorded_slot: None,
        tag,
        key: None,
        entries,
        ancestry_slot,
    }
}

/// The edges of one lineage that another does not have, or has otherwise.
pub open spec fn diff_text(a_entries: nat, b_entries: nat) -> Seq<char> {
    let a = side(1, "_a"@, a_entries, 3);
    let b = side(2, "_b"@, b_entries, 3 + 3 * a_entries);
    "WITH RECURSIVE "@ + plan::joined(a.ctes()) + ",\n"@ + plan::joined(b.ctes())
        + "\nSELECT a.source_id, a.target_id, a.edge_type, a.valid_from, a.valid_to, a.weight, a.branch_id FROM "@
        + a.source() + " a LEFT JOIN "@ + b.source()
        + " b ON b.source_id  = a.source_id AND b.target_id  = a.target_id AND b.edge_type  = a.edge_type AND b.valid_from = a.valid_from WHERE b.source_id IS NULL OR b.valid_to <> a.valid_to OR b.weight   <> a.weight ORDER BY a.source_id, a.target_id, a.edge_type, a.valid_from"@
}

/// The edges of the lineage in the first slot that the lineage in the second
/// does not have, or has with another end or weight.
pub fn diff_sql(a_ancestry: &[Ancestor], b_ancestry: &[Ancestor]) -> (sql: String)
    requires
        DIFF_ANCESTRY_SLOT + 3 * a_ancestry@.len() + 3 * b_ancestry@.len() <= usize::MAX,
    ensures
        sql@ == diff_text(a_ancestry@.len(), b_ancestry@.len()),
{
    let ra = Resolution {
        shape: LineageShape::Resolved,
        branch_slot: 1,
        recorded_slot: None,
        tag: "_a",
        key: None,
        ancestry: a_ancestry,
        ancestry_slot: DIFF_ANCESTRY_SLOT,
    };
    let rb = Resolution {
        shape: LineageShape::Resolved,
        branch_slot: 2,
        recorded_slot: None,
        tag: "_b",
        key: None,
        ancestry: b_ancestry,
        ancestry_slot: DIFF_ANCESTRY_SLOT + 3 * a_ancestry.len(),
    };
    let a = lower(&ra);
    let b = lower(&rb);
    let mut out = "WITH RECURSIVE ".to_owned();
    out.append(a.with_list().as_str());
    out.append(",\n");
    out.append(b.with_list().as_str());
    out.append(
        "\nSELECT a.source_id, a.target_id, a.edge_type, a.valid_from, a.valid_to, a.weight, a.branch_id FROM ",
    );
    out.append(a.source.as_str());
    out.append(" a LEFT JOIN ");
    out.append(b.source.as_str());
    out.append(
        " b ON b.source_id  = a.source_id AND b.target_id  = a.target_id AND b.edge_type  = a.edge_type AND b.valid_from = a.valid_from WHERE b.source_id IS NULL OR b.valid_to <> a.valid_to OR b.weight   <> a.weight ORDER BY a.source_id, a.target_id, a.edge_type, a.valid_from",
    );
    out
}

/// What a difference binds: the two lineages, and after them the ancestry of
/// each.
pub open spec fn diff_row(
    a: Seq<char>,
    b: Seq<char>,
    a_ancestry: Seq<AncestorView>,
    b_ancestry: Seq<AncestorView>,
) -> Seq<SqlView> {
    seq![SqlView::Text(a), SqlView::Text(b)] + lineage_sql::ancestry_row(a_ancestry) + lineage_sql::ancestry_row(
        b_ancestry,
    )
}

/// Binds what a difference asks for.
pub fn diff_params(a: &str, b: &str, a_ancestry: &[Ancestor], b_ancestry: &[Ancestor]) -> (row: Vec<SqlValue>)
    ensures
        sql::values(row@) == diff_row(
            a@,
            b@,
            lineage::ancestors_view(a_ancestry@),
            lineage::ancestors_view(b_ancestry@),
        ),
{
    let mut row: Vec<SqlValue> = Vec::new();
    bind(&mut row, text_value(a));
    bind(&mut row, text_value(b));
    let ghost head = seq![SqlView::Text(a@), SqlView::Text(b@)];
    proof {
        assert(sql::values(row@) =~= head);
    }
    let mut of_a = ancestry_params(a_ancestry);
    let mut of_b = ancestry_params(b_ancestry);
    let ghost first = sql::values(of_a@);
    let ghost second = sql::values(of_b@);
    row.append(&mut of_a);
    row.append(&mut of_b);
    proof {
        assert(sql::values(row@) =~= head + first + second);
    }
    row
}

proof fn lemma_middle_occurs(before: Seq<char>, middle: Seq<char>, after: Seq<char>)
    ensures
        text::occurs_in(before + middle + after, middle),
{
    let whole = before + middle + after;
    assert(whole.subrange(before.len() as int, (before.len() + middle.len()) as int) =~= middle);
    assert(text::stands_at(whole, middle, before.len() as int));
}

/// A walk holds the expressions of its own lowering, whole.
pub proof fn law_walks_hold_their_lowering(t: builder::TraversalView, shape: LineageShape)
    ensures
        text::occurs_in(t.walk_text(shape), plan::each_ended(t.asks(shape).ctes())),
{
    let r = t.asks(shape);
    let before = "\nWITH RECURSIVE "@;
    let middle = plan::each_ended(r.ctes());
    let whole = t.walk_text(shape);
    let after = whole.skip((before.len() + middle.len()) as int);
    assert(whole.take((before.len() + middle.len()) as int) =~= before + middle);
    assert(before + middle + after =~= whole);
    lemma_middle_occurs(before, middle, after);
}

/// A difference holds the expressions of both its sides, whole.
pub proof fn law_differences_hold_both_lowerings(a_entries: nat, b_entries: nat)
    ensures
        text::occurs_in(diff_text(a_entries, b_entries), plan::joined(side(1, "_a"@, a_entries, 3).ctes())),
        text::occurs_in(
            diff_text(a_entries, b_entries),
            plan::joined(side(2, "_b"@, b_entries, 3 + 3 * a_entries).ctes()),
        ),
{
    let whole = diff_text(a_entries, b_entries);
    let a = plan::joined(side(1, "_a"@, a_entries, 3).ctes());
    let b = plan::joined(side(2, "_b"@, b_entries, 3 + 3 * a_entries).ctes());
    let head = "WITH RECURSIVE "@;
    let between = head + a + ",\n"@;
    assert(whole.take((head.len() + a.len()) as int) =~= head + a);
    assert(head + a + whole.skip((head.len() + a.len()) as int) =~= whole);
    lemma_middle_occurs(head, a, whole.skip((head.len() + a.len()) as int));
    assert(whole.take((between.len() + b.len()) as int) =~= between + b);
    assert(between + b + whole.skip((between.len() + b.len()) as int) =~= whole);
    lemma_middle_occurs(between, b, whole.skip((between.len() + b.len()) as int));
}

} // verus!
