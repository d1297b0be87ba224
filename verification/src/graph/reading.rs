//! What a read of all edges gives back.

use vstd::prelude::*;

use crate::graph::lineage::LineageShape;
use crate::graph::plan as lowering;
use crate::graph::seen;
use crate::plan;
use crate::relation::names;
use crate::relation::query;
use crate::relation::query::{Cols, Query, World};
use crate::relation::term;
use crate::relation::term::{Cond, Gap, Row};
use crate::sql::SqlView;
use crate::text;

verus! {

/// The columns of a belief that is read.
#[verifier::opaque]
pub open spec fn belief_columns() -> Cols {
    let c1 = query::one(seen::of_edge("source_id"@), "source_id"@);
    let c2 = query::also(c1, Gap::Blank, seen::of_edge("target_id"@), "target_id"@);
    let c3 = query::also(c2, Gap::Blank, seen::of_edge("edge_type"@), "edge_type"@);
    let c4 = query::also(c3, Gap::Blank, seen::of_edge("valid_from"@), "valid_from"@);
    let c5 = query::also(c4, Gap::Blank, seen::of_edge("valid_to"@), "valid_to"@);
    query::also(c5, Gap::Blank, seen::of_edge("branch_id"@), "branch_id"@)
}

/// Whether an edge holds at the bound instant.
pub open spec fn holds_at(slot: nat) -> Cond {
    term::and(
        term::le(seen::of_edge("valid_from"@), term::slot(slot)),
        Gap::Blank,
        term::lt(term::slot(slot), seen::of_edge("valid_to"@)),
    )
}

/// Whether an edge is of the bound lineage.
pub open spec fn on_branch(slot: nat) -> Cond {
    term::eq(term::plain(seen::of_edge("branch_id"@)), term::slot(slot))
}

/// Whether the reader of a shape has to keep to its own lineage.
pub open spec fn keeps_to_itself(shape: LineageShape, folded: bool) -> bool {
    shape == LineageShape::TrunkOnForked && !folded
}

/// What is read.
#[verifier::opaque]
pub open spec fn belief_cond(shape: LineageShape, folded: bool) -> Cond {
    if keeps_to_itself(shape, folded) {
        term::and(holds_at(1), Gap::Blank, on_branch(2))
    } else {
        holds_at(1)
    }
}

/// The query of a read of all edges, without its ceiling.
pub open spec fn beliefs(shape: LineageShape, folded: bool) -> Query {
    query::select(
        belief_columns(),
        Gap::Blank,
        query::table_as(plan::edges_resolution(shape, folded).source(), "l"@),
        Gap::Blank,
        belief_cond(shape, folded),
    )
}

/// The query of a read of all edges.
pub open spec fn read(shape: LineageShape, folded: bool, limit: Option<usize>) -> Query {
    match limit {
        Some(n) => query::limited(beliefs(shape, folded), Gap::Blank, term::number(n as nat)),
        None => beliefs(shape, folded),
    }
}

/// Whether a row is of an edge that holds at `valid`, and of `branch` where the
/// reader has to keep to it.
pub open spec fn is_held(
    shape: LineageShape,
    folded: bool,
    valid: Seq<char>,
    branch: Seq<char>,
    row: Row,
) -> bool {
    &&& term::at_most(row("valid_from"@), SqlView::Text(valid))
    &&& !(row("valid_to"@) is Null) && term::before(SqlView::Text(valid), row("valid_to"@))
    &&& keeps_to_itself(shape, folded) ==> term::equal(row("branch_id"@), SqlView::Text(branch))
}

/// Whether two rows say the same of a belief.
pub open spec fn same_belief(a: Row, b: Row) -> bool {
    &&& seen::same_edge(a, b)
    &&& a("valid_to"@) == b("valid_to"@)
    &&& a("branch_id"@) == b("branch_id"@)
}

/// Whether `out` holds, once each, the rows for which `p`.
pub open spec fn are_those(rows: Seq<Row>, p: spec_fn(Row) -> bool, of: Seq<int>, out: Seq<Row>) -> bool {
    &&& of.len() == out.len()
    &&& forall|k: int|
        0 <= k < out.len() ==> 0 <= #[trigger] of[k] < rows.len() && p(rows[of[k]]) && same_belief(
            out[k],
            rows[of[k]],
        )
    &&& forall|k: int, l: int| 0 <= k < l < out.len() ==> #[trigger] of[k] != #[trigger] of[l]
    &&& forall|i: int| 0 <= i < rows.len() && p(rows[i]) ==> #[trigger] query::is_one_of(of, i)
}

proof fn lemma_belief_columns_text()
    ensures
        belief_columns().text
            == "l.source_id, l.target_id, l.edge_type, l.valid_from, l.valid_to, l.branch_id"@,
{
    reveal(belief_columns);
    reveal_strlit("l.source_id, l.target_id, l.edge_type, l.valid_from, l.valid_to, l.branch_id");
    reveal_strlit("source_id");
    reveal_strlit("target_id");
    reveal_strlit("edge_type");
    reveal_strlit("valid_from");
    reveal_strlit("valid_to");
    reveal_strlit("branch_id");
    reveal_strlit("l");
    reveal_strlit(".");
    reveal_strlit(",");
}

/// How the condition on the instant is written.
pub proof fn lemma_holds_at_text(slot: nat)
    ensures
        holds_at(slot).text == "l.valid_from <= ?"@ + text::decimal(slot) + " AND ?"@ + text::decimal(slot)
            + " < l.valid_to"@,
        on_branch(slot).text == "+l.branch_id = ?"@ + text::decimal(slot),
{
    reveal_strlit("l.valid_from <= ?");
    reveal_strlit(" AND ?");
    reveal_strlit(" < l.valid_to");
    reveal_strlit("+l.branch_id = ?");
    reveal_strlit("valid_from");
    reveal_strlit("valid_to");
    reveal_strlit("branch_id");
    reveal_strlit("l");
    reveal_strlit(".");
    reveal_strlit("?");
    reveal_strlit("+");
    reveal_strlit("=");
    reveal_strlit("<");
    reveal_strlit("<=");
    reveal_strlit(" ");
    reveal_strlit("AND ");
    assert(holds_at(slot).text =~= "l.valid_from <= ?"@ + text::decimal(slot) + " AND ?"@ + text::decimal(slot)
        + " < l.valid_to"@);
    assert(on_branch(slot).text =~= "+l.branch_id = ?"@ + text::decimal(slot));
}

proof fn lemma_belief_cond_text(shape: LineageShape, folded: bool)
    ensures
        ({
            let r = plan::edges_resolution(shape, folded);
            belief_cond(shape, folded).text == "l.valid_from <= ?1 AND ?1 < l.valid_to"@ + (r.own_lineage()
                + r.own_edge())
        }),
{
    reveal(belief_cond);
    lemma_holds_at_text(1);
    lemma_holds_at_text(2);
    reveal_with_fuel(text::decimal, 2);
    reveal_strlit("l.valid_from <= ?1 AND ?1 < l.valid_to");
    reveal_strlit("l.valid_from <= ?");
    reveal_strlit(" AND ?");
    reveal_strlit(" < l.valid_to");
    reveal_strlit("+l.branch_id = ?");
    reveal_strlit(" AND +l.branch_id = ?");
    reveal_strlit("");
    reveal_strlit("AND ");
    let r = plan::edges_resolution(shape, folded);
    assert(belief_cond(shape, folded).text =~= "l.valid_from <= ?1 AND ?1 < l.valid_to"@ + (r.own_lineage()
        + r.own_edge()));
}

/// A read of all edges is written as its query is, after the expressions that it
/// reads.
proof fn lemma_read_text(shape: LineageShape, folded: bool, limit: Option<usize>)
    ensures
        plan::edges_text(shape, folded, limit) == lowering::with_clause_text(
            plan::edges_resolution(shape, folded).ctes(),
        ) + read(shape, folded, limit).text,
{
    lemma_belief_columns_text();
    lemma_belief_cond_text(shape, folded);
    let r = plan::edges_resolution(shape, folded);
    let own = r.own_lineage() + r.own_edge();
    let head = lowering::with_clause_text(r.ctes());
    reveal_strlit("SELECT l.source_id, l.target_id, l.edge_type, l.valid_from, l.valid_to, l.branch_id FROM ");
    reveal_strlit("l.source_id, l.target_id, l.edge_type, l.valid_from, l.valid_to, l.branch_id");
    reveal_strlit(" l WHERE l.valid_from <= ?1 AND ?1 < l.valid_to");
    reveal_strlit("l.valid_from <= ?1 AND ?1 < l.valid_to");
    reveal_strlit(" LIMIT ");
    reveal_strlit("LIMIT ");
    reveal_strlit("");
    reveal_strlit("l");
    reveal_strlit(" ");
    reveal_strlit("SELECT ");
    reveal_strlit("FROM ");
    reveal_strlit("WHERE ");
    assert(plan::edges_text(shape, folded, limit) =~= head + read(shape, folded, limit).text);
}

/// What the condition on the instant says.
pub proof fn lemma_holds_at(slot: nat, s: term::Scope)
    ensures
        holds_at(slot).of(s) <==> term::at_most(s.read("l"@, "valid_from"@), s.bound[slot - 1]) && !(s.bound[slot
            - 1] is Null) && !(s.read("l"@, "valid_to"@) is Null) && term::before(
            s.bound[slot - 1],
            s.read("l"@, "valid_to"@),
        ),
        !holds_at(slot).loose,
        on_branch(slot).of(s) <==> term::equal(s.read("l"@, "branch_id"@), s.bound[slot - 1]),
        !on_branch(slot).loose,
{
    let a = term::le(seen::of_edge("valid_from"@), term::slot(slot));
    let b = term::lt(term::slot(slot), seen::of_edge("valid_to"@));
    assert(a.of(s) <==> term::at_most(s.read("l"@, "valid_from"@), s.bound[slot - 1]));
    assert(b.of(s) <==> !(s.bound[slot - 1] is Null) && !(s.read("l"@, "valid_to"@) is Null) && term::before(
        s.bound[slot - 1],
        s.read("l"@, "valid_to"@),
    ));
    assert(holds_at(slot).of(s) <==> a.of(s) && b.of(s));
}

proof fn lemma_shown(w: World, row: Row)
    ensures
        same_belief(belief_columns().of(w.over(row)), row),
{
    reveal(belief_columns);
    names::lemma_columns();
    let s = w.over(row);
    assert(s.read("l"@, "source_id"@) == row("source_id"@));
    assert(s.read("l"@, "target_id"@) == row("target_id"@));
    assert(s.read("l"@, "edge_type"@) == row("edge_type"@));
    assert(s.read("l"@, "valid_from"@) == row("valid_from"@));
    assert(s.read("l"@, "valid_to"@) == row("valid_to"@));
    assert(s.read("l"@, "branch_id"@) == row("branch_id"@));
}

/// A read of all edges gives back exactly those that hold at the instant it is
/// asked for: they began at it or before, and end after it. Where lineages have
/// forked and it reads current belief of the trunk, it keeps to the trunk's own.
/// `out` is all of it, of which a ceiling leaves the first.
pub proof fn law_a_read_gives_what_holds(
    shape: LineageShape,
    valid: Seq<char>,
    recorded: Option<Seq<char>>,
    branch: Seq<char>,
    limit: Option<usize>,
    w: World,
    got: Seq<Row>,
) -> (r: (Seq<int>, Seq<Row>))
    requires
        limit matches Some(n) ==> n <= i64::MAX,
        w.bound == plan::edges_row(shape, valid, recorded, branch),
        read(shape, recorded.is_some(), limit).answers(w, got),
    ensures
        plan::edges_text(shape, recorded.is_some(), limit) == lowering::with_clause_text(
            plan::edges_resolution(shape, recorded.is_some()).ctes(),
        ) + read(shape, recorded.is_some(), limit).text,
        are_those(
            w.rows(plan::edges_resolution(shape, recorded.is_some()).source()),
            |row: Row| is_held(shape, recorded.is_some(), valid, branch, row),
            r.0,
            r.1,
        ),
        got == (match limit {
            Some(n) => query::first(r.1, n as int),
            None => r.1,
        }),
{
    let folded = recorded.is_some();
    lemma_read_text(shape, folded, limit);
    let q = beliefs(shape, folded);
    let source = plan::edges_resolution(shape, folded).source();
    let rows = w.rows(source);
    let out = match limit {
        Some(n) => choose|full: Seq<Row>| #[trigger] query::cut(q, w, n as int, full, got),
        None => got,
    };
    assert(q.answers(w, out));
    let of = query::lemma_select_table(
        belief_columns(),
        Gap::Blank,
        query::table_as(source, "l"@),
        source,
        Gap::Blank,
        belief_cond(shape, folded),
        w,
        out,
    );
    assert forall|row: Row| #[trigger] belief_cond(shape, folded).of(w.over(row)) <==> is_held(
        shape,
        folded,
        valid,
        branch,
        row,
    ) by {
        reveal(belief_cond);
        lemma_holds_at(1, w.over(row));
        lemma_holds_at(2, w.over(row));
        assert(w.bound[0] == SqlView::Text(valid));
        if shape != LineageShape::Trunk {
            assert(w.bound[1] == SqlView::Text(branch));
        }
    }
    let p = |row: Row| is_held(shape, folded, valid, branch, row);
    assert forall|k: int| 0 <= k < out.len() implies 0 <= #[trigger] of[k] < rows.len() && p(rows[of[k]])
        && same_belief(out[k], rows[of[k]]) by {
        lemma_shown(w, rows[of[k]]);
        assert(belief_cond(shape, folded).of(w.over(rows[of[k]])));
    }
    assert forall|i: int| 0 <= i < rows.len() && p(rows[i]) implies #[trigger] query::is_one_of(of, i) by {
        assert(belief_cond(shape, folded).of(w.over(rows[i])));
    }
    (of, out)
}

} // verus!
