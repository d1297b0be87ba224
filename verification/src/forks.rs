//! What the statements on branches read and register.

use vstd::prelude::*;

use crate::branch;
use crate::graph::lineage;
use crate::relation::change;
use crate::relation::change::Change;
use crate::relation::names;
use crate::relation::query;
use crate::relation::query::{Cols, Order, Query, World};
use crate::relation::term;
use crate::relation::term::{Cond, Gap, Row};
use crate::sql::SqlView;
use crate::text;

verus! {

/// The branches that are registered.
pub open spec fn registered(w: World) -> Seq<Row> {
    w.rows("branches"@)
}

/// The columns of a branch.
#[verifier::opaque]
pub open spec fn branch_columns() -> Cols {
    let c1 = query::one(term::bare("branch_id"@), "branch_id"@);
    let c2 = query::also(c1, Gap::Blank, term::bare("parent_id"@), "parent_id"@);
    let c3 = query::also(c2, Gap::Blank, term::bare("forked_at"@), "forked_at"@);
    query::also(c3, Gap::Blank, term::bare("created_at"@), "created_at"@)
}

/// Those without a parent first, and then by age and by name.
#[verifier::opaque]
pub open spec fn trunk_first() -> Order {
    query::thereupon(
        query::thereupon(
            query::rising(term::truth(term::present(term::bare("parent_id"@)))),
            query::rising(term::bare("created_at"@)),
        ),
        query::rising(term::bare("branch_id"@)),
    )
}

/// The query of every branch.
pub open spec fn every_branch() -> Query {
    query::ordered(
        query::select_all(branch_columns(), Gap::Blank, query::table("branches"@)),
        Gap::Blank,
        trunk_first(),
    )
}

/// Whether two rows say the same of a branch.
pub open spec fn same_branch(a: Row, b: Row) -> bool {
    &&& a("branch_id"@) == b("branch_id"@)
    &&& a("parent_id"@) == b("parent_id"@)
    &&& a("forked_at"@) == b("forked_at"@)
    &&& a("created_at"@) == b("created_at"@)
}

proof fn lemma_list_text()
    ensures
        branch::LIST@ == every_branch().text,
{
    reveal(branch_columns);
    reveal(trunk_first);
    reveal_strlit(
        "SELECT branch_id, parent_id, forked_at, created_at FROM branches ORDER BY (parent_id IS NOT NULL), created_at, branch_id",
    );
    reveal_strlit("branch_id");
    reveal_strlit("parent_id");
    reveal_strlit("forked_at");
    reveal_strlit("created_at");
    reveal_strlit("branches");
    reveal_strlit("(");
    reveal_strlit(")");
    reveal_strlit(",");
    reveal_strlit(", ");
    reveal_strlit(" IS NOT NULL");
    reveal_strlit("SELECT ");
    reveal_strlit("FROM ");
    reveal_strlit("ORDER BY ");
}

/// The columns of a lineage.
#[verifier::opaque]
pub open spec fn lineage_columns() -> Cols {
    let c1 = query::one(term::bare("branch_id"@), "branch_id"@);
    let c2 = query::also(c1, Gap::Blank, term::bare("parent_id"@), "parent_id"@);
    query::also(c2, Gap::Blank, term::bare("forked_at"@), "forked_at"@)
}

/// The query of every lineage.
pub open spec fn every_lineage() -> Query {
    query::select_all(lineage_columns(), Gap::Blank, query::table("branches"@))
}

/// Loading the lineages gives back every branch, once each, with its parent and
/// when it forked.
pub proof fn law_every_lineage_is_loaded(w: World, out: Seq<Row>) -> (of: Seq<int>)
    requires
        every_lineage().answers(w, out),
    ensures
        lineage::LOAD@ == every_lineage().text,
        of.len() == out.len(),
        forall|k: int|
            0 <= k < out.len() ==> 0 <= #[trigger] of[k] < registered(w).len() && out[k]("branch_id"@) == registered(
                w,
            )[of[k]]("branch_id"@) && out[k]("parent_id"@) == registered(w)[of[k]]("parent_id"@) && out[k](
                "forked_at"@,
            ) == registered(w)[of[k]]("forked_at"@),
        forall|k: int, l: int| 0 <= k < l < out.len() ==> #[trigger] of[k] != #[trigger] of[l],
        forall|i: int| 0 <= i < registered(w).len() ==> #[trigger] query::is_one_of(of, i),
{
    assert(lineage::LOAD@ =~= every_lineage().text) by {
        reveal(lineage_columns);
        reveal_strlit("SELECT branch_id, parent_id, forked_at FROM branches");
        reveal_strlit("branch_id");
        reveal_strlit("parent_id");
        reveal_strlit("forked_at");
        reveal_strlit("branches");
        reveal_strlit(",");
        reveal_strlit("SELECT ");
        reveal_strlit("FROM ");
    }
    let plain = query::select(
        lineage_columns(),
        Gap::Blank,
        query::table("branches"@),
        Gap::Blank,
        query::everything(),
    );
    assert(plain.answers(w, out));
    let rows = registered(w);
    let of = query::lemma_select_table(
        lineage_columns(),
        Gap::Blank,
        query::table("branches"@),
        "branches"@,
        Gap::Blank,
        query::everything(),
        w,
        out,
    );
    assert forall|k: int| 0 <= k < out.len() implies 0 <= #[trigger] of[k] < rows.len() && out[k]("branch_id"@)
        == rows[of[k]]("branch_id"@) && out[k]("parent_id"@) == rows[of[k]]("parent_id"@) && out[k]("forked_at"@)
        == rows[of[k]]("forked_at"@) by {
        names::lemma_columns();
        reveal(lineage_columns);
    }
    assert forall|i: int| 0 <= i < rows.len() implies #[trigger] query::is_one_of(of, i) by {
        assert(query::everything().of(w.over(rows[i])));
    }
    of
}

/// Listing branches gives back every one of them, once each: those without a
/// parent first, and then the older before the younger.
pub proof fn law_every_branch_is_listed_trunk_first(w: World, out: Seq<Row>) -> (of: Seq<int>)
    requires
        every_branch().answers(w, out),
    ensures
        branch::LIST@ == every_branch().text,
        of.len() == out.len(),
        forall|k: int|
            0 <= k < out.len() ==> 0 <= #[trigger] of[k] < registered(w).len() && same_branch(
                out[k],
                registered(w)[of[k]],
            ),
        forall|k: int, l: int| 0 <= k < l < out.len() ==> #[trigger] of[k] != #[trigger] of[l],
        forall|i: int| 0 <= i < registered(w).len() ==> #[trigger] query::is_one_of(of, i),
        forall|k: int, l: int|
            0 <= k < l < out.len() && (#[trigger] out[l])("parent_id"@) is Null ==> (#[trigger] out[k])(
                "parent_id"@,
            ) is Null,
        forall|k: int, l: int|
            0 <= k < l < out.len() && ((#[trigger] out[l])("parent_id"@) is Null <==> (#[trigger] out[k])(
                "parent_id"@,
            ) is Null) ==> !term::before(out[l]("created_at"@), out[k]("created_at"@)),
{
    lemma_list_text();
    let q = query::select_all(branch_columns(), Gap::Blank, query::table("branches"@));
    assert(q.answers(w, out));
    let plain = query::select(
        branch_columns(),
        Gap::Blank,
        query::table("branches"@),
        Gap::Blank,
        query::everything(),
    );
    assert(plain.answers(w, out));
    let rows = registered(w);
    let of = query::lemma_select_table(
        branch_columns(),
        Gap::Blank,
        query::table("branches"@),
        "branches"@,
        Gap::Blank,
        query::everything(),
        w,
        out,
    );
    assert forall|k: int| 0 <= k < out.len() implies 0 <= #[trigger] of[k] < rows.len() && same_branch(
        out[k],
        rows[of[k]],
    ) by {
        reveal(branch_columns);
        names::lemma_columns();
    }
    assert forall|i: int| 0 <= i < rows.len() implies #[trigger] query::is_one_of(of, i) by {
        assert(query::everything().of(w.over(rows[i])));
    }
    assert forall|k: int, l: int| 0 <= k < l < out.len() && (#[trigger] out[l])(
        "parent_id"@,
    ) is Null implies (#[trigger] out[k])("parent_id"@) is Null by {
        lemma_trunk_first(w, out[l], out[k]);
        assert(!trunk_first().puts(w.over(out[l]), w.over(out[k])));
    }
    assert forall|k: int, l: int|
        0 <= k < l < out.len() && ((#[trigger] out[l])("parent_id"@) is Null <==> (#[trigger] out[k])(
            "parent_id"@,
        ) is Null) implies !term::before(out[l]("created_at"@), out[k]("created_at"@)) by {
        lemma_trunk_first(w, out[l], out[k]);
        assert(!trunk_first().puts(w.over(out[l]), w.over(out[k])));
    }
    of
}

proof fn lemma_trunk_first(w: World, a: Row, b: Row)
    ensures
        a("parent_id"@) is Null && !(b("parent_id"@) is Null) ==> trunk_first().puts(w.over(a), w.over(b)),
        (a("parent_id"@) is Null <==> b("parent_id"@) is Null) && term::before(a("created_at"@), b("created_at"@))
            ==> trunk_first().puts(w.over(a), w.over(b)),
{
    reveal(trunk_first);
    let t = term::truth(term::present(term::bare("parent_id"@)));
    let first = query::rising(t);
    let second = query::rising(term::bare("created_at"@));
    let two = query::thereupon(first, second);
    let (x, y) = (w.over(a), w.over(b));
    assert(t.of(x) == SqlView::Integer(
        if a("parent_id"@) is Null {
            0
        } else {
            1
        },
    ));
    assert(t.of(y) == SqlView::Integer(
        if b("parent_id"@) is Null {
            0
        } else {
            1
        },
    ));
    assert(second.puts(x, y) <==> term::before(a("created_at"@), b("created_at"@)));
    if first.puts(x, y) || (!first.puts(y, x) && second.puts(x, y)) {
        assert(two.puts(x, y));
    }
}

/// The columns of a branch that is registered.
#[verifier::opaque]
pub open spec fn fork_columns() -> Cols {
    let c1 = query::one(term::slot(1), "branch_id"@);
    let c2 = query::also(c1, Gap::Blank, term::slot(2), "parent_id"@);
    let c3 = query::also(c2, Gap::Blank, term::slot(3), "forked_at"@);
    query::also(c3, Gap::Blank, term::slot(3), "created_at"@)
}

/// The registering of a branch.
pub open spec fn registering() -> Change {
    change::insert("branches"@, fork_columns())
}

proof fn lemma_fork_text()
    ensures
        branch::FORK@ == registering().text,
{
    reveal(fork_columns);
    reveal_with_fuel(text::decimal, 2);
    reveal_strlit(
        "INSERT INTO branches (branch_id, parent_id, forked_at, created_at) VALUES (?1, ?2, ?3, ?3)",
    );
    reveal_strlit("INSERT INTO ");
    reveal_strlit("branches");
    reveal_strlit(" (");
    reveal_strlit(") VALUES (");
    reveal_strlit(")");
    reveal_strlit("branch_id");
    reveal_strlit("parent_id");
    reveal_strlit("forked_at");
    reveal_strlit("created_at");
    reveal_strlit("?");
    reveal_strlit(",");
    reveal_strlit(", ");
}

/// Registering a fork adds one branch: of its name, with its parent, forked and
/// made at the stamp. Every other stays as it is.
pub proof fn law_a_fork_registers_one_branch(
    name: Seq<char>,
    parent: Seq<char>,
    stamp: Seq<char>,
    w: World,
    after: Seq<Row>,
)
    requires
        w.bound == seq![SqlView::Text(name), SqlView::Text(parent), SqlView::Text(stamp)],
        registering().leaves(w, after),
    ensures
        branch::FORK@ == registering().text,
        after.len() == registered(w).len() + 1,
        forall|i: int| 0 <= i < registered(w).len() ==> #[trigger] after[i] == registered(w)[i],
        after.last()("branch_id"@) == SqlView::Text(name),
        after.last()("parent_id"@) == SqlView::Text(parent),
        after.last()("forked_at"@) == SqlView::Text(stamp),
        after.last()("created_at"@) == SqlView::Text(stamp),
{
    lemma_fork_text();
    reveal(fork_columns);
    names::lemma_columns();
}

/// How many rows of a table a condition holds for.
pub open spec fn count_where(w: World, rows: Seq<Row>, cond: Cond) -> nat {
    rows.filter(|r: Row| cond.of(w.over(r))).len()
}

/// Whether a branch is the one bound in a slot.
pub open spec fn is_bound(slot: nat) -> Cond {
    term::eq(term::bare("branch_id"@), term::slot(slot))
}

/// A count inside a statement.
pub open spec fn counted_inside(slot: nat) -> Seq<char> {
    "(SELECT COUNT(*) FROM "@ + "branches"@ + " WHERE "@ + is_bound(slot).text + ")"@
}

/// One value inside a statement.
pub open spec fn one_inside(col: Seq<char>, slot: nat) -> Seq<char> {
    "(SELECT "@ + col + " FROM "@ + "branches"@ + " WHERE "@ + is_bound(slot).text + ")"@
}

/// Whether a value is that of a column in a row for which a condition holds,
/// nothing where there is none.
pub open spec fn is_one(w: World, rows: Seq<Row>, cond: Cond, col: Seq<char>, v: SqlView) -> bool {
    if exists|i: int| 0 <= i < rows.len() && cond.of(w.over(#[trigger] rows[i])) {
        exists|i: int| 0 <= i < rows.len() && cond.of(w.over(#[trigger] rows[i])) && rows[i](col) == v
    } else {
        v is Null
    }
}

/// The query before a fork: how many branches have the name, how many the
/// parent's, and where the parent forked.
pub open spec fn probe() -> Query {
    Query {
        text: "SELECT "@ + counted_inside(1) + ", "@ + counted_inside(2) + ", "@ + one_inside("forked_at"@, 2),
        header: "taken"@ + ", "@ + "parents"@ + ", "@ + "forked_at"@,
        names: seq!["taken"@, "parents"@, "forked_at"@],
        gives: |w: World, out: Seq<Row>|
            {
                &&& out.len() == 1
                &&& out[0]("taken"@) == SqlView::Integer(count_where(w, w.rows("branches"@), is_bound(1)) as i64)
                &&& out[0]("parents"@) == SqlView::Integer(count_where(w, w.rows("branches"@), is_bound(2)) as i64)
                &&& is_one(w, w.rows("branches"@), is_bound(2), "forked_at"@, out[0]("forked_at"@))
            },
    }
}

proof fn lemma_probe_text()
    ensures
        branch::FORK_PROBE@ == probe().text,
{
    reveal_with_fuel(text::decimal, 2);
    reveal_strlit(
        "SELECT (SELECT COUNT(*) FROM branches WHERE branch_id = ?1), (SELECT COUNT(*) FROM branches WHERE branch_id = ?2), (SELECT forked_at FROM branches WHERE branch_id = ?2)",
    );
    reveal_strlit("SELECT ");
    reveal_strlit("(SELECT COUNT(*) FROM ");
    reveal_strlit("(SELECT ");
    reveal_strlit(" FROM ");
    reveal_strlit(" WHERE ");
    reveal_strlit("branches");
    reveal_strlit("branch_id");
    reveal_strlit("forked_at");
    reveal_strlit("?");
    reveal_strlit("=");
    reveal_strlit(" ");
    reveal_strlit(", ");
    reveal_strlit(")");
}

/// Whether a branch of a name is registered.
pub open spec fn is_registered(w: World, name: Seq<char>) -> bool {
    exists|i: int| 0 <= i < registered(w).len() && (#[trigger] registered(w)[i])("branch_id"@) == SqlView::Text(name)
}

/// The probe before a fork says whether the name is taken, whether the parent is
/// there, and where the parent itself forked.
pub proof fn law_the_probe_tells_what_a_fork_needs(
    name: Seq<char>,
    parent: Seq<char>,
    w: World,
    out: Seq<Row>,
)
    requires
        registered(w).len() <= i64::MAX,
        w.bound == seq![SqlView::Text(name), SqlView::Text(parent)],
        probe().answers(w, out),
    ensures
        branch::FORK_PROBE@ == probe().text,
        out.len() == 1,
        out[0]("taken"@) matches SqlView::Integer(n) && (n > 0 <==> is_registered(w, name)) && n >= 0,
        out[0]("parents"@) matches SqlView::Integer(n) && (n > 0 <==> is_registered(w, parent)) && n >= 0,
        is_registered(w, parent) ==> exists|i: int|
            0 <= i < registered(w).len() && (#[trigger] registered(w)[i])("branch_id"@) == SqlView::Text(parent)
                && registered(w)[i]("forked_at"@) == out[0]("forked_at"@),
        !is_registered(w, parent) ==> out[0]("forked_at"@) is Null,
{
    lemma_probe_text();
    lemma_count(w, 1, name);
    lemma_count(w, 2, parent);
    assert forall|row: Row| #[trigger] is_bound(2).of(w.over(row)) <==> row("branch_id"@) == SqlView::Text(parent) by {}
}

proof fn lemma_count(w: World, slot: nat, name: Seq<char>)
    requires
        slot > 0,
        w.bound[slot - 1] == SqlView::Text(name),
    ensures
        count_where(w, registered(w), is_bound(slot)) > 0 <==> is_registered(w, name),
        count_where(w, registered(w), is_bound(slot)) <= registered(w).len(),
{
    let p = |r: Row| is_bound(slot).of(w.over(r));
    let rows = registered(w);
    assert forall|row: Row| #[trigger] is_bound(slot).of(w.over(row)) <==> row("branch_id"@) == SqlView::Text(name) by {}
    rows.lemma_filter_len(p);
    if is_registered(w, name) {
        let i = choose|i: int| 0 <= i < rows.len() && (#[trigger] rows[i])("branch_id"@) == SqlView::Text(name);
        assert(p(rows[i]));
        rows.lemma_filter_contains(p, i);
    }
    if rows.filter(p).len() > 0 {
        let r = rows.filter(p)[0];
        rows.lemma_filter_pred(p, 0);
        assert(rows.filter(p).contains(r));
        rows.lemma_filter_contains_rev(p, r);
    }
}

} // verus!
