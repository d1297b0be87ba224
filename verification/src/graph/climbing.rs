//! Where the ancestry of a reader comes from.

use vstd::prelude::*;

use crate::graph::lineage::AncestorView;
use crate::graph::lineage_sql;
use crate::relation::names;
use crate::relation::query;
use crate::relation::query::{Cols, Named, Query, World};
use crate::relation::term;
use crate::relation::term::{Cond, Gap, Row};
use crate::sql;
use crate::sql::SqlView;
use crate::text;

verus! {

/// The reader's own lineage, uncut.
#[verifier::opaque]
pub open spec fn own_columns(slot: nat) -> Cols {
    let c1 = query::one(term::slot(slot), "branch_id"@);
    let c2 = query::also(c1, Gap::Blank, term::number(0), "dist"@);
    query::also(c2, Gap::Blank, term::null(), "cutoff"@)
}

/// Whether a lineage forked before it is cut.
#[verifier::opaque]
pub open spec fn forked_first() -> Cond {
    term::or(
        term::absent(term::column("g"@, "cutoff"@)),
        term::lt(term::column("b"@, "forked_at"@), term::column("g"@, "cutoff"@)),
    )
}

/// The parent of a lineage, one further away, cut where its child forked or before.
#[verifier::opaque]
pub open spec fn parent_columns() -> Cols {
    let c1 = query::one(term::column("b"@, "parent_id"@), "branch_id"@);
    let c2 = query::also(c1, Gap::Blank, term::next(term::column("g"@, "dist"@)), "dist"@);
    query::also(
        c2,
        Gap::Line(11),
        term::choice(
            forked_first(),
            Gap::Line(16),
            term::column("b"@, "forked_at"@),
            term::column("g"@, "cutoff"@),
        ),
        "cutoff"@,
    )
}

/// What joins a branch to its lineage.
#[verifier::opaque]
pub open spec fn its_branch() -> Cond {
    term::eq(term::column("b"@, "branch_id"@), term::column("g"@, "branch_id"@))
}

/// Whether a branch has a parent.
#[verifier::opaque]
pub open spec fn has_parent() -> Cond {
    term::present(term::column("b"@, "parent_id"@))
}

/// The query of one step up.
pub open spec fn step_up(tag: Seq<char>) -> Query {
    query::select(
        parent_columns(),
        Gap::Line(4),
        query::join(query::table_as("branches"@, "b"@), Gap::Blank, " "@, "lineage"@ + tag, "g"@, its_branch()),
        Gap::Line(4),
        has_parent(),
    )
}

/// The ancestry of the lineage in a slot, climbed.
pub open spec fn climbed(slot: nat, tag: Seq<char>) -> Named {
    query::recursive_all(
        "lineage"@ + tag,
        Gap::Line(4),
        query::single(own_columns(slot)),
        step_up(tag),
        Gap::Line(0),
    )
}

proof fn lemma_columns_text(slot: nat)
    ensures
        own_columns(slot).text == "?"@ + text::decimal(slot) + ", 0, NULL"@,
        own_columns(slot).header == "branch_id, dist, cutoff"@,
        its_branch().text == "b.branch_id = g.branch_id"@,
        has_parent().text == "b.parent_id IS NOT NULL"@,
        forked_first().text == "g.cutoff IS NULL OR b.forked_at < g.cutoff"@,
{
    reveal(own_columns);
    reveal(its_branch);
    reveal(has_parent);
    reveal(forked_first);
    reveal_strlit(", 0, NULL");
    reveal_strlit("branch_id, dist, cutoff");
    reveal_strlit("b.branch_id = g.branch_id");
    reveal_strlit("b.parent_id IS NOT NULL");
    reveal_strlit("g.cutoff IS NULL OR b.forked_at < g.cutoff");
    reveal_strlit("branch_id");
    reveal_strlit("parent_id");
    reveal_strlit("forked_at");
    reveal_strlit("dist");
    reveal_strlit("cutoff");
    reveal_strlit("NULL");
    reveal_strlit("b");
    reveal_strlit("g");
    reveal_strlit(".");
    reveal_strlit("?");
    reveal_strlit("=");
    reveal_strlit("<");
    reveal_strlit(" ");
    reveal_strlit(",");
    reveal_strlit(", ");
    reveal_strlit(" OR ");
    reveal_strlit(" IS NULL");
    reveal_strlit(" IS NOT NULL");
    assert(term::number(0).text =~= seq!['0']) by {
        reveal_with_fuel(text::decimal, 2);
    }
    assert(own_columns(slot).text =~= "?"@ + text::decimal(slot) + ", 0, NULL"@);
}

proof fn lemma_parent_text()
    ensures
        parent_columns().text == r"b.parent_id, g.dist + 1,
           CASE WHEN g.cutoff IS NULL OR b.forked_at < g.cutoff
                THEN b.forked_at ELSE g.cutoff END"@,
{
    lemma_columns_text(0);
    reveal(parent_columns);
    reveal_strlit(
        r"b.parent_id, g.dist + 1,
           CASE WHEN g.cutoff IS NULL OR b.forked_at < g.cutoff
                THEN b.forked_at ELSE g.cutoff END",
    );
    reveal_strlit("g.cutoff IS NULL OR b.forked_at < g.cutoff");
    reveal_strlit("parent_id");
    reveal_strlit("forked_at");
    reveal_strlit("dist");
    reveal_strlit("cutoff");
    reveal_strlit("b");
    reveal_strlit("g");
    reveal_strlit(".");
    reveal_strlit(",");
    reveal_strlit(" + 1");
    reveal_strlit("CASE WHEN ");
    reveal_strlit("THEN ");
    reveal_strlit(" ELSE ");
    reveal_strlit(" END");
}

/// The climb is written as its query is.
pub proof fn lemma_climbed_text(slot: nat, tag: Seq<char>)
    ensures
        lineage_sql::ancestry_cte_text(slot, tag) == climbed(slot, tag).text,
{
    lemma_columns_text(slot);
    lemma_parent_text();
    lemma_climbed_pieces(tag, text::decimal(slot));
}

#[verifier::rlimit(60)]
proof fn lemma_climbed_pieces(tag: Seq<char>, at: Seq<char>)
    ensures
        "lineage"@ + tag + r"(branch_id, dist, cutoff) AS (
    SELECT ?"@ + at + r", 0, NULL
    UNION ALL
    SELECT b.parent_id, g.dist + 1,
           CASE WHEN g.cutoff IS NULL OR b.forked_at < g.cutoff
                THEN b.forked_at ELSE g.cutoff END
    FROM branches b JOIN lineage"@ + tag + r" g ON b.branch_id = g.branch_id
    WHERE b.parent_id IS NOT NULL
)"@ == "lineage"@ + tag + "("@ + "branch_id, dist, cutoff"@ + ") AS ("@ + Gap::Line(4).text() + ("SELECT "@ + ("?"@ + at
            + ", 0, NULL"@)) + Gap::Line(4).text() + "UNION ALL"@ + Gap::Line(4).text() + ("SELECT "@
            + r"b.parent_id, g.dist + 1,
           CASE WHEN g.cutoff IS NULL OR b.forked_at < g.cutoff
                THEN b.forked_at ELSE g.cutoff END"@ + Gap::Line(4).text() + "FROM "@ + ("branches"@ + " "@ + "b"@
            + Gap::Blank.text() + "JOIN "@ + ("lineage"@ + tag) + " "@ + "g"@ + " ON "@ + "b.branch_id = g.branch_id"@)
            + Gap::Line(4).text() + "WHERE "@ + "b.parent_id IS NOT NULL"@) + Gap::Line(0).text() + ")"@,
{
    reveal_strlit(r"(branch_id, dist, cutoff) AS (
    SELECT ?");
    reveal_strlit(
        r", 0, NULL
    UNION ALL
    SELECT b.parent_id, g.dist + 1,
           CASE WHEN g.cutoff IS NULL OR b.forked_at < g.cutoff
                THEN b.forked_at ELSE g.cutoff END
    FROM branches b JOIN lineage",
    );
    reveal_strlit(r" g ON b.branch_id = g.branch_id
    WHERE b.parent_id IS NOT NULL
)");
    reveal_strlit("(");
    reveal_strlit("branch_id, dist, cutoff");
    reveal_strlit(") AS (");
    reveal_strlit("SELECT ");
    reveal_strlit("?");
    reveal_strlit(", 0, NULL");
    reveal_strlit("UNION ALL");
    reveal_strlit(
        r"b.parent_id, g.dist + 1,
           CASE WHEN g.cutoff IS NULL OR b.forked_at < g.cutoff
                THEN b.forked_at ELSE g.cutoff END",
    );
    reveal_strlit("FROM ");
    reveal_strlit("branches");
    reveal_strlit(" ");
    reveal_strlit("b");
    reveal_strlit("JOIN ");
    reveal_strlit("lineage");
    reveal_strlit("g");
    reveal_strlit(" ON ");
    reveal_strlit("b.branch_id = g.branch_id");
    reveal_strlit("WHERE ");
    reveal_strlit("b.parent_id IS NOT NULL");
    reveal_strlit(")");
}

/// The branches that are registered.
pub open spec fn branches(w: World) -> Seq<Row> {
    w.rows("branches"@)
}

/// Whether branches go by one text each, and where each forked is a text.
pub open spec fn are_branches(rows: Seq<Row>) -> bool {
    &&& forall|i: int|
        0 <= i < rows.len() ==> (#[trigger] rows[i])("branch_id"@) is Text && (rows[i]("parent_id"@) is Null || (rows[i](
            "parent_id"@,
        ) is Text && rows[i]("forked_at"@) is Text))
    &&& forall|i: int, j: int|
        0 <= i < j < rows.len() ==> (#[trigger] rows[i])("branch_id"@) != (#[trigger] rows[j])("branch_id"@)
}

/// Whether `row` is the parent of the lineage `g` by the branch `b`: one further
/// away, and cut where `b` forked or where `g` is cut, whichever is earlier.
pub open spec fn is_parent(g: Row, b: Row, row: Row) -> bool {
    &&& b("branch_id"@) == g("branch_id"@)
    &&& !(b("parent_id"@) is Null)
    &&& row("branch_id"@) == b("parent_id"@)
    &&& g("dist"@) matches SqlView::Integer(d) && row("dist"@) == SqlView::Integer((d + 1) as i64)
    &&& row("cutoff"@) == (if g("cutoff"@) is Null || term::before(b("forked_at"@), g("cutoff"@)) {
        b("forked_at"@)
    } else {
        g("cutoff"@)
    })
}

/// Whether a lineage has no parent.
pub open spec fn is_root(rows: Seq<Row>, g: Row) -> bool {
    forall|i: int|
        0 <= i < rows.len() && (#[trigger] rows[i])("branch_id"@) == g("branch_id"@) ==> rows[i]("parent_id"@) is Null
}

/// Whether a lineage is the parent of another by one of the branches.
pub open spec fn is_next(rows: Seq<Row>, g: Row, row: Row) -> bool {
    exists|i: int| 0 <= i < rows.len() && is_parent(g, #[trigger] rows[i], row)
}

/// What one step up says of two rows.
proof fn lemma_step(w: World, b: Row, g: Row)
    ensures
        ({
            let s = query::paired(w, b, "g"@, g);
            &&& its_branch().of(s) <==> term::equal(b("branch_id"@), g("branch_id"@))
            &&& has_parent().of(s) <==> !(b("parent_id"@) is Null)
            &&& parent_columns().of(s)("branch_id"@) == b("parent_id"@)
            &&& g("dist"@) matches SqlView::Integer(d) ==> parent_columns().of(s)("dist"@) == SqlView::Integer(
                (d + 1) as i64,
            )
            &&& parent_columns().of(s)("cutoff"@) == (if g("cutoff"@) is Null || (!(b("forked_at"@) is Null)
                && term::before(b("forked_at"@), g("cutoff"@))) {
                b("forked_at"@)
            } else {
                g("cutoff"@)
            })
        }),
{
    reveal(its_branch);
    reveal(has_parent);
    reveal(parent_columns);
    reveal(forked_first);
    names::lemma_aliases();
    names::lemma_columns();
    let s = query::paired(w, b, "g"@, g);
    assert(s.read("b"@, "branch_id"@) == b("branch_id"@));
    assert(s.read("b"@, "parent_id"@) == b("parent_id"@));
    assert(s.read("b"@, "forked_at"@) == b("forked_at"@));
    assert(s.read("g"@, "branch_id"@) == g("branch_id"@));
    assert(s.read("g"@, "dist"@) == g("dist"@));
    assert(s.read("g"@, "cutoff"@) == g("cutoff"@));
    assert(forked_first().of(s) <==> g("cutoff"@) is Null || (!(b("forked_at"@) is Null) && !(g("cutoff"@) is Null)
        && term::before(b("forked_at"@), g("cutoff"@))));
}

/// One level of the climb is one lineage, or none.
proof fn lemma_level(w: World, tag: Seq<char>, g: Row, d: nat, up: Seq<Row>)
    requires
        are_branches(branches(w)),
        g("branch_id"@) is Text,
        g("dist"@) == SqlView::Integer(d as i64),
        step_up(tag).answers(w.with("lineage"@ + tag, seq![g]), up),
    ensures
        up.len() <= 1,
        up.len() == 0 ==> is_root(branches(w), g),
        up.len() == 1 ==> is_next(branches(w), g, up[0]) && up[0]("branch_id"@) is Text,
{
    let name = "lineage"@ + tag;
    let x = w.with(name, seq![g]);
    reveal_strlit("lineage");
    reveal_strlit("branches");
    assert("branches"@ != name) by {
        assert("branches"@[0] == 'b');
        assert(name[0] == 'l');
    }
    assert(x.rows("branches"@) == branches(w));
    assert(x.rows(name) == seq![g]);
    let rows = branches(w);
    let pairs = query::lemma_select_join(
        parent_columns(),
        Gap::Line(4),
        query::table_as("branches"@, "b"@),
        "branches"@,
        Gap::Blank,
        " "@,
        name,
        "g"@,
        its_branch(),
        Gap::Line(4),
        has_parent(),
        x,
        up,
    );
    assert forall|k: int| 0 <= k < up.len() implies (#[trigger] pairs[k]).1 == 0 && is_parent(
        g,
        rows[pairs[k].0],
        up[k],
    ) by {
        lemma_step(x, rows[pairs[k].0], seq![g][pairs[k].1]);
    }
    if up.len() > 1 {
        let (i, j) = (pairs[0].0, pairs[1].0);
        assert(pairs[0] != pairs[1]);
        assert(pairs[0].1 == 0 && pairs[1].1 == 0);
        assert(i != j);
        if i < j {
            assert(rows[i]("branch_id"@) != rows[j]("branch_id"@));
        } else {
            assert(rows[j]("branch_id"@) != rows[i]("branch_id"@));
        }
    }
    if up.len() == 0 {
        assert forall|i: int| 0 <= i < rows.len() && (#[trigger] rows[i])("branch_id"@) == g(
            "branch_id"@,
        ) implies rows[i]("parent_id"@) is Null by {
            lemma_step(x, rows[i], seq![g][0]);
            if !(rows[i]("parent_id"@) is Null) {
                assert(query::is_among(pairs, i, 0));
            }
        }
    } else {
        assert(is_parent(g, rows[pairs[0].0], up[0]));
    }
}

/// Whether `out` climbs from a lineage to one without a parent.
pub open spec fn is_climb(rows: Seq<Row>, start: SqlView, out: Seq<Row>) -> bool {
    &&& out.len() > 0
    &&& out[0]("branch_id"@) == start && out[0]("dist"@) == SqlView::Integer(0) && out[0]("cutoff"@) is Null
    &&& forall|n: int| 0 <= n < out.len() - 1 ==> is_next(rows, #[trigger] out[n], out[n + 1])
    &&& is_root(rows, out.last())
}

/// The rows of the levels up to one.
proof fn lemma_flat(levels: Seq<Seq<Row>>, n: int)
    requires
        0 <= n <= levels.len(),
        forall|k: int| 0 <= k < n ==> (#[trigger] levels[k]).len() == 1,
    ensures
        query::flat(levels.take(n)).len() == n,
        forall|k: int| 0 <= k < n ==> #[trigger] query::flat(levels.take(n))[k] == levels[k][0],
    decreases n,
{
    if n > 0 {
        lemma_flat(levels, n - 1);
        assert(levels.take(n).drop_last() =~= levels.take(n - 1));
        assert(levels.take(n).last() == levels[n - 1]);
    }
}

/// Every level but the last is one lineage, further up than the one before.
proof fn lemma_levels(w: World, slot: nat, tag: Seq<char>, levels: Seq<Seq<Row>>, n: int)
    requires
        are_branches(branches(w)),
        w.bound[slot - 1] is Text,
        levels.len() <= i64::MAX,
        query::climbs(query::single(own_columns(slot)), step_up(tag), "lineage"@ + tag, w, levels),
        0 <= n < levels.len() - 1,
        forall|k: int| 0 <= k < n ==> (#[trigger] levels[k]).len() == 1,
        n > 0 ==> levels[n].len() == 1,
    ensures
        levels[n].len() == 1,
        levels[n][0]("branch_id"@) is Text,
        levels[n][0]("dist"@) == SqlView::Integer(n as i64),
    decreases n,
{
    if n == 0 {
        reveal(own_columns);
        names::lemma_columns();
    } else {
        lemma_levels(w, slot, tag, levels, n - 1);
        let g = levels[n - 1][0];
        assert(levels[n - 1] =~= seq![g]);
        assert(step_up(tag).answers(w.with("lineage"@ + tag, levels[n - 1]), levels[n - 1 + 1]));
        lemma_level(w, tag, g, (n - 1) as nat, levels[n]);
        let b = choose|i: int| 0 <= i < branches(w).len() && is_parent(g, #[trigger] branches(w)[i], levels[n][0]);
    }
}

/// The first level without a lineage is the last.
proof fn lemma_end(w: World, slot: nat, tag: Seq<char>, levels: Seq<Seq<Row>>, n: int) -> (end: int)
    requires
        are_branches(branches(w)),
        w.bound[slot - 1] is Text,
        levels.len() <= i64::MAX,
        query::climbs(query::single(own_columns(slot)), step_up(tag), "lineage"@ + tag, w, levels),
        1 <= n < levels.len(),
        forall|k: int| 0 <= k < n ==> (#[trigger] levels[k]).len() == 1,
    ensures
        1 <= end < levels.len(),
        forall|k: int| 0 <= k < end ==> (#[trigger] levels[k]).len() == 1,
        levels[end].len() == 0,
    decreases levels.len() - n,
{
    if levels[n].len() == 0 {
        n
    } else {
        lemma_levels(w, slot, tag, levels, n - 1);
        let g = levels[n - 1][0];
        assert(levels[n - 1] =~= seq![g]);
        assert(step_up(tag).answers(w.with("lineage"@ + tag, levels[n - 1]), levels[n - 1 + 1]));
        lemma_level(w, tag, g, (n - 1) as nat, levels[n]);
        assert(n < levels.len() - 1);
        lemma_end(w, slot, tag, levels, n + 1)
    }
}

/// Nothing comes of nothing.
proof fn lemma_nothing_above(w: World, slot: nat, tag: Seq<char>, levels: Seq<Seq<Row>>, end: int, n: int)
    requires
        query::climbs(query::single(own_columns(slot)), step_up(tag), "lineage"@ + tag, w, levels),
        0 <= end <= n < levels.len(),
        levels[end].len() == 0,
    ensures
        levels[n].len() == 0,
    decreases n,
{
    if end < n {
        lemma_nothing_above(w, slot, tag, levels, end, n - 1);
        let name = "lineage"@ + tag;
        let x = w.with(name, levels[n - 1]);
        assert(step_up(tag).answers(w.with(name, levels[n - 1]), levels[n - 1 + 1]));
        let pairs = query::lemma_select_join(
            parent_columns(),
            Gap::Line(4),
            query::table_as("branches"@, "b"@),
            "branches"@,
            Gap::Blank,
            " "@,
            name,
            "g"@,
            its_branch(),
            Gap::Line(4),
            has_parent(),
            x,
            levels[n],
        );
        if levels[n].len() > 0 {
            let p = pairs[0];
            assert(x.rows(name) == levels[n - 1]);
            assert(0 <= p.1 < levels[n - 1].len());
        }
    }
}

proof fn lemma_flat_ends(levels: Seq<Seq<Row>>, end: int)
    requires
        0 <= end <= levels.len(),
        forall|k: int| end <= k < levels.len() ==> (#[trigger] levels[k]).len() == 0,
    ensures
        query::flat(levels) == query::flat(levels.take(end)),
    decreases levels.len(),
{
    if end < levels.len() {
        let rest = levels.drop_last();
        assert forall|k: int| end <= k < rest.len() implies (#[trigger] rest[k]).len() == 0 by {
            assert(rest[k] == levels[k]);
        }
        lemma_flat_ends(rest, end);
        assert(rest.take(end) =~= levels.take(end));
        assert(levels[levels.len() - 1].len() == 0);
        assert(query::flat(levels) =~= query::flat(rest));
    } else {
        assert(levels.take(end) =~= levels);
    }
}

/// The engine's own climb begins with the reader's lineage, uncut, and goes up from
/// each lineage to its parent, one further away, until one has none. A parent is
/// seen up to where its child forked, and no further than its child is.
pub proof fn law_the_climb_goes_up_to_the_root(
    slot: nat,
    tag: Seq<char>,
    w: World,
    levels: Seq<Seq<Row>>,
    out: Seq<Row>,
)
    requires
        are_branches(branches(w)),
        w.bound[slot - 1] is Text,
        levels.len() <= i64::MAX,
        query::climbs_to(query::single(own_columns(slot)), step_up(tag), "lineage"@ + tag, w, levels, out),
    ensures
        lineage_sql::ancestry_cte_text(slot, tag) == climbed(slot, tag).text,
        climbed(slot, tag).query.answers(w, out),
        is_climb(branches(w), w.bound[slot - 1], out),
{
    lemma_climbed_text(slot, tag);
    let base = query::single(own_columns(slot));
    assert(levels[0] == seq![own_columns(slot).of(w.nowhere())]);
    assert(levels.len() > 1);
    let end = lemma_end(w, slot, tag, levels, 1);
    assert forall|k: int| end <= k < levels.len() implies (#[trigger] levels[k]).len() == 0 by {
        lemma_nothing_above(w, slot, tag, levels, end, k);
    }
    lemma_flat_ends(levels, end);
    lemma_flat(levels, end);
    assert(out.len() == end);
    assert(out[0] == levels[0][0]);
    assert(own_columns(slot).of(w.nowhere())("branch_id"@) == w.bound[slot - 1] && own_columns(slot).of(w.nowhere())(
        "dist"@,
    ) == SqlView::Integer(0) && own_columns(slot).of(w.nowhere())("cutoff"@) is Null) by {
        reveal(own_columns);
        names::lemma_columns();
    }
    assert forall|n: int| 0 <= n < out.len() - 1 implies is_next(branches(w), #[trigger] out[n], out[n + 1]) by {
        lemma_levels(w, slot, tag, levels, n);
        let g = levels[n][0];
        assert(levels[n] =~= seq![g]);
        assert(step_up(tag).answers(w.with("lineage"@ + tag, levels[n]), levels[n + 1]));
        assert(levels[n + 1].len() == 1);
        lemma_level(w, tag, g, n as nat, levels[n + 1]);
        assert(out[n] == levels[n][0] && out[n + 1] == levels[n + 1][0]);
    }
    lemma_levels(w, slot, tag, levels, end - 1);
    let g = levels[end - 1][0];
    assert(levels[end - 1] =~= seq![g]);
    assert(step_up(tag).answers(w.with("lineage"@ + tag, levels[end - 1]), levels[end - 1 + 1]));
    lemma_level(w, tag, g, (end - 1) as nat, levels[end]);
    assert(out[end - 1] == g);
}

/// One entry of an ancestry that is bound.
pub open spec fn entry(first: nat) -> Seq<char> {
    "("@ + term::slot(first).text + ", "@ + term::slot(first + 1).text + ", "@ + term::slot(first + 2).text + ")"@
}

/// The entries of an ancestry that is bound, one after the other.
pub open spec fn entries(n: nat, first: nat) -> Seq<char>
    decreases n,
{
    if n == 0 {
        Seq::empty()
    } else if n == 1 {
        entry(first)
    } else {
        entries((n - 1) as nat, first) + ", "@ + entry((first + 3 * (n - 1)) as nat)
    }
}

/// Whether a row holds what is bound in three slots.
pub open spec fn holds_entry(w: World, first: nat, row: Row) -> bool {
    &&& row("branch_id"@) == term::slot(first).of(w.nowhere())
    &&& row("dist"@) == term::slot(first + 1).of(w.nowhere())
    &&& row("cutoff"@) == term::slot(first + 2).of(w.nowhere())
}

/// An ancestry that is bound.
pub open spec fn bound_ancestry(n: nat, first: nat) -> Query {
    Query {
        text: "VALUES "@ + entries(n, first),
        header: "branch_id"@ + ", "@ + "dist"@ + ", "@ + "cutoff"@,
        names: seq!["branch_id"@, "dist"@, "cutoff"@],
        gives: |w: World, out: Seq<Row>|
            out.len() == n && forall|k: int|
                0 <= k < n ==> holds_entry(w, (first + 3 * k) as nat, #[trigger] out[k]),
    }
}

/// An ancestry that is bound, under its name.
pub open spec fn bound_named(n: nat, first: nat, tag: Seq<char>) -> Named {
    query::named("lineage"@ + tag, ""@, Gap::Tight, bound_ancestry(n, first), Gap::Tight)
}

proof fn lemma_entries_text(n: nat, first: nat)
    ensures
        entries(n, first) == lineage_sql::ancestry_slots(n, first),
        entry(first) == lineage_sql::ancestor_slots(first),
    decreases n,
{
    reveal_strlit("(?");
    reveal_strlit(", ?");
    reveal_strlit("(");
    reveal_strlit("?");
    reveal_strlit(", ");
    assert(entry(first) =~= lineage_sql::ancestor_slots(first));
    if n > 1 {
        lemma_entries_text((n - 1) as nat, first);
        let last = (first + 3 * (n - 1)) as nat;
        assert(entry(last) =~= lineage_sql::ancestor_slots(last));
    }
}

/// An ancestry that is bound is written as its query is.
pub proof fn lemma_bound_text(n: nat, first: nat, tag: Seq<char>)
    ensures
        lineage_sql::ancestry_values_text(n, first, tag) == bound_named(n, first, tag).text,
{
    lemma_entries_text(n, first);
    reveal_strlit("(branch_id, dist, cutoff) AS (VALUES ");
    reveal_strlit("VALUES ");
    reveal_strlit("branch_id");
    reveal_strlit("dist");
    reveal_strlit("cutoff");
    reveal_strlit(", ");
    reveal_strlit("(");
    reveal_strlit(")");
    reveal_strlit(") AS");
    reveal_strlit(" (");
    reveal_strlit("");
    let list = entries(n, first);
    assert(lineage_sql::ancestry_values_text(n, first, tag) =~= bound_named(n, first, tag).text);
}

/// Where the values of an entry stand among those of an ancestry.
/// An ancestry takes three values for each lineage.
pub proof fn lemma_ancestry_len(list: Seq<AncestorView>)
    ensures
        lineage_sql::ancestry_row(list).len() == 3 * list.len(),
{
    if list.len() > 0 {
        lemma_ancestry_row(list, 0);
    }
}

proof fn lemma_ancestry_row(list: Seq<AncestorView>, k: int)
    requires
        0 <= k < list.len(),
    ensures
        lineage_sql::ancestry_row(list).len() == 3 * list.len(),
        lineage_sql::ancestry_row(list)[3 * k] == SqlView::Text(list[k].branch_id),
        lineage_sql::ancestry_row(list)[3 * k + 1] == SqlView::Integer(list[k].dist as i64),
        lineage_sql::ancestry_row(list)[3 * k + 2] == sql::nullable(list[k].cutoff),
    decreases list.len(),
{
    let rest = list.drop_last();
    if rest.len() == 0 {
        assert(lineage_sql::ancestry_row(rest).len() == 0);
    } else {
        lemma_ancestry_row(rest, if k < rest.len() { k } else { 0 });
    }
}

/// An ancestry that was resolved already is read as it was bound: each lineage with
/// how far away it is and where it is cut.
pub proof fn law_a_bound_ancestry_is_read_as_it_is(
    list: Seq<AncestorView>,
    first: nat,
    tag: Seq<char>,
    w: World,
    out: Seq<Row>,
)
    requires
        0 < first,
        first - 1 + 3 * list.len() <= w.bound.len(),
        w.bound.subrange(first - 1, first - 1 + 3 * list.len()) == lineage_sql::ancestry_row(list),
        bound_ancestry(list.len(), first).answers(w, out),
    ensures
        lineage_sql::ancestry_values_text(list.len(), first, tag) == bound_named(list.len(), first, tag).text,
        out.len() == list.len(),
        forall|k: int|
            0 <= k < out.len() ==> (#[trigger] out[k])("branch_id"@) == SqlView::Text(list[k].branch_id) && out[k](
                "dist"@,
            ) == SqlView::Integer(list[k].dist as i64) && out[k]("cutoff"@) == sql::nullable(list[k].cutoff),
{
    lemma_bound_text(list.len(), first, tag);
    let part = w.bound.subrange(first - 1, first - 1 + 3 * list.len());
    assert forall|k: int| 0 <= k < out.len() implies (#[trigger] out[k])("branch_id"@) == SqlView::Text(
        list[k].branch_id,
    ) && out[k]("dist"@) == SqlView::Integer(list[k].dist as i64) && out[k]("cutoff"@) == sql::nullable(
        list[k].cutoff,
    ) by {
        lemma_ancestry_row(list, k);
        assert(holds_entry(w, (first + 3 * k) as nat, out[k]));
        assert(part[3 * k] == w.bound[first - 1 + 3 * k]);
        assert(part[3 * k + 1] == w.bound[first - 1 + 3 * k + 1]);
        assert(part[3 * k + 2] == w.bound[first - 1 + 3 * k + 2]);
    }
}

} // verus!
