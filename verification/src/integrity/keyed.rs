//! Which keys a repair and a shadow derive anew, and how far a chunk goes.

use vstd::prelude::*;
use vstd::utf8::encode_utf8;

use crate::integrity::audited;
use crate::integrity::audited::filled;
use crate::integrity::latest;
use crate::integrity::rebuild;
use crate::integrity::shadow;
use crate::relation::change;
use crate::relation::extreme;
use crate::relation::extreme::stands_in;
use crate::relation::names;
use crate::relation::query;
use crate::relation::query::{Cols, Query, World};
use crate::relation::term;
use crate::relation::term::{Cond, Gap, Row, Scope};
use crate::sql::SqlView;
use crate::text;

verus! {

/// Whether a row has the same values as the row of a scope.
pub open spec fn matches_in(names: Seq<Seq<char>>, s: Scope, r: Row) -> bool {
    forall|n: int|
        0 <= n < names.len() ==> #[trigger] term::equal(s.read(Seq::empty(), names[n]), r(names[n]))
}

/// Whether one of the rows has the same values as the row of a scope.
pub open spec fn one_matches(names: Seq<Seq<char>>, s: Scope, list: Seq<Row>) -> bool {
    exists|k: int| 0 <= k < list.len() && matches_in(names, s, #[trigger] list[k])
}

/// Whether a row is within what a query gave back.
pub open spec fn within(q: Query, gap: Gap, list: Seq<Row>) -> Cond {
    Cond {
        text: "("@ + q.header + ") IN ("@ + gap.text() + q.text + ")"@,
        holds: |s: Scope| Some(one_matches(q.names, s, list)),
        loose: false,
    }
}

/// The columns that tell an edge and its start.
pub open spec fn edge_columns() -> Cols {
    query::also(
        query::also(
            query::also(
                query::one(term::bare("source_id"@), "source_id"@),
                Gap::Blank,
                term::bare("target_id"@),
                "target_id"@,
            ),
            Gap::Blank,
            term::bare("edge_type"@),
            "edge_type"@,
        ),
        Gap::Blank,
        term::bare("valid_from"@),
        "valid_from"@,
    )
}

/// The columns that tell an edge, its start and its lineage.
pub open spec fn key_columns() -> Cols {
    query::also(edge_columns(), Gap::Blank, term::bare("branch_id"@), "branch_id"@)
}

/// The query of the keys in a table.
pub open spec fn listed(keys: Seq<char>) -> Query {
    query::select_all(key_columns(), Gap::Blank, query::table(keys))
}

/// Whether a row tells an edge and its start.
pub open spec fn tells_edge(r: Row) -> bool {
    r("source_id"@) is Text && r("target_id"@) is Text && r("edge_type"@) is Text && r("valid_from"@) is Text
}

/// Whether two rows are of one edge and one start.
pub open spec fn same_edge(a: Row, b: Row) -> bool {
    &&& a("source_id"@) == b("source_id"@)
    &&& a("target_id"@) == b("target_id"@)
    &&& a("edge_type"@) == b("edge_type"@)
    &&& a("valid_from"@) == b("valid_from"@)
}

/// Whether the key of a row is among those of others.
pub open spec fn is_named(keys: Seq<Row>, row: Row) -> bool {
    exists|k: int| 0 <= k < keys.len() && latest::same_key(#[trigger] keys[k], row)
}

/// Whether the edge of a row was asserted at `start` or later.
pub open spec fn is_touched(links: Seq<Row>, start: Seq<char>, row: Row) -> bool {
    exists|k: int|
        0 <= k < links.len() && same_edge(#[trigger] links[k], row) && term::at_most(
            SqlView::Text(start),
            links[k]("recorded_at"@),
        )
}

proof fn lemma_edge_columns()
    ensures
        edge_columns().text == "source_id, target_id, edge_type, valid_from"@,
        edge_columns().header == "source_id, target_id, edge_type, valid_from"@,
        edge_columns().names == seq!["source_id"@, "target_id"@, "edge_type"@, "valid_from"@],
        key_columns().text == "source_id, target_id, edge_type, valid_from, branch_id"@,
        key_columns().header == "source_id, target_id, edge_type, valid_from, branch_id"@,
        key_columns().names == seq!["source_id"@, "target_id"@, "edge_type"@, "valid_from"@, "branch_id"@],
{
    reveal_strlit("source_id, target_id, edge_type, valid_from");
    reveal_strlit("source_id, target_id, edge_type, valid_from, branch_id");
    reveal_strlit("source_id");
    reveal_strlit("target_id");
    reveal_strlit("edge_type");
    reveal_strlit("valid_from");
    reveal_strlit("branch_id");
    reveal_strlit(", ");
    reveal_strlit(",");
    reveal_strlit(" ");
    assert(edge_columns().text =~= "source_id, target_id, edge_type, valid_from"@);
    assert(edge_columns().header =~= "source_id, target_id, edge_type, valid_from"@);
    assert(edge_columns().names =~= seq!["source_id"@, "target_id"@, "edge_type"@, "valid_from"@]);
}

proof fn lemma_edge_columns_show(w: World, row: Row)
    ensures
        same_edge(edge_columns().of(w.over(row)), row),
        latest::same_key(key_columns().of(w.over(row)), row),
{
    names::lemma_columns();
}

/// How the clause of a repair is written.
proof fn lemma_listed_text(keys: Seq<char>, list: Seq<Row>)
    ensures
        within(listed(keys), Gap::Tight, list).text == rebuild::keyed_by_text(keys),
        change::delete_where("links_current"@, within(listed(keys), Gap::Tight, list)).text
            == rebuild::clear_keys_text(keys),
{
    lemma_edge_columns();
    let key = "source_id, target_id, edge_type, valid_from, branch_id"@;
    assert("("@ + key + ") IN ("@ + Gap::Tight.text() + ("SELECT "@ + key + Gap::Blank.text() + "FROM "@ + keys) + ")"@ =~= "("@ + key
        + ") IN (SELECT "@ + key + " FROM "@ + keys + ")"@) by {
        reveal_strlit(") IN (");
        reveal_strlit("SELECT ");
        reveal_strlit(") IN (SELECT ");
        reveal_strlit("FROM ");
        reveal_strlit(" ");
        reveal_strlit(" FROM ");
    }
    assert(listed(keys).text == "SELECT "@ + key + Gap::Blank.text() + "FROM "@ + keys);
    assert(listed(keys).header == key);
    assert("DELETE FROM links_current WHERE "@ =~= "DELETE FROM "@ + "links_current"@ + " WHERE "@) by {
        reveal_strlit("DELETE FROM links_current WHERE ");
        reveal_strlit("DELETE FROM ");
        reveal_strlit("links_current");
        reveal_strlit(" WHERE ");
    }
}

/// The rows of a table are within the keys of another exactly where their keys are.
proof fn lemma_listed(keys: Seq<char>, w: World, list: Seq<Row>, row: Row)
    requires
        listed(keys).answers(w, list),
        tells_edge(row),
        row("branch_id"@) is Text,
    ensures
        latest::admits(within(listed(keys), Gap::Tight, list), w, row) <==> is_named(w.rows(keys), row),
{
    lemma_edge_columns();
    let rows = w.rows(keys);
    let plain = query::select(key_columns(), Gap::Blank, query::table(keys), Gap::Blank, query::everything());
    assert(plain.answers(w, list));
    let of = query::lemma_select_table(
        key_columns(),
        Gap::Blank,
        query::table(keys),
        keys,
        Gap::Blank,
        query::everything(),
        w,
        list,
    );
    let n = listed(keys).names;
    assert(n.len() == 5 && n[0] == "source_id"@ && n[1] == "target_id"@ && n[2] == "edge_type"@ && n[3]
        == "valid_from"@ && n[4] == "branch_id"@);
    let s = w.over(row);
    assert forall|k: int| 0 <= k < list.len() implies (matches_in(n, s, #[trigger] list[k]) <==> latest::same_key(
        list[k],
        row,
    )) by {
        if matches_in(n, s, list[k]) {
            assert(term::equal(s.read(Seq::empty(), n[0]), list[k](n[0])));
            assert(term::equal(s.read(Seq::empty(), n[1]), list[k](n[1])));
            assert(term::equal(s.read(Seq::empty(), n[2]), list[k](n[2])));
            assert(term::equal(s.read(Seq::empty(), n[3]), list[k](n[3])));
            assert(term::equal(s.read(Seq::empty(), n[4]), list[k](n[4])));
        }
    }
    assert forall|k: int| 0 <= k < list.len() implies latest::same_key(#[trigger] list[k], rows[of[k]]) by {
        lemma_edge_columns_show(w, rows[of[k]]);
    }
    if is_named(rows, row) {
        let i = choose|i: int| 0 <= i < rows.len() && latest::same_key(#[trigger] rows[i], row);
        assert(query::everything().of(w.over(rows[i])));
        assert(query::is_one_of(of, i));
        let k = choose|k: int| 0 <= k < of.len() && #[trigger] of[k] == i;
        assert(latest::same_key(list[k], row));
        assert(one_matches(n, s, list));
    }
    if one_matches(n, s, list) {
        let k = choose|k: int| 0 <= k < list.len() && matches_in(n, s, #[trigger] list[k]);
        assert(latest::same_key(rows[of[k]], row));
    }
}

/// A repair clears current belief about the keys in a table and fills it again.
/// What was believed of other keys stays as it was, and of each key of the table
/// that the ledger has, the latest assertion is added, and nothing else.
pub proof fn law_a_repair_derives_its_keys(
    keys: Seq<char>,
    w: World,
    list: Seq<Row>,
    cleared: Seq<Row>,
    after: Seq<Row>,
) -> (r: (Seq<int>, Seq<Row>))
    requires
        keys != "links_current"@,
        listed(keys).answers(w, list),
        change::delete_where("links_current"@, within(listed(keys), Gap::Tight, list)).leaves(w, cleared),
        filled("links_current"@, within(listed(keys), Gap::Tight, list)).leaves(
            w.with("links_current"@, cleared),
            after,
        ),
    ensures
        rebuild::clear_keys_text(keys) == change::delete_where(
            "links_current"@,
            within(listed(keys), Gap::Tight, list),
        ).text,
        rebuild::fill_keys_text(keys) == filled("links_current"@, within(listed(keys), Gap::Tight, list)).text
            + Gap::Line(0).text(),
        change::keeps(w, w.rows("links_current"@), within(listed(keys), Gap::Tight, list), r.0, cleared),
        after == cleared + r.1,
        latest::are_latest(within(listed(keys), Gap::Tight, list), w, r.1),
        forall|row: Row|
            tells_edge(row) && row("branch_id"@) is Text ==> (#[trigger] latest::admits(
                within(listed(keys), Gap::Tight, list),
                w,
                row,
            ) <==> is_named(w.rows(keys), row)),
{
    let clause = within(listed(keys), Gap::Tight, list);
    lemma_listed_text(keys, list);
    audited::lemma_filled_text("links_current"@, clause);
    audited::lemma_current_head();
    assert forall|row: Row| tells_edge(row) && row("branch_id"@) is Text implies (#[trigger] latest::admits(
        clause,
        w,
        row,
    ) <==> is_named(w.rows(keys), row)) by {
        lemma_listed(keys, w, list, row);
    }
    let kept = choose|kept: Seq<int>| #[trigger]
        change::keeps(w, w.rows("links_current"@), clause, kept, cleared);
    let x = w.with("links_current"@, cleared);
    let got = choose|got: Seq<Row>| #[trigger]
        change::adds(latest::projection(clause), x, x.rows("links_current"@), got, after);
    latest::law_projection_keeps_the_latest(clause, x, got);
    reveal_strlit("links");
    reveal_strlit("links_current");
    assert("links"@.len() != "links_current"@.len());
    assert forall|row: Row| #[trigger] latest::admits(clause, x, row) == latest::admits(clause, w, row) by {
        assert(one_matches(listed(keys).names, x.over(row), list) == one_matches(listed(keys).names, w.over(row), list))
            by {
            assert(x.over(row) == w.over(row));
        }
    }
    audited::lemma_same_latest(clause, x, w, got);
    (kept, got)
}

/// Whether an assertion was recorded at the first bound or later.
#[verifier::opaque]
pub open spec fn since() -> Cond {
    term::ge(term::bare("recorded_at"@), term::slot(1))
}

/// The query of the edges that were asserted again.
pub open spec fn touched() -> Query {
    query::select(edge_columns(), Gap::Blank, query::table("links"@), Gap::Blank, since())
}

proof fn lemma_touched_text(list: Seq<Row>)
    ensures
        within(touched(), Gap::Blank, list).text == shadow::TOUCHED_CLAUSE@,
{
    lemma_edge_columns();
    reveal(since);
    reveal_with_fuel(text::decimal, 2);
    reveal_strlit(
        "(source_id, target_id, edge_type, valid_from) IN ( SELECT source_id, target_id, edge_type, valid_from FROM links WHERE recorded_at >= ?1)",
    );
    reveal_strlit("source_id, target_id, edge_type, valid_from");
    reveal_strlit("(");
    reveal_strlit(") IN (");
    reveal_strlit(" ");
    reveal_strlit("SELECT ");
    reveal_strlit("FROM ");
    reveal_strlit("links");
    reveal_strlit("WHERE ");
    reveal_strlit("recorded_at");
    reveal_strlit(">=");
    reveal_strlit("?");
    reveal_strlit(")");
    assert(within(touched(), Gap::Blank, list).text =~= shadow::TOUCHED_CLAUSE@);
}

proof fn lemma_touched(start: Seq<char>, w: World, list: Seq<Row>, row: Row)
    requires
        w.bound == seq![SqlView::Text(start)],
        touched().answers(w, list),
        tells_edge(row),
    ensures
        latest::admits(within(touched(), Gap::Blank, list), w, row) <==> is_touched(w.rows("links"@), start, row),
{
    lemma_edge_columns();
    let rows = w.rows("links"@);
    let of = query::lemma_select_table(
        edge_columns(),
        Gap::Blank,
        query::table("links"@),
        "links"@,
        Gap::Blank,
        since(),
        w,
        list,
    );
    let n = touched().names;
    assert(n.len() == 4 && n[0] == "source_id"@ && n[1] == "target_id"@ && n[2] == "edge_type"@ && n[3]
        == "valid_from"@);
    let s = w.over(row);
    assert forall|k: int| 0 <= k < list.len() implies (matches_in(n, s, #[trigger] list[k]) <==> same_edge(
        list[k],
        row,
    )) by {
        if matches_in(n, s, list[k]) {
            assert(term::equal(s.read(Seq::empty(), n[0]), list[k](n[0])));
            assert(term::equal(s.read(Seq::empty(), n[1]), list[k](n[1])));
            assert(term::equal(s.read(Seq::empty(), n[2]), list[k](n[2])));
            assert(term::equal(s.read(Seq::empty(), n[3]), list[k](n[3])));
        }
    }
    assert forall|i: int| 0 <= i < rows.len() implies (#[trigger] since().of(w.over(rows[i])) <==> term::at_most(
        SqlView::Text(start),
        rows[i]("recorded_at"@),
    )) by {
        reveal(since);
    }
    assert forall|k: int| 0 <= k < list.len() implies same_edge(#[trigger] list[k], rows[of[k]]) by {
        lemma_edge_columns_show(w, rows[of[k]]);
    }
    if is_touched(rows, start, row) {
        let i = choose|i: int|
            0 <= i < rows.len() && same_edge(#[trigger] rows[i], row) && term::at_most(
                SqlView::Text(start),
                rows[i]("recorded_at"@),
            );
        assert(since().of(w.over(rows[i])));
        assert(query::is_one_of(of, i));
        let k = choose|k: int| 0 <= k < of.len() && #[trigger] of[k] == i;
        assert(same_edge(list[k], row));
        assert(one_matches(n, s, list));
    }
    if one_matches(n, s, list) {
        let k = choose|k: int| 0 <= k < list.len() && matches_in(n, s, #[trigger] list[k]);
        assert(same_edge(rows[of[k]], row));
        assert(since().of(w.over(rows[of[k]])));
    }
}

/// A shadow is caught up with what was asserted from `start` on: the rows of edges
/// that were asserted again leave it, the others stay, and of each key of an edge
/// that was asserted again the latest is added, and nothing else.
pub proof fn law_catching_up_derives_what_was_touched(
    start: Seq<char>,
    w: World,
    list: Seq<Row>,
    dropped: Seq<Row>,
    after: Seq<Row>,
) -> (r: (Seq<int>, Seq<Row>))
    requires
        w.bound == seq![SqlView::Text(start)],
        touched().answers(w, list),
        change::delete_where(shadow::SHADOW_TABLE@, within(touched(), Gap::Blank, list)).leaves(w, dropped),
        filled(shadow::SHADOW_TABLE@, within(touched(), Gap::Blank, list)).leaves(
            w.with(shadow::SHADOW_TABLE@, dropped),
            after,
        ),
    ensures
        shadow::drop_touched_text() == change::delete_where(
            shadow::SHADOW_TABLE@,
            within(touched(), Gap::Blank, list),
        ).text,
        shadow::fill_shadow_text(shadow::TOUCHED_CLAUSE@) == filled(
            shadow::SHADOW_TABLE@,
            within(touched(), Gap::Blank, list),
        ).text + Gap::Line(0).text(),
        change::keeps(w, w.rows(shadow::SHADOW_TABLE@), within(touched(), Gap::Blank, list), r.0, dropped),
        after == dropped + r.1,
        latest::are_latest(within(touched(), Gap::Blank, list), w, r.1),
        forall|row: Row|
            tells_edge(row) ==> (#[trigger] latest::admits(within(touched(), Gap::Blank, list), w, row)
                <==> is_touched(w.rows("links"@), start, row)),
{
    let clause = within(touched(), Gap::Blank, list);
    let name = shadow::SHADOW_TABLE@;
    lemma_touched_text(list);
    audited::lemma_filled_text(name, clause);
    audited::lemma_shadow_text(clause.text);
    assert forall|row: Row| tells_edge(row) implies (#[trigger] latest::admits(clause, w, row) <==> is_touched(
        w.rows("links"@),
        start,
        row,
    )) by {
        lemma_touched(start, w, list, row);
    }
    let kept = choose|kept: Seq<int>| #[trigger] change::keeps(w, w.rows(name), clause, kept, dropped);
    let x = w.with(name, dropped);
    let got = choose|got: Seq<Row>| #[trigger]
        change::adds(latest::projection(clause), x, x.rows(name), got, after);
    latest::law_projection_keeps_the_latest(clause, x, got);
    reveal_strlit("links");
    reveal_strlit("links_current_shadow");
    assert("links"@.len() != name.len());
    assert forall|row: Row| #[trigger] latest::admits(clause, x, row) == latest::admits(clause, w, row) by {
        assert(one_matches(touched().names, x.over(row), list) == one_matches(touched().names, w.over(row), list)) by {
            assert(x.over(row) == w.over(row));
        }
    }
    audited::lemma_same_latest(clause, x, w, got);
    (kept, got)
}

/// Whether a source comes after the first bound.
#[verifier::opaque]
pub open spec fn beyond() -> Cond {
    term::gt(term::bare("source_id"@), term::slot(1))
}

/// The sources after the first bound, once each.
pub open spec fn sources() -> Query {
    query::select_distinct(
        query::one(term::bare("source_id"@), "source_id"@),
        Gap::Blank,
        query::table("links"@),
        Gap::Blank,
        beyond(),
    )
}

/// The first of them.
pub open spec fn next_sources() -> Query {
    query::limited(
        query::ordered(sources(), Gap::Blank, query::rising(term::bare("source_id"@))),
        Gap::Blank,
        term::number(256),
    )
}

/// Reads the last of them.
pub open spec fn chunk_end() -> extreme::Reading {
    extreme::greatest("source_id"@, query::nested(next_sources(), Gap::Blank, Gap::Blank))
}

proof fn lemma_chunk_end_text()
    ensures
        chunk_end().text == shadow::chunk_end_text(),
{
    reveal(beyond);
    let n = text::decimal(256);
    assert(term::slot(1).text =~= "?1"@) by {
        reveal_with_fuel(text::decimal, 2);
        reveal_strlit("?1");
        reveal_strlit("?");
    }
    reveal_strlit(
        "SELECT MAX(source_id) FROM ( SELECT DISTINCT source_id FROM links WHERE source_id > ?1 ORDER BY source_id LIMIT ",
    );
    reveal_strlit(" )");
    reveal_strlit("SELECT MAX(");
    reveal_strlit("source_id");
    reveal_strlit(") FROM ");
    reveal_strlit("(");
    reveal_strlit(" ");
    reveal_strlit("SELECT DISTINCT ");
    reveal_strlit("FROM ");
    reveal_strlit("links");
    reveal_strlit("WHERE ");
    reveal_strlit(">");
    reveal_strlit("?1");
    reveal_strlit("ORDER BY ");
    reveal_strlit("LIMIT ");
    reveal_strlit(")");
    assert(chunk_end().text =~= shadow::chunk_end_text());
}

/// The end of a chunk is nothing where no source is left after `low`. Else it is
/// such a source, and those from there up to it, once each, are at most as many as
/// a chunk takes: so many, or all that are left.
pub proof fn law_a_chunk_takes_the_next_sources(low: Seq<char>, w: World, v: SqlView) -> (next: Seq<Row>)
    requires
        w.bound == seq![SqlView::Text(low)],
        forall|i: int| 0 <= i < w.rows("links"@).len() ==> #[trigger] w.rows("links"@)[i]("source_id"@) is Text,
        chunk_end().reads(w, v),
    ensures
        chunk_end().text == shadow::chunk_end_text(),
        shadow::SOURCES_PER_CHUNK == 256,
        v is Null <==> forall|i: int|
            0 <= i < w.rows("links"@).len() ==> !term::before(
                SqlView::Text(low),
                #[trigger] w.rows("links"@)[i]("source_id"@),
            ),
        !(v is Null) ==> stands_in(w.rows("links"@), "source_id"@, v) && term::before(SqlView::Text(low), v),
        next.len() <= 256,
        forall|k: int, l: int|
            0 <= k < l < next.len() ==> #[trigger] next[k]("source_id"@) != #[trigger] next[l]("source_id"@),
        forall|k: int|
            0 <= k < next.len() ==> stands_in(w.rows("links"@), "source_id"@, #[trigger] next[k]("source_id"@))
                && term::before(SqlView::Text(low), next[k]("source_id"@)) && !term::before(
                v,
                next[k]("source_id"@),
            ),
        forall|i: int|
            0 <= i < w.rows("links"@).len() && term::before(
                SqlView::Text(low),
                #[trigger] w.rows("links"@)[i]("source_id"@),
            ) && !term::before(v, w.rows("links"@)[i]("source_id"@)) ==> stands_in(
                next,
                "source_id"@,
                w.rows("links"@)[i]("source_id"@),
            ),
        next.len() == 256 || forall|i: int|
            0 <= i < w.rows("links"@).len() ==> !term::before(v, #[trigger] w.rows("links"@)[i]("source_id"@))
                || v is Null,
{
    lemma_chunk_end_text();
    let col = "source_id"@;
    let cols = query::one(term::bare(col), col);
    let rows = w.rows("links"@);
    let q = next_sources();
    let scopes = choose|list: Seq<Scope>| #[trigger]
        extreme::tops(query::nested(q, Gap::Blank, Gap::Blank), w, list, col, v);
    let next = choose|sub: Seq<Row>| #[trigger] query::read_from(q, w, sub, scopes);
    let sorted = query::ordered(sources(), Gap::Blank, query::rising(term::bare(col)));
    assert(q.answers(w, next));
    let full = choose|full: Seq<Row>| #[trigger] query::cut(sorted, w, 256, full, next);
    assert(sources().answers(w, full));
    let plain = query::select(cols, Gap::Blank, query::table("links"@), Gap::Blank, beyond());
    let all = choose|all: Seq<Row>| #[trigger] query::is_distinct_of(plain, w, all, full);
    let of = query::lemma_select_table(
        cols,
        Gap::Blank,
        query::table("links"@),
        "links"@,
        Gap::Blank,
        beyond(),
        w,
        all,
    );
    lemma_sources(low, w, all, of);
    lemma_full(low, w, all, full);
    assert(scopes.len() == next.len());
    assert forall|k: int| 0 <= k < next.len() implies #[trigger] term::bare(col).of(scopes[k]) == next[k](col) by {
        assert(scopes[k] == w.over(next[k]));
    }
    assert forall|k: int| 0 <= k < next.len() implies #[trigger] next[k] == full[k] by {}
    assert forall|k: int, l: int| 0 <= k < l < next.len() implies #[trigger] next[k](col) != #[trigger] next[l](
        col,
    ) by {
        assert(full[k](col) != full[l](col));
    }
    lemma_chunk_end(low, w, full, next, scopes, v);
    next
}

/// The sources that come after the bound, as they are read.
proof fn lemma_sources(low: Seq<char>, w: World, all: Seq<Row>, of: Seq<int>)
    requires
        w.bound == seq![SqlView::Text(low)],
        forall|i: int| 0 <= i < w.rows("links"@).len() ==> #[trigger] w.rows("links"@)[i]("source_id"@) is Text,
        query::shows_rows(
            query::one(term::bare("source_id"@), "source_id"@),
            w,
            w.rows("links"@),
            beyond(),
            of,
            all,
        ),
    ensures
        forall|k: int|
            0 <= k < all.len() ==> stands_in(w.rows("links"@), "source_id"@, #[trigger] all[k]("source_id"@))
                && term::before(SqlView::Text(low), all[k]("source_id"@)),
        forall|i: int|
            0 <= i < w.rows("links"@).len() && term::before(
                SqlView::Text(low),
                #[trigger] w.rows("links"@)[i]("source_id"@),
            ) ==> stands_in(all, "source_id"@, w.rows("links"@)[i]("source_id"@)),
{
    reveal(beyond);
    let rows = w.rows("links"@);
    let col = "source_id"@;
    assert forall|i: int| 0 <= i < rows.len() implies (#[trigger] beyond().of(w.over(rows[i])) <==> term::before(
        SqlView::Text(low),
        rows[i](col),
    )) by {
        assert(rows[i](col) is Text);
    }
    assert forall|k: int| 0 <= k < all.len() implies stands_in(rows, col, #[trigger] all[k](col)) && term::before(
        SqlView::Text(low),
        all[k](col),
    ) by {
        assert(0 <= of[k] < rows.len());
        assert(all[k](col) == rows[of[k]](col));
        assert(beyond().of(w.over(rows[of[k]])));
    }
    assert forall|i: int|
        0 <= i < rows.len() && term::before(SqlView::Text(low), #[trigger] rows[i](col)) implies stands_in(
        all,
        col,
        rows[i](col),
    ) by {
        assert(beyond().of(w.over(rows[i])));
        assert(query::is_one_of(of, i));
        let k = choose|k: int| 0 <= k < of.len() && #[trigger] of[k] == i;
        assert(all[k](col) == rows[i](col));
    }
}

/// One of each of them.
proof fn lemma_full(low: Seq<char>, w: World, all: Seq<Row>, full: Seq<Row>)
    requires
        query::is_distinct(seq!["source_id"@], all, full),
        forall|k: int|
            0 <= k < all.len() ==> stands_in(w.rows("links"@), "source_id"@, #[trigger] all[k]("source_id"@))
                && term::before(SqlView::Text(low), all[k]("source_id"@)),
        forall|i: int|
            0 <= i < w.rows("links"@).len() && term::before(
                SqlView::Text(low),
                #[trigger] w.rows("links"@)[i]("source_id"@),
            ) ==> stands_in(all, "source_id"@, w.rows("links"@)[i]("source_id"@)),
    ensures
        forall|k: int|
            0 <= k < full.len() ==> stands_in(w.rows("links"@), "source_id"@, #[trigger] full[k]("source_id"@))
                && term::before(SqlView::Text(low), full[k]("source_id"@)),
        forall|i: int|
            0 <= i < w.rows("links"@).len() && term::before(
                SqlView::Text(low),
                #[trigger] w.rows("links"@)[i]("source_id"@),
            ) ==> stands_in(full, "source_id"@, w.rows("links"@)[i]("source_id"@)),
        forall|k: int, l: int|
            0 <= k < l < full.len() ==> #[trigger] full[k]("source_id"@) != #[trigger] full[l]("source_id"@),
{
    let names = seq!["source_id"@];
    let col = "source_id"@;
    let rows = w.rows("links"@);
    assert(names[0] == col);
    assert forall|a: Row, b: Row| #[trigger] query::same_in(names, a, b) <==> a(col) == b(col) by {
        if query::same_in(names, a, b) {
            assert(a(names[0]) == b(names[0]));
        }
    }
    assert forall|k: int| 0 <= k < full.len() implies stands_in(rows, col, #[trigger] full[k](col)) && term::before(
        SqlView::Text(low),
        full[k](col),
    ) by {
        assert(query::is_like_one(names, all, full[k]));
        let m = choose|m: int| 0 <= m < all.len() && query::same_in(names, #[trigger] all[m], full[k]);
        assert(all[m](col) == full[k](col));
    }
    assert forall|i: int|
        0 <= i < rows.len() && term::before(SqlView::Text(low), #[trigger] rows[i](col)) implies stands_in(
        full,
        col,
        rows[i](col),
    ) by {
        let m = choose|m: int| 0 <= m < all.len() && #[trigger] all[m](col) == rows[i](col);
        assert(query::is_like_one(names, full, all[m]));
        let k = choose|k: int| 0 <= k < full.len() && query::same_in(names, #[trigger] full[k], all[m]);
        assert(full[k](col) == rows[i](col));
    }
    assert forall|k: int, l: int| 0 <= k < l < full.len() implies #[trigger] full[k](col) != #[trigger] full[l](
        col,
    ) by {
        assert(!query::same_in(names, full[k], full[l]));
    }
}

/// The last of the first of them.
proof fn lemma_chunk_end(low: Seq<char>, w: World, full: Seq<Row>, next: Seq<Row>, scopes: Seq<Scope>, v: SqlView)
    requires
        forall|i: int| 0 <= i < w.rows("links"@).len() ==> #[trigger] w.rows("links"@)[i]("source_id"@) is Text,
        forall|k: int|
            0 <= k < full.len() ==> stands_in(w.rows("links"@), "source_id"@, #[trigger] full[k]("source_id"@))
                && term::before(SqlView::Text(low), full[k]("source_id"@)),
        forall|i: int|
            0 <= i < w.rows("links"@).len() && term::before(
                SqlView::Text(low),
                #[trigger] w.rows("links"@)[i]("source_id"@),
            ) ==> stands_in(full, "source_id"@, w.rows("links"@)[i]("source_id"@)),
        forall|k: int, l: int|
            0 <= k < l < full.len() ==> #[trigger] full[k]("source_id"@) != #[trigger] full[l]("source_id"@),
        query::stand(query::rising(term::bare("source_id"@)), w, full),
        next == query::first(full, 256),
        scopes.len() == next.len(),
        forall|k: int|
            0 <= k < next.len() ==> #[trigger] term::bare("source_id"@).of(scopes[k]) == next[k]("source_id"@),
        extreme::is_greatest(scopes, query::everything(), "source_id"@, v),
    ensures
        v is Null <==> forall|i: int|
            0 <= i < w.rows("links"@).len() ==> !term::before(
                SqlView::Text(low),
                #[trigger] w.rows("links"@)[i]("source_id"@),
            ),
        !(v is Null) ==> stands_in(w.rows("links"@), "source_id"@, v) && term::before(SqlView::Text(low), v),
        forall|k: int|
            0 <= k < next.len() ==> stands_in(w.rows("links"@), "source_id"@, #[trigger] next[k]("source_id"@))
                && term::before(SqlView::Text(low), next[k]("source_id"@)) && !term::before(
                v,
                next[k]("source_id"@),
            ),
        forall|i: int|
            0 <= i < w.rows("links"@).len() && term::before(
                SqlView::Text(low),
                #[trigger] w.rows("links"@)[i]("source_id"@),
            ) && !term::before(v, w.rows("links"@)[i]("source_id"@)) ==> stands_in(
                next,
                "source_id"@,
                w.rows("links"@)[i]("source_id"@),
            ),
        next.len() == 256 || forall|i: int|
            0 <= i < w.rows("links"@).len() ==> !term::before(v, #[trigger] w.rows("links"@)[i]("source_id"@))
                || v is Null,
{
    let col = "source_id"@;
    let rows = w.rows("links"@);
    assert forall|k: int| 0 <= k < next.len() implies #[trigger] next[k] == full[k] && next[k](col) is Text by {
        assert(stands_in(rows, col, full[k](col)));
    }
    assert forall|k: int| 0 <= k < scopes.len() implies query::everything().of(#[trigger] scopes[k]) by {}
    if v is Null {
        if next.len() > 0 {
            assert(term::bare(col).of(scopes[0]) is Null);
            assert(next[0](col) is Text);
        }
        assert(full.len() == 0);
    } else {
        let m = choose|m: int| 0 <= m < scopes.len() && query::everything().of(scopes[m]) && term::bare(col).of(
            #[trigger] scopes[m],
        ) == v;
        assert(next[m](col) == v);
        assert(full[m](col) == v);
        assert forall|k: int| 0 <= k < next.len() implies !term::before(v, #[trigger] next[k](col)) by {
            assert(!term::before(v, term::bare(col).of(scopes[k])));
        }
        assert forall|i: int|
            0 <= i < rows.len() && term::before(SqlView::Text(low), #[trigger] rows[i](col)) && !term::before(
                v,
                rows[i](col),
            ) implies stands_in(next, col, rows[i](col)) by {
            let j = choose|j: int| 0 <= j < full.len() && #[trigger] full[j](col) == rows[i](col);
            if j >= next.len() {
                assert(m < j);
                assert(!query::rising(term::bare(col)).puts(w.over(full[j]), w.over(full[m])));
                assert(!term::before(full[j](col), full[m](col)));
                text::lemma_text_lt_total(v->Text_0, rows[i](col)->Text_0);
                assert(full[m](col) != full[j](col));
            }
            assert(next[j](col) == rows[i](col));
        }
        if next.len() != 256 {
            assert(next == full);
            assert forall|i: int| 0 <= i < rows.len() implies !term::before(v, #[trigger] rows[i](col)) by {
                if term::before(v, rows[i](col)) {
                    text::lemma_text_lt_transitive(low, v->Text_0, rows[i](col)->Text_0);
                    let j = choose|j: int| 0 <= j < full.len() && #[trigger] full[j](col) == rows[i](col);
                    assert(!term::before(v, next[j](col)));
                }
            }
        }
    }
}

/// The first chunk begins before every source that has a name, and each other after
/// the source that the one before it ended with.
pub proof fn law_a_chunk_begins_where_the_last_ended(last: Seq<char>, source: Seq<char>)
    requires
        0 < source.len(),
    ensures
        text::text_lt(shadow::low_of(None), source),
        shadow::low_of(Some(last)) == last,
{
    reveal_strlit("");
    let empty = Seq::<char>::empty();
    assert(shadow::low_of(None) =~= empty);
    let (x, y) = (encode_utf8(empty), encode_utf8(source));
    assert(x.len() == 0);
    if y.len() == 0 {
        assert(x =~= y);
        text::lemma_encoding_is_injective(empty, source);
    }
    assert(text::falls_below_at(x, y, 0));
}

/// The last stamp of the edges is one that no edge passes, and there is none where
/// there is no edge.
pub proof fn law_the_last_stamp_is_not_passed(w: World, v: SqlView)
    requires
        forall|i: int| 0 <= i < w.rows("links"@).len() ==> #[trigger] w.rows("links"@)[i]("recorded_at"@) is Text,
        extreme::greatest("recorded_at"@, query::table("links"@)).reads(w, v),
    ensures
        shadow::LAST_STAMP@ == extreme::greatest("recorded_at"@, query::table("links"@)).text,
        v is Null <==> w.rows("links"@).len() == 0,
        !(v is Null) ==> stands_in(w.rows("links"@), "recorded_at"@, v),
        !(v is Null) ==> forall|i: int|
            0 <= i < w.rows("links"@).len() ==> !term::before(v, #[trigger] w.rows("links"@)[i]("recorded_at"@)),
{
    reveal_strlit("SELECT MAX(recorded_at) FROM links");
    reveal_strlit("SELECT MAX(");
    reveal_strlit("recorded_at");
    reveal_strlit(") FROM ");
    reveal_strlit("links");
    assert(shadow::LAST_STAMP@ =~= extreme::greatest("recorded_at"@, query::table("links"@)).text);
    let rows = w.rows("links"@);
    let col = "recorded_at"@;
    let list = choose|list: Seq<Scope>| #[trigger] extreme::tops(query::table("links"@), w, list, col, v);
    assert(list == query::scopes(w, rows));
    assert forall|i: int| 0 <= i < rows.len() implies #[trigger] term::bare(col).of(list[i]) == rows[i](col) by {}
    if v is Null {
        if rows.len() > 0 {
            assert(query::everything().of(list[0]));
            assert(term::bare(col).of(list[0]) is Null);
            assert(rows[0](col) is Text);
        }
    } else {
        let m = choose|m: int| 0 <= m < list.len() && query::everything().of(list[m]) && term::bare(col).of(
            #[trigger] list[m],
        ) == v;
        assert(rows[m](col) == v);
        assert forall|i: int| 0 <= i < rows.len() implies !term::before(v, #[trigger] rows[i](col)) by {
            assert(query::everything().of(list[i]));
            assert(!term::before(v, term::bare(col).of(list[i])));
        }
    }
}

/// What counts current belief counts its rows.
pub proof fn law_current_belief_is_counted(w: World, v: SqlView)
    requires
        extreme::size("links_current"@).reads(w, v),
    ensures
        shadow::COUNT_CURRENT@ == extreme::size("links_current"@).text,
        v matches SqlView::Integer(n) && n == w.rows("links_current"@).len(),
{
    reveal_strlit("SELECT COUNT(*) FROM links_current");
    reveal_strlit("SELECT COUNT(*) FROM ");
    reveal_strlit("links_current");
    assert(shadow::COUNT_CURRENT@ =~= extreme::size("links_current"@).text);
}

} // verus!
