//! What an audit counts, and what a rebuild leaves.

use vstd::prelude::*;

use crate::integrity;
use crate::integrity::audit;
use crate::integrity::latest;
use crate::integrity::rebuild;
use crate::integrity::shadow;
use crate::relation::change;
use crate::relation::change::Change;
use crate::relation::names;
use crate::relation::query;
use crate::relation::query::{Query, World};
use crate::relation::term;
use crate::relation::term::{Cond, Gap, Row, Scope};
use crate::sql::SqlView;
use crate::text;

verus! {

/// Always.
#[verifier::opaque]
pub open spec fn always() -> Cond {
    term::eq(term::number(1), term::number(1))
}

/// Current belief.
pub open spec fn current(w: World) -> Seq<Row> {
    w.rows("links_current"@)
}

/// The query of current belief.
pub open spec fn materialized() -> Query {
    query::select_all(latest::belief_columns(19), Gap::Line(12), query::table("links_current"@))
}

/// Whether `d` holds one of each that are alike of the rows of `a` that none of `b`
/// is like.
pub open spec fn is_except(names: Seq<Seq<char>>, a: Seq<Row>, b: Seq<Row>, d: Seq<Row>) -> bool {
    &&& forall|k: int|
        0 <= k < d.len() ==> #[trigger] query::is_like_one(names, a, d[k]) && !query::is_like_one(names, b, d[k])
    &&& forall|k: int|
        0 <= k < a.len() && !query::is_like_one(names, b, a[k]) ==> #[trigger] query::is_like_one(names, d, a[k])
    &&& forall|k: int, l: int| 0 <= k < l < d.len() ==> !query::same_in(names, #[trigger] d[k], #[trigger] d[l])
}

/// Whether `n` is by how many rows two lists differ.
pub open spec fn is_drift(
    names: Seq<Seq<char>>,
    a: Seq<Row>,
    b: Seq<Row>,
    c: Seq<Row>,
    d: Seq<Row>,
    n: int,
) -> bool {
    is_except(names, a, b, c) && is_except(names, b, a, d) && n == c.len() + d.len()
}

/// Whether an audit may count `n` where current belief reads `a` and the ledger
/// `b`.
pub open spec fn counts(w: World, a: Seq<Row>, b: Seq<Row>, c: Seq<Row>, d: Seq<Row>, n: int) -> bool {
    &&& materialized().answers(w, a)
    &&& latest::projection(always()).answers(w, b)
    &&& is_drift(latest::belief_columns(19).names, a, b, c, d, n)
}

/// The rows of one named list that another does not have, counted.
pub open spec fn excess(a: Seq<char>, b: Seq<char>) -> Seq<char> {
    "(SELECT COUNT(*) FROM ("@ + Gap::Line(16).text() + "SELECT * FROM "@ + a + " EXCEPT SELECT * FROM "@ + b + "))"@
}

/// An audit as it is written.
pub open spec fn audit_written() -> Seq<char> {
    Gap::Line(8).text() + "WITH "@ + "materialized"@ + " AS ("@ + Gap::Line(12).text() + materialized().text + Gap::Line(
        8,
    ).text() + "),"@ + Gap::Line(8).text() + "projection"@ + " AS ("@ + (Gap::Line(4).text() + latest::projection(
        always(),
    ).text + Gap::Line(0).text()) + ")"@ + Gap::Line(8).text() + "SELECT"@ + Gap::Line(12).text() + excess(
        "materialized"@,
        "projection"@,
    ) + Gap::Line(10).text() + "+ "@ + excess("projection"@, "materialized"@) + Gap::Line(4).text()
}

proof fn lemma_always()
    ensures
        always().text == "1 = 1"@,
        forall|s: Scope| #[trigger] always().of(s),
{
    reveal(always);
    reveal_with_fuel(text::decimal, 2);
    reveal_strlit("1 = 1");
    reveal_strlit("=");
    reveal_strlit(" ");
}

proof fn lemma_audit_text()
    ensures
        audit::audit_query_text() == audit_written(),
{
    lemma_always();
    latest::lemma_belief_columns_text(19);
    latest::lemma_projection_text(always());
    let projection = integrity::projection_where_text("1 = 1"@);
    lemma_audit_pieces(projection);
}

proof fn lemma_audit_pieces(projection: Seq<char>)
    ensures
        r"
        WITH materialized AS (
            SELECT source_id, target_id, edge_type, valid_from,
                   valid_to, weight, properties, recorded_at, branch_id
            FROM links_current
        ),
        projection AS ("@ + projection + r")
        SELECT
            (SELECT COUNT(*) FROM (
                SELECT * FROM materialized EXCEPT SELECT * FROM projection))
          + (SELECT COUNT(*) FROM (
                SELECT * FROM projection EXCEPT SELECT * FROM materialized))
    "@ == Gap::Line(8).text() + "WITH "@ + "materialized"@ + " AS ("@ + Gap::Line(12).text() + ("SELECT "@ + (
        "source_id, target_id, edge_type, valid_from,"@ + Gap::Line(19).text()
            + "valid_to, weight, properties, recorded_at, branch_id"@) + Gap::Line(12).text() + "FROM "@
            + "links_current"@) + Gap::Line(8).text() + "),"@ + Gap::Line(8).text() + "projection"@ + " AS ("@
            + projection + ")"@ + Gap::Line(8).text() + "SELECT"@ + Gap::Line(12).text() + excess(
            "materialized"@,
            "projection"@,
        ) + Gap::Line(10).text() + "+ "@ + excess("projection"@, "materialized"@) + Gap::Line(4).text(),
{
    reveal_strlit(
        r"
        WITH materialized AS (
            SELECT source_id, target_id, edge_type, valid_from,
                   valid_to, weight, properties, recorded_at, branch_id
            FROM links_current
        ),
        projection AS (",
    );
    reveal_strlit(
        r")
        SELECT
            (SELECT COUNT(*) FROM (
                SELECT * FROM materialized EXCEPT SELECT * FROM projection))
          + (SELECT COUNT(*) FROM (
                SELECT * FROM projection EXCEPT SELECT * FROM materialized))
    ",
    );
    reveal_strlit("WITH ");
    reveal_strlit("materialized");
    reveal_strlit(" AS (");
    reveal_strlit("SELECT ");
    reveal_strlit("source_id, target_id, edge_type, valid_from,");
    reveal_strlit("valid_to, weight, properties, recorded_at, branch_id");
    reveal_strlit("FROM ");
    reveal_strlit("links_current");
    reveal_strlit("),");
    reveal_strlit("projection");
    reveal_strlit(")");
    reveal_strlit("SELECT");
    reveal_strlit("(SELECT COUNT(*) FROM (");
    reveal_strlit("SELECT * FROM ");
    reveal_strlit(" EXCEPT SELECT * FROM ");
    reveal_strlit("))");
    reveal_strlit("+ ");
}

/// Whether a belief says the same as one of others.
pub open spec fn is_believed(rows: Seq<Row>, row: Row) -> bool {
    exists|i: int| 0 <= i < rows.len() && latest::same_belief(#[trigger] rows[i], row)
}

/// Having the same in every column is saying the same.
proof fn lemma_alike(a: Row, b: Row)
    ensures
        query::same_in(latest::belief_columns(19).names, a, b) <==> latest::same_belief(a, b),
{
    reveal(latest::belief_columns);
    let n = latest::belief_columns(19).names;
    assert(n[0] == "source_id"@ && n[1] == "target_id"@ && n[2] == "edge_type"@ && n[3] == "valid_from"@ && n[4]
        == "valid_to"@ && n[5] == "weight"@ && n[6] == "properties"@ && n[7] == "recorded_at"@ && n[8]
        == "branch_id"@);
    if query::same_in(n, a, b) {
        assert(a(n[0]) == b(n[0]) && a(n[1]) == b(n[1]) && a(n[2]) == b(n[2]) && a(n[3]) == b(n[3]));
        assert(a(n[4]) == b(n[4]) && a(n[5]) == b(n[5]) && a(n[6]) == b(n[6]) && a(n[7]) == b(n[7]) && a(n[8])
            == b(n[8]));
    }
}

/// An audit counts nothing exactly where current belief is what the ledger says:
/// every belief is the latest assertion of its key, and of every key that the
/// ledger has the latest is believed. `b` is what the ledger says, which holds the
/// latest of each key.
pub proof fn law_an_audit_finds_every_drift(
    w: World,
    a: Seq<Row>,
    b: Seq<Row>,
    c: Seq<Row>,
    d: Seq<Row>,
    n: int,
)
    requires
        counts(w, a, b, c, d, n),
    ensures
        audit::audit_query_text() == audit_written(),
        latest::are_latest(always(), w, b),
        n == 0 <==> (forall|i: int| 0 <= i < current(w).len() ==> #[trigger] is_believed(b, current(w)[i])) && (
        forall|i: int| 0 <= i < b.len() ==> #[trigger] is_believed(current(w), b[i])),
{
    lemma_audit_text();
    lemma_always();
    latest::law_projection_keeps_the_latest(always(), w, b);
    let names = latest::belief_columns(19).names;
    let rows = current(w);
    let plain = query::select(
        latest::belief_columns(19),
        Gap::Line(12),
        query::table("links_current"@),
        Gap::Line(12),
        query::everything(),
    );
    assert(plain.answers(w, a));
    let of = query::lemma_select_table(
        latest::belief_columns(19),
        Gap::Line(12),
        query::table("links_current"@),
        "links_current"@,
        Gap::Line(12),
        query::everything(),
        w,
        a,
    );
    assert forall|k: int| 0 <= k < a.len() implies latest::same_belief(#[trigger] a[k], rows[of[k]]) by {
        assert(0 <= of[k] < rows.len());
        latest::lemma_columns_show(19, w, rows[of[k]]);
    }
    assert forall|i: int| 0 <= i < rows.len() implies #[trigger] query::is_one_of(of, i) by {
        assert(query::everything().of(w.over(rows[i])));
    }
    assert forall|row: Row, list: Seq<Row>| #[trigger] query::is_like_one(names, list, row) <==> is_believed(
        list,
        row,
    ) by {
        if query::is_like_one(names, list, row) {
            let k = choose|k: int| 0 <= k < list.len() && query::same_in(names, #[trigger] list[k], row);
            lemma_alike(list[k], row);
            assert(latest::same_belief(list[k], row));
        }
        if is_believed(list, row) {
            let k = choose|k: int| 0 <= k < list.len() && latest::same_belief(#[trigger] list[k], row);
            lemma_alike(list[k], row);
            assert(query::same_in(names, list[k], row));
        }
    }
    assert(c.len() == 0 <==> forall|i: int| 0 <= i < rows.len() ==> #[trigger] is_believed(b, rows[i])) by {
        if c.len() == 0 {
            assert forall|i: int| 0 <= i < rows.len() implies #[trigger] is_believed(b, rows[i]) by {
                assert(query::is_one_of(of, i));
                let k = choose|k: int| 0 <= k < of.len() && #[trigger] of[k] == i;
                assert(!query::is_like_one(names, c, a[k]));
                assert(query::is_like_one(names, b, a[k]));
                assert(is_believed(b, a[k]));
                let m = choose|m: int| 0 <= m < b.len() && latest::same_belief(#[trigger] b[m], a[k]);
                assert(latest::same_belief(b[m], rows[i]));
            }
        } else {
            assert(query::is_like_one(names, a, c[0]));
            assert(is_believed(a, c[0]));
            let k = choose|k: int| 0 <= k < a.len() && latest::same_belief(#[trigger] a[k], c[0]);
            assert(!query::is_like_one(names, b, c[0]));
            assert(0 <= of[k] < rows.len());
            if is_believed(b, rows[of[k]]) {
                let m = choose|m: int| 0 <= m < b.len() && latest::same_belief(#[trigger] b[m], rows[of[k]]);
                assert(latest::same_belief(b[m], c[0]));
                assert(is_believed(b, c[0]));
            }
        }
    }
    assert(d.len() == 0 <==> forall|i: int| 0 <= i < b.len() ==> #[trigger] is_believed(rows, b[i])) by {
        assert forall|row: Row| #[trigger] is_believed(a, row) <==> is_believed(rows, row) by {
            if is_believed(a, row) {
                let k = choose|k: int| 0 <= k < a.len() && latest::same_belief(#[trigger] a[k], row);
                assert(latest::same_belief(rows[of[k]], row));
            }
            if is_believed(rows, row) {
                let i = choose|i: int| 0 <= i < rows.len() && latest::same_belief(#[trigger] rows[i], row);
                assert(query::is_one_of(of, i));
                let k = choose|k: int| 0 <= k < of.len() && #[trigger] of[k] == i;
                assert(latest::same_belief(a[k], row));
            }
        }
        if d.len() == 0 {
            assert forall|i: int| 0 <= i < b.len() implies #[trigger] is_believed(rows, b[i]) by {
                assert(!query::is_like_one(names, d, b[i]));
                assert(query::is_like_one(names, a, b[i]));
                assert(is_believed(a, b[i]));
            }
        } else {
            assert(query::is_like_one(names, b, d[0]));
            assert(is_believed(b, d[0]));
            let k = choose|k: int| 0 <= k < b.len() && latest::same_belief(#[trigger] b[k], d[0]);
            assert(!query::is_like_one(names, a, d[0]));
            if is_believed(rows, b[k]) {
                let m = choose|m: int| 0 <= m < rows.len() && latest::same_belief(#[trigger] rows[m], b[k]);
                assert(latest::same_belief(rows[m], d[0]));
                assert(is_believed(rows, d[0]));
                assert(is_believed(a, d[0]));
            }
        }
    }
}

/// The latest belief among some assertions, added to a table.
pub open spec fn filled(table: Seq<char>, clause: Cond) -> Change {
    change::insert_from(table, Gap::Line(4).text(), latest::projection(clause))
}

/// How a fill is written.
pub proof fn lemma_filled_text(table: Seq<char>, clause: Cond)
    ensures
        filled(table, clause).text + Gap::Line(0).text() == "INSERT INTO "@ + table
            + " (source_id, target_id, edge_type, valid_from, valid_to, weight, properties, recorded_at, branch_id) "@
            + integrity::projection_where_text(clause.text),
{
    latest::lemma_projection_text(clause);
    let q = latest::projection(clause);
    assert(q.header
        == "source_id, target_id, edge_type, valid_from, valid_to, weight, properties, recorded_at, branch_id"@) by {
        reveal(latest::belief_columns);
        reveal_strlit(
            "source_id, target_id, edge_type, valid_from, valid_to, weight, properties, recorded_at, branch_id",
        );
        reveal_strlit("source_id");
        reveal_strlit("target_id");
        reveal_strlit("edge_type");
        reveal_strlit("valid_from");
        reveal_strlit("valid_to");
        reveal_strlit("weight");
        reveal_strlit("properties");
        reveal_strlit("recorded_at");
        reveal_strlit("branch_id");
        reveal_strlit(", ");
    }
    let header = "source_id, target_id, edge_type, valid_from, valid_to, weight, properties, recorded_at, branch_id"@;
    assert(" (source_id, target_id, edge_type, valid_from, valid_to, weight, properties, recorded_at, branch_id) "@
        =~= " ("@ + header + ") "@) by {
        reveal_strlit(
            " (source_id, target_id, edge_type, valid_from, valid_to, weight, properties, recorded_at, branch_id) ",
        );
        reveal_strlit(
            "source_id, target_id, edge_type, valid_from, valid_to, weight, properties, recorded_at, branch_id",
        );
        reveal_strlit(" (");
        reveal_strlit(") ");
    }
    let text = q.text;
    assert("INSERT INTO "@ + table + " ("@ + header + ") "@ + Gap::Line(4).text() + text + Gap::Line(0).text()
        =~= "INSERT INTO "@ + table + (" ("@ + header + ") "@) + (Gap::Line(4).text() + text + Gap::Line(0).text()));
}

/// How a fill of current belief begins.
pub proof fn lemma_current_head()
    ensures
        "INSERT INTO "@ + "links_current"@
        + " (source_id, target_id, edge_type, valid_from, valid_to, weight, properties, recorded_at, branch_id) "@
            == "INSERT INTO links_current (source_id, target_id, edge_type, valid_from, valid_to, weight, properties, recorded_at, branch_id) "@,
{
    reveal_strlit(
        "INSERT INTO links_current (source_id, target_id, edge_type, valid_from, valid_to, weight, properties, recorded_at, branch_id) ",
    );
    reveal_strlit(
        " (source_id, target_id, edge_type, valid_from, valid_to, weight, properties, recorded_at, branch_id) ",
    );
    reveal_strlit("INSERT INTO ");
    reveal_strlit("links_current");
}

/// A rebuild clears current belief and fills it again. What it leaves is, of every
/// key that the ledger has, the latest assertion, and nothing else.
pub proof fn law_a_rebuild_leaves_the_latest(w: World, cleared: Seq<Row>, after: Seq<Row>)
    requires
        change::delete_all("links_current"@).leaves(w, cleared),
        filled("links_current"@, always()).leaves(w.with("links_current"@, cleared), after),
    ensures
        rebuild::CLEAR_CURRENT@ == change::delete_all("links_current"@).text,
        rebuild::fill_current_text() == filled("links_current"@, always()).text + Gap::Line(0).text(),
        latest::are_latest(always(), w, after),
{
    lemma_always();
    lemma_filled_text("links_current"@, always());
    assert(rebuild::CLEAR_CURRENT@ =~= "DELETE FROM "@ + "links_current"@) by {
        reveal_strlit("DELETE FROM links_current");
        reveal_strlit("DELETE FROM ");
        reveal_strlit("links_current");
    }
    lemma_current_head();
    let x = w.with("links_current"@, cleared);
    let q = latest::projection(always());
    let got = choose|got: Seq<Row>| #[trigger]
        change::adds(q, x, x.rows("links_current"@), got, after);
    assert(after =~= got);
    latest::law_projection_keeps_the_latest(always(), x, got);
    reveal_strlit("links");
    reveal_strlit("links_current");
    assert("links"@.len() != "links_current"@.len());
    assert(x.rows("links"@) == w.rows("links"@));
    assert forall|row: Row| #[trigger] latest::admits(always(), x, row) == latest::admits(always(), w, row) by {
        assert(always().of(x.over(row)));
        assert(always().of(w.over(row)));
    }
    lemma_same_latest(always(), x, w, after);
}

/// What is latest rests on the ledger alone.
pub proof fn lemma_same_latest(clause: Cond, x: World, w: World, out: Seq<Row>)
    requires
        x.rows("links"@) == w.rows("links"@),
        forall|row: Row| #[trigger] latest::admits(clause, x, row) == latest::admits(clause, w, row),
        latest::are_latest(clause, x, out),
    ensures
        latest::are_latest(clause, w, out),
{
    assert forall|j: int| 0 <= j < out.len() implies latest::is_latest(clause, w, #[trigger] out[j]) by {
        assert(latest::is_latest(clause, x, out[j]));
        let i = choose|i: int|
            0 <= i < x.rows("links"@).len() && latest::admits(clause, x, #[trigger] x.rows("links"@)[i])
                && latest::same_belief(out[j], x.rows("links"@)[i]);
        assert(latest::admits(clause, w, w.rows("links"@)[i]));
        assert forall|m: int|
            0 <= m < w.rows("links"@).len() && latest::admits(clause, w, #[trigger] w.rows("links"@)[m])
                && latest::same_key(out[j], w.rows("links"@)[m]) implies !term::before(
            out[j]("recorded_at"@),
            w.rows("links"@)[m]("recorded_at"@),
        ) by {
            assert(latest::admits(clause, x, x.rows("links"@)[m]));
        }
    }
    assert forall|i: int|
        0 <= i < w.rows("links"@).len() && latest::admits(clause, w, #[trigger] w.rows("links"@)[i]) implies exists|j:
        int| 0 <= j < out.len() && latest::same_key(#[trigger] out[j], w.rows("links"@)[i]) by {
        assert(latest::admits(clause, x, x.rows("links"@)[i]));
    }
}

/// Whether a row of the ledger is of the sources of a chunk.
#[verifier::opaque]
pub open spec fn of_chunk() -> Cond {
    term::and(
        term::gt(term::bare("source_id"@), term::slot(1)),
        Gap::Blank,
        term::le(term::bare("source_id"@), term::slot(2)),
    )
}

/// Filling a chunk of the shadow adds the latest of each key whose source comes
/// after the first bound and not after the second, and nothing else.
pub proof fn law_a_chunk_fills_its_sources(low: Seq<char>, high: Seq<char>, w: World, after: Seq<Row>) -> (got: Seq<
    Row,
>)
    requires
        w.bound == seq![SqlView::Text(low), SqlView::Text(high)],
        filled(shadow::SHADOW_TABLE@, of_chunk()).leaves(w, after),
    ensures
        shadow::CHUNK_CLAUSE@ == of_chunk().text,
        shadow::fill_shadow_text(shadow::CHUNK_CLAUSE@) == filled(shadow::SHADOW_TABLE@, of_chunk()).text + Gap::Line(
            0,
        ).text(),
        after == w.rows(shadow::SHADOW_TABLE@) + got,
        latest::are_latest(of_chunk(), w, got),
        forall|row: Row|
            row("source_id"@) is Text ==> (#[trigger] latest::admits(of_chunk(), w, row) <==> text::text_lt(
                low,
                row("source_id"@)->Text_0,
            ) && text::text_le(row("source_id"@)->Text_0, high)),
{
    assert(shadow::CHUNK_CLAUSE@ =~= of_chunk().text) by {
        reveal(of_chunk);
        reveal_with_fuel(text::decimal, 2);
        reveal_strlit("source_id > ?1 AND source_id <= ?2");
        reveal_strlit("source_id");
        reveal_strlit("?");
        reveal_strlit(">");
        reveal_strlit("<=");
        reveal_strlit(" ");
        reveal_strlit("AND ");
    }
    lemma_filled_text(shadow::SHADOW_TABLE@, of_chunk());
    lemma_shadow_text(of_chunk().text);
    let q = latest::projection(of_chunk());
    let got = choose|got: Seq<Row>| #[trigger]
        change::adds(q, w, w.rows(shadow::SHADOW_TABLE@), got, after);
    latest::law_projection_keeps_the_latest(of_chunk(), w, got);
    assert forall|row: Row| row("source_id"@) is Text implies (#[trigger] latest::admits(of_chunk(), w, row)
        <==> text::text_lt(low, row("source_id"@)->Text_0) && text::text_le(row("source_id"@)->Text_0, high)) by {
        reveal(of_chunk);
        let s = w.over(row);
        let a = term::gt(term::bare("source_id"@), term::slot(1));
        let b = term::le(term::bare("source_id"@), term::slot(2));
        assert(a.of(s) <==> text::text_lt(low, row("source_id"@)->Text_0));
        assert(b.of(s) <==> text::text_le(row("source_id"@)->Text_0, high));
        assert(of_chunk().of(s) <==> a.of(s) && b.of(s));
    }
    got
}

pub proof fn lemma_shadow_text(clause: Seq<char>)
    ensures
        shadow::fill_shadow_text(clause) == "INSERT INTO "@ + shadow::SHADOW_TABLE@
            + " (source_id, target_id, edge_type, valid_from, valid_to, weight, properties, recorded_at, branch_id) "@
            + integrity::projection_where_text(clause),
{
    let projection = integrity::projection_where_text(clause);
    reveal_strlit(
        " (source_id, target_id, edge_type, valid_from, valid_to, weight, properties, recorded_at, branch_id) ",
    );
    reveal_strlit(
        "(source_id, target_id, edge_type, valid_from, valid_to, weight, properties, recorded_at, branch_id)",
    );
    reveal_strlit(" ");
    assert(" "@ + shadow::SHADOW_COLUMNS@ + " "@
        =~= " (source_id, target_id, edge_type, valid_from, valid_to, weight, properties, recorded_at, branch_id) "@);
    let head = "INSERT INTO "@ + shadow::SHADOW_TABLE@;
    assert(head + " "@ + shadow::SHADOW_COLUMNS@ + " "@ + projection =~= head + (" "@ + shadow::SHADOW_COLUMNS@ + " "@)
        + projection);
}

} // verus!
