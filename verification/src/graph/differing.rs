//! How two lineages differ.

use vstd::prelude::*;

use crate::graph::climbing;
use crate::graph::lineage::AncestorView;
use crate::graph::lineage_sql;
use crate::graph::plan;
use crate::graph::resolved;
use crate::graph::seen;
use crate::relation::names;
use crate::relation::query;
use crate::relation::query::{Cols, Order, Query, Source, World};
use crate::relation::term;
use crate::relation::term::{Cond, Gap, Row, Scope};
use crate::sql::SqlView;

verus! {

/// The columns of an edge of the first lineage.
#[verifier::opaque]
pub open spec fn ours() -> Cols {
    let c1 = query::one(term::column("a"@, "source_id"@), "source_id"@);
    let c2 = query::also(c1, Gap::Blank, term::column("a"@, "target_id"@), "target_id"@);
    let c3 = query::also(c2, Gap::Blank, term::column("a"@, "edge_type"@), "edge_type"@);
    let c4 = query::also(c3, Gap::Blank, term::column("a"@, "valid_from"@), "valid_from"@);
    let c5 = query::also(c4, Gap::Blank, term::column("a"@, "valid_to"@), "valid_to"@);
    let c6 = query::also(c5, Gap::Blank, term::column("a"@, "weight"@), "weight"@);
    query::also(c6, Gap::Blank, term::column("a"@, "branch_id"@), "branch_id"@)
}

/// Whether both are of one edge and one start.
#[verifier::opaque]
pub open spec fn of_one_edge() -> Cond {
    let e1 = term::eq_wide(term::column("b"@, "source_id"@), term::column("a"@, "source_id"@));
    let e2 = term::eq_wide(term::column("b"@, "target_id"@), term::column("a"@, "target_id"@));
    let e3 = term::eq_wide(term::column("b"@, "edge_type"@), term::column("a"@, "edge_type"@));
    let e4 = term::eq(term::column("b"@, "valid_from"@), term::column("a"@, "valid_from"@));
    term::and(term::and(term::and(e1, Gap::Blank, e2), Gap::Blank, e3), Gap::Blank, e4)
}

/// Whether the second lineage has no such edge, or another end or weight of it.
#[verifier::opaque]
pub open spec fn otherwise() -> Cond {
    term::or(
        term::or(
            term::absent(term::column("b"@, "source_id"@)),
            term::differ(term::column("b"@, "valid_to"@), Gap::Blank, term::column("a"@, "valid_to"@)),
        ),
        term::differ(term::column("b"@, "weight"@), Gap::Triple, term::column("a"@, "weight"@)),
    )
}

/// By key.
#[verifier::opaque]
pub open spec fn by_key() -> Order {
    query::thereupon(
        query::thereupon(
            query::thereupon(
                query::rising(term::column("a"@, "source_id"@)),
                query::rising(term::column("a"@, "target_id"@)),
            ),
            query::rising(term::column("a"@, "edge_type"@)),
        ),
        query::rising(term::column("a"@, "valid_from"@)),
    )
}

/// What each lineage sees, side by side.
pub open spec fn side_by_side() -> Source {
    query::left_join(
        query::table_as("visible"@ + "_a"@, "a"@),
        Gap::Blank,
        "visible"@ + "_b"@,
        "b"@,
        of_one_edge(),
    )
}

/// The query of what the first lineage has otherwise than the second.
pub open spec fn difference() -> Query {
    query::ordered(
        query::select(ours(), Gap::Blank, side_by_side(), Gap::Blank, otherwise()),
        Gap::Blank,
        by_key(),
    )
}

/// What the first lineage sees.
pub open spec fn seen_by_a(w: World) -> Seq<Row> {
    w.rows("visible"@ + "_a"@)
}

/// What the second lineage sees.
pub open spec fn seen_by_b(w: World) -> Seq<Row> {
    w.rows("visible"@ + "_b"@)
}

/// Whether rows are of edges: keys by text, an end and a weight, and no key twice.
pub open spec fn are_edges(rows: Seq<Row>) -> bool {
    &&& forall|i: int|
        0 <= i < rows.len() ==> (#[trigger] rows[i])("source_id"@) is Text && rows[i]("target_id"@) is Text && rows[i](
            "edge_type"@,
        ) is Text && rows[i]("valid_from"@) is Text && !(rows[i]("valid_to"@) is Null) && !(rows[i](
            "weight"@,
        ) is Null)
    &&& forall|i: int, j: int|
        0 <= i < j < rows.len() ==> !seen::same_edge(#[trigger] rows[i], #[trigger] rows[j])
}

/// Whether two rows have the same end and the same weight.
pub open spec fn agree(a: Row, b: Row) -> bool {
    term::same(b("valid_to"@), a("valid_to"@)) && term::same(b("weight"@), a("weight"@))
}

/// Whether the second lineage has an edge as the first does.
pub open spec fn is_shared(w: World, row: Row) -> bool {
    exists|j: int|
        0 <= j < seen_by_b(w).len() && seen::same_edge(#[trigger] seen_by_b(w)[j], row) && agree(
            row,
            seen_by_b(w)[j],
        )
}

proof fn lemma_pieces_text()
    ensures
        ours().text == "a.source_id, a.target_id, a.edge_type, a.valid_from, a.valid_to, a.weight, a.branch_id"@,
        of_one_edge().text
            == "b.source_id  = a.source_id AND b.target_id  = a.target_id AND b.edge_type  = a.edge_type AND b.valid_from = a.valid_from"@,
        otherwise().text == "b.source_id IS NULL OR b.valid_to <> a.valid_to OR b.weight   <> a.weight"@,
        by_key().text == "a.source_id, a.target_id, a.edge_type, a.valid_from"@,
{
    reveal(ours);
    reveal(of_one_edge);
    reveal(otherwise);
    reveal(by_key);
    reveal_strlit("a.source_id, a.target_id, a.edge_type, a.valid_from, a.valid_to, a.weight, a.branch_id");
    reveal_strlit(
        "b.source_id  = a.source_id AND b.target_id  = a.target_id AND b.edge_type  = a.edge_type AND b.valid_from = a.valid_from",
    );
    reveal_strlit("b.source_id IS NULL OR b.valid_to <> a.valid_to OR b.weight   <> a.weight");
    reveal_strlit("a.source_id, a.target_id, a.edge_type, a.valid_from");
    reveal_strlit("source_id");
    reveal_strlit("target_id");
    reveal_strlit("edge_type");
    reveal_strlit("valid_from");
    reveal_strlit("valid_to");
    reveal_strlit("weight");
    reveal_strlit("branch_id");
    reveal_strlit("a");
    reveal_strlit("b");
    reveal_strlit(".");
    reveal_strlit("=");
    reveal_strlit("<>");
    reveal_strlit(" ");
    reveal_strlit(",");
    reveal_strlit(", ");
    reveal_strlit("AND ");
    reveal_strlit(" OR ");
    reveal_strlit(" IS NULL");
}

proof fn lemma_difference_text(a: nat, b: nat)
    ensures
        ({
            let (x, y) = (resolved::side(1, "_a"@, a, 3), resolved::side(2, "_b"@, b, 3 + 3 * a));
            resolved::diff_text(a, b) == "WITH RECURSIVE "@ + plan::joined(x.ctes()) + ",\n"@ + plan::joined(y.ctes())
                + Gap::Line(0).text() + difference().text
        }),
{
    lemma_pieces_text();
    let (x, y) = (resolved::side(1, "_a"@, a, 3), resolved::side(2, "_b"@, b, 3 + 3 * a));
    let head = "WITH RECURSIVE "@ + plan::joined(x.ctes()) + ",\n"@ + plan::joined(y.ctes());
    lemma_difference_pieces(head, "visible"@ + "_a"@, "visible"@ + "_b"@);
}

proof fn lemma_difference_pieces(head: Seq<char>, x: Seq<char>, y: Seq<char>)
    ensures
        head
            + "\nSELECT a.source_id, a.target_id, a.edge_type, a.valid_from, a.valid_to, a.weight, a.branch_id FROM "@
            + x + " a LEFT JOIN "@ + y
            + " b ON b.source_id  = a.source_id AND b.target_id  = a.target_id AND b.edge_type  = a.edge_type AND b.valid_from = a.valid_from WHERE b.source_id IS NULL OR b.valid_to <> a.valid_to OR b.weight   <> a.weight ORDER BY a.source_id, a.target_id, a.edge_type, a.valid_from"@
            == head + Gap::Line(0).text() + ("SELECT "@
            + "a.source_id, a.target_id, a.edge_type, a.valid_from, a.valid_to, a.weight, a.branch_id"@
            + Gap::Blank.text() + "FROM "@ + (x + " "@ + "a"@ + Gap::Blank.text() + "LEFT JOIN "@ + y + " "@ + "b"@
            + " ON "@
            + "b.source_id  = a.source_id AND b.target_id  = a.target_id AND b.edge_type  = a.edge_type AND b.valid_from = a.valid_from"@)
            + Gap::Blank.text() + "WHERE "@
            + "b.source_id IS NULL OR b.valid_to <> a.valid_to OR b.weight   <> a.weight"@ + Gap::Blank.text()
            + "ORDER BY "@ + "a.source_id, a.target_id, a.edge_type, a.valid_from"@),
{
    reveal_strlit(
        "\nSELECT a.source_id, a.target_id, a.edge_type, a.valid_from, a.valid_to, a.weight, a.branch_id FROM ",
    );
    reveal_strlit(" a LEFT JOIN ");
    reveal_strlit(
        " b ON b.source_id  = a.source_id AND b.target_id  = a.target_id AND b.edge_type  = a.edge_type AND b.valid_from = a.valid_from WHERE b.source_id IS NULL OR b.valid_to <> a.valid_to OR b.weight   <> a.weight ORDER BY a.source_id, a.target_id, a.edge_type, a.valid_from",
    );
    reveal_strlit("a.source_id, a.target_id, a.edge_type, a.valid_from, a.valid_to, a.weight, a.branch_id");
    reveal_strlit(
        "b.source_id  = a.source_id AND b.target_id  = a.target_id AND b.edge_type  = a.edge_type AND b.valid_from = a.valid_from",
    );
    reveal_strlit("b.source_id IS NULL OR b.valid_to <> a.valid_to OR b.weight   <> a.weight");
    reveal_strlit("a.source_id, a.target_id, a.edge_type, a.valid_from");
    reveal_strlit("a");
    reveal_strlit("b");
    reveal_strlit(" ");
    reveal_strlit("SELECT ");
    reveal_strlit("FROM ");
    reveal_strlit("LEFT JOIN ");
    reveal_strlit(" ON ");
    reveal_strlit("WHERE ");
    reveal_strlit("ORDER BY ");
}

proof fn lemma_scope(w: World, x: Row, y: Row)
    ensures
        ({
            let s = query::paired(w, x, "b"@, y);
            &&& of_one_edge().of(s) <==> term::equal(y("source_id"@), x("source_id"@)) && term::equal(
                y("target_id"@),
                x("target_id"@),
            ) && term::equal(y("edge_type"@), x("edge_type"@)) && term::equal(y("valid_from"@), x("valid_from"@))
            &&& otherwise().of(s) <==> y("source_id"@) is Null || (!(y("valid_to"@) is Null) && !(x("valid_to"@) is Null)
                && !term::same(y("valid_to"@), x("valid_to"@))) || (!(y("weight"@) is Null) && !(x("weight"@) is Null)
                && !term::same(y("weight"@), x("weight"@)))
            &&& seen::same_row(ours().of(s), x, false)
        }),
{
    reveal(of_one_edge);
    reveal(otherwise);
    reveal(ours);
    names::lemma_aliases();
    names::lemma_columns();
    let s = query::paired(w, x, "b"@, y);
    assert(s.read("a"@, "source_id"@) == x("source_id"@) && s.read("b"@, "source_id"@) == y("source_id"@));
    assert(s.read("a"@, "target_id"@) == x("target_id"@) && s.read("b"@, "target_id"@) == y("target_id"@));
    assert(s.read("a"@, "edge_type"@) == x("edge_type"@) && s.read("b"@, "edge_type"@) == y("edge_type"@));
    assert(s.read("a"@, "valid_from"@) == x("valid_from"@) && s.read("b"@, "valid_from"@) == y("valid_from"@));
    assert(s.read("a"@, "valid_to"@) == x("valid_to"@) && s.read("b"@, "valid_to"@) == y("valid_to"@));
    assert(s.read("a"@, "weight"@) == x("weight"@) && s.read("b"@, "weight"@) == y("weight"@));
    assert(s.read("a"@, "branch_id"@) == x("branch_id"@));
    let e1 = term::eq_wide(term::column("b"@, "source_id"@), term::column("a"@, "source_id"@));
    let e2 = term::eq_wide(term::column("b"@, "target_id"@), term::column("a"@, "target_id"@));
    let e3 = term::eq_wide(term::column("b"@, "edge_type"@), term::column("a"@, "edge_type"@));
    let e4 = term::eq(term::column("b"@, "valid_from"@), term::column("a"@, "valid_from"@));
    let a12 = term::and(e1, Gap::Blank, e2);
    let a123 = term::and(a12, Gap::Blank, e3);
    assert(e1.of(s) <==> term::equal(y("source_id"@), x("source_id"@)));
    assert(e2.of(s) <==> term::equal(y("target_id"@), x("target_id"@)));
    assert(e3.of(s) <==> term::equal(y("edge_type"@), x("edge_type"@)));
    assert(e4.of(s) <==> term::equal(y("valid_from"@), x("valid_from"@)));
    assert(a12.of(s) <==> e1.of(s) && e2.of(s));
    assert(a123.of(s) <==> a12.of(s) && e3.of(s));
    let d1 = term::absent(term::column("b"@, "source_id"@));
    let d2 = term::differ(term::column("b"@, "valid_to"@), Gap::Blank, term::column("a"@, "valid_to"@));
    let d3 = term::differ(term::column("b"@, "weight"@), Gap::Triple, term::column("a"@, "weight"@));
    assert(d1.of(s) <==> y("source_id"@) is Null);
    assert(d2.of(s) <==> !(y("valid_to"@) is Null) && !(x("valid_to"@) is Null) && !term::same(
        y("valid_to"@),
        x("valid_to"@),
    ));
    assert(d3.of(s) <==> !(y("weight"@) is Null) && !(x("weight"@) is Null) && !term::same(
        y("weight"@),
        x("weight"@),
    ));
    assert(term::or(d1, d2).of(s) <==> d1.of(s) || d2.of(s));
}

/// A difference gives back, once each, exactly the edges that the first lineage
/// sees and the second does not see with the same end and the same weight.
pub proof fn law_a_difference_is_what_is_not_shared(a: nat, b: nat, w: World, out: Seq<Row>) -> (of: Seq<int>)
    requires
        are_edges(seen_by_a(w)),
        are_edges(seen_by_b(w)),
        difference().answers(w, out),
    ensures
        ({
            let (x, y) = (resolved::side(1, "_a"@, a, 3), resolved::side(2, "_b"@, b, 3 + 3 * a));
            resolved::diff_text(a, b) == "WITH RECURSIVE "@ + plan::joined(x.ctes()) + ",\n"@ + plan::joined(y.ctes())
                + Gap::Line(0).text() + difference().text
        }),
        of.len() == out.len(),
        forall|k: int|
            0 <= k < out.len() ==> 0 <= #[trigger] of[k] < seen_by_a(w).len() && !is_shared(w, seen_by_a(w)[of[k]])
                && seen::same_row(out[k], seen_by_a(w)[of[k]], false),
        forall|k: int, l: int| 0 <= k < l < out.len() ==> #[trigger] of[k] != #[trigger] of[l],
        forall|i: int|
            0 <= i < seen_by_a(w).len() && !is_shared(w, seen_by_a(w)[i]) ==> #[trigger] query::is_one_of(of, i),
{
    lemma_difference_text(a, b);
    let q = query::select(ours(), Gap::Blank, side_by_side(), Gap::Blank, otherwise());
    assert(q.answers(w, out));
    let (list, picked) = choose|list: Seq<Scope>, picked: Seq<int>| #[trigger]
        side_by_side().has(w, list) && #[trigger] query::selects(ours(), list, otherwise(), picked, out);
    let first = query::table_as("visible"@ + "_a"@, "a"@);
    let (xs, ys) = (seen_by_a(w), seen_by_b(w));
    let (base, pairs) = choose|base: Seq<Scope>, pairs: Seq<(int, int)>| #[trigger]
        first.has(w, base) && #[trigger] query::is_left_join(base, ys, "b"@, of_one_edge(), pairs, list);
    assert(base == query::scopes(w, xs));
    lemma_difference_rows(w, base, pairs, list, picked, out)
}

/// What a difference binds are the two lineages, and the ancestry of each where its
/// own side reads it.
pub proof fn law_each_side_reads_its_own_ancestry(
    a: Seq<char>,
    b: Seq<char>,
    above_a: Seq<AncestorView>,
    above_b: Seq<AncestorView>,
)
    ensures
        ({
            let row = resolved::diff_row(a, b, above_a, above_b);
            let (x, y) = (
                resolved::side(1, "_a"@, above_a.len(), 3),
                resolved::side(2, "_b"@, above_b.len(), 3 + 3 * above_a.len()),
            );
            let (i, j) = (x.ancestry_slot - 1, y.ancestry_slot - 1);
            &&& row[x.branch_slot - 1] == SqlView::Text(a)
            &&& row[y.branch_slot - 1] == SqlView::Text(b)
            &&& row.len() == 2 + 3 * above_a.len() + 3 * above_b.len()
            &&& row.subrange(i, i + 3 * x.entries) == lineage_sql::ancestry_row(above_a)
            &&& row.subrange(j, j + 3 * y.entries) == lineage_sql::ancestry_row(above_b)
        }),
{
    climbing::lemma_ancestry_len(above_a);
    climbing::lemma_ancestry_len(above_b);
    let row = resolved::diff_row(a, b, above_a, above_b);
    let (m, n) = (3 * above_a.len() as int, 3 * above_b.len() as int);
    assert(row.subrange(2, 2 + m) =~= lineage_sql::ancestry_row(above_a));
    assert(row.subrange(2 + m, 2 + m + n) =~= lineage_sql::ancestry_row(above_b));
}

/// The row of the second lineage in a pair, nothing where there is none.
spec fn other(ys: Seq<Row>, j: int) -> Row {
    if j < 0 {
        query::nothing()
    } else {
        ys[j]
    }
}

/// What a pair of the join says.
proof fn lemma_pair(w: World, base: Seq<Scope>, pairs: Seq<(int, int)>, list: Seq<Scope>, m: int)
    requires
        are_edges(seen_by_a(w)),
        are_edges(seen_by_b(w)),
        base == query::scopes(w, seen_by_a(w)),
        query::is_left_join(base, seen_by_b(w), "b"@, of_one_edge(), pairs, list),
        0 <= m < list.len(),
    ensures
        ({
            let (i, j) = pairs[m];
            let (xs, ys) = (seen_by_a(w), seen_by_b(w));
            &&& 0 <= i < xs.len() && j < ys.len()
            &&& list[m] == query::paired(w, xs[i], "b"@, other(ys, j))
            &&& j >= 0 ==> seen::same_edge(ys[j], xs[i])
            &&& j < 0 ==> forall|n: int| 0 <= n < ys.len() ==> !seen::same_edge(#[trigger] ys[n], xs[i])
            &&& otherwise().of(list[m]) <==> !is_shared(w, xs[i])
        }),
{
    let (xs, ys) = (seen_by_a(w), seen_by_b(w));
    let p = |i: int, j: int|
        query::joins(base, ys, "b"@, of_one_edge(), i, j) || (0 <= i < base.len() && j == -1 && query::is_alone(
            base,
            ys,
            "b"@,
            of_one_edge(),
            i,
        ));
    assert(query::once_each(pairs, p));
    let (i, j) = pairs[m];
    assert(p(pairs[m].0, pairs[m].1));
    assert(base[i] == w.over(xs[i]));
    lemma_scope(w, xs[i], other(ys, j));
    if j >= 0 {
        assert(seen::same_edge(ys[j], xs[i]));
        if is_shared(w, xs[i]) {
            let n = choose|n: int|
                0 <= n < ys.len() && seen::same_edge(#[trigger] ys[n], xs[i]) && agree(xs[i], ys[n]);
            if n < j {
                assert(!seen::same_edge(ys[n], ys[j]));
            } else if j < n {
                assert(!seen::same_edge(ys[j], ys[n]));
            }
        }
    } else {
        assert forall|n: int| 0 <= n < ys.len() implies !seen::same_edge(#[trigger] ys[n], xs[i]) by {
            lemma_scope(w, xs[i], ys[n]);
            assert(!of_one_edge().of(query::beside(base[i], "b"@, ys[n])));
        }
    }
}

proof fn lemma_difference_rows(
    w: World,
    base: Seq<Scope>,
    pairs: Seq<(int, int)>,
    list: Seq<Scope>,
    picked: Seq<int>,
    out: Seq<Row>,
) -> (of: Seq<int>)
    requires
        are_edges(seen_by_a(w)),
        are_edges(seen_by_b(w)),
        base == query::scopes(w, seen_by_a(w)),
        query::is_left_join(base, seen_by_b(w), "b"@, of_one_edge(), pairs, list),
        query::selects(ours(), list, otherwise(), picked, out),
    ensures
        of.len() == out.len(),
        forall|k: int|
            0 <= k < out.len() ==> 0 <= #[trigger] of[k] < seen_by_a(w).len() && !is_shared(w, seen_by_a(w)[of[k]])
                && seen::same_row(out[k], seen_by_a(w)[of[k]], false),
        forall|k: int, l: int| 0 <= k < l < out.len() ==> #[trigger] of[k] != #[trigger] of[l],
        forall|i: int|
            0 <= i < seen_by_a(w).len() && !is_shared(w, seen_by_a(w)[i]) ==> #[trigger] query::is_one_of(of, i),
{
    let (xs, ys) = (seen_by_a(w), seen_by_b(w));
    let of = Seq::new(picked.len(), |k: int| pairs[picked[k]].0);
    assert forall|k: int| 0 <= k < out.len() implies 0 <= #[trigger] of[k] < xs.len() && !is_shared(w, xs[of[k]])
        && seen::same_row(out[k], xs[of[k]], false) by {
        assert(0 <= picked[k] < list.len());
        lemma_pair(w, base, pairs, list, picked[k]);
        lemma_scope(w, xs[of[k]], other(ys, pairs[picked[k]].1));
    }
    assert forall|k: int, l: int| 0 <= k < l < out.len() implies #[trigger] of[k] != #[trigger] of[l] by {
        assert(0 <= picked[k] < list.len() && 0 <= picked[l] < list.len());
        lemma_pair(w, base, pairs, list, picked[k]);
        lemma_pair(w, base, pairs, list, picked[l]);
        assert(picked[k] != picked[l]);
        if of[k] == of[l] {
            let (i, j) = pairs[picked[k]];
            let (m, n) = pairs[picked[l]];
            if j >= 0 && n >= 0 && j != n {
                if j < n {
                    assert(!seen::same_edge(ys[j], ys[n]));
                } else {
                    assert(!seen::same_edge(ys[n], ys[j]));
                }
            }
            lemma_alone(w, base, pairs, list, picked[k]);
            lemma_alone(w, base, pairs, list, picked[l]);
            assert(j == n);
            if picked[k] < picked[l] {
                assert(pairs[picked[k]] != pairs[picked[l]]);
            } else {
                assert(pairs[picked[l]] != pairs[picked[k]]);
            }
        }
    }
    assert forall|i: int| 0 <= i < xs.len() && !is_shared(w, xs[i]) implies #[trigger] query::is_one_of(of, i) by {
        let m = lemma_some_pair(w, base, pairs, list, i);
        lemma_pair(w, base, pairs, list, m);
        assert(otherwise().of(list[m]));
        assert(picked.contains(m));
        let k = choose|k: int| 0 <= k < picked.len() && picked[k] == m;
        assert(of[k] == i);
    }
    of
}

/// A pair has a row of the second lineage, or stands for none.
proof fn lemma_alone(w: World, base: Seq<Scope>, pairs: Seq<(int, int)>, list: Seq<Scope>, m: int)
    requires
        query::is_left_join(base, seen_by_b(w), "b"@, of_one_edge(), pairs, list),
        0 <= m < list.len(),
    ensures
        pairs[m].1 >= -1,
{
    let ys = seen_by_b(w);
    let p = |i: int, j: int|
        query::joins(base, ys, "b"@, of_one_edge(), i, j) || (0 <= i < base.len() && j == -1 && query::is_alone(
            base,
            ys,
            "b"@,
            of_one_edge(),
            i,
        ));
    assert(query::once_each(pairs, p));
    assert(p(pairs[m].0, pairs[m].1));
}

/// Every row of the first lineage stands in some pair.
proof fn lemma_some_pair(w: World, base: Seq<Scope>, pairs: Seq<(int, int)>, list: Seq<Scope>, i: int) -> (m: int)
    requires
        base == query::scopes(w, seen_by_a(w)),
        query::is_left_join(base, seen_by_b(w), "b"@, of_one_edge(), pairs, list),
        0 <= i < seen_by_a(w).len(),
    ensures
        0 <= m < list.len(),
        pairs[m].0 == i,
{
    let ys = seen_by_b(w);
    let p = |i: int, j: int|
        query::joins(base, ys, "b"@, of_one_edge(), i, j) || (0 <= i < base.len() && j == -1 && query::is_alone(
            base,
            ys,
            "b"@,
            of_one_edge(),
            i,
        ));
    assert(query::once_each(pairs, p));
    let j = if query::is_alone(base, ys, "b"@, of_one_edge(), i) {
        -1
    } else {
        choose|j: int| 0 <= j < ys.len() && of_one_edge().of(query::beside(base[i], "b"@, #[trigger] ys[j]))
    };
    assert(p(i, j));
    assert(pairs.contains((i, j)));
    choose|m: int| 0 <= m < pairs.len() && pairs[m] == (i, j)
}

} // verus!
