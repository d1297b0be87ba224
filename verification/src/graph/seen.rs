//! Which lineage a reader sees an edge of.

use vstd::prelude::*;

use crate::graph::ledger;
use crate::graph::lineage_sql;
use crate::graph::lineage_sql::KeySlots;
use crate::relation::names;
use crate::relation::query;
use crate::relation::query::{Cols, Named, Order, Query, Source, World};
use crate::relation::ranked;
use crate::relation::ranked::Class;
use crate::relation::term;
use crate::relation::term::{Cond, Gap, Row, Scope, Term};

verus! {

/// A column of an edge.
pub open spec fn of_edge(col: Seq<char>) -> Term {
    term::column("l"@, col)
}

/// The columns of an edge beside its lineage.
#[verifier::opaque]
pub open spec fn edge_columns(properties: bool) -> Cols {
    let c1 = query::one(of_edge("source_id"@), "source_id"@);
    let c2 = query::also(c1, Gap::Blank, of_edge("target_id"@), "target_id"@);
    let c3 = query::also(c2, Gap::Blank, of_edge("edge_type"@), "edge_type"@);
    let c4 = query::also(c3, Gap::Blank, of_edge("valid_from"@), "valid_from"@);
    let c5 = query::also(c4, Gap::Blank, of_edge("valid_to"@), "valid_to"@);
    let c6 = query::also(c5, Gap::Blank, of_edge("weight"@), "weight"@);
    if properties {
        let c7 = query::also(c6, Gap::Line(15), of_edge("properties"@), "properties"@);
        query::also(c7, Gap::Blank, of_edge("branch_id"@), "branch_id"@)
    } else {
        query::also(c6, Gap::Line(15), of_edge("branch_id"@), "branch_id"@)
    }
}

/// The columns of an edge.
#[verifier::opaque]
pub open spec fn bare_columns(properties: bool) -> Cols {
    let c1 = query::one(term::bare("source_id"@), "source_id"@);
    let c2 = query::also(c1, Gap::Blank, term::bare("target_id"@), "target_id"@);
    let c3 = query::also(c2, Gap::Blank, term::bare("edge_type"@), "edge_type"@);
    let c4 = query::also(c3, Gap::Blank, term::bare("valid_from"@), "valid_from"@);
    let c5 = query::also(c4, Gap::Blank, term::bare("valid_to"@), "valid_to"@);
    let c6 = query::also(c5, Gap::Blank, term::bare("weight"@), "weight"@);
    let c7 = if properties {
        query::also(c6, Gap::Blank, term::bare("properties"@), "properties"@)
    } else {
        c6
    };
    query::also(c7, Gap::Blank, term::bare("branch_id"@), "branch_id"@)
}

/// What tells edges and their starts apart.
#[verifier::opaque]
pub open spec fn edge_class() -> Class {
    let k1 = ranked::classed(of_edge("source_id"@));
    let k2 = ranked::and_classed(k1, of_edge("target_id"@));
    let k3 = ranked::and_classed(k2, of_edge("edge_type"@));
    ranked::and_classed(k3, of_edge("valid_from"@))
}

/// The nearest lineage first.
#[verifier::opaque]
pub open spec fn nearest_lineage() -> Order {
    query::rising(term::column("g"@, "dist"@))
}

/// What joins a lineage to an edge.
#[verifier::opaque]
pub open spec fn its_lineage() -> Cond {
    term::eq(term::column("g"@, "branch_id"@), of_edge("branch_id"@))
}

/// Edges beside their lineages.
#[verifier::opaque]
pub open spec fn edges_on(source: Seq<char>, tag: Seq<char>) -> Source {
    query::join(query::table_as(source, "l"@), Gap::Line(8), " "@, "lineage"@ + tag, "g"@, its_lineage())
}

/// Edges numbered by how near their lineage is.
pub open spec fn by_nearness(source: Seq<char>, tag: Seq<char>, properties: bool) -> Query {
    ranked::select_ranked_all(
        edge_columns(properties),
        edge_class(),
        nearest_lineage(),
        (Gap::Line(15), Gap::Line(19), Gap::Line(15), Gap::Line(8)),
        edges_on(source, tag),
    )
}

/// The query of what the reader sees.
pub open spec fn visible(source: Seq<char>, tag: Seq<char>, properties: bool) -> Query {
    ranked::firsts(
        bare_columns(properties),
        by_nearness(source, tag, properties),
        (Gap::Blank, Gap::Line(8), Gap::Line(4), Gap::Blank),
    )
}

/// That query under its name.
pub open spec fn visible_named(source: Seq<char>, tag: Seq<char>, properties: bool) -> Named {
    query::named("visible"@ + tag, ""@, Gap::Line(4), visible(source, tag, properties), Gap::Line(0))
}

/// Whether two rows are of one edge and one start.
pub open spec fn same_edge(a: Row, b: Row) -> bool {
    &&& a("source_id"@) == b("source_id"@)
    &&& a("target_id"@) == b("target_id"@)
    &&& a("edge_type"@) == b("edge_type"@)
    &&& a("valid_from"@) == b("valid_from"@)
}

/// Whether two rows say the same of an edge.
pub open spec fn same_row(a: Row, b: Row, properties: bool) -> bool {
    &&& same_edge(a, b)
    &&& a("valid_to"@) == b("valid_to"@)
    &&& a("weight"@) == b("weight"@)
    &&& properties ==> a("properties"@) == b("properties"@)
    &&& a("branch_id"@) == b("branch_id"@)
}

/// Whether an edge is of a lineage of the ancestry.
pub open spec fn is_on(w: World, source: Seq<char>, tag: Seq<char>, i: int, j: int) -> bool {
    &&& 0 <= i < w.rows(source).len()
    &&& 0 <= j < ledger::ancestry(w, tag).len()
    &&& term::equal(ledger::ancestry(w, tag)[j]("branch_id"@), w.rows(source)[i]("branch_id"@))
}

/// Whether `of` names, for each row of `out`, an edge and its lineage that it
/// shows: one for each edge and start that has any, and no lineage that has one is
/// nearer.
pub open spec fn are_of_the_nearest(
    w: World,
    source: Seq<char>,
    tag: Seq<char>,
    properties: bool,
    of: Seq<(int, int)>,
    out: Seq<Row>,
) -> bool {
    let (ls, gs) = (w.rows(source), ledger::ancestry(w, tag));
    &&& of.len() == out.len()
    &&& forall|k: int|
        0 <= k < out.len() ==> is_on(w, source, tag, (#[trigger] of[k]).0, of[k].1) && same_row(
            out[k],
            ls[of[k].0],
            properties,
        )
    &&& forall|k: int, m: int| 0 <= k < m < out.len() ==> !same_edge(#[trigger] out[k], #[trigger] out[m])
    &&& forall|i: int, j: int| #[trigger] is_on(w, source, tag, i, j) ==> is_seen(out, ls[i])
    &&& forall|k: int, i: int, j: int|
        0 <= k < out.len() && #[trigger] is_on(w, source, tag, i, j) && same_edge(#[trigger] out[k], ls[i])
            ==> !term::before(gs[j]("dist"@), gs[of[k].1]("dist"@))
}

/// Whether a row of an edge's own key is given back.
pub open spec fn is_seen(out: Seq<Row>, row: Row) -> bool {
    exists|k: int| 0 <= k < out.len() && same_edge(#[trigger] out[k], row)
}

proof fn lemma_columns_text(key: Option<KeySlots>)
    ensures
        edge_columns(key.is_some()).text
            == "l.source_id, l.target_id, l.edge_type, l.valid_from, l.valid_to, l.weight,\n               "@
            + lineage_sql::by_key(key, "l.properties, l.branch_id"@, "l.branch_id"@),
        bare_columns(key.is_some()).text == "source_id, target_id, edge_type, valid_from, valid_to, weight"@
            + lineage_sql::by_key(key, ", properties"@, ""@) + ", branch_id"@,
        bare_columns(key.is_some()).header == bare_columns(key.is_some()).text,
{
    reveal(edge_columns);
    reveal(bare_columns);
    reveal_strlit("l.source_id, l.target_id, l.edge_type, l.valid_from, l.valid_to, l.weight,\n               ");
    reveal_strlit("l.properties, l.branch_id");
    reveal_strlit("l.branch_id");
    reveal_strlit("source_id, target_id, edge_type, valid_from, valid_to, weight");
    reveal_strlit(", properties");
    reveal_strlit(", branch_id");
    reveal_strlit("");
    reveal_strlit("source_id");
    reveal_strlit("target_id");
    reveal_strlit("edge_type");
    reveal_strlit("valid_from");
    reveal_strlit("valid_to");
    reveal_strlit("weight");
    reveal_strlit("properties");
    reveal_strlit("branch_id");
    reveal_strlit("l");
    reveal_strlit(".");
    reveal_strlit(",");
    reveal_strlit(", ");
}

proof fn lemma_ranking_text(source: Seq<char>, tag: Seq<char>)
    ensures
        edge_class().text == "l.source_id, l.target_id, l.edge_type, l.valid_from"@,
        nearest_lineage().text == "g.dist"@,
        edges_on(source, tag).text == source + " l\n        JOIN lineage"@ + tag + " g ON g.branch_id = l.branch_id"@,
{
    reveal(edge_class);
    reveal(nearest_lineage);
    reveal(its_lineage);
    reveal(edges_on);
    reveal_strlit("l.source_id, l.target_id, l.edge_type, l.valid_from");
    reveal_strlit("g.dist");
    reveal_strlit(" l\n        JOIN lineage");
    reveal_strlit(" g ON g.branch_id = l.branch_id");
    reveal_strlit("source_id");
    reveal_strlit("target_id");
    reveal_strlit("edge_type");
    reveal_strlit("valid_from");
    reveal_strlit("branch_id");
    reveal_strlit("dist");
    reveal_strlit("lineage");
    reveal_strlit("l");
    reveal_strlit("g");
    reveal_strlit(".");
    reveal_strlit("=");
    reveal_strlit(" ");
    reveal_strlit(", ");
    reveal_strlit("JOIN ");
    reveal_strlit(" ON ");
    assert(edges_on(source, tag).text =~= source + " l\n        JOIN lineage"@ + tag
        + " g ON g.branch_id = l.branch_id"@);
}

/// What the reader sees is written as its query is.
pub proof fn lemma_visible_text(source: Seq<char>, tag: Seq<char>, key: Option<KeySlots>)
    ensures
        lineage_sql::visible_cte_text(source, tag, key) == visible_named(source, tag, key.is_some()).text,
{
    lemma_columns_text(key);
    lemma_ranking_text(source, tag);
    ranked::lemma_numbered_one_text();
    let p1 = lineage_sql::by_key(key, ", properties"@, ""@);
    let p2 = lineage_sql::by_key(key, "l.properties, l.branch_id"@, "l.branch_id"@);
    let p3 = lineage_sql::by_key(key, "l.properties, l.branch_id,"@, "l.branch_id,"@);
    assert(p3 =~= p2 + ","@) by {
        reveal_strlit("l.properties, l.branch_id");
        reveal_strlit("l.branch_id");
        reveal_strlit("l.properties, l.branch_id,");
        reveal_strlit("l.branch_id,");
        reveal_strlit(",");
    }
    lemma_visible_pieces(source, tag, p1, p2);
}

#[verifier::rlimit(60)]
proof fn lemma_visible_pieces(source: Seq<char>, tag: Seq<char>, p1: Seq<char>, p2: Seq<char>)
    ensures
        "visible"@ + tag + "(source_id, target_id, edge_type, valid_from, valid_to, weight"@ + p1 + r", branch_id) AS (
    SELECT source_id, target_id, edge_type, valid_from, valid_to, weight"@ + p1 + r", branch_id FROM (
        SELECT l.source_id, l.target_id, l.edge_type, l.valid_from, l.valid_to, l.weight,
               "@ + (p2 + ","@) + r"
               ROW_NUMBER() OVER (
                   PARTITION BY l.source_id, l.target_id, l.edge_type, l.valid_from
                   ORDER BY g.dist
               ) AS rn
        FROM "@ + source + r" l
        JOIN lineage"@ + tag + r" g ON g.branch_id = l.branch_id
    ) WHERE rn = 1
)"@ == "visible"@ + tag + "("@ + ("source_id, target_id, edge_type, valid_from, valid_to, weight"@ + p1
            + ", branch_id"@) + ") AS"@ + ""@ + " ("@ + Gap::Line(4).text() + ("SELECT "@ + (
        "source_id, target_id, edge_type, valid_from, valid_to, weight"@ + p1 + ", branch_id"@) + Gap::Blank.text()
            + "FROM "@ + ("("@ + Gap::Line(8).text() + ("SELECT "@ + (
        "l.source_id, l.target_id, l.edge_type, l.valid_from, l.valid_to, l.weight,\n               "@ + p2) + ","@
            + Gap::Line(15).text() + "ROW_NUMBER() OVER ("@ + Gap::Line(19).text() + "PARTITION BY "@
            + "l.source_id, l.target_id, l.edge_type, l.valid_from"@ + Gap::Line(19).text() + "ORDER BY "@ + "g.dist"@
            + Gap::Line(15).text() + ") AS "@ + "rn"@ + Gap::Line(8).text() + "FROM "@ + (source
            + " l\n        JOIN lineage"@ + tag + " g ON g.branch_id = l.branch_id"@)) + Gap::Line(4).text() + ")"@)
            + Gap::Blank.text() + "WHERE "@ + "rn = 1"@) + Gap::Line(0).text() + ")"@,
{
    reveal_strlit("(source_id, target_id, edge_type, valid_from, valid_to, weight");
    reveal_strlit(
        r", branch_id) AS (
    SELECT source_id, target_id, edge_type, valid_from, valid_to, weight",
    );
    reveal_strlit(
        r", branch_id FROM (
        SELECT l.source_id, l.target_id, l.edge_type, l.valid_from, l.valid_to, l.weight,
               ",
    );
    reveal_strlit(
        r"
               ROW_NUMBER() OVER (
                   PARTITION BY l.source_id, l.target_id, l.edge_type, l.valid_from
                   ORDER BY g.dist
               ) AS rn
        FROM ",
    );
    reveal_strlit(r" l
        JOIN lineage");
    reveal_strlit(r" g ON g.branch_id = l.branch_id
    ) WHERE rn = 1
)");
    reveal_strlit("source_id, target_id, edge_type, valid_from, valid_to, weight");
    reveal_strlit(", branch_id");
    reveal_strlit("l.source_id, l.target_id, l.edge_type, l.valid_from, l.valid_to, l.weight,\n               ");
    reveal_strlit("l.source_id, l.target_id, l.edge_type, l.valid_from");
    reveal_strlit("g.dist");
    reveal_strlit(" g ON g.branch_id = l.branch_id");
    reveal_strlit("rn = 1");
    reveal_strlit("rn");
    reveal_strlit("");
    reveal_strlit(",");
    reveal_strlit("(");
    reveal_strlit(")");
    reveal_strlit(") AS");
    reveal_strlit(") AS ");
    reveal_strlit(" (");
    reveal_strlit("SELECT ");
    reveal_strlit("FROM ");
    reveal_strlit("WHERE ");
    reveal_strlit("ROW_NUMBER() OVER (");
    reveal_strlit("PARTITION BY ");
    reveal_strlit("ORDER BY ");
}

/// The scope of an edge beside a lineage.
spec fn edge_on(w: World, source: Seq<char>, tag: Seq<char>, i: int, j: int) -> Scope {
    query::paired(w, w.rows(source)[i], "g"@, ledger::ancestry(w, tag)[j])
}

proof fn lemma_edge_on(w: World, source: Seq<char>, tag: Seq<char>, i: int, j: int)
    ensures
        forall|c: Seq<char>| #[trigger] edge_on(w, source, tag, i, j).read("l"@, c) == w.rows(source)[i](c),
        forall|c: Seq<char>| #[trigger] edge_on(w, source, tag, i, j).read("g"@, c) == ledger::ancestry(w, tag)[j](c),
{
    names::lemma_aliases();
}

proof fn lemma_shown(w: World, source: Seq<char>, tag: Seq<char>, properties: bool, i: int, j: int)
    ensures
        same_row(
            bare_columns(properties).of(
                w.over(ranked::numbered(edge_columns(properties).of(edge_on(w, source, tag, i, j)), 1)),
            ),
            w.rows(source)[i],
            properties,
        ),
{
    reveal(bare_columns);
    reveal(edge_columns);
    names::lemma_columns();
    lemma_edge_on(w, source, tag, i, j);
    let s = edge_on(w, source, tag, i, j);
    let r = w.rows(source)[i];
    assert(s.read("l"@, "source_id"@) == r("source_id"@));
    assert(s.read("l"@, "target_id"@) == r("target_id"@));
    assert(s.read("l"@, "edge_type"@) == r("edge_type"@));
    assert(s.read("l"@, "valid_from"@) == r("valid_from"@));
    assert(s.read("l"@, "valid_to"@) == r("valid_to"@));
    assert(s.read("l"@, "weight"@) == r("weight"@));
    assert(s.read("l"@, "properties"@) == r("properties"@));
    assert(s.read("l"@, "branch_id"@) == r("branch_id"@));
}

proof fn lemma_class(w: World, source: Seq<char>, tag: Seq<char>, i: int, j: int, m: int, n: int)
    ensures
        edge_class().of(edge_on(w, source, tag, i, j)) == edge_class().of(edge_on(w, source, tag, m, n)) <==> same_edge(
            w.rows(source)[i],
            w.rows(source)[m],
        ),
        nearest_lineage().puts(edge_on(w, source, tag, i, j), edge_on(w, source, tag, m, n)) <==> term::before(
            ledger::ancestry(w, tag)[j]("dist"@),
            ledger::ancestry(w, tag)[n]("dist"@),
        ),
{
    reveal(edge_class);
    reveal(nearest_lineage);
    lemma_edge_on(w, source, tag, i, j);
    lemma_edge_on(w, source, tag, m, n);
    let (a, b) = (edge_on(w, source, tag, i, j), edge_on(w, source, tag, m, n));
    let (x, y) = (w.rows(source)[i], w.rows(source)[m]);
    let (p, q) = (edge_class().of(a), edge_class().of(b));
    assert(p =~= seq![x("source_id"@), x("target_id"@), x("edge_type"@), x("valid_from"@)]);
    assert(q =~= seq![y("source_id"@), y("target_id"@), y("edge_type"@), y("valid_from"@)]);
    if p == q {
        assert(p[0] == q[0] && p[1] == q[1] && p[2] == q[2] && p[3] == q[3]);
    }
    assert(a.read("g"@, "dist"@) == ledger::ancestry(w, tag)[j]("dist"@));
    assert(b.read("g"@, "dist"@) == ledger::ancestry(w, tag)[n]("dist"@));
}

proof fn lemma_its_lineage(w: World, source: Seq<char>, tag: Seq<char>, i: int, j: int)
    requires
        0 <= i < w.rows(source).len(),
        0 <= j < ledger::ancestry(w, tag).len(),
    ensures
        its_lineage().of(edge_on(w, source, tag, i, j)) <==> is_on(w, source, tag, i, j),
{
    reveal(its_lineage);
    lemma_edge_on(w, source, tag, i, j);
    let s = edge_on(w, source, tag, i, j);
    assert(s.read("l"@, "branch_id"@) == w.rows(source)[i]("branch_id"@));
    assert(s.read("g"@, "branch_id"@) == ledger::ancestry(w, tag)[j]("branch_id"@));
}

/// Of each edge and start the reader sees exactly one row: that of the nearest
/// lineage of the ancestry that has it.
pub proof fn law_the_nearest_lineage_wins(
    source: Seq<char>,
    tag: Seq<char>,
    key: Option<KeySlots>,
    w: World,
    out: Seq<Row>,
) -> (of: Seq<(int, int)>)
    requires
        visible(source, tag, key.is_some()).answers(w, out),
    ensures
        lineage_sql::visible_cte_text(source, tag, key) == visible_named(source, tag, key.is_some()).text,
        are_of_the_nearest(w, source, tag, key.is_some(), of, out),
{
    lemma_visible_text(source, tag, key);
    let properties = key.is_some();
    let (ls, gs) = (w.rows(source), ledger::ancestry(w, tag));
    let (list, chosen) = ranked::lemma_firsts_lead(
        bare_columns(properties),
        edge_columns(properties),
        edge_class(),
        nearest_lineage(),
        (Gap::Line(15), Gap::Line(19), Gap::Line(15), Gap::Line(8), Gap::Line(8)),
        (Gap::Blank, Gap::Line(8), Gap::Line(4), Gap::Blank),
        edges_on(source, tag),
        query::everything(),
        by_nearness(source, tag, properties),
        w,
        out,
    );
    reveal(edges_on);
    let (base, pairs) = query::lemma_join(
        query::table_as(source, "l"@),
        Gap::Line(8),
        " "@,
        "lineage"@ + tag,
        "g"@,
        its_lineage(),
        w,
        list,
    );
    assert(base == query::scopes(w, ls));
    let of = Seq::new(chosen.len(), |k: int| pairs[chosen[k]]);
    assert forall|m: int| 0 <= m < list.len() implies is_on(w, source, tag, (#[trigger] pairs[m]).0, pairs[m].1)
        && list[m] == edge_on(w, source, tag, pairs[m].0, pairs[m].1) by {
        query::lemma_is_joined(base, gs, "g"@, its_lineage(), pairs, list, m);
        lemma_its_lineage(w, source, tag, pairs[m].0, pairs[m].1);
    }
    assert forall|k: int| 0 <= k < out.len() implies is_on(w, source, tag, (#[trigger] of[k]).0, of[k].1) && same_row(
        out[k],
        ls[of[k].0],
        properties,
    ) by {
        assert(0 <= chosen[k] < list.len());
        assert(of[k] == pairs[chosen[k]]);
        lemma_shown(w, source, tag, properties, of[k].0, of[k].1);
    }
    assert forall|k: int, m: int| 0 <= k < m < out.len() implies !same_edge(#[trigger] out[k], #[trigger] out[m]) by {
        assert(of[k] == pairs[chosen[k]] && of[m] == pairs[chosen[m]]);
        assert(0 <= chosen[k] < list.len() && 0 <= chosen[m] < list.len());
        lemma_class(w, source, tag, of[k].0, of[k].1, of[m].0, of[m].1);
        assert(edge_class().of(list[chosen[k]]) != edge_class().of(list[chosen[m]]));
    }
    assert forall|i: int, j: int| #[trigger] is_on(w, source, tag, i, j) implies is_seen(out, ls[i]) by {
        lemma_its_lineage(w, source, tag, i, j);
        let m = query::lemma_joined(base, gs, "g"@, its_lineage(), pairs, list, i, j);
        assert(query::everything().of(list[m]));
        assert(ranked::is_led(list, edge_class(), chosen, m));
        let k = choose|k: int|
            0 <= k < chosen.len() && edge_class().of(list[#[trigger] chosen[k]]) == edge_class().of(list[m]);
        assert(0 <= chosen[k] < list.len());
        assert(of[k] == pairs[chosen[k]]);
        lemma_class(w, source, tag, of[k].0, of[k].1, i, j);
        assert(same_edge(out[k], ls[i]));
    }
    assert forall|k: int, i: int, j: int|
        0 <= k < out.len() && #[trigger] is_on(w, source, tag, i, j) && same_edge(#[trigger] out[k], ls[i])
            implies !term::before(gs[j]("dist"@), gs[of[k].1]("dist"@)) by {
        lemma_its_lineage(w, source, tag, i, j);
        let m = query::lemma_joined(base, gs, "g"@, its_lineage(), pairs, list, i, j);
        assert(query::everything().of(list[m]));
        assert(0 <= chosen[k] < list.len());
        assert(of[k] == pairs[chosen[k]]);
        lemma_class(w, source, tag, i, j, of[k].0, of[k].1);
        assert(!nearest_lineage().puts(list[m], list[chosen[k]]));
    }
    of
}

} // verus!
