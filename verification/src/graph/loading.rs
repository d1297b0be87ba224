//! What the statements that load a subgraph give back.

use vstd::prelude::*;

use crate::graph::builder::TraversalView;
use crate::graph::lineage::LineageShape;
use crate::graph::load;
use crate::graph::reading;
use crate::graph::seen;
use crate::graph::walking;
use crate::relation::names;
use crate::relation::query;
use crate::relation::query::{Cols, Order, Query, World};
use crate::relation::term;
use crate::relation::term::{Cond, Gap, Row};
use crate::sql;
use crate::sql::SqlView;
use crate::text;

verus! {

/// The columns of an edge that is loaded.
#[verifier::opaque]
pub open spec fn loaded_columns() -> Cols {
    let c1 = query::one(seen::of_edge("source_id"@), "source_id"@);
    let c2 = query::also(c1, Gap::Blank, seen::of_edge("target_id"@), "target_id"@);
    let c3 = query::also(c2, Gap::Blank, seen::of_edge("edge_type"@), "edge_type"@);
    let c4 = query::also(c3, Gap::Blank, seen::of_edge("weight"@), "weight"@);
    let c5 = query::also(c4, Gap::Blank, seen::of_edge("valid_from"@), "valid_from"@);
    query::also(c5, Gap::Blank, seen::of_edge("valid_to"@), "valid_to"@)
}

/// What is asked of an edge that is loaded.
#[verifier::opaque]
pub open spec fn load_cond() -> Cond {
    term::and(reading::holds_at(3), Gap::Line(2), walking::heavy_enough())
}

/// By its ends and its type.
#[verifier::opaque]
pub open spec fn by_ends() -> Order {
    query::thereupon(
        query::thereupon(query::rising(seen::of_edge("source_id"@)), query::rising(seen::of_edge("target_id"@))),
        query::rising(seen::of_edge("edge_type"@)),
    )
}

/// The query of the edges that leave what a walk reached.
pub open spec fn loaded_edges(t: TraversalView, shape: LineageShape) -> Query {
    query::select_distinct(
        loaded_columns(),
        Gap::Line(0),
        query::join(
            query::table_as("walk"@, "w"@),
            Gap::Line(0),
            " "@,
            t.asks(shape).source(),
            "l"@,
            walking::from_here(),
        ),
        Gap::Line(0),
        walking::narrowed(load_cond(), t, shape, 2),
    )
}

/// That query, in order.
pub open spec fn loaded(t: TraversalView, shape: LineageShape) -> Query {
    query::ordered(query::padded(loaded_edges(t, shape), walking::pad(t, 2)), Gap::Line(0), by_ends())
}

/// Whether two rows say the same of an edge that is loaded.
pub open spec fn same_loaded(a: Row, b: Row) -> bool {
    &&& seen::same_edge(a, b)
    &&& a("valid_to"@) == b("valid_to"@)
    &&& a("weight"@) == b("weight"@)
}

/// Whether an edge leaves a node that a walk reached, and the traversal goes along
/// it.
pub open spec fn is_loaded(
    t: TraversalView,
    now: Seq<char>,
    shape: LineageShape,
    w: World,
    row: Row,
) -> bool {
    &&& walking::goes_along(t, now, shape, row)
    &&& exists|k: int|
        0 <= k < w.rows("walk"@).len() && term::equal(
            row("source_id"@),
            (#[trigger] w.rows("walk"@)[k])("node_id"@),
        )
}

/// Whether a row says the same as one that is given back.
pub open spec fn is_given(out: Seq<Row>, row: Row) -> bool {
    exists|k: int| 0 <= k < out.len() && same_loaded(#[trigger] out[k], row)
}

/// Whether a row says the same as one of the edges that are loaded.
pub open spec fn is_of_one(
    t: TraversalView,
    now: Seq<char>,
    shape: LineageShape,
    w: World,
    row: Row,
) -> bool {
    exists|i: int|
        0 <= i < walking::edges(t, shape, w).len() && is_loaded(
            t,
            now,
            shape,
            w,
            #[trigger] walking::edges(t, shape, w)[i],
        ) && same_loaded(row, walking::edges(t, shape, w)[i])
}

proof fn lemma_loaded_columns_text()
    ensures
        loaded_columns().text
            == "l.source_id, l.target_id, l.edge_type, l.weight, l.valid_from, l.valid_to"@,
        by_ends().text == "l.source_id, l.target_id, l.edge_type"@,
        load_cond().text == "l.valid_from <= ?3 AND ?3 < l.valid_to\n  AND l.weight >= ?4"@,
        walking::from_here().text == "l.source_id = w.node_id"@,
{
    reveal(loaded_columns);
    reveal(by_ends);
    reveal(load_cond);
    reveal(walking::from_here);
    reading::lemma_holds_at_text(3);
    reveal_with_fuel(text::decimal, 2);
    reveal_strlit("l.source_id, l.target_id, l.edge_type, l.weight, l.valid_from, l.valid_to");
    reveal_strlit("l.source_id, l.target_id, l.edge_type");
    reveal_strlit("l.valid_from <= ?3 AND ?3 < l.valid_to\n  AND l.weight >= ?4");
    reveal_strlit("l.source_id = w.node_id");
    reveal_strlit("l.valid_from <= ?");
    reveal_strlit(" AND ?");
    reveal_strlit(" < l.valid_to");
    reveal_strlit("source_id");
    reveal_strlit("target_id");
    reveal_strlit("edge_type");
    reveal_strlit("weight");
    reveal_strlit("valid_from");
    reveal_strlit("valid_to");
    reveal_strlit("node_id");
    reveal_strlit("l");
    reveal_strlit("w");
    reveal_strlit(".");
    reveal_strlit("?");
    reveal_strlit("=");
    reveal_strlit(">=");
    reveal_strlit(" ");
    reveal_strlit(",");
    reveal_strlit(", ");
    reveal_strlit("AND ");
}

/// The statement that loads edges is written as its query is, after the walk.
proof fn lemma_loaded_text(t: TraversalView, shape: LineageShape)
    ensures
        load::edges_text(t, shape) == t.walk_text(shape) + Gap::Line(0).text() + loaded(t, shape).text + Gap::Line(
            0,
        ).text(),
{
    lemma_loaded_columns_text();
    walking::lemma_narrowed_text(load_cond(), t, shape, 2);
    let r = t.asks(shape);
    let own = r.own_lineage() + r.own_edge();
    let gap = match walking::pad(t, 2) {
        Some(g) => g.text(),
        None => Seq::empty(),
    };
    lemma_loaded_pieces(
        t.walk_text(shape),
        r.source(),
        own,
        t.edge_filter(shape),
        walking::narrowed(load_cond(), t, shape, 2).text,
        gap,
    );
}

proof fn lemma_loaded_front(source: Seq<char>)
    ensures
        r"
SELECT DISTINCT l.source_id, l.target_id, l.edge_type, l.weight, l.valid_from, l.valid_to
FROM walk w
JOIN "@ + source + r" l ON l.source_id = w.node_id
WHERE "@ == Gap::Line(0).text() + ("SELECT DISTINCT "@
            + "l.source_id, l.target_id, l.edge_type, l.weight, l.valid_from, l.valid_to"@ + Gap::Line(0).text()
            + "FROM "@ + ("walk"@ + " "@ + "w"@ + Gap::Line(0).text() + "JOIN "@ + source + " "@ + "l"@ + " ON "@
            + "l.source_id = w.node_id"@) + Gap::Line(0).text() + "WHERE "@),
{
    reveal_strlit(
        r"
SELECT DISTINCT l.source_id, l.target_id, l.edge_type, l.weight, l.valid_from, l.valid_to
FROM walk w
JOIN ",
    );
    reveal_strlit(r" l ON l.source_id = w.node_id
WHERE ");
    reveal_strlit("l.source_id, l.target_id, l.edge_type, l.weight, l.valid_from, l.valid_to");
    reveal_strlit("l.source_id = w.node_id");
    reveal_strlit("walk");
    reveal_strlit("w");
    reveal_strlit("l");
    reveal_strlit(" ");
    reveal_strlit("SELECT DISTINCT ");
    reveal_strlit("FROM ");
    reveal_strlit("JOIN ");
    reveal_strlit(" ON ");
    reveal_strlit("WHERE ");
}

proof fn lemma_loaded_ends()
    ensures
        r" l ON l.source_id = w.node_id
WHERE l.valid_from <= ?3 AND ?3 < l.valid_to
  AND l.weight >= ?4"@ == r" l ON l.source_id = w.node_id
WHERE "@ + "l.valid_from <= ?3 AND ?3 < l.valid_to\n  AND l.weight >= ?4"@,
        "\n  "@ == Gap::Line(2).text(),
        r"
ORDER BY l.source_id, l.target_id, l.edge_type
"@ == Gap::Line(0).text() + "ORDER BY "@ + "l.source_id, l.target_id, l.edge_type"@ + Gap::Line(0).text(),
{
    reveal_strlit(
        r" l ON l.source_id = w.node_id
WHERE l.valid_from <= ?3 AND ?3 < l.valid_to
  AND l.weight >= ?4",
    );
    reveal_strlit(r" l ON l.source_id = w.node_id
WHERE ");
    reveal_strlit("l.valid_from <= ?3 AND ?3 < l.valid_to\n  AND l.weight >= ?4");
    reveal_strlit("\n  ");
    reveal_strlit(r"
ORDER BY l.source_id, l.target_id, l.edge_type
");
    reveal_strlit("l.source_id, l.target_id, l.edge_type");
    reveal_strlit("ORDER BY ");
}

proof fn lemma_loaded_pieces(
    head: Seq<char>,
    source: Seq<char>,
    own: Seq<char>,
    types: Seq<char>,
    narrow: Seq<char>,
    gap: Seq<char>,
)
    requires
        narrow + gap == "l.valid_from <= ?3 AND ?3 < l.valid_to\n  AND l.weight >= ?4"@ + own + Gap::Line(2).text() + types,
    ensures
        head + r"
SELECT DISTINCT l.source_id, l.target_id, l.edge_type, l.weight, l.valid_from, l.valid_to
FROM walk w
JOIN "@ + source + r" l ON l.source_id = w.node_id
WHERE l.valid_from <= ?3 AND ?3 < l.valid_to
  AND l.weight >= ?4"@ + own + "\n  "@ + types + r"
ORDER BY l.source_id, l.target_id, l.edge_type
"@ == head + Gap::Line(0).text() + ("SELECT DISTINCT "@
            + "l.source_id, l.target_id, l.edge_type, l.weight, l.valid_from, l.valid_to"@ + Gap::Line(0).text()
            + "FROM "@ + ("walk"@ + " "@ + "w"@ + Gap::Line(0).text() + "JOIN "@ + source + " "@ + "l"@ + " ON "@
            + "l.source_id = w.node_id"@) + Gap::Line(0).text() + "WHERE "@ + narrow + gap + Gap::Line(0).text()
            + "ORDER BY "@ + "l.source_id, l.target_id, l.edge_type"@) + Gap::Line(0).text(),
{
    lemma_loaded_front(source);
    lemma_loaded_ends();
    let a = r"
SELECT DISTINCT l.source_id, l.target_id, l.edge_type, l.weight, l.valid_from, l.valid_to
FROM walk w
JOIN "@;
    let mid = r" l ON l.source_id = w.node_id
WHERE "@;
    let cond = "l.valid_from <= ?3 AND ?3 < l.valid_to\n  AND l.weight >= ?4"@;
    let line = Gap::Line(0).text();
    let front = "SELECT DISTINCT "@ + "l.source_id, l.target_id, l.edge_type, l.weight, l.valid_from, l.valid_to"@ + line
        + "FROM "@ + ("walk"@ + " "@ + "w"@ + line + "JOIN "@ + source + " "@ + "l"@ + " ON "@
        + "l.source_id = w.node_id"@) + line + "WHERE "@;
    let back = line + "ORDER BY "@ + "l.source_id, l.target_id, l.edge_type"@;
    let end = narrow + gap;
    assert(head + a + source + (mid + cond) + own + "\n  "@ + types + (back + line) =~= head + (a + source + mid) + (cond
        + own + "\n  "@ + types) + back + line);
    assert(head + (line + front) + end + back + line =~= head + line + (front + narrow + gap + line + "ORDER BY "@
        + "l.source_id, l.target_id, l.edge_type"@) + line);
}

proof fn lemma_loaded_scope(t: TraversalView, now: Seq<char>, shape: LineageShape, w: World, at: Row, row: Row)
    requires
        w.bound == t.bound(now, shape),
    ensures
        ({
            let s = query::paired(w, at, "l"@, row);
            &&& walking::from_here().of(s) <==> term::equal(row("source_id"@), at("node_id"@))
            &&& walking::narrowed(load_cond(), t, shape, 2).of(s) <==> walking::goes_along(t, now, shape, row)
            &&& same_loaded(loaded_columns().of(s), row)
        }),
{
    reveal(walking::from_here);
    reveal(loaded_columns);
    names::lemma_aliases();
    names::lemma_columns();
    let s = query::paired(w, at, "l"@, row);
    assert(s.read("l"@, "source_id"@) == row("source_id"@));
    assert(s.read("l"@, "target_id"@) == row("target_id"@));
    assert(s.read("l"@, "edge_type"@) == row("edge_type"@));
    assert(s.read("l"@, "weight"@) == row("weight"@));
    assert(s.read("l"@, "valid_from"@) == row("valid_from"@));
    assert(s.read("l"@, "valid_to"@) == row("valid_to"@));
    assert(s.read("w"@, "node_id"@) == at("node_id"@));
    assert forall|col: Seq<char>| #[trigger] s.read("l"@, col) == row(col) by {}
    assert(!load_cond().loose) by {
        reveal(load_cond);
    }
    walking::lemma_narrowed(load_cond(), t, now, shape, 2, s, row);
    reading::lemma_holds_at(3, s);
    assert(load_cond().of(s) <==> reading::holds_at(3).of(s) && walking::heavy_enough().of(s)) by {
        reveal(load_cond);
    }
}

/// Rows that have the same in the columns of an edge say the same.
proof fn lemma_alike(a: Row, b: Row)
    ensures
        query::same_in(loaded_columns().names, a, b) <==> same_loaded(a, b),
{
    reveal(loaded_columns);
    let names = loaded_columns().names;
    assert(names[0] == "source_id"@ && names[1] == "target_id"@ && names[2] == "edge_type"@ && names[3] == "weight"@
        && names[4] == "valid_from"@ && names[5] == "valid_to"@);
    if query::same_in(names, a, b) {
        assert(a(names[0]) == b(names[0]) && a(names[1]) == b(names[1]) && a(names[2]) == b(names[2]));
        assert(a(names[3]) == b(names[3]) && a(names[4]) == b(names[4]) && a(names[5]) == b(names[5]));
    }
}

/// Loading gives back, once each, exactly the edges that leave a node which the
/// walk reached and that the traversal goes along, and they stand by their ends.
pub proof fn law_loading_gives_the_edges_of_the_walk(
    t: TraversalView,
    now: Seq<char>,
    shape: LineageShape,
    w: World,
    out: Seq<Row>,
)
    requires
        w.bound == t.bound(now, shape),
        loaded(t, shape).answers(w, out),
    ensures
        load::edges_text(t, shape) == t.walk_text(shape) + Gap::Line(0).text() + loaded(t, shape).text + Gap::Line(
            0,
        ).text(),
        forall|k: int| 0 <= k < out.len() ==> is_of_one(t, now, shape, w, #[trigger] out[k]),
        forall|k: int, l: int| 0 <= k < l < out.len() ==> !same_loaded(#[trigger] out[k], #[trigger] out[l]),
        forall|i: int|
            0 <= i < walking::edges(t, shape, w).len() && is_loaded(
                t,
                now,
                shape,
                w,
                #[trigger] walking::edges(t, shape, w)[i],
            ) ==> is_given(out, walking::edges(t, shape, w)[i]),
        forall|k: int, l: int|
            0 <= k < l < out.len() ==> !term::before(
                (#[trigger] out[l])("source_id"@),
                (#[trigger] out[k])("source_id"@),
            ),
{
    lemma_loaded_text(t, shape);
    let rows = walking::edges(t, shape, w);
    let walked = w.rows("walk"@);
    assert(loaded_edges(t, shape).answers(w, out));
    let (pairs, all) = query::lemma_distinct_join(
        loaded_columns(),
        Gap::Line(0),
        query::table_as("walk"@, "w"@),
        "walk"@,
        Gap::Line(0),
        " "@,
        t.asks(shape).source(),
        "l"@,
        walking::from_here(),
        Gap::Line(0),
        walking::narrowed(load_cond(), t, shape, 2),
        w,
        out,
    );
    lemma_loaded_rows(t, now, shape, w, pairs, all, out);
    assert forall|k: int, l: int| 0 <= k < l < out.len() implies !term::before(
        (#[trigger] out[l])("source_id"@),
        (#[trigger] out[k])("source_id"@),
    ) by {
        lemma_by_ends(w, out[l], out[k]);
        assert(!by_ends().puts(w.over(out[l]), w.over(out[k])));
    }
}

/// The order by ends is first of all by where edges begin.
proof fn lemma_by_ends(w: World, a: Row, b: Row)
    ensures
        term::before(a("source_id"@), b("source_id"@)) ==> by_ends().puts(w.over(a), w.over(b)),
{
    reveal(by_ends);
    let first = query::rising(seen::of_edge("source_id"@));
    let two = query::thereupon(first, query::rising(seen::of_edge("target_id"@)));
    let (x, y) = (w.over(a), w.over(b));
    assert(x.read("l"@, "source_id"@) == a("source_id"@));
    assert(y.read("l"@, "source_id"@) == b("source_id"@));
    if first.puts(x, y) {
        assert(two.puts(x, y));
    }
}

proof fn lemma_loaded_rows(
    t: TraversalView,
    now: Seq<char>,
    shape: LineageShape,
    w: World,
    pairs: Seq<(int, int)>,
    all: Seq<Row>,
    out: Seq<Row>,
)
    requires
        w.bound == t.bound(now, shape),
        query::shows_pairs(
            loaded_columns(),
            w,
            w.rows("walk"@),
            walking::edges(t, shape, w),
            "l"@,
            walking::from_here(),
            walking::narrowed(load_cond(), t, shape, 2),
            pairs,
            all,
        ),
        query::is_distinct(loaded_columns().names, all, out),
    ensures
        forall|k: int| 0 <= k < out.len() ==> is_of_one(t, now, shape, w, #[trigger] out[k]),
        forall|k: int, l: int| 0 <= k < l < out.len() ==> !same_loaded(#[trigger] out[k], #[trigger] out[l]),
        forall|i: int|
            0 <= i < walking::edges(t, shape, w).len() && is_loaded(
                t,
                now,
                shape,
                w,
                #[trigger] walking::edges(t, shape, w)[i],
            ) ==> is_given(out, walking::edges(t, shape, w)[i]),
{
    let rows = walking::edges(t, shape, w);
    let walked = w.rows("walk"@);
    let names = loaded_columns().names;
    assert forall|k: int| 0 <= k < out.len() implies is_of_one(t, now, shape, w, #[trigger] out[k]) by {
        assert(query::is_like_one(names, all, out[k]));
        let m = choose|m: int| 0 <= m < all.len() && query::same_in(names, #[trigger] all[m], out[k]);
        let (a, i) = pairs[m];
        lemma_loaded_scope(t, now, shape, w, walked[a], rows[i]);
        lemma_alike(all[m], out[k]);
        assert(is_loaded(t, now, shape, w, rows[i]));
    }
    assert forall|k: int, l: int| 0 <= k < l < out.len() implies !same_loaded(
        #[trigger] out[k],
        #[trigger] out[l],
    ) by {
        lemma_alike(out[k], out[l]);
    }
    assert forall|i: int| 0 <= i < rows.len() && is_loaded(t, now, shape, w, #[trigger] rows[i]) implies is_given(
        out,
        rows[i],
    ) by {
        let a = choose|a: int|
            0 <= a < walked.len() && term::equal(rows[i]("source_id"@), (#[trigger] walked[a])("node_id"@));
        lemma_loaded_scope(t, now, shape, w, walked[a], rows[i]);
        assert(query::is_among(pairs, a, i));
        let m = choose|m: int| 0 <= m < pairs.len() && #[trigger] pairs[m] == (a, i);
        assert(query::is_like_one(names, out, all[m]));
        let k = choose|k: int| 0 <= k < out.len() && query::same_in(names, #[trigger] out[k], all[m]);
        lemma_alike(out[k], all[m]);
        assert(same_loaded(out[k], rows[i]));
    }
}

/// The attributes of a concept.
#[verifier::opaque]
pub open spec fn concept_columns() -> Cols {
    let c1 = query::one(term::bare("id"@), "id"@);
    let c2 = query::also(c1, Gap::Blank, term::bare("title"@), "title"@);
    let c3 = query::also(c2, Gap::Blank, term::bare("content"@), "content"@);
    let c4 = query::also(c3, Gap::Blank, term::bare("embedding_model"@), "embedding_model"@);
    let c5 = query::also(c4, Gap::Blank, term::bare("valid_from"@), "valid_from"@);
    query::also(c5, Gap::Blank, term::bare("valid_to"@), "valid_to"@)
}

/// Whether a concept is one of those that are asked for, and not retired.
#[verifier::opaque]
pub open spec fn asked_for(n: nat) -> Cond {
    term::and(
        term::eq(term::bare("retired"@), term::number(0)),
        Gap::Blank,
        term::among(term::bare("id"@), 1, n),
    )
}

/// The query of the attributes of concepts.
pub open spec fn hydrated(n: nat) -> Query {
    query::select(concept_columns(), Gap::Blank, query::table("concepts"@), Gap::Blank, asked_for(n))
}

/// Whether two rows say the same of a concept.
pub open spec fn same_concept(a: Row, b: Row) -> bool {
    &&& a("id"@) == b("id"@)
    &&& a("title"@) == b("title"@)
    &&& a("content"@) == b("content"@)
    &&& a("embedding_model"@) == b("embedding_model"@)
    &&& a("valid_from"@) == b("valid_from"@)
    &&& a("valid_to"@) == b("valid_to"@)
}

/// Whether a concept is of one of these ids, and not retired.
pub open spec fn is_asked_for(ids: Seq<Seq<char>>, row: Row) -> bool {
    &&& row("retired"@) == SqlView::Integer(0)
    &&& exists|i: int| 0 <= i < ids.len() && row("id"@) == SqlView::Text(#[trigger] ids[i])
}

proof fn lemma_hydrated_text(n: nat)
    ensures
        load::hydrate_text(n) == hydrated(n).text,
{
    reveal(concept_columns);
    reveal(asked_for);
    reveal_with_fuel(text::decimal, 2);
    reveal_strlit(
        "SELECT id, title, content, embedding_model, valid_from, valid_to FROM concepts WHERE retired = 0 AND id IN (",
    );
    reveal_strlit("id");
    reveal_strlit("title");
    reveal_strlit("content");
    reveal_strlit("embedding_model");
    reveal_strlit("valid_from");
    reveal_strlit("valid_to");
    reveal_strlit("retired");
    reveal_strlit("concepts");
    reveal_strlit("=");
    reveal_strlit(" ");
    reveal_strlit(",");
    reveal_strlit(")");
    reveal_strlit(" IN (");
    reveal_strlit("SELECT ");
    reveal_strlit("FROM ");
    reveal_strlit("WHERE ");
    reveal_strlit("AND ");
    let list = sql::slot_list(1, n);
    assert(load::hydrate_text(n) =~= hydrated(n).text);
}

/// Reading attributes gives back, once each, exactly the concepts of the ids that
/// are asked for that are not retired.
pub proof fn law_attributes_are_of_what_is_asked_for(
    ids: Seq<Seq<char>>,
    w: World,
    out: Seq<Row>,
) -> (of: Seq<int>)
    requires
        w.bound == ids.map_values(|id: Seq<char>| SqlView::Text(id)),
        hydrated(ids.len()).answers(w, out),
    ensures
        load::hydrate_text(ids.len()) == hydrated(ids.len()).text,
        of.len() == out.len(),
        forall|k: int|
            0 <= k < out.len() ==> 0 <= #[trigger] of[k] < w.rows("concepts"@).len() && is_asked_for(
                ids,
                w.rows("concepts"@)[of[k]],
            ) && same_concept(out[k], w.rows("concepts"@)[of[k]]),
        forall|k: int, l: int| 0 <= k < l < out.len() ==> #[trigger] of[k] != #[trigger] of[l],
        forall|i: int|
            0 <= i < w.rows("concepts"@).len() && is_asked_for(ids, w.rows("concepts"@)[i])
                ==> #[trigger] query::is_one_of(of, i),
{
    let n = ids.len();
    lemma_hydrated_text(n);
    let rows = w.rows("concepts"@);
    let of = query::lemma_select_table(
        concept_columns(),
        Gap::Blank,
        query::table("concepts"@),
        "concepts"@,
        Gap::Blank,
        asked_for(n),
        w,
        out,
    );
    assert forall|row: Row| #[trigger] asked_for(n).of(w.over(row)) <==> is_asked_for(ids, row) by {
        reveal(asked_for);
        let s = w.over(row);
        let id = term::bare("id"@);
        let among = term::among(id, 1, n);
        let live = term::eq(term::bare("retired"@), term::number(0));
        assert(live.of(s) <==> row("retired"@) == SqlView::Integer(0));
        if among.of(s) {
            let i = choose|i: int| 0 <= i < n && #[trigger] term::same(id.of(s), s.bound[1 - 1 + i]) && !(id.of(s) is Null);
            assert(row("id"@) == SqlView::Text(ids[i]));
        }
        if is_asked_for(ids, row) {
            let i = choose|i: int| 0 <= i < ids.len() && row("id"@) == SqlView::Text(#[trigger] ids[i]);
            assert(term::same(id.of(s), s.bound[1 - 1 + i]) && !(id.of(s) is Null));
        }
        assert(asked_for(n).of(s) <==> live.of(s) && among.of(s));
    }
    assert forall|k: int| 0 <= k < out.len() implies 0 <= #[trigger] of[k] < rows.len() && is_asked_for(
        ids,
        rows[of[k]],
    ) && same_concept(out[k], rows[of[k]]) by {
        assert(asked_for(n).of(w.over(rows[of[k]])));
        reveal(concept_columns);
        lemma_concept_names();
    }
    assert forall|i: int| 0 <= i < rows.len() && is_asked_for(ids, rows[i]) implies #[trigger] query::is_one_of(
        of,
        i,
    ) by {
        assert(asked_for(n).of(w.over(rows[i])));
    }
    of
}

proof fn lemma_concept_names()
    ensures
        "id"@.len() == 2,
        "title"@.len() == 5,
        "content"@.len() == 7,
        "embedding_model"@.len() == 15,
        "valid_from"@.len() == 10,
        "valid_to"@.len() == 8,
{
    reveal_strlit("id");
    reveal_strlit("title");
    reveal_strlit("content");
    reveal_strlit("embedding_model");
    reveal_strlit("valid_from");
    reveal_strlit("valid_to");
}

} // verus!
