//! What a walk reaches.

use vstd::prelude::*;

use crate::graph::builder::TraversalView;
use crate::graph::lineage::LineageShape;
use crate::graph::plan;
use crate::graph::reading;
use crate::graph::seen;
use crate::relation::names;
use crate::relation::query;
use crate::relation::query::{Cols, Named, Query, World};
use crate::relation::term;
use crate::relation::term::{Cond, Gap, Row, Scope};
use crate::sql;
use crate::sql::SqlView;
use crate::text;

verus! {

/// Where a walk begins.
#[verifier::opaque]
pub open spec fn start_columns() -> Cols {
    query::also(query::one(term::slot(1), "node_id"@), Gap::Blank, term::number(0), "depth"@)
}

/// Where a step leads, and how far that is.
#[verifier::opaque]
pub open spec fn step_columns() -> Cols {
    query::also(
        query::one(seen::of_edge("target_id"@), "node_id"@),
        Gap::Blank,
        term::next(term::column("w"@, "depth"@)),
        "depth"@,
    )
}

/// What joins an edge to where the walk is.
#[verifier::opaque]
pub open spec fn from_here() -> Cond {
    term::eq(seen::of_edge("source_id"@), term::column("w"@, "node_id"@))
}

/// Whether an edge is heavy enough.
pub open spec fn heavy_enough() -> Cond {
    term::ge(seen::of_edge("weight"@), term::slot(4))
}

/// Whether an edge is of one of the types that are asked for.
pub open spec fn of_types(t: TraversalView, shape: LineageShape) -> Cond {
    term::among(seen::of_edge("edge_type"@), t.edge_type_slot(shape) as nat, t.edge_types.len())
}

/// What is asked of an edge besides: its lineage and its type.
#[verifier::opaque]
pub open spec fn narrowed(c: Cond, t: TraversalView, shape: LineageShape, indent: nat) -> Cond {
    let on = if reading::keeps_to_itself(shape, t.as_of_recorded.is_some()) {
        term::and(c, Gap::Blank, reading::on_branch(5))
    } else {
        c
    };
    if t.edge_types.len() == 0 {
        on
    } else {
        term::and(on, Gap::Line(indent + 1), of_types(t, shape))
    }
}

/// What is asked of a step.
#[verifier::opaque]
pub open spec fn step_cond() -> Cond {
    let c1 = term::lt(term::column("w"@, "depth"@), term::slot(2));
    let c2 = term::and(c1, Gap::Line(6), reading::holds_at(3));
    term::and(c2, Gap::Line(6), heavy_enough())
}

/// The white space where no type is asked for.
pub open spec fn pad(t: TraversalView, indent: nat) -> Option<Gap> {
    if t.edge_types.len() == 0 {
        Some(Gap::Line(indent))
    } else {
        None
    }
}

/// The query of one step.
pub open spec fn step(t: TraversalView, shape: LineageShape) -> Query {
    query::select(
        step_columns(),
        Gap::Line(4),
        query::join(
            query::table_as("walk"@, "w"@),
            Gap::Line(4),
            " "@,
            t.asks(shape).source(),
            "l"@,
            from_here(),
        ),
        Gap::Line(4),
        narrowed(step_cond(), t, shape, 6),
    )
}

/// The ceiling of a walk.
pub open spec fn ceiling(t: TraversalView, shape: LineageShape) -> Option<term::Term> {
    if t.limit.is_some() {
        Some(term::slot(t.ceiling_slot(shape) as nat))
    } else {
        None
    }
}

/// The walk under its name.
pub open spec fn walk(t: TraversalView, shape: LineageShape) -> Named {
    query::recursive(
        "walk"@,
        Gap::Line(4),
        query::single(start_columns()),
        step(t, shape),
        pad(t, 6),
        ceiling(t, shape),
        Gap::Line(0),
    )
}

/// Whether a traversal goes along an edge: it holds at the instant, is heavy
/// enough, of a type that is asked for if any is, and of the traversal's lineage
/// where it has to keep to that.
pub open spec fn goes_along(t: TraversalView, now: Seq<char>, shape: LineageShape, row: Row) -> bool {
    let valid = SqlView::Text(t.valid_at(now));
    &&& term::at_most(row("valid_from"@), valid)
    &&& !(row("valid_to"@) is Null) && term::before(valid, row("valid_to"@))
    &&& term::at_most(SqlView::Real(t.min_weight), row("weight"@))
    &&& t.edge_types.len() == 0 || exists|i: int|
        0 <= i < t.edge_types.len() && row("edge_type"@) == SqlView::Text(#[trigger] t.edge_types[i])
    &&& reading::keeps_to_itself(shape, t.as_of_recorded.is_some()) ==> term::equal(
        row("branch_id"@),
        SqlView::Text(t.lineage()),
    )
}

/// Whether `d` edges that are gone along lead from the start to a node.
pub open spec fn leads_to(rows: Seq<Row>, p: spec_fn(Row) -> bool, start: SqlView, node: SqlView, d: nat) -> bool
    decreases d,
{
    if d == 0 {
        node == start
    } else {
        exists|i: int|
            0 <= i < rows.len() && p(#[trigger] rows[i]) && leads_to(
                rows,
                p,
                start,
                rows[i]("source_id"@),
                (d - 1) as nat,
            )
                && rows[i]("target_id"@) == node
    }
}

/// Whether the ends of edges are named by text.
pub open spec fn are_edges(rows: Seq<Row>) -> bool {
    forall|i: int|
        0 <= i < rows.len() ==> (#[trigger] rows[i])("source_id"@) is Text && rows[i]("target_id"@) is Text
}

/// The edges that a traversal goes among.
pub open spec fn edges(t: TraversalView, shape: LineageShape, w: World) -> Seq<Row> {
    w.rows(t.asks(shape).source())
}

/// Whether a traversal arrives at a node after `d` edges.
pub open spec fn arrives(t: TraversalView, now: Seq<char>, shape: LineageShape, w: World, node: SqlView, d: nat) -> bool {
    leads_to(
        edges(t, shape, w),
        |row: Row| goes_along(t, now, shape, row),
        SqlView::Text(t.start_node),
        node,
        d,
    )
}

proof fn lemma_columns_text()
    ensures
        start_columns().text == "?1, 0"@,
        start_columns().header == "node_id, depth"@,
        step_columns().text == "l.target_id, w.depth + 1"@,
        from_here().text == "l.source_id = w.node_id"@,
{
    reveal(start_columns);
    reveal(step_columns);
    reveal(from_here);
    reveal_with_fuel(text::decimal, 2);
    reveal_strlit("?1, 0");
    reveal_strlit("node_id, depth");
    reveal_strlit("l.target_id, w.depth + 1");
    reveal_strlit("l.source_id = w.node_id");
    reveal_strlit("node_id");
    reveal_strlit("depth");
    reveal_strlit("source_id");
    reveal_strlit("target_id");
    reveal_strlit("l");
    reveal_strlit("w");
    reveal_strlit(".");
    reveal_strlit("?");
    reveal_strlit("=");
    reveal_strlit(" ");
    reveal_strlit(",");
    reveal_strlit(", ");
    reveal_strlit(" + 1");
}

proof fn lemma_step_cond_text()
    ensures
        step_cond().text
            == "w.depth < ?2\n      AND l.valid_from <= ?3 AND ?3 < l.valid_to\n      AND l.weight >= ?4"@,
        heavy_enough().text == "l.weight >= ?4"@,
{
    reveal(step_cond);
    reading::lemma_holds_at_text(3);
    reveal_with_fuel(text::decimal, 2);
    reveal_strlit("w.depth < ?2\n      AND l.valid_from <= ?3 AND ?3 < l.valid_to\n      AND l.weight >= ?4");
    reveal_strlit("l.weight >= ?4");
    reveal_strlit("l.valid_from <= ?");
    reveal_strlit(" AND ?");
    reveal_strlit(" < l.valid_to");
    reveal_strlit("depth");
    reveal_strlit("weight");
    reveal_strlit("l");
    reveal_strlit("w");
    reveal_strlit(".");
    reveal_strlit("?");
    reveal_strlit("<");
    reveal_strlit(">=");
    reveal_strlit(" ");
    reveal_strlit("AND ");
}

/// How what is asked of an edge besides is written.
pub proof fn lemma_narrowed_text(c: Cond, t: TraversalView, shape: LineageShape, indent: nat)
    ensures
        ({
            let r = t.asks(shape);
            narrowed(c, t, shape, indent).text + (match pad(t, indent) {
                Some(g) => g.text(),
                None => Seq::empty(),
            }) == c.text + (r.own_lineage() + r.own_edge()) + Gap::Line(indent).text() + t.edge_filter(shape)
        }),
{
    reveal(narrowed);
    reading::lemma_holds_at_text(5);
    reveal_strlit(" AND +l.branch_id = ?");
    reveal_strlit("+l.branch_id = ?");
    reveal_strlit(" AND l.edge_type IN (");
    reveal_strlit("");
    reveal_strlit("edge_type");
    reveal_strlit("l");
    reveal_strlit(".");
    reveal_strlit(" IN (");
    reveal_strlit(")");
    reveal_strlit("AND ");
    let r = t.asks(shape);
    let list = sql::slot_list(t.edge_type_slot(shape) as nat, t.edge_types.len());
    assert(narrowed(c, t, shape, indent).text + (match pad(t, indent) {
        Some(g) => g.text(),
        None => Seq::empty(),
    }) =~= c.text + (r.own_lineage() + r.own_edge()) + Gap::Line(indent).text() + t.edge_filter(shape));
}

/// A walk is written as its query is, after the expressions that it reads.
pub proof fn lemma_walk_text(t: TraversalView, shape: LineageShape)
    ensures
        t.walk_text(shape) == "\nWITH RECURSIVE "@ + plan::each_ended(t.asks(shape).ctes()) + walk(t, shape).text,
{
    lemma_columns_text();
    lemma_step_cond_text();
    lemma_narrowed_text(step_cond(), t, shape, 6);
    let r = t.asks(shape);
    let own = r.own_lineage() + r.own_edge();
    let head = "\nWITH RECURSIVE "@ + plan::each_ended(r.ctes());
    let narrow = narrowed(step_cond(), t, shape, 6).text;
    let gap = match pad(t, 6) {
        Some(g) => g.text(),
        None => Seq::empty(),
    };
    let top = match ceiling(t, shape) {
        Some(k) => Gap::Line(4).text() + "LIMIT "@ + k.text,
        None => Seq::empty(),
    };
    assert(top =~= t.ceiling(shape)) by {
        reveal_strlit("\n    LIMIT ?");
        reveal_strlit("LIMIT ");
        reveal_strlit("?");
        reveal_strlit("");
    }
    lemma_walk_pieces(head, r.source(), own, t.edge_filter(shape), top, narrow, gap);
}

#[verifier::rlimit(60)]
proof fn lemma_walk_pieces(
    head: Seq<char>,
    source: Seq<char>,
    own: Seq<char>,
    types: Seq<char>,
    top: Seq<char>,
    narrow: Seq<char>,
    gap: Seq<char>,
)
    requires
        narrow + gap == "w.depth < ?2\n      AND l.valid_from <= ?3 AND ?3 < l.valid_to\n      AND l.weight >= ?4"@ + own
            + Gap::Line(6).text() + types,
    ensures
        head + r"walk(node_id, depth) AS (
    SELECT ?1, 0
    UNION
    SELECT l.target_id, w.depth + 1
    FROM walk w
    JOIN "@ + source + r" l ON l.source_id = w.node_id
    WHERE w.depth < ?2
      AND l.valid_from <= ?3 AND ?3 < l.valid_to
      AND l.weight >= ?4"@ + own + "\n      "@ + types + top + "\n)"@ == head + ("walk"@ + "("@ + "node_id, depth"@
            + ") AS ("@ + Gap::Line(4).text() + ("SELECT "@ + "?1, 0"@) + Gap::Line(4).text() + "UNION"@ + Gap::Line(
            4,
        ).text() + ("SELECT "@ + "l.target_id, w.depth + 1"@ + Gap::Line(4).text() + "FROM "@ + ("walk"@ + " "@ + "w"@
            + Gap::Line(4).text() + "JOIN "@ + source + " "@ + "l"@ + " ON "@ + "l.source_id = w.node_id"@) + Gap::Line(
            4,
        ).text() + "WHERE "@ + narrow) + gap + top + Gap::Line(0).text() + ")"@),
{
    let end = narrow + gap;
    let front = r"walk(node_id, depth) AS (
    SELECT ?1, 0
    UNION
    SELECT l.target_id, w.depth + 1
    FROM walk w
    JOIN "@ + source + r" l ON l.source_id = w.node_id
    WHERE "@;
    let built = "walk"@ + "("@ + "node_id, depth"@ + ") AS ("@ + Gap::Line(4).text() + ("SELECT "@ + "?1, 0"@)
        + Gap::Line(4).text() + "UNION"@ + Gap::Line(4).text() + ("SELECT "@ + "l.target_id, w.depth + 1"@ + Gap::Line(
        4,
    ).text() + "FROM "@ + ("walk"@ + " "@ + "w"@ + Gap::Line(4).text() + "JOIN "@ + source + " "@ + "l"@ + " ON "@
        + "l.source_id = w.node_id"@) + Gap::Line(4).text() + "WHERE "@);
    assert(front =~= built) by {
        reveal_strlit(
            r"walk(node_id, depth) AS (
    SELECT ?1, 0
    UNION
    SELECT l.target_id, w.depth + 1
    FROM walk w
    JOIN ",
        );
        reveal_strlit(r" l ON l.source_id = w.node_id
    WHERE ");
        reveal_strlit("walk");
        reveal_strlit("(");
        reveal_strlit("node_id, depth");
        reveal_strlit(") AS (");
        reveal_strlit("SELECT ");
        reveal_strlit("?1, 0");
        reveal_strlit("UNION");
        reveal_strlit("l.target_id, w.depth + 1");
        reveal_strlit("FROM ");
        reveal_strlit(" ");
        reveal_strlit("w");
        reveal_strlit("JOIN ");
        reveal_strlit("l");
        reveal_strlit(" ON ");
        reveal_strlit("l.source_id = w.node_id");
        reveal_strlit("WHERE ");
    }
    lemma_walk_front(source);
    let tail = r" l ON l.source_id = w.node_id
    WHERE w.depth < ?2
      AND l.valid_from <= ?3 AND ?3 < l.valid_to
      AND l.weight >= ?4"@;
    let cond = "w.depth < ?2\n      AND l.valid_from <= ?3 AND ?3 < l.valid_to\n      AND l.weight >= ?4"@;
    reveal_strlit("\n      ");
    reveal_strlit("\n)");
    reveal_strlit(")");
    assert(Gap::Line(6).text() =~= "\n      "@);
    assert(Gap::Line(0).text() + ")"@ =~= "\n)"@);
    let a = r"walk(node_id, depth) AS (
    SELECT ?1, 0
    UNION
    SELECT l.target_id, w.depth + 1
    FROM walk w
    JOIN "@;
    let mid = r" l ON l.source_id = w.node_id
    WHERE "@;
    assert(head + a + source + tail + own + "\n      "@ + types + top + "\n)"@ =~= head + (front + end + top
        + "\n)"@)) by {
        assert(tail =~= mid + cond);
    }
    assert(head + (built + end + top + "\n)"@) =~= head + ("walk"@ + "("@ + "node_id, depth"@ + ") AS ("@ + Gap::Line(
        4,
    ).text() + ("SELECT "@ + "?1, 0"@) + Gap::Line(4).text() + "UNION"@ + Gap::Line(4).text() + ("SELECT "@
        + "l.target_id, w.depth + 1"@ + Gap::Line(4).text() + "FROM "@ + ("walk"@ + " "@ + "w"@ + Gap::Line(4).text()
        + "JOIN "@ + source + " "@ + "l"@ + " ON "@ + "l.source_id = w.node_id"@) + Gap::Line(4).text() + "WHERE "@
        + narrow) + gap + top + Gap::Line(0).text() + ")"@));
}

proof fn lemma_walk_front(source: Seq<char>)
    ensures
        r" l ON l.source_id = w.node_id
    WHERE w.depth < ?2
      AND l.valid_from <= ?3 AND ?3 < l.valid_to
      AND l.weight >= ?4"@ == r" l ON l.source_id = w.node_id
    WHERE "@ + "w.depth < ?2\n      AND l.valid_from <= ?3 AND ?3 < l.valid_to\n      AND l.weight >= ?4"@,
{
    reveal_strlit(
        r" l ON l.source_id = w.node_id
    WHERE w.depth < ?2
      AND l.valid_from <= ?3 AND ?3 < l.valid_to
      AND l.weight >= ?4",
    );
    reveal_strlit(r" l ON l.source_id = w.node_id
    WHERE ");
    reveal_strlit("w.depth < ?2\n      AND l.valid_from <= ?3 AND ?3 < l.valid_to\n      AND l.weight >= ?4");
}

/// What is bound, slot by slot.
pub proof fn lemma_bound(t: TraversalView, now: Seq<char>, shape: LineageShape)
    ensures
        ({
            let b = t.bound(now, shape);
            &&& b[0] == SqlView::Text(t.start_node)
            &&& b[1] == SqlView::Integer(t.max_depth as i64)
            &&& b[2] == SqlView::Text(t.valid_at(now))
            &&& b[3] == SqlView::Real(t.min_weight)
            &&& shape != LineageShape::Trunk ==> b[4] == SqlView::Text(t.lineage())
            &&& forall|i: int|
                0 <= i < t.edge_types.len() ==> b[t.edge_type_slot(shape) - 1 + i] == SqlView::Text(
                    #[trigger] t.edge_types[i],
                )
            &&& t.limit matches Some(n) ==> b[t.ceiling_slot(shape) - 1] == SqlView::Integer(n as i64)
        }),
{
    let fixed = t.fixed_row(now);
    let on = fixed + t.branch_row(shape);
    let at = on + t.recorded_row();
    assert(at.len() == t.edge_type_slot(shape) - 1);
    let b = t.bound(now, shape);
    assert forall|i: int| 0 <= i < t.edge_types.len() implies b[t.edge_type_slot(shape) - 1 + i] == SqlView::Text(
        #[trigger] t.edge_types[i],
    ) by {
        assert(b[at.len() + i] == t.types_row()[i]);
    }
}

/// What is asked of an edge, in words of the traversal.
pub proof fn lemma_narrowed(
    c: Cond,
    t: TraversalView,
    now: Seq<char>,
    shape: LineageShape,
    indent: nat,
    s: Scope,
    row: Row,
)
    requires
        !c.loose,
        s.bound == t.bound(now, shape),
        forall|col: Seq<char>| #[trigger] s.read("l"@, col) == row(col),
    ensures
        narrowed(c, t, shape, indent).of(s) && reading::holds_at(3).of(s) && heavy_enough().of(s) <==> c.of(s)
            && goes_along(t, now, shape, row),
        narrowed(c, t, shape, indent).of(s) ==> c.of(s),
{
    reveal(narrowed);
    lemma_bound(t, now, shape);
    reading::lemma_holds_at(3, s);
    reading::lemma_holds_at(5, s);
    assert(s.read("l"@, "valid_from"@) == row("valid_from"@));
    assert(s.read("l"@, "valid_to"@) == row("valid_to"@));
    assert(s.read("l"@, "weight"@) == row("weight"@));
    assert(s.read("l"@, "branch_id"@) == row("branch_id"@));
    assert(s.read("l"@, "edge_type"@) == row("edge_type"@));
    assert(heavy_enough().of(s) <==> term::at_most(SqlView::Real(t.min_weight), row("weight"@)));
    let on = if reading::keeps_to_itself(shape, t.as_of_recorded.is_some()) {
        term::and(c, Gap::Blank, reading::on_branch(5))
    } else {
        c
    };
    assert(on.of(s) <==> c.of(s) && (reading::keeps_to_itself(shape, t.as_of_recorded.is_some()) ==> term::equal(
        row("branch_id"@),
        SqlView::Text(t.lineage()),
    )));
    if t.edge_types.len() > 0 {
        let first = t.edge_type_slot(shape);
        let among = of_types(t, shape);
        assert(among.of(s) <==> exists|i: int|
            0 <= i < t.edge_types.len() && row("edge_type"@) == SqlView::Text(#[trigger] t.edge_types[i])) by {
            let kind = seen::of_edge("edge_type"@);
            if among.of(s) {
                let i = choose|i: int|
                    0 <= i < t.edge_types.len() && #[trigger] term::same(kind.of(s), s.bound[first as nat - 1 + i])
                        && !(kind.of(s) is Null);
                assert(s.bound[first - 1 + i] == SqlView::Text(t.edge_types[i]));
            }
            if exists|i: int|
                0 <= i < t.edge_types.len() && row("edge_type"@) == SqlView::Text(#[trigger] t.edge_types[i]) {
                let i = choose|i: int|
                    0 <= i < t.edge_types.len() && row("edge_type"@) == SqlView::Text(#[trigger] t.edge_types[i]);
                assert(term::same(kind.of(s), s.bound[first as nat - 1 + i]) && !(kind.of(s) is Null));
            }
        }
        assert(narrowed(c, t, shape, indent).of(s) <==> on.of(s) && among.of(s));
    }
}

/// What a walk reads is not the walk.
proof fn lemma_source_is_no_walk(t: TraversalView, shape: LineageShape)
    ensures
        t.asks(shape).source() != "walk"@,
{
    reveal_strlit("walk");
    reveal_strlit("visible");
    reveal_strlit("links_at_tx");
    reveal_strlit("links_current");
    reveal_strlit("");
    assert(t.asks(shape).source().len() >= 7);
    assert("walk"@.len() == 4);
}

/// The world in which a walk is at one row.
spec fn at(w: World, before: Row) -> World {
    w.with("walk"@, seq![before])
}

/// What is asked of one step.
proof fn lemma_step_scope(
    t: TraversalView,
    now: Seq<char>,
    shape: LineageShape,
    w: World,
    before: Row,
    d: nat,
    row: Row,
)
    requires
        w.bound == t.bound(now, shape),
        t.max_depth <= i64::MAX,
        d <= t.max_depth,
        before("depth"@) == SqlView::Integer(d as i64),
    ensures
        ({
            let s = query::paired(at(w, before), before, "l"@, row);
            &&& from_here().of(s) <==> term::equal(row("source_id"@), before("node_id"@))
            &&& narrowed(step_cond(), t, shape, 6).of(s) <==> d < t.max_depth && goes_along(t, now, shape, row)
            &&& step_columns().of(s)("node_id"@) == row("target_id"@)
            &&& d < t.max_depth ==> step_columns().of(s)("depth"@) == SqlView::Integer((d + 1) as i64)
        }),
{
    reveal(from_here);
    reveal(step_columns);
    names::lemma_aliases();
    names::lemma_columns();
    let s = query::paired(at(w, before), before, "l"@, row);
    assert(s.read("l"@, "source_id"@) == row("source_id"@));
    assert(s.read("l"@, "target_id"@) == row("target_id"@));
    assert(s.read("w"@, "node_id"@) == before("node_id"@));
    assert(s.read("w"@, "depth"@) == before("depth"@));
    assert forall|col: Seq<char>| #[trigger] s.read("l"@, col) == row(col) by {}
    assert(!step_cond().loose) by {
        reveal(step_cond);
    }
    lemma_narrowed(step_cond(), t, now, shape, 6, s, row);
    lemma_bound(t, now, shape);
    reading::lemma_holds_at(3, s);
    assert(step_cond().of(s) <==> d < t.max_depth && reading::holds_at(3).of(s) && heavy_enough().of(s)) by {
        reveal(step_cond);
        let c1 = term::lt(term::column("w"@, "depth"@), term::slot(2));
        let c2 = term::and(c1, Gap::Line(6), reading::holds_at(3));
        assert(c1.of(s) <==> d < t.max_depth);
        assert(c2.of(s) <==> c1.of(s) && reading::holds_at(3).of(s));
    }
}

/// What a row that follows another comes from.
proof fn lemma_follows(
    t: TraversalView,
    now: Seq<char>,
    shape: LineageShape,
    w: World,
    before: Row,
    d: nat,
    row: Row,
) -> (i: int)
    requires
        w.bound == t.bound(now, shape),
        t.max_depth <= i64::MAX,
        d <= t.max_depth,
        before("depth"@) == SqlView::Integer(d as i64),
        query::follows(step(t, shape), "walk"@, w, before, row),
    ensures
        0 <= i < edges(t, shape, w).len(),
        goes_along(t, now, shape, edges(t, shape, w)[i]),
        term::equal(edges(t, shape, w)[i]("source_id"@), before("node_id"@)),
        d < t.max_depth,
        row("node_id"@) == edges(t, shape, w)[i]("target_id"@),
        row("depth"@) == SqlView::Integer((d + 1) as i64),
{
    lemma_source_is_no_walk(t, shape);
    let x = at(w, before);
    let (s, k) = choose|s: Seq<Row>, k: int|
        #![trigger step(t, shape).answers(w.with("walk"@, seq![before]), s), s[k]]
        step(t, shape).answers(w.with("walk"@, seq![before]), s) && 0 <= k < s.len() && s[k] == row;
    let pairs = query::lemma_select_join(
        step_columns(),
        Gap::Line(4),
        query::table_as("walk"@, "w"@),
        "walk"@,
        Gap::Line(4),
        " "@,
        t.asks(shape).source(),
        "l"@,
        from_here(),
        Gap::Line(4),
        narrowed(step_cond(), t, shape, 6),
        x,
        s,
    );
    assert(x.rows("walk"@) == seq![before]);
    assert(x.rows(t.asks(shape).source()) == edges(t, shape, w));
    let i = pairs[k].1;
    assert(pairs[k].0 == 0);
    lemma_step_scope(t, now, shape, w, before, d, edges(t, shape, w)[i]);
    i
}

/// A row that an edge leads to follows.
proof fn lemma_some_follows(
    t: TraversalView,
    now: Seq<char>,
    shape: LineageShape,
    w: World,
    before: Row,
    d: nat,
    i: int,
) -> (row: Row)
    requires
        w.bound == t.bound(now, shape),
        t.max_depth <= i64::MAX,
        d < t.max_depth,
        before("depth"@) == SqlView::Integer(d as i64),
        0 <= i < edges(t, shape, w).len(),
        goes_along(t, now, shape, edges(t, shape, w)[i]),
        term::equal(edges(t, shape, w)[i]("source_id"@), before("node_id"@)),
    ensures
        query::follows(step(t, shape), "walk"@, w, before, row),
        row("node_id"@) == edges(t, shape, w)[i]("target_id"@),
        row("depth"@) == SqlView::Integer((d + 1) as i64),
{
    lemma_source_is_no_walk(t, shape);
    let x = at(w, before);
    assert(x.rows("walk"@) == seq![before]);
    assert(x.rows(t.asks(shape).source()) == edges(t, shape, w));
    let s = query::lemma_some_join(
        step_columns(),
        Gap::Line(4),
        query::table_as("walk"@, "w"@),
        "walk"@,
        Gap::Line(4),
        " "@,
        t.asks(shape).source(),
        "l"@,
        from_here(),
        Gap::Line(4),
        narrowed(step_cond(), t, shape, 6),
        x,
    );
    let pairs = query::lemma_select_join(
        step_columns(),
        Gap::Line(4),
        query::table_as("walk"@, "w"@),
        "walk"@,
        Gap::Line(4),
        " "@,
        t.asks(shape).source(),
        "l"@,
        from_here(),
        Gap::Line(4),
        narrowed(step_cond(), t, shape, 6),
        x,
        s,
    );
    lemma_step_scope(t, now, shape, w, before, d, edges(t, shape, w)[i]);
    assert(query::is_among(pairs, 0, i));
    let k = choose|k: int| 0 <= k < pairs.len() && #[trigger] pairs[k] == (0int, i);
    assert(step(t, shape).answers(w.with("walk"@, seq![before]), s));
    s[k]
}

/// What the first row of a walk says.
proof fn lemma_start(t: TraversalView, now: Seq<char>, shape: LineageShape, w: World)
    requires
        w.bound == t.bound(now, shape),
    ensures
        start_columns().of(w.nowhere())("node_id"@) == SqlView::Text(t.start_node),
        start_columns().of(w.nowhere())("depth"@) == SqlView::Integer(0),
{
    reveal(start_columns);
    names::lemma_columns();
    lemma_bound(t, now, shape);
}

/// A row that comes up is one that the traversal arrives at.
proof fn lemma_comes_up(t: TraversalView, now: Seq<char>, shape: LineageShape, w: World, row: Row, n: nat)
    requires
        w.bound == t.bound(now, shape),
        t.max_depth <= i64::MAX,
        are_edges(edges(t, shape, w)),
        query::comes_up(query::single(start_columns()), step(t, shape), "walk"@, w, row, n),
    ensures
        n <= t.max_depth,
        row("depth"@) == SqlView::Integer(n as i64),
        arrives(t, now, shape, w, row("node_id"@), n),
    decreases n,
{
    let base = query::single(start_columns());
    lemma_start(t, now, shape, w);
    if n == 0 {
        let (b, k) = choose|b: Seq<Row>, k: int|
            #![trigger base.answers(w, b), b[k]]
            base.answers(w, b) && 0 <= k < b.len() && b[k] == row;
        assert(b == seq![start_columns().of(w.nowhere())]);
    } else {
        let before = choose|before: Row|
            query::comes_up(base, step(t, shape), "walk"@, w, before, (n - 1) as nat) && #[trigger] query::follows(
                step(t, shape),
                "walk"@,
                w,
                before,
                row,
            );
        lemma_comes_up(t, now, shape, w, before, (n - 1) as nat);
        let i = lemma_follows(t, now, shape, w, before, (n - 1) as nat, row);
        let rows = edges(t, shape, w);
        assert(rows[i]("source_id"@) == before("node_id"@));
        let p = |r: Row| goes_along(t, now, shape, r);
        assert(p(rows[i]));
    }
}

/// What the traversal arrives at comes up.
proof fn lemma_arrives(t: TraversalView, now: Seq<char>, shape: LineageShape, w: World, node: SqlView, n: nat) -> (row:
    Row)
    requires
        w.bound == t.bound(now, shape),
        t.max_depth <= i64::MAX,
        are_edges(edges(t, shape, w)),
        n <= t.max_depth,
        arrives(t, now, shape, w, node, n),
    ensures
        query::comes_up(query::single(start_columns()), step(t, shape), "walk"@, w, row, n),
        row("node_id"@) == node,
        row("depth"@) == SqlView::Integer(n as i64),
    decreases n,
{
    let base = query::single(start_columns());
    lemma_start(t, now, shape, w);
    let rows = edges(t, shape, w);
    let p = |r: Row| goes_along(t, now, shape, r);
    if n == 0 {
        let first = start_columns().of(w.nowhere());
        let b = seq![first];
        assert(base.answers(w, b) && b[0] == first);
        first
    } else {
        let i = choose|i: int|
            0 <= i < rows.len() && p(#[trigger] rows[i]) && leads_to(
                rows,
                p,
                SqlView::Text(t.start_node),
                rows[i]("source_id"@),
                (n - 1) as nat,
            ) && rows[i]("target_id"@) == node;
        let before = lemma_arrives(t, now, shape, w, rows[i]("source_id"@), (n - 1) as nat);
        let row = lemma_some_follows(t, now, shape, w, before, (n - 1) as nat, i);
        assert(query::comes_up(base, step(t, shape), "walk"@, w, row, n));
        row
    }
}

/// Whether a row is of a node that the traversal arrives at within its depth, and
/// says after how many edges.
pub open spec fn is_reached(t: TraversalView, now: Seq<char>, shape: LineageShape, w: World, row: Row) -> bool {
    exists|d: nat|
        d <= t.max_depth && row("depth"@) == SqlView::Integer(d as i64) && #[trigger] arrives(
            t,
            now,
            shape,
            w,
            row("node_id"@),
            d,
        )
}

/// Whether a walk holds a node at a depth.
pub open spec fn is_walked(out: Seq<Row>, node: SqlView, d: nat) -> bool {
    exists|k: int|
        0 <= k < out.len() && (#[trigger] out[k])("node_id"@) == node && out[k]("depth"@) == SqlView::Integer(d as i64)
}

/// A walk holds exactly the nodes that are as many edges away from the start as
/// its depth allows or fewer, each with how many: edges that hold at the instant,
/// are heavy enough and of a type that is asked for. With a ceiling it may hold
/// fewer of them, and no more than that many rows.
pub proof fn law_a_walk_reaches_what_edges_lead_to(
    t: TraversalView,
    now: Seq<char>,
    shape: LineageShape,
    w: World,
    out: Seq<Row>,
)
    requires
        w.bound == t.bound(now, shape),
        t.max_depth <= i64::MAX,
        are_edges(edges(t, shape, w)),
        walk(t, shape).query.answers(w, out),
    ensures
        t.walk_text(shape) == "\nWITH RECURSIVE "@ + plan::each_ended(t.asks(shape).ctes()) + walk(t, shape).text,
        forall|k: int| 0 <= k < out.len() ==> is_reached(t, now, shape, w, #[trigger] out[k]),
        t.limit.is_none() ==> forall|node: SqlView, d: nat|
            d <= t.max_depth && #[trigger] arrives(t, now, shape, w, node, d) ==> is_walked(out, node, d),
        t.limit matches Some(n) ==> n <= i64::MAX ==> out.len() <= n,
{
    lemma_walk_text(t, shape);
    let base = query::single(start_columns());
    assert forall|k: int| 0 <= k < out.len() implies is_reached(t, now, shape, w, #[trigger] out[k]) by {
        assert(query::ever_comes_up(base, step(t, shape), "walk"@, w, out[k]));
        let n = choose|n: nat| query::comes_up(base, step(t, shape), "walk"@, w, out[k], n);
        lemma_comes_up(t, now, shape, w, out[k], n);
    }
    if t.limit.is_none() {
        assert forall|node: SqlView, d: nat|
            d <= t.max_depth && #[trigger] arrives(t, now, shape, w, node, d) implies is_walked(out, node, d) by {
            let row = lemma_arrives(t, now, shape, w, node, d);
            assert(query::ever_comes_up(base, step(t, shape), "walk"@, w, row));
            assert(query::is_like_one(base.names, out, row));
            let k = choose|k: int| 0 <= k < out.len() && query::same_in(base.names, #[trigger] out[k], row);
            reveal(start_columns);
            assert(base.names[0] == "node_id"@ && base.names[1] == "depth"@);
            assert(out[k](base.names[0]) == row(base.names[0]));
            assert(out[k](base.names[1]) == row(base.names[1]));
        }
    } else {
        lemma_bound(t, now, shape);
    }
}

} // verus!
