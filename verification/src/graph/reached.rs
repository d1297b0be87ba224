//! Which nodes a traversal gives back of what its walk reached.

use vstd::prelude::*;

use crate::graph::builder;
use crate::relation::names;
use crate::relation::query;
use crate::relation::query::{Cols, Order, Query, Source, World};
use crate::relation::term;
use crate::relation::term::{Cond, Gap, Row, Scope, Term};
use crate::sql::SqlView;
use crate::text;

verus! {

/// The node of a row of the walk, under its name where that is said.
#[verifier::opaque]
pub open spec fn node_column(said: bool) -> Cols {
    let t = term::column("w"@, "node_id"@);
    query::one(
        if said {
            Term { text: t.text + " AS "@ + "node_id"@, ..t }
        } else {
            t
        },
        "node_id"@,
    )
}

/// What joins a concept to a row of the walk.
#[verifier::opaque]
pub open spec fn its_concept() -> Cond {
    term::eq(term::column("c"@, "id"@), term::column("w"@, "node_id"@))
}

/// Whether a concept is not retired.
#[verifier::opaque]
pub open spec fn not_retired() -> Cond {
    term::eq(term::column("c"@, "retired"@), term::number(0))
}

/// The walk beside its concepts.
pub open spec fn walked() -> Source {
    query::join(query::table_as("walk"@, "w"@), Gap::Blank, " "@, "concepts"@, "c"@, its_concept())
}

/// The query of the nodes that the walk reached and that are not retired.
pub open spec fn live_nodes(said: bool, gap: Gap) -> Query {
    query::select_distinct(node_column(said), gap, walked(), gap, not_retired())
}

/// By node.
#[verifier::opaque]
pub open spec fn by_node() -> Order {
    query::rising(term::column("w"@, "node_id"@))
}

/// The query of everything that a traversal gives back.
pub open spec fn projected() -> Query {
    query::ordered(live_nodes(false, Gap::Line(0)), Gap::Line(0), by_node())
}

/// The number of rows of the walk, and a node.
#[verifier::opaque]
pub open spec fn counted_columns() -> Cols {
    query::also(
        query::one(term::column("r"@, "n"@), "n"@),
        Gap::Blank,
        term::column("w"@, "node_id"@),
        "node_id"@,
    )
}

/// Always.
#[verifier::opaque]
pub open spec fn always() -> Cond {
    term::eq(term::number(1), term::number(1))
}

/// The number of rows of the walk beside each node.
pub open spec fn counted() -> Source {
    query::left_join_query(
        query::nested_as(query::counted_as("walk"@, "n"@), Gap::Tight, Gap::Tight, "r"@),
        Gap::Line(0),
        live_nodes(true, Gap::Line(4)),
        Gap::Line(4),
        Gap::Line(0),
        "w"@,
        always(),
    )
}

/// The query of what a traversal with a ceiling gives back.
pub open spec fn projected_with_count() -> Query {
    query::ordered(query::select_all(counted_columns(), Gap::Line(0), counted()), Gap::Line(0), by_node())
}

/// Whether a row of the walk is of a node that is not retired.
pub open spec fn is_live(w: World, a: int) -> bool {
    &&& 0 <= a < w.rows("walk"@).len()
    &&& exists|c: int|
        0 <= c < w.rows("concepts"@).len() && term::equal(
            (#[trigger] w.rows("concepts"@)[c])("id"@),
            w.rows("walk"@)[a]("node_id"@),
        ) && w.rows("concepts"@)[c]("retired"@) == SqlView::Integer(0)
}

/// Whether a node is one that the walk reached and that is not retired.
pub open spec fn is_live_node(w: World, node: SqlView) -> bool {
    exists|a: int| #[trigger] is_live(w, a) && w.rows("walk"@)[a]("node_id"@) == node
}

/// Whether `out` holds a node.
pub open spec fn is_named(out: Seq<Row>, node: SqlView) -> bool {
    exists|k: int| 0 <= k < out.len() && (#[trigger] out[k])("node_id"@) == node
}

/// Whether `out` names, once each, the nodes that the walk reached and that are
/// not retired.
pub open spec fn are_live_nodes(w: World, out: Seq<Row>) -> bool {
    &&& forall|k: int| 0 <= k < out.len() ==> #[trigger] is_live_node(w, out[k]("node_id"@))
    &&& forall|k: int, l: int|
        0 <= k < l < out.len() ==> (#[trigger] out[k])("node_id"@) != (#[trigger] out[l])("node_id"@)
    &&& forall|a: int| is_live(w, a) ==> #[trigger] is_named(out, w.rows("walk"@)[a]("node_id"@))
}

proof fn lemma_pieces_text()
    ensures
        node_column(false).text == "w.node_id"@,
        node_column(true).text == "w.node_id AS node_id"@,
        walked().text == "walk w JOIN concepts c ON c.id = w.node_id"@,
        not_retired().text == "c.retired = 0"@,
        by_node().text == "w.node_id"@,
        counted_columns().text == "r.n, w.node_id"@,
        always().text == "1 = 1"@,
{
    reveal(node_column);
    reveal(its_concept);
    reveal(not_retired);
    reveal(by_node);
    reveal(counted_columns);
    reveal(always);
    reveal_with_fuel(text::decimal, 2);
    reveal_strlit("w.node_id");
    reveal_strlit("w.node_id AS node_id");
    reveal_strlit("walk w JOIN concepts c ON c.id = w.node_id");
    reveal_strlit("c.retired = 0");
    reveal_strlit("r.n, w.node_id");
    reveal_strlit("1 = 1");
    reveal_strlit("node_id");
    reveal_strlit("retired");
    reveal_strlit("concepts");
    reveal_strlit("walk");
    reveal_strlit("id");
    reveal_strlit("n");
    reveal_strlit("w");
    reveal_strlit("c");
    reveal_strlit("r");
    reveal_strlit(".");
    reveal_strlit("=");
    reveal_strlit(" ");
    reveal_strlit(",");
    reveal_strlit(" AS ");
    reveal_strlit("JOIN ");
    reveal_strlit(" ON ");
}

proof fn lemma_projected_text()
    ensures
        builder::PROJECTION@ == Gap::Line(0).text() + projected().text + ";"@ + Gap::Line(12).text(),
{
    lemma_pieces_text();
    reveal_strlit(
        r"
SELECT DISTINCT w.node_id
FROM walk w JOIN concepts c ON c.id = w.node_id
WHERE c.retired = 0
ORDER BY w.node_id;
            ",
    );
    reveal_strlit("w.node_id");
    reveal_strlit("walk w JOIN concepts c ON c.id = w.node_id");
    reveal_strlit("c.retired = 0");
    reveal_strlit("SELECT DISTINCT ");
    reveal_strlit("FROM ");
    reveal_strlit("WHERE ");
    reveal_strlit("ORDER BY ");
    reveal_strlit(";");
}

proof fn lemma_counted_text()
    ensures
        builder::LIMITED_PROJECTION@ == Gap::Line(0).text() + projected_with_count().text + ";"@ + Gap::Line(
            12,
        ).text(),
{
    lemma_pieces_text();
    reveal_strlit(
        r"
SELECT r.n, w.node_id
FROM (SELECT COUNT(*) AS n FROM walk) r
LEFT JOIN (
    SELECT DISTINCT w.node_id AS node_id
    FROM walk w JOIN concepts c ON c.id = w.node_id
    WHERE c.retired = 0
) w ON 1 = 1
ORDER BY w.node_id;
            ",
    );
    reveal_strlit("w.node_id");
    reveal_strlit("w.node_id AS node_id");
    reveal_strlit("walk w JOIN concepts c ON c.id = w.node_id");
    reveal_strlit("c.retired = 0");
    reveal_strlit("r.n, w.node_id");
    reveal_strlit("1 = 1");
    reveal_strlit("walk");
    reveal_strlit("n");
    reveal_strlit("r");
    reveal_strlit("w");
    reveal_strlit(" ");
    reveal_strlit("(");
    reveal_strlit(")");
    reveal_strlit(") ");
    reveal_strlit("SELECT COUNT(*) AS ");
    reveal_strlit(" FROM ");
    reveal_strlit("LEFT JOIN (");
    reveal_strlit(" ON ");
    reveal_strlit("SELECT ");
    reveal_strlit("SELECT DISTINCT ");
    reveal_strlit("FROM ");
    reveal_strlit("WHERE ");
    reveal_strlit("ORDER BY ");
    reveal_strlit(";");
}

proof fn lemma_walked_scope(w: World, said: bool, at: Row, c: Row)
    ensures
        ({
            let s = query::paired(w, at, "c"@, c);
            &&& its_concept().of(s) <==> term::equal(c("id"@), at("node_id"@))
            &&& not_retired().of(s) <==> c("retired"@) == SqlView::Integer(0)
            &&& node_column(said).of(s)("node_id"@) == at("node_id"@)
        }),
        node_column(said).names == seq!["node_id"@],
{
    reveal(its_concept);
    reveal(not_retired);
    reveal(node_column);
    names::lemma_aliases();
    let s = query::paired(w, at, "c"@, c);
    assert(s.read("c"@, "id"@) == c("id"@));
    assert(s.read("c"@, "retired"@) == c("retired"@));
    assert(s.read("w"@, "node_id"@) == at("node_id"@));
}

/// What the nodes that are not retired are.
proof fn lemma_live_nodes(said: bool, gap: Gap, w: World, out: Seq<Row>)
    requires
        live_nodes(said, gap).answers(w, out),
    ensures
        are_live_nodes(w, out),
{
    let (ws, cs) = (w.rows("walk"@), w.rows("concepts"@));
    let (pairs, all) = query::lemma_distinct_join(
        node_column(said),
        gap,
        query::table_as("walk"@, "w"@),
        "walk"@,
        Gap::Blank,
        " "@,
        "concepts"@,
        "c"@,
        its_concept(),
        gap,
        not_retired(),
        w,
        out,
    );
    let names = node_column(said).names;
    lemma_walked_scope(w, said, query::nothing(), query::nothing());
    assert(names[0] == "node_id"@);
    assert forall|k: int| 0 <= k < out.len() implies #[trigger] is_live_node(w, out[k]("node_id"@)) by {
        assert(query::is_like_one(names, all, out[k]));
        let m = choose|m: int| 0 <= m < all.len() && query::same_in(names, #[trigger] all[m], out[k]);
        assert(all[m](names[0]) == out[k](names[0]));
        let (a, c) = pairs[m];
        lemma_walked_scope(w, said, ws[a], cs[c]);
        assert(is_live(w, a));
    }
    assert forall|k: int, l: int| 0 <= k < l < out.len() implies (#[trigger] out[k])("node_id"@) != (
    #[trigger] out[l])("node_id"@) by {
        if out[k]("node_id"@) == out[l]("node_id"@) {
            assert(query::same_in(names, out[k], out[l]));
        }
    }
    assert forall|a: int| is_live(w, a) implies #[trigger] is_named(out, w.rows("walk"@)[a]("node_id"@)) by {
        let c = choose|c: int|
            0 <= c < cs.len() && term::equal((#[trigger] cs[c])("id"@), ws[a]("node_id"@)) && cs[c]("retired"@)
                == SqlView::Integer(0);
        lemma_walked_scope(w, said, ws[a], cs[c]);
        assert(query::is_among(pairs, a, c));
        let m = choose|m: int| 0 <= m < pairs.len() && #[trigger] pairs[m] == (a, c);
        assert(query::is_like_one(names, out, all[m]));
        let k = choose|k: int| 0 <= k < out.len() && query::same_in(names, #[trigger] out[k], all[m]);
        assert(out[k](names[0]) == all[m](names[0]));
    }
}

/// A traversal gives back, once each and in order, exactly the nodes that its walk
/// reached and that are not retired.
pub proof fn law_a_traversal_gives_what_is_not_retired(w: World, out: Seq<Row>)
    requires
        projected().answers(w, out),
    ensures
        builder::PROJECTION@ == Gap::Line(0).text() + projected().text + ";"@ + Gap::Line(12).text(),
        are_live_nodes(w, out),
        forall|k: int, l: int|
            0 <= k < l < out.len() ==> !term::before((#[trigger] out[l])("node_id"@), (#[trigger] out[k])("node_id"@)),
{
    lemma_projected_text();
    lemma_live_nodes(false, Gap::Line(0), w, out);
    assert forall|k: int, l: int| 0 <= k < l < out.len() implies !term::before(
        (#[trigger] out[l])("node_id"@),
        (#[trigger] out[k])("node_id"@),
    ) by {
        assert(!by_node().puts(w.over(out[l]), w.over(out[k])));
        reveal(by_node);
        assert(w.over(out[l]).read("w"@, "node_id"@) == out[l]("node_id"@));
        assert(w.over(out[k]).read("w"@, "node_id"@) == out[k]("node_id"@));
    }
}

/// A traversal with a ceiling says in every row how many rows its walk had. It
/// gives back the same nodes, once each, and a row without a node exactly where
/// there is none.
pub proof fn law_a_ceiling_tells_how_far_it_got(w: World, out: Seq<Row>) -> (nodes: Seq<Row>)
    requires
        projected_with_count().answers(w, out),
    ensures
        builder::LIMITED_PROJECTION@ == Gap::Line(0).text() + projected_with_count().text + ";"@ + Gap::Line(
            12,
        ).text(),
        are_live_nodes(w, nodes),
        forall|k: int|
            0 <= k < out.len() ==> (#[trigger] out[k])("n"@) == SqlView::Integer(w.rows("walk"@).len() as i64),
        nodes.len() == 0 ==> out.len() == 1 && out[0]("node_id"@) is Null,
        nodes.len() > 0 ==> out.len() == nodes.len(),
        nodes.len() > 0 ==> forall|k: int| 0 <= k < out.len() ==> #[trigger] is_named(nodes, out[k]("node_id"@)),
        forall|k: int| 0 <= k < nodes.len() ==> #[trigger] is_named(out, nodes[k]("node_id"@)),
{
    lemma_counted_text();
    let q = query::select_all(counted_columns(), Gap::Line(0), counted());
    assert(q.answers(w, out));
    let (list, picked) = choose|list: Seq<Scope>, picked: Seq<int>| #[trigger]
        counted().has(w, list) && #[trigger] query::selects(
            counted_columns(),
            list,
            query::everything(),
            picked,
            out,
        );
    let first = query::nested_as(query::counted_as("walk"@, "n"@), Gap::Tight, Gap::Tight, "r"@);
    let inner = live_nodes(true, Gap::Line(4));
    let (base, nodes, pairs) = choose|base: Seq<Scope>, sub: Seq<Row>, pairs: Seq<(int, int)>| #[trigger]
        query::left_joins(first, inner, "w"@, always(), w, base, sub, pairs, list);
    lemma_live_nodes(true, Gap::Line(4), w, nodes);
    let sub = choose|sub: Seq<Row>| #[trigger]
        query::read_from(query::counted_as("walk"@, "n"@), w, sub, base);
    let n = w.rows("walk"@).len() as int;
    let row = query::one_number("n"@, n);
    assert(sub == seq![row]);
    assert(base.len() == 1 && base[0] == w.over(row));
    assert forall|s: Scope| #[trigger] always().of(s) by {
        reveal(always);
    }
    let p = |i: int, j: int|
        query::joins(base, nodes, "w"@, always(), i, j) || (0 <= i < base.len() && j == -1 && query::is_alone(
            base,
            nodes,
            "w"@,
            always(),
            i,
        ));
    assert(query::once_each(pairs, p));
    assert forall|i: int, j: int| #[trigger] p(i, j) <==> i == 0 && ((0 <= j < nodes.len()) || (j == -1 && nodes.len() == 0)) by {
        if nodes.len() > 0 {
            assert(always().of(query::beside(base[0], "w"@, nodes[0])));
        }
    }
    assert forall|m: int| 0 <= m < list.len() implies pairs[m].0 == 0 && counted_columns().of(#[trigger] list[m])("n"@)
        == SqlView::Integer(n as i64) && counted_columns().of(list[m])("node_id"@) == (if pairs[m].1 < 0 {
        SqlView::Null
    } else {
        nodes[pairs[m].1]("node_id"@)
    }) by {
        assert(p(pairs[m].0, pairs[m].1));
        reveal(counted_columns);
        names::lemma_columns();
        names::lemma_aliases();
        reveal_strlit("n");
        reveal_strlit("r");
        assert("r"@[0] == 'r');
    }
    lemma_same_length(list, picked);
    assert forall|k: int| 0 <= k < out.len() implies (#[trigger] out[k])("n"@) == SqlView::Integer(n as i64) by {
        assert(0 <= picked[k] < list.len());
    }
    lemma_pairs_count(pairs, nodes.len(), p);
    if nodes.len() == 0 {
        assert(p(pairs[picked[0]].0, pairs[picked[0]].1));
    } else {
        assert forall|k: int| 0 <= k < out.len() implies #[trigger] is_named(nodes, out[k]("node_id"@)) by {
            assert(0 <= picked[k] < list.len());
            assert(p(pairs[picked[k]].0, pairs[picked[k]].1));
            assert(nodes[pairs[picked[k]].1]("node_id"@) == out[k]("node_id"@));
        }
    }
    assert forall|k: int| 0 <= k < nodes.len() implies #[trigger] is_named(out, nodes[k]("node_id"@)) by {
        assert(p(0, k));
        assert(pairs.contains((0int, k)));
        let m = choose|m: int| 0 <= m < pairs.len() && pairs[m] == (0int, k);
        assert(query::everything().of(list[m]));
        assert(picked.contains(m));
        let l = choose|l: int| 0 <= l < picked.len() && picked[l] == m;
        assert(out[l]("node_id"@) == nodes[k]("node_id"@));
    }
    nodes
}

/// What is picked of everything is everything.
proof fn lemma_same_length(list: Seq<Scope>, picked: Seq<int>)
    requires
        query::picks(list, query::everything(), picked),
    ensures
        picked.len() == list.len(),
{
    assert(picked.no_duplicates()) by {
        assert forall|i: int, j: int| 0 <= i < picked.len() && 0 <= j < picked.len() && i != j implies picked[i]
            != picked[j] by {
            if i < j {
                assert(picked[i] != picked[j]);
            } else {
                assert(picked[j] != picked[i]);
            }
        }
    }
    picked.unique_seq_to_set();
    let all = vstd::set_lib::set_int_range(0, list.len() as int);
    vstd::set_lib::lemma_int_range(0, list.len() as int);
    assert(picked.to_set() =~= all) by {
        assert forall|i: int| all.contains(i) implies picked.to_set().contains(i) by {
            assert(query::everything().of(list[i]));
        }
    }
}

/// One pair for each node, or one alone.
proof fn lemma_pairs_count(pairs: Seq<(int, int)>, n: nat, p: spec_fn(int, int) -> bool)
    requires
        query::once_each(pairs, p),
        forall|i: int, j: int| #[trigger] p(i, j) <==> i == 0 && ((0 <= j < n) || (j == -1 && n == 0)),
    ensures
        pairs.len() == (if n == 0 {
            1
        } else {
            n
        }),
{
    let js = Seq::new(pairs.len(), |k: int| pairs[k].1);
    assert(js.no_duplicates()) by {
        assert forall|k: int, l: int| 0 <= k < js.len() && 0 <= l < js.len() && k != l implies js[k] != js[l] by {
            assert(p(pairs[k].0, pairs[k].1) && p(pairs[l].0, pairs[l].1));
            if k < l {
                assert(pairs[k] != pairs[l]);
            } else {
                assert(pairs[l] != pairs[k]);
            }
        }
    }
    js.unique_seq_to_set();
    let (low, high) = if n == 0 {
        (-1int, 0int)
    } else {
        (0int, n as int)
    };
    let all = vstd::set_lib::set_int_range(low, high);
    vstd::set_lib::lemma_int_range(low, high);
    assert(js.to_set() =~= all) by {
        assert forall|j: int| all.contains(j) implies js.to_set().contains(j) by {
            assert(p(0, j));
            assert(pairs.contains((0int, j)));
            let k = choose|k: int| 0 <= k < pairs.len() && pairs[k] == (0int, j);
            assert(js[k] == j);
        }
        assert forall|j: int| js.to_set().contains(j) implies all.contains(j) by {
            let k = choose|k: int| 0 <= k < js.len() && js[k] == j;
            assert(p(pairs[k].0, pairs[k].1));
        }
    }
}

} // verus!
