//! Queries.

use vstd::prelude::*;

use crate::relation::term;
use crate::relation::term::{Cond, Gap, Row, Scope, Term};
use crate::sql::SqlView;
use crate::text;

verus! {

/// What a statement is run on: the tables, what is bound, and what the engine's
/// own functions answer. The rows of a table stand in no order that means
/// anything.
pub struct World {
    pub tables: spec_fn(Seq<char>) -> Seq<Row>,
    pub bound: Seq<SqlView>,
    pub calls: spec_fn(Seq<char>, Seq<SqlView>) -> SqlView,
}

impl World {
    /// The scope in which `row` is the only one.
    pub open spec fn over(self, row: Row) -> Scope {
        Scope { rows: |n: Seq<char>| row, bound: self.bound, calls: self.calls }
    }

    /// The scope of no row.
    pub open spec fn nowhere(self) -> Scope {
        self.over(|c: Seq<char>| SqlView::Null)
    }

    /// The same tables and one more.
    pub open spec fn with(self, name: Seq<char>, rows: Seq<Row>) -> World {
        World {
            tables: |n: Seq<char>|
                if n == name {
                    rows
                } else {
                    (self.tables)(n)
                },
            ..self
        }
    }

    /// The rows of a table.
    pub open spec fn rows(self, name: Seq<char>) -> Seq<Row> {
        (self.tables)(name)
    }
}

/// A query: the names of its columns, and which rows it may give back.
pub struct Query {
    pub text: Seq<char>,
    /// The names of its columns, as a list.
    pub header: Seq<char>,
    pub names: Seq<Seq<char>>,
    pub gives: spec_fn(World, Seq<Row>) -> bool,
}

impl Query {
    /// Whether the query may give back these rows.
    pub open spec fn answers(self, w: World, out: Seq<Row>) -> bool {
        (self.gives)(w, out)
    }
}

/// What a query reads: which scopes it goes through.
pub struct Source {
    pub text: Seq<char>,
    pub lists: spec_fn(World, Seq<Scope>) -> bool,
}

impl Source {
    /// Whether the scopes are those that a query goes through.
    pub open spec fn has(self, w: World, list: Seq<Scope>) -> bool {
        (self.lists)(w, list)
    }
}

/// The scopes of rows.
pub open spec fn scopes(w: World, rows: Seq<Row>) -> Seq<Scope> {
    rows.map_values(|r: Row| w.over(r))
}

/// A table.
pub open spec fn table(name: Seq<char>) -> Source {
    Source { text: name, lists: |w: World, list: Seq<Scope>| list == scopes(w, w.rows(name)) }
}

/// A table under another name.
pub open spec fn table_as(name: Seq<char>, alias: Seq<char>) -> Source {
    Source { text: name + " "@ + alias, ..table(name) }
}

/// A table under another name, with the word for it.
pub open spec fn table_as_word(name: Seq<char>, alias: Seq<char>) -> Source {
    Source { text: name + " AS "@ + alias, ..table(name) }
}

/// Whether `sub` are rows that a query may give back, and `list` their scopes.
pub open spec fn read_from(q: Query, w: World, sub: Seq<Row>, list: Seq<Scope>) -> bool {
    q.answers(w, sub) && list == scopes(w, sub)
}

/// A query that is read from.
pub open spec fn nested(q: Query, open: Gap, close: Gap) -> Source {
    Source {
        text: "("@ + open.text() + q.text + close.text() + ")"@,
        lists: |w: World, list: Seq<Scope>| exists|sub: Seq<Row>| #[trigger] read_from(q, w, sub, list),
    }
}

/// Whether `list` holds exactly the pairs for which `p`, once each.
pub open spec fn once_each(list: Seq<(int, int)>, p: spec_fn(int, int) -> bool) -> bool {
    &&& forall|k: int| 0 <= k < list.len() ==> p((#[trigger] list[k]).0, list[k].1)
    &&& forall|i: int, j: int| #[trigger] p(i, j) ==> list.contains((i, j))
    &&& forall|k: int, l: int| 0 <= k < l < list.len() ==> #[trigger] list[k] != #[trigger] list[l]
}

/// The scope of a row beside another scope.
pub open spec fn beside(s: Scope, alias: Seq<char>, row: Row) -> Scope {
    s.with(alias, row)
}

/// Whether `i` and `j` are joined.
pub open spec fn joins(base: Seq<Scope>, rows: Seq<Row>, alias: Seq<char>, on: Cond, i: int, j: int) -> bool {
    0 <= i < base.len() && 0 <= j < rows.len() && on.of(beside(base[i], alias, rows[j]))
}

/// Whether `list` holds each scope of `base` beside each of `rows` that it is
/// joined to.
pub open spec fn is_join(
    base: Seq<Scope>,
    rows: Seq<Row>,
    alias: Seq<char>,
    on: Cond,
    pairs: Seq<(int, int)>,
    list: Seq<Scope>,
) -> bool {
    &&& once_each(pairs, |i: int, j: int| joins(base, rows, alias, on, i, j))
    &&& list.len() == pairs.len()
    &&& forall|k: int|
        0 <= k < list.len() ==> #[trigger] list[k] == beside(base[pairs[k].0], alias, rows[pairs[k].1])
}

/// A table joined to what is read before it.
pub open spec fn join(f: Source, gap: Gap, word: Seq<char>, name: Seq<char>, alias: Seq<char>, on: Cond) -> Source {
    Source {
        text: f.text + gap.text() + "JOIN "@ + name + word + alias + " ON "@ + on.text,
        lists: |w: World, list: Seq<Scope>|
            exists|base: Seq<Scope>, pairs: Seq<(int, int)>| #[trigger]
                f.has(w, base) && #[trigger] is_join(base, w.rows(name), alias, on, pairs, list),
    }
}

/// The columns that a query gives back.
pub struct Cols {
    pub text: Seq<char>,
    /// Their names, as a list.
    pub header: Seq<char>,
    pub names: Seq<Seq<char>>,
    pub row: spec_fn(Scope) -> Row,
}

impl Cols {
    /// The row of a scope.
    pub open spec fn of(self, s: Scope) -> Row {
        (self.row)(s)
    }
}

/// One column.
pub open spec fn one(t: Term, name: Seq<char>) -> Cols {
    Cols {
        text: t.text,
        header: name,
        names: seq![name],
        row: |s: Scope| |c: Seq<char>|
            if c == name {
                t.of(s)
            } else {
                SqlView::Null
            },
    }
}

/// One more column.
pub open spec fn also(cols: Cols, gap: Gap, t: Term, name: Seq<char>) -> Cols {
    Cols {
        text: cols.text + ","@ + gap.text() + t.text,
        header: cols.header + ", "@ + name,
        names: cols.names.push(name),
        row: |s: Scope| |c: Seq<char>|
            if c == name {
                t.of(s)
            } else {
                cols.of(s)(c)
            },
    }
}

/// Every row.
pub open spec fn everything() -> Cond {
    Cond { text: Seq::empty(), holds: |s: Scope| Some(true), loose: false }
}

/// Whether `picked` are the scopes for which a condition holds, once each and in
/// any order.
pub open spec fn picks(list: Seq<Scope>, cond: Cond, picked: Seq<int>) -> bool {
    &&& forall|k: int|
        0 <= k < picked.len() ==> 0 <= #[trigger] picked[k] < list.len() && cond.of(list[picked[k]])
    &&& forall|i: int| 0 <= i < list.len() && cond.of(#[trigger] list[i]) ==> picked.contains(i)
    &&& forall|k: int, l: int| 0 <= k < l < picked.len() ==> #[trigger] picked[k] != #[trigger] picked[l]
}

/// Whether `out` holds the columns of what was picked.
pub open spec fn shows(cols: Cols, list: Seq<Scope>, picked: Seq<int>, out: Seq<Row>) -> bool {
    &&& out.len() == picked.len()
    &&& forall|k: int| 0 <= k < out.len() ==> #[trigger] out[k] == cols.of(list[picked[k]])
}

/// Whether `out` are the columns of those scopes for which a condition holds.
pub open spec fn selects(cols: Cols, list: Seq<Scope>, cond: Cond, picked: Seq<int>, out: Seq<Row>) -> bool {
    picks(list, cond, picked) && shows(cols, list, picked, out)
}

/// The columns of what a condition holds for.
pub open spec fn select(cols: Cols, g1: Gap, from: Source, g2: Gap, cond: Cond) -> Query {
    Query {
        text: "SELECT "@ + cols.text + g1.text() + "FROM "@ + from.text + g2.text() + "WHERE "@ + cond.text,
        header: cols.header,
        names: cols.names,
        gives: |w: World, out: Seq<Row>|
            exists|list: Seq<Scope>, picked: Seq<int>| #[trigger]
                from.has(w, list) && #[trigger] selects(cols, list, cond, picked, out),
    }
}

/// The columns of everything that is read.
pub open spec fn select_all(cols: Cols, g1: Gap, from: Source) -> Query {
    Query {
        text: "SELECT "@ + cols.text + g1.text() + "FROM "@ + from.text,
        ..select(cols, g1, from, g1, everything())
    }
}

/// The one row of columns that are read from nowhere.
pub open spec fn single(cols: Cols) -> Query {
    Query {
        text: "SELECT "@ + cols.text,
        header: cols.header,
        names: cols.names,
        gives: |w: World, out: Seq<Row>| out == seq![cols.of(w.nowhere())],
    }
}

/// Whether `out` holds what `a` and what `b` give back, one after the other.
pub open spec fn both(a: Query, b: Query, w: World, x: Seq<Row>, y: Seq<Row>, out: Seq<Row>) -> bool {
    a.answers(w, x) && b.answers(w, y) && out == x + y
}

/// What two queries give back, all of it. Columns that do not go by the same
/// names may come to anything.
pub open spec fn union_all(a: Query, gap: Gap, b: Query) -> Query {
    Query {
        text: a.text + gap.text() + "UNION ALL"@ + gap.text() + b.text,
        header: a.header,
        names: a.names,
        gives: |w: World, out: Seq<Row>| a.names != b.names || exists|x: Seq<Row>, y: Seq<Row>| #[trigger] both(a, b, w, x, y, out),
    }
}

/// An order of rows: which of two comes first.
pub struct Order {
    pub text: Seq<char>,
    pub ahead: spec_fn(Scope, Scope) -> bool,
}

impl Order {
    /// Whether the row of `a` comes before that of `b`.
    pub open spec fn puts(self, a: Scope, b: Scope) -> bool {
        (self.ahead)(a, b)
    }
}

/// The least first.
pub open spec fn rising(t: Term) -> Order {
    Order { text: t.text, ahead: |a: Scope, b: Scope| term::before(t.of(a), t.of(b)) }
}

/// The least first, with the word for it.
pub open spec fn ascending(t: Term) -> Order {
    Order { text: t.text + " ASC"@, ..rising(t) }
}

/// The greatest first.
pub open spec fn descending(t: Term) -> Order {
    Order { text: t.text + " DESC"@, ahead: |a: Scope, b: Scope| term::before(t.of(b), t.of(a)) }
}

/// One order, and among equals another.
pub open spec fn thereupon(a: Order, b: Order) -> Order {
    Order {
        text: a.text + ", "@ + b.text,
        ahead: |x: Scope, y: Scope| a.puts(x, y) || (!a.puts(y, x) && b.puts(x, y)),
    }
}

/// Whether rows stand in an order.
pub open spec fn stand(o: Order, w: World, out: Seq<Row>) -> bool {
    forall|i: int, j: int| 0 <= i < j < out.len() ==> !o.puts(w.over(#[trigger] out[j]), w.over(#[trigger] out[i]))
}

/// The rows of a query in the order of columns that it gives back.
pub open spec fn ordered(q: Query, gap: Gap, o: Order) -> Query {
    Query {
        text: q.text + gap.text() + "ORDER BY "@ + o.text,
        header: q.header,
        names: q.names,
        gives: |w: World, out: Seq<Row>| q.answers(w, out) && stand(o, w, out),
    }
}

/// The first `k` rows, or all.
pub open spec fn first(out: Seq<Row>, k: int) -> Seq<Row> {
    if k < 0 || out.len() <= k {
        out
    } else {
        out.take(k)
    }
}

/// Whether `out` are the first `k` of what a query may give back.
pub open spec fn cut(q: Query, w: World, k: int, full: Seq<Row>, out: Seq<Row>) -> bool {
    q.answers(w, full) && out == first(full, k)
}

/// The first rows of a query: as many as `k` comes to, all where that is less
/// than nought.
pub open spec fn limited(q: Query, gap: Gap, k: Term) -> Query {
    Query {
        text: q.text + gap.text() + "LIMIT "@ + k.text,
        header: q.header,
        names: q.names,
        gives: |w: World, out: Seq<Row>|
            k.of(w.nowhere()) matches SqlView::Integer(n) && exists|full: Seq<Row>| #[trigger]
                cut(q, w, n as int, full, out),
    }
}

/// The position of a column among those of a query.
pub open spec fn position(cols: Cols, n: nat) -> Term {
    Term { text: text::decimal(n), value: |s: Scope| s.read(Seq::empty(), cols.names[n - 1]) }
}

/// A query under a name, for those that come after it.
pub struct Named {
    pub text: Seq<char>,
    pub name: Seq<char>,
    pub query: Query,
}

/// A query under a name, its columns listed.
pub open spec fn named(name: Seq<char>, word: Seq<char>, g1: Gap, q: Query, g2: Gap) -> Named {
    Named {
        text: name + "("@ + q.header + ") AS"@ + word + " ("@ + g1.text() + q.text + g2.text() + ")"@,
        name,
        query: q,
    }
}

/// How a table and one joined to it are gone through.
pub proof fn lemma_join(f: Source, gap: Gap, word: Seq<char>, name: Seq<char>, alias: Seq<char>, on: Cond, w: World, list: Seq<
    Scope,
>) -> (r: (Seq<Scope>, Seq<(int, int)>))
    requires
        join(f, gap, word, name, alias, on).has(w, list),
    ensures
        f.has(w, r.0),
        is_join(r.0, w.rows(name), alias, on, r.1, list),
{
    let (base, pairs) = choose|base: Seq<Scope>, pairs: Seq<(int, int)>| #[trigger]
        f.has(w, base) && #[trigger] is_join(base, w.rows(name), alias, on, pairs, list);
    (base, pairs)
}

/// Two that are joined stand beside each other once.
pub proof fn lemma_joined(
    base: Seq<Scope>,
    rows: Seq<Row>,
    alias: Seq<char>,
    on: Cond,
    pairs: Seq<(int, int)>,
    list: Seq<Scope>,
    i: int,
    j: int,
) -> (k: int)
    requires
        is_join(base, rows, alias, on, pairs, list),
        joins(base, rows, alias, on, i, j),
    ensures
        0 <= k < list.len(),
        list[k] == beside(base[i], alias, rows[j]),
        pairs[k] == (i, j),
{
    let p = |i: int, j: int| joins(base, rows, alias, on, i, j);
    assert(p(i, j));
    assert(pairs.contains((i, j)));
    choose|k: int| 0 <= k < pairs.len() && pairs[k] == (i, j)
}

/// What stands beside each other is joined.
pub proof fn lemma_is_joined(
    base: Seq<Scope>,
    rows: Seq<Row>,
    alias: Seq<char>,
    on: Cond,
    pairs: Seq<(int, int)>,
    list: Seq<Scope>,
    k: int,
)
    requires
        is_join(base, rows, alias, on, pairs, list),
        0 <= k < list.len(),
    ensures
        joins(base, rows, alias, on, pairs[k].0, pairs[k].1),
        list[k] == beside(base[pairs[k].0], alias, rows[pairs[k].1]),
{
    let p = |i: int, j: int| joins(base, rows, alias, on, i, j);
    assert(p(pairs[k].0, pairs[k].1));
}

/// The scope of a row of one table beside a row of another.
pub open spec fn paired(w: World, a: Row, alias: Seq<char>, b: Row) -> Scope {
    beside(w.over(a), alias, b)
}

/// Whether a pair is among others.
pub open spec fn is_among(pairs: Seq<(int, int)>, i: int, j: int) -> bool {
    exists|k: int| 0 <= k < pairs.len() && #[trigger] pairs[k] == (i, j)
}

/// Whether `out` shows, once each, the rows of one table beside those of another
/// for which two conditions hold.
pub open spec fn shows_pairs(
    cols: Cols,
    w: World,
    xs: Seq<Row>,
    ys: Seq<Row>,
    alias: Seq<char>,
    on: Cond,
    cond: Cond,
    pairs: Seq<(int, int)>,
    out: Seq<Row>,
) -> bool {
    &&& out.len() == pairs.len()
    &&& forall|k: int|
        0 <= k < out.len() ==> {
            let (i, j) = #[trigger] pairs[k];
            let s = paired(w, xs[i], alias, ys[j]);
            0 <= i < xs.len() && 0 <= j < ys.len() && on.of(s) && cond.of(s) && out[k] == cols.of(s)
        }
    &&& forall|k: int, l: int| 0 <= k < l < out.len() ==> #[trigger] pairs[k] != #[trigger] pairs[l]
    &&& forall|i: int, j: int|
        0 <= i < xs.len() && 0 <= j < ys.len() && on.of(paired(w, xs[i], alias, ys[j])) && cond.of(
            paired(w, xs[i], alias, ys[j]),
        ) ==> #[trigger] is_among(pairs, i, j)
}

/// What a query over two joined tables shows.
pub proof fn lemma_select_join(
    cols: Cols,
    g1: Gap,
    f: Source,
    base: Seq<char>,
    gap: Gap,
    word: Seq<char>,
    name: Seq<char>,
    alias: Seq<char>,
    on: Cond,
    g2: Gap,
    cond: Cond,
    w: World,
    out: Seq<Row>,
) -> (shown: Seq<(int, int)>)
    requires
        f.lists == table(base).lists,
        select(cols, g1, join(f, gap, word, name, alias, on), g2, cond).answers(w, out),
    ensures
        shows_pairs(cols, w, w.rows(base), w.rows(name), alias, on, cond, shown, out),
{
    let source = join(f, gap, word, name, alias, on);
    let (list, picked) = choose|list: Seq<Scope>, picked: Seq<int>| #[trigger]
        source.has(w, list) && #[trigger] selects(cols, list, cond, picked, out);
    let (xs, pairs) = lemma_join(f, gap, word, name, alias, on, w, list);
    assert(table(base).has(w, xs));
    let (rows, ys) = (w.rows(base), w.rows(name));
    let shown = Seq::new(picked.len(), |k: int| pairs[picked[k]]);
    assert forall|k: int| 0 <= k < out.len() implies {
        let (i, j) = #[trigger] shown[k];
        let s = paired(w, rows[i], alias, ys[j]);
        0 <= i < rows.len() && 0 <= j < ys.len() && on.of(s) && cond.of(s) && out[k] == cols.of(s)
    } by {
        assert(0 <= picked[k] < list.len());
        lemma_is_joined(xs, ys, alias, on, pairs, list, picked[k]);
    }
    assert forall|k: int, l: int| 0 <= k < l < out.len() implies #[trigger] shown[k] != #[trigger] shown[l] by {
        assert(picked[k] != picked[l]);
        assert(0 <= picked[k] < list.len() && 0 <= picked[l] < list.len());
        if picked[k] < picked[l] {
            assert(pairs[picked[k]] != pairs[picked[l]]);
        } else {
            assert(pairs[picked[l]] != pairs[picked[k]]);
        }
    }
    assert forall|i: int, j: int|
        0 <= i < rows.len() && 0 <= j < ys.len() && on.of(paired(w, rows[i], alias, ys[j])) && cond.of(
            paired(w, rows[i], alias, ys[j]),
        ) implies #[trigger] is_among(shown, i, j) by {
        assert(xs[i] == w.over(rows[i]));
        let m = lemma_joined(xs, ys, alias, on, pairs, list, i, j);
        assert(picked.contains(m));
        let k = choose|k: int| 0 <= k < picked.len() && picked[k] == m;
        assert(shown[k] == (i, j));
    }
    shown
}

/// Whether a row is among others.
pub open spec fn is_one_of(picked: Seq<int>, i: int) -> bool {
    exists|k: int| 0 <= k < picked.len() && #[trigger] picked[k] == i
}

/// Whether `out` shows, once each, the rows of a table for which a condition
/// holds.
pub open spec fn shows_rows(cols: Cols, w: World, rows: Seq<Row>, cond: Cond, picked: Seq<int>, out: Seq<Row>) -> bool {
    &&& out.len() == picked.len()
    &&& forall|k: int|
        0 <= k < out.len() ==> 0 <= #[trigger] picked[k] < rows.len() && cond.of(w.over(rows[picked[k]])) && out[k]
            == cols.of(w.over(rows[picked[k]]))
    &&& forall|k: int, l: int| 0 <= k < l < out.len() ==> #[trigger] picked[k] != #[trigger] picked[l]
    &&& forall|i: int| 0 <= i < rows.len() && cond.of(w.over(rows[i])) ==> #[trigger] is_one_of(picked, i)
}

/// What a query over one table shows.
pub proof fn lemma_select_table(
    cols: Cols,
    g1: Gap,
    f: Source,
    base: Seq<char>,
    g2: Gap,
    cond: Cond,
    w: World,
    out: Seq<Row>,
) -> (picked: Seq<int>)
    requires
        f.lists == table(base).lists,
        select(cols, g1, f, g2, cond).answers(w, out),
    ensures
        shows_rows(cols, w, w.rows(base), cond, picked, out),
{
    let (list, picked) = choose|list: Seq<Scope>, picked: Seq<int>| #[trigger]
        f.has(w, list) && #[trigger] selects(cols, list, cond, picked, out);
    assert(table(base).has(w, list));
    let rows = w.rows(base);
    assert forall|k: int| 0 <= k < out.len() implies 0 <= #[trigger] picked[k] < rows.len() && cond.of(
        w.over(rows[picked[k]]),
    ) && out[k] == cols.of(w.over(rows[picked[k]])) by {
        assert(list[picked[k]] == w.over(rows[picked[k]]));
    }
    assert forall|i: int| 0 <= i < rows.len() && cond.of(w.over(rows[i])) implies #[trigger] is_one_of(picked, i) by {
        assert(list[i] == w.over(rows[i]));
        assert(picked.contains(i));
    }
    picked
}

/// Whether two rows have the same in these columns.
pub open spec fn same_in(names: Seq<Seq<char>>, a: Row, b: Row) -> bool {
    forall|i: int| 0 <= i < names.len() ==> a(#[trigger] names[i]) == b(names[i])
}

/// Whether a row has the same in these columns as one of others.
pub open spec fn is_like_one(names: Seq<Seq<char>>, rows: Seq<Row>, r: Row) -> bool {
    exists|k: int| 0 <= k < rows.len() && same_in(names, #[trigger] rows[k], r)
}

/// Whether `out` holds one of each that are alike of `all`.
pub open spec fn is_distinct(names: Seq<Seq<char>>, all: Seq<Row>, out: Seq<Row>) -> bool {
    &&& forall|k: int| 0 <= k < out.len() ==> #[trigger] is_like_one(names, all, out[k])
    &&& forall|k: int| 0 <= k < all.len() ==> #[trigger] is_like_one(names, out, all[k])
    &&& forall|k: int, l: int| 0 <= k < l < out.len() ==> !same_in(names, #[trigger] out[k], #[trigger] out[l])
}

/// Whether `out` holds one of each that are alike of what a query may give back.
pub open spec fn is_distinct_of(q: Query, w: World, all: Seq<Row>, out: Seq<Row>) -> bool {
    q.answers(w, all) && is_distinct(q.names, all, out)
}

/// The columns of what a condition holds for, one of each that are alike.
pub open spec fn select_distinct(cols: Cols, g1: Gap, from: Source, g2: Gap, cond: Cond) -> Query {
    Query {
        text: "SELECT DISTINCT "@ + cols.text + g1.text() + "FROM "@ + from.text + g2.text() + "WHERE "@ + cond.text,
        header: cols.header,
        names: cols.names,
        gives: |w: World, out: Seq<Row>|
            exists|all: Seq<Row>| #[trigger] is_distinct_of(select(cols, g1, from, g2, cond), w, all, out),
    }
}

/// Whether `step` may give back `row` where it reads `before` alone under `name`.
pub open spec fn follows(step: Query, name: Seq<char>, w: World, before: Row, row: Row) -> bool {
    exists|s: Seq<Row>, k: int|
        #![trigger step.answers(w.with(name, seq![before]), s), s[k]]
        step.answers(w.with(name, seq![before]), s) && 0 <= k < s.len() && s[k] == row
}

/// Whether a row comes up after `n` steps.
pub open spec fn comes_up(base: Query, step: Query, name: Seq<char>, w: World, row: Row, n: nat) -> bool
    decreases n,
{
    if n == 0 {
        exists|b: Seq<Row>, k: int|
            #![trigger base.answers(w, b), b[k]]
            base.answers(w, b) && 0 <= k < b.len() && b[k] == row
    } else {
        exists|before: Row|
            comes_up(base, step, name, w, before, (n - 1) as nat) && #[trigger] follows(step, name, w, before, row)
    }
}

/// Whether a row ever comes up.
pub open spec fn ever_comes_up(base: Query, step: Query, name: Seq<char>, w: World, row: Row) -> bool {
    exists|n: nat| comes_up(base, step, name, w, row, n)
}

/// Whether `out` holds what a query that reads itself may come to: one of each
/// that are alike of the rows that come up, all of them where there is no ceiling,
/// and no more than the ceiling where there is one.
pub open spec fn comes_to(
    base: Query,
    step: Query,
    name: Seq<char>,
    ceiling: Option<Term>,
    w: World,
    out: Seq<Row>,
) -> bool {
    &&& forall|k: int| 0 <= k < out.len() ==> ever_comes_up(base, step, name, w, #[trigger] out[k])
    &&& forall|k: int, l: int| 0 <= k < l < out.len() ==> !same_in(base.names, #[trigger] out[k], #[trigger] out[l])
    &&& match ceiling {
        None => forall|r: Row| #[trigger]
            ever_comes_up(base, step, name, w, r) ==> is_like_one(base.names, out, r),
        Some(t) => t.of(w.nowhere()) matches SqlView::Integer(m) && (0 <= m ==> out.len() <= m),
    }
}

/// A query that reads itself, row by row, and keeps one of each that are alike.
pub open spec fn recursive(
    name: Seq<char>,
    gap: Gap,
    base: Query,
    step: Query,
    pad: Option<Gap>,
    ceiling: Option<Term>,
    close: Gap,
) -> Named {
    Named {
        text: name + "("@ + base.header + ") AS ("@ + gap.text() + base.text + gap.text() + "UNION"@ + gap.text()
            + step.text + (match pad {
            Some(g) => g.text(),
            None => Seq::empty(),
        }) + (match ceiling {
            Some(t) => gap.text() + "LIMIT "@ + t.text,
            None => Seq::empty(),
        }) + close.text() + ")"@,
        name,
        query: Query {
            text: Seq::empty(),
            header: base.header,
            names: base.names,
            gives: |w: World, out: Seq<Row>| comes_to(base, step, name, ceiling, w, out),
        },
    }
}

/// The numbers below `n` for which `p`, in a list.
proof fn lemma_listing(n: nat, p: spec_fn(int) -> bool) -> (list: Seq<int>)
    ensures
        forall|k: int| 0 <= k < list.len() ==> 0 <= #[trigger] list[k] < n && p(list[k]),
        forall|i: int| 0 <= i < n && #[trigger] p(i) ==> list.contains(i),
        forall|k: int, l: int| 0 <= k < l < list.len() ==> #[trigger] list[k] < #[trigger] list[l],
    decreases n,
{
    if n == 0 {
        Seq::empty()
    } else {
        let rest = lemma_listing((n - 1) as nat, p);
        if p(n - 1) {
            let list = rest.push(n - 1);
            assert forall|i: int| 0 <= i < n && #[trigger] p(i) implies list.contains(i) by {
                if i < n - 1 {
                    let k = choose|k: int| 0 <= k < rest.len() && rest[k] == i;
                    assert(list[k] == i);
                } else {
                    assert(list[rest.len() as int] == i);
                }
            }
            list
        } else {
            rest
        }
    }
}

/// A query over one row and a table joined to it gives something back.
pub proof fn lemma_some_join(
    cols: Cols,
    g1: Gap,
    f: Source,
    base: Seq<char>,
    gap: Gap,
    word: Seq<char>,
    name: Seq<char>,
    alias: Seq<char>,
    on: Cond,
    g2: Gap,
    cond: Cond,
    w: World,
) -> (out: Seq<Row>)
    requires
        f.lists == table(base).lists,
        w.rows(base).len() == 1,
    ensures
        select(cols, g1, join(f, gap, word, name, alias, on), g2, cond).answers(w, out),
{
    let (xs, ys) = (scopes(w, w.rows(base)), w.rows(name));
    assert(table(base).has(w, xs));
    assert(f.has(w, xs));
    let p = |j: int| joins(xs, ys, alias, on, 0, j);
    let js = lemma_listing(ys.len(), p);
    let pairs = Seq::new(js.len(), |k: int| (0int, js[k]));
    let list = Seq::new(js.len(), |k: int| beside(xs[0], alias, ys[js[k]]));
    let q = |i: int, j: int| joins(xs, ys, alias, on, i, j);
    assert forall|i: int, j: int| #[trigger] q(i, j) implies pairs.contains((i, j)) by {
        assert(p(j));
        let k = choose|k: int| 0 <= k < js.len() && js[k] == j;
        assert(pairs[k] == (i, j));
    }
    assert forall|k: int| 0 <= k < pairs.len() implies q((#[trigger] pairs[k]).0, pairs[k].1) by {
        assert(p(js[k]));
    }
    assert(is_join(xs, ys, alias, on, pairs, list));
    let source = join(f, gap, word, name, alias, on);
    assert(source.has(w, list));
    let c = |i: int| cond.of(list[i]);
    let picked = lemma_listing(list.len(), c);
    let out = Seq::new(picked.len(), |k: int| cols.of(list[picked[k]]));
    assert forall|i: int| 0 <= i < list.len() && cond.of(#[trigger] list[i]) implies picked.contains(i) by {
        assert(c(i));
    }
    assert forall|k: int| 0 <= k < picked.len() implies 0 <= #[trigger] picked[k] < list.len() && cond.of(
        list[picked[k]],
    ) by {
        assert(c(picked[k]));
    }
    assert(selects(cols, list, cond, picked, out));
    out
}

/// A query with white space after it.
pub open spec fn padded(q: Query, pad: Option<Gap>) -> Query {
    Query {
        text: q.text + (match pad {
            Some(g) => g.text(),
            None => Seq::empty(),
        }),
        ..q
    }
}

/// What a query that keeps one of each shows, over two joined tables: `pairs` are
/// those of all rows, of which `out` holds one of each that are alike.
pub proof fn lemma_distinct_join(
    cols: Cols,
    g1: Gap,
    f: Source,
    base: Seq<char>,
    gap: Gap,
    word: Seq<char>,
    name: Seq<char>,
    alias: Seq<char>,
    on: Cond,
    g2: Gap,
    cond: Cond,
    w: World,
    out: Seq<Row>,
) -> (r: (Seq<(int, int)>, Seq<Row>))
    requires
        f.lists == table(base).lists,
        select_distinct(cols, g1, join(f, gap, word, name, alias, on), g2, cond).answers(w, out),
    ensures
        shows_pairs(cols, w, w.rows(base), w.rows(name), alias, on, cond, r.0, r.1),
        is_distinct(cols.names, r.1, out),
{
    let q = select(cols, g1, join(f, gap, word, name, alias, on), g2, cond);
    let all = choose|all: Seq<Row>| #[trigger] is_distinct_of(q, w, all, out);
    assert(q.answers(w, all));
    let pairs = lemma_select_join(cols, g1, f, base, gap, word, name, alias, on, g2, cond, w, all);
    (pairs, all)
}

/// A row of nothing.
pub open spec fn nothing() -> Row {
    |c: Seq<char>| SqlView::Null
}

/// Whether nothing of `rows` is joined to a scope.
pub open spec fn is_alone(base: Seq<Scope>, rows: Seq<Row>, alias: Seq<char>, on: Cond, i: int) -> bool {
    forall|j: int| 0 <= j < rows.len() ==> !on.of(beside(base[i], alias, #[trigger] rows[j]))
}

/// Whether `list` holds each scope of `base` beside each of `rows` that it is
/// joined to, and beside nothing where it is joined to none.
pub open spec fn is_left_join(
    base: Seq<Scope>,
    rows: Seq<Row>,
    alias: Seq<char>,
    on: Cond,
    pairs: Seq<(int, int)>,
    list: Seq<Scope>,
) -> bool {
    &&& once_each(
        pairs,
        |i: int, j: int|
            joins(base, rows, alias, on, i, j) || (0 <= i < base.len() && j == -1 && is_alone(base, rows, alias, on, i)),
    )
    &&& list.len() == pairs.len()
    &&& forall|k: int|
        0 <= k < list.len() ==> #[trigger] list[k] == beside(
            base[pairs[k].0],
            alias,
            if pairs[k].1 < 0 {
                nothing()
            } else {
                rows[pairs[k].1]
            },
        )
}

/// A table joined to what is read before it, nothing where none is.
pub open spec fn left_join(f: Source, gap: Gap, name: Seq<char>, alias: Seq<char>, on: Cond) -> Source {
    Source {
        text: f.text + gap.text() + "LEFT JOIN "@ + name + " "@ + alias + " ON "@ + on.text,
        lists: |w: World, list: Seq<Scope>|
            exists|base: Seq<Scope>, pairs: Seq<(int, int)>| #[trigger]
                f.has(w, base) && #[trigger] is_left_join(base, w.rows(name), alias, on, pairs, list),
    }
}

/// What the rows of a query are joined to.
pub open spec fn left_joins(
    f: Source,
    q: Query,
    alias: Seq<char>,
    on: Cond,
    w: World,
    base: Seq<Scope>,
    sub: Seq<Row>,
    pairs: Seq<(int, int)>,
    list: Seq<Scope>,
) -> bool {
    f.has(w, base) && q.answers(w, sub) && is_left_join(base, sub, alias, on, pairs, list)
}

/// A query joined to what is read before it, nothing where it gives nothing back.
pub open spec fn left_join_query(f: Source, gap: Gap, q: Query, g1: Gap, g2: Gap, alias: Seq<char>, on: Cond) -> Source {
    Source {
        text: f.text + gap.text() + "LEFT JOIN ("@ + g1.text() + q.text + g2.text() + ") "@ + alias + " ON "@ + on.text,
        lists: |w: World, list: Seq<Scope>|
            exists|base: Seq<Scope>, sub: Seq<Row>, pairs: Seq<(int, int)>| #[trigger]
                left_joins(f, q, alias, on, w, base, sub, pairs, list),
    }
}

/// A query that is read from, under a name.
pub open spec fn nested_as(q: Query, open: Gap, close: Gap, alias: Seq<char>) -> Source {
    Source { text: nested(q, open, close).text + " "@ + alias, ..nested(q, open, close) }
}

/// A row of one number.
pub open spec fn one_number(name: Seq<char>, n: int) -> Row {
    |c: Seq<char>|
        if c == name {
            SqlView::Integer(n as i64)
        } else {
            SqlView::Null
        }
}

/// How many rows a table has, under a name.
pub open spec fn counted_as(table: Seq<char>, name: Seq<char>) -> Query {
    Query {
        text: "SELECT COUNT(*) AS "@ + name + " FROM "@ + table,
        header: name,
        names: seq![name],
        gives: |w: World, out: Seq<Row>| out == seq![one_number(name, w.rows(table).len() as int)],
    }
}

/// All rows of several lists, one after the other.
pub open spec fn flat(levels: Seq<Seq<Row>>) -> Seq<Row>
    decreases levels.len(),
{
    if levels.len() == 0 {
        Seq::empty()
    } else {
        flat(levels.drop_last()) + levels.last()
    }
}

/// Whether the rows of each level are what a step makes of those of the level
/// before, and the last makes none.
pub open spec fn climbs(base: Query, step: Query, name: Seq<char>, w: World, levels: Seq<Seq<Row>>) -> bool {
    &&& levels.len() > 0
    &&& base.answers(w, levels[0])
    &&& forall|n: int|
        0 <= n < levels.len() - 1 ==> step.answers(w.with(name, #[trigger] levels[n]), levels[n + 1])
    &&& levels.last().len() == 0
}

/// Whether `out` holds what a query that reads itself comes to, level by level.
pub open spec fn climbs_to(
    base: Query,
    step: Query,
    name: Seq<char>,
    w: World,
    levels: Seq<Seq<Row>>,
    out: Seq<Row>,
) -> bool {
    climbs(base, step, name, w, levels) && out == flat(levels)
}

/// A query that reads itself, level by level, and keeps every row.
pub open spec fn recursive_all(name: Seq<char>, gap: Gap, base: Query, step: Query, close: Gap) -> Named {
    Named {
        text: name + "("@ + base.header + ") AS ("@ + gap.text() + base.text + gap.text() + "UNION ALL"@ + gap.text()
            + step.text + close.text() + ")"@,
        name,
        query: Query {
            text: Seq::empty(),
            header: base.header,
            names: base.names,
            gives: |w: World, out: Seq<Row>|
                exists|levels: Seq<Seq<Row>>| #[trigger] climbs_to(base, step, name, w, levels, out),
        },
    }
}

} // verus!
