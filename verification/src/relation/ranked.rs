//! Rows numbered within their class, and the first of each.

use vstd::prelude::*;

use crate::relation::query;
use crate::relation::query::{Cols, Source, Order, Query, World};
use crate::relation::term;
use crate::relation::term::{Cond, Gap, Row, Scope, Term};
use crate::sql::SqlView;
use crate::text;

verus! {

/// What rows are classed by.
pub struct Class {
    pub text: Seq<char>,
    pub key: spec_fn(Scope) -> Seq<SqlView>,
}

impl Class {
    /// What a row is classed by.
    pub open spec fn of(self, s: Scope) -> Seq<SqlView> {
        (self.key)(s)
    }
}

/// One term.
pub open spec fn classed(t: Term) -> Class {
    Class { text: t.text, key: |s: Scope| seq![t.of(s)] }
}

/// One more term.
pub open spec fn and_classed(c: Class, t: Term) -> Class {
    Class { text: c.text + ", "@ + t.text, key: |s: Scope| c.of(s).push(t.of(s)) }
}

/// Whether `rn` numbers the picked scopes from one up within their class, in the
/// given order; where that tells two apart no further, either may come first.
pub open spec fn numbers(list: Seq<Scope>, picked: Seq<int>, class: Class, order: Order, rn: Seq<int>) -> bool {
    &&& rn.len() == picked.len()
    &&& forall|k: int| 0 <= k < rn.len() ==> 1 <= #[trigger] rn[k]
    &&& forall|k: int, l: int|
        0 <= k < rn.len() && 0 <= l < rn.len() && k != l && class.of(list[picked[k]]) == class.of(list[picked[l]])
            ==> #[trigger] rn[k] != #[trigger] rn[l]
    &&& forall|k: int, l: int|
        0 <= k < rn.len() && 0 <= l < rn.len() && class.of(list[picked[k]]) == class.of(list[picked[l]])
            && order.puts(list[picked[k]], list[picked[l]]) ==> #[trigger] rn[k] < #[trigger] rn[l]
    &&& forall|k: int| 0 <= k < rn.len() && 1 < rn[k] ==> #[trigger] is_preceded(list, picked, class, rn, k)
}

/// Whether the number before a row's own is that of another of its class.
pub open spec fn is_preceded(list: Seq<Scope>, picked: Seq<int>, class: Class, rn: Seq<int>, k: int) -> bool {
    exists|l: int|
        0 <= l < rn.len() && #[trigger] rn[l] == rn[k] - 1 && class.of(list[picked[l]]) == class.of(list[picked[k]])
}

/// A row with its number.
pub open spec fn numbered(row: Row, n: int) -> Row {
    |c: Seq<char>|
        if c == "rn"@ {
            SqlView::Integer(n as i64)
        } else {
            row(c)
        }
}

/// Whether `out` are the columns of those scopes for which a condition holds, each
/// with its number.
pub open spec fn ranks(
    cols: Cols,
    list: Seq<Scope>,
    cond: Cond,
    class: Class,
    order: Order,
    picked: Seq<int>,
    rn: Seq<int>,
    out: Seq<Row>,
) -> bool {
    &&& query::picks(list, cond, picked)
    &&& numbers(list, picked, class, order, rn)
    &&& picked.len() <= i64::MAX
    &&& out.len() == picked.len()
    &&& forall|k: int| 0 <= k < out.len() ==> #[trigger] out[k] == numbered(cols.of(list[picked[k]]), rn[k])
}

/// The columns of what a condition holds for, and the number of each row within
/// its class.
pub open spec fn select_ranked(
    cols: Cols,
    class: Class,
    order: Order,
    gaps: (Gap, Gap, Gap, Gap, Gap),
    from: Source,
    cond: Cond,
) -> Query {
    Query {
        text: "SELECT "@ + cols.text + ","@ + gaps.0.text() + "ROW_NUMBER() OVER ("@ + gaps.1.text() + "PARTITION BY "@
            + class.text + gaps.1.text() + "ORDER BY "@ + order.text + gaps.2.text() + ") AS "@ + "rn"@ + gaps.3.text()
            + "FROM "@ + from.text + gaps.4.text() + "WHERE "@ + cond.text,
        header: cols.header + ", "@ + "rn"@,
        names: cols.names.push("rn"@),
        gives: |w: World, out: Seq<Row>|
            exists|list: Seq<Scope>, picked: Seq<int>, rn: Seq<int>| #[trigger]
                from.has(w, list) && #[trigger] ranks(cols, list, cond, class, order, picked, rn, out),
    }
}

/// The same of everything that is read.
pub open spec fn select_ranked_all(
    cols: Cols,
    class: Class,
    order: Order,
    gaps: (Gap, Gap, Gap, Gap),
    from: Source,
) -> Query {
    Query {
        text: "SELECT "@ + cols.text + ","@ + gaps.0.text() + "ROW_NUMBER() OVER ("@ + gaps.1.text() + "PARTITION BY "@
            + class.text + gaps.1.text() + "ORDER BY "@ + order.text + gaps.2.text() + ") AS "@ + "rn"@ + gaps.3.text()
            + "FROM "@ + from.text,
        ..select_ranked(cols, class, order, (gaps.0, gaps.1, gaps.2, gaps.3, gaps.3), from, query::everything())
    }
}

/// Whether a row is numbered one.
#[verifier::opaque]
pub open spec fn numbered_one() -> Cond {
    term::eq(term::bare("rn"@), term::number(1))
}

/// How that is written.
pub proof fn lemma_numbered_one_text()
    ensures
        numbered_one().text == "rn = 1"@,
{
    reveal(numbered_one);
    reveal_strlit("rn = 1");
    reveal_strlit("rn");
    reveal_strlit("=");
    reveal_strlit(" ");
    reveal_with_fuel(text::decimal, 2);
}

/// Whether one of the chosen scopes is of a scope's class.
pub open spec fn is_led(list: Seq<Scope>, class: Class, chosen: Seq<int>, i: int) -> bool {
    exists|k: int| 0 <= k < chosen.len() && class.of(list[#[trigger] chosen[k]]) == class.of(list[i])
}

/// Whether `chosen` is one of the scopes for each class of those that a condition
/// holds for, and none of its class comes before it.
pub open spec fn leads(list: Seq<Scope>, cond: Cond, class: Class, order: Order, chosen: Seq<int>) -> bool {
    &&& forall|k: int|
        0 <= k < chosen.len() ==> 0 <= #[trigger] chosen[k] < list.len() && cond.of(list[chosen[k]])
    &&& forall|i: int| 0 <= i < list.len() && cond.of(list[i]) ==> #[trigger] is_led(list, class, chosen, i)
    &&& forall|k: int, l: int|
        0 <= k < l < chosen.len() ==> class.of(list[#[trigger] chosen[k]]) != class.of(list[#[trigger] chosen[l]])
    &&& forall|k: int, i: int|
        0 <= k < chosen.len() && 0 <= i < list.len() && cond.of(list[i]) && class.of(list[i]) == class.of(
            list[chosen[k]],
        ) ==> !order.puts(#[trigger] list[i], list[#[trigger] chosen[k]])
}

proof fn lemma_some_first(list: Seq<Scope>, picked: Seq<int>, class: Class, order: Order, rn: Seq<int>, k: int) -> (l:
    int)
    requires
        numbers(list, picked, class, order, rn),
        0 <= k < rn.len(),
    ensures
        0 <= l < rn.len(),
        rn[l] == 1,
        class.of(list[picked[l]]) == class.of(list[picked[k]]),
    decreases rn[k],
{
    if rn[k] == 1 {
        k
    } else {
        assert(is_preceded(list, picked, class, rn, k));
        let l = choose|l: int|
            0 <= l < rn.len() && #[trigger] rn[l] == rn[k] - 1 && class.of(list[picked[l]]) == class.of(
                list[picked[k]],
            );
        lemma_some_first(list, picked, class, order, rn, l)
    }
}

/// No more numbers than rows: each number of a class is one of its rows.
proof fn lemma_numbers_bounded(list: Seq<Scope>, picked: Seq<int>, class: Class, order: Order, rn: Seq<int>, k: int)
    requires
        numbers(list, picked, class, order, rn),
        0 <= k < rn.len(),
    ensures
        rn[k] <= rn.len(),
{
    let got = lemma_ladder(list, picked, class, order, rn, k);
    got.unique_seq_to_set();
    let all = vstd::set_lib::set_int_range(0, rn.len() as int);
    vstd::set_lib::lemma_int_range(0, rn.len() as int);
    assert(got.to_set().subset_of(all));
    vstd::set_lib::lemma_len_subset(got.to_set(), all);
}

/// The rows of a class up to a number, by number.
proof fn lemma_ladder(list: Seq<Scope>, picked: Seq<int>, class: Class, order: Order, rn: Seq<int>, k: int) -> (got:
    Seq<int>)
    requires
        numbers(list, picked, class, order, rn),
        0 <= k < rn.len(),
    ensures
        got.len() == rn[k],
        got.no_duplicates(),
        forall|i: int|
            0 <= i < got.len() ==> 0 <= #[trigger] got[i] < rn.len() && rn[got[i]] == i + 1,
    decreases rn[k],
{
    if rn[k] == 1 {
        seq![k]
    } else {
        assert(is_preceded(list, picked, class, rn, k));
        let l = choose|l: int|
            0 <= l < rn.len() && #[trigger] rn[l] == rn[k] - 1 && class.of(list[picked[l]]) == class.of(
                list[picked[k]],
            );
        let rest = lemma_ladder(list, picked, class, order, rn, l);
        assert forall|i: int| 0 <= i < rest.push(k).len() implies 0 <= #[trigger] rest.push(k)[i] < rn.len()
            && rn[rest.push(k)[i]] == i + 1 by {
            if i < rest.len() {
                assert(rest.push(k)[i] == rest[i]);
            }
        }
        assert forall|i: int, j: int| 0 <= i < rest.push(k).len() && 0 <= j < rest.push(k).len() && i
            != j implies rest.push(k)[i] != rest.push(k)[j] by {
            assert(rn[rest.push(k)[i]] == i + 1);
            assert(rn[rest.push(k)[j]] == j + 1);
        }
        rest.push(k)
    }
}

/// A query that keeps the rows numbered one keeps one of each class, before which
/// none of it comes.
proof fn lemma_firsts(
    cols: Cols,
    inner: Cols,
    class: Class,
    order: Order,
    w: World,
    list: Seq<Scope>,
    cond: Cond,
    picked: Seq<int>,
    rn: Seq<int>,
    sub: Seq<Row>,
    kept: Seq<int>,
    out: Seq<Row>,
) -> (chosen: Seq<int>)
    requires
        ranks(inner, list, cond, class, order, picked, rn, sub),
        query::selects(cols, query::scopes(w, sub), numbered_one(), kept, out),
    ensures
        leads(list, cond, class, order, chosen),
        out.len() == chosen.len(),
        forall|k: int|
            0 <= k < out.len() ==> #[trigger] out[k] == cols.of(
                w.over(numbered(inner.of(list[chosen[k]]), 1)),
            ),
{
    reveal(numbered_one);
    let scopes = query::scopes(w, sub);
    let chosen = Seq::new(kept.len(), |k: int| picked[kept[k]]);
    assert forall|k: int| 0 <= k < sub.len() implies (numbered_one().of(#[trigger] scopes[k]) <==> rn[k] == 1) by {
        lemma_numbers_bounded(list, picked, class, order, rn, k);
        assert(sub[k] == numbered(inner.of(list[picked[k]]), rn[k]));
        assert(scopes[k] == w.over(sub[k]));
        assert(scopes[k].read(Seq::empty(), "rn"@) == SqlView::Integer(rn[k] as i64));
    }
    assert forall|k: int| 0 <= k < out.len() implies #[trigger] out[k] == cols.of(
        w.over(numbered(inner.of(list[chosen[k]]), 1)),
    ) by {
        assert(numbered_one().of(scopes[kept[k]]));
        assert(sub[kept[k]] == numbered(inner.of(list[picked[kept[k]]]), rn[kept[k]]));
    }
    assert forall|k: int| 0 <= k < chosen.len() implies 0 <= #[trigger] chosen[k] < list.len() && cond.of(
        list[chosen[k]],
    ) by {
        assert(0 <= kept[k] < scopes.len());
        assert(0 <= picked[kept[k]] < list.len());
    }
    assert forall|i: int| 0 <= i < list.len() && cond.of(list[i]) implies #[trigger] is_led(
        list,
        class,
        chosen,
        i,
    ) by {
        assert(picked.contains(i));
        let p = choose|p: int| 0 <= p < picked.len() && picked[p] == i;
        let l = lemma_some_first(list, picked, class, order, rn, p);
        assert(numbered_one().of(scopes[l]));
        assert(kept.contains(l));
        let k = choose|k: int| 0 <= k < kept.len() && kept[k] == l;
        assert(chosen[k] == picked[l]);
    }
    assert forall|k: int, l: int| 0 <= k < l < chosen.len() implies class.of(list[#[trigger] chosen[k]]) != class.of(
        list[#[trigger] chosen[l]],
    ) by {
        assert(numbered_one().of(scopes[kept[k]]));
        assert(numbered_one().of(scopes[kept[l]]));
        assert(kept[k] != kept[l]);
        assert(rn[kept[k]] == rn[kept[l]]);
    }
    assert forall|k: int, i: int|
        0 <= k < chosen.len() && 0 <= i < list.len() && cond.of(list[i]) && class.of(list[i]) == class.of(
            list[chosen[k]],
        ) implies !order.puts(#[trigger] list[i], list[#[trigger] chosen[k]]) by {
        assert(picked.contains(i));
        let p = choose|p: int| 0 <= p < picked.len() && picked[p] == i;
        assert(numbered_one().of(scopes[kept[k]]));
        assert(1 <= rn[p]);
        if order.puts(list[i], list[chosen[k]]) {
            assert(rn[p] < rn[kept[k]]);
        }
    }
    chosen
}

/// The rows of a ranked query that are numbered one.
pub open spec fn firsts(
    cols: Cols,
    ranked: Query,
    gaps: (Gap, Gap, Gap, Gap),
) -> Query {
    query::select(cols, gaps.0, query::nested(ranked, gaps.1, gaps.2), gaps.3, numbered_one())
}

/// Whether `out` shows what leads each class of what is read.
pub open spec fn shows_leaders(
    cols: Cols,
    inner: Cols,
    class: Class,
    order: Order,
    w: World,
    list: Seq<Scope>,
    cond: Cond,
    chosen: Seq<int>,
    out: Seq<Row>,
) -> bool {
    &&& leads(list, cond, class, order, chosen)
    &&& out.len() == chosen.len()
    &&& forall|k: int|
        0 <= k < out.len() ==> #[trigger] out[k] == cols.of(w.over(numbered(inner.of(list[chosen[k]]), 1)))
}

/// What the rows of a ranked query that are numbered one show.
pub proof fn lemma_firsts_lead(
    cols: Cols,
    inner: Cols,
    class: Class,
    order: Order,
    inside: (Gap, Gap, Gap, Gap, Gap),
    outside: (Gap, Gap, Gap, Gap),
    from: Source,
    cond: Cond,
    q: Query,
    w: World,
    out: Seq<Row>,
) -> (r: (Seq<Scope>, Seq<int>))
    requires
        q.gives == select_ranked(inner, class, order, inside, from, cond).gives,
        firsts(cols, q, outside).answers(w, out),
    ensures
        from.has(w, r.0),
        shows_leaders(cols, inner, class, order, w, r.0, cond, r.1, out),
{
    let source = query::nested(q, outside.1, outside.2);
    let (scopes, kept) = choose|list: Seq<Scope>, kept: Seq<int>| #[trigger]
        source.has(w, list) && #[trigger] query::selects(cols, list, numbered_one(), kept, out);
    let sub = choose|sub: Seq<Row>| #[trigger] query::read_from(q, w, sub, scopes);
    assert(select_ranked(inner, class, order, inside, from, cond).answers(w, sub));
    let (list, picked, rn) = choose|list: Seq<Scope>, picked: Seq<int>, rn: Seq<int>| #[trigger]
        from.has(w, list) && #[trigger] ranks(inner, list, cond, class, order, picked, rn, sub);
    let chosen = lemma_firsts(cols, inner, class, order, w, list, cond, picked, rn, sub, kept, out);
    (list, chosen)
}

} // verus!
