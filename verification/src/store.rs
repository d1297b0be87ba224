//! What the key-value store holds, and gives back.

use vstd::prelude::*;
use vstd::utf8::*;

use crate::kv;
use crate::relation::change;
use crate::relation::change::Change;
use crate::relation::query;
use crate::relation::query::{Cols, Query, World};
use crate::relation::term;
use crate::relation::term::{Cond, Gap, Row};
use crate::sql::SqlView;
use crate::text;

verus! {

/// What the store holds.
pub open spec fn kept(w: World) -> Seq<Row> {
    w.rows("kv_store"@)
}

/// Whether keys are texts, and none stands twice.
pub open spec fn is_store(rows: Seq<Row>) -> bool {
    &&& forall|i: int| 0 <= i < rows.len() ==> (#[trigger] rows[i])("key"@) is Text
    &&& forall|i: int, j: int| 0 <= i < j < rows.len() ==> (#[trigger] rows[i])("key"@) != (#[trigger] rows[j])("key"@)
}

/// The columns of a key that is written.
#[verifier::opaque]
pub open spec fn put_columns() -> Cols {
    let c1 = query::one(term::slot(1), "key"@);
    let c2 = query::also(c1, Gap::Blank, term::slot(2), "value"@);
    query::also(c2, Gap::Blank, term::slot(3), "updated_at"@)
}

/// The writing of a key.
pub open spec fn put() -> Change {
    change::upsert(
        "kv_store"@,
        put_columns(),
        change::name("key"@),
        change::and_set(change::set("value"@), "updated_at"@),
    )
}

/// Whether a row is of the bound key.
pub open spec fn of_key() -> Cond {
    term::eq(term::bare("key"@), term::slot(1))
}

/// The value of a key.
#[verifier::opaque]
pub open spec fn value_column() -> Cols {
    query::one(term::bare("value"@), "value"@)
}

/// The query of a key.
pub open spec fn get() -> Query {
    query::select(value_column(), Gap::Blank, query::table("kv_store"@), Gap::Blank, of_key())
}

/// The removal of a key.
pub open spec fn delete() -> Change {
    change::delete_where("kv_store"@, of_key())
}

/// A key and its value.
#[verifier::opaque]
pub open spec fn pair_columns() -> Cols {
    query::also(query::one(term::bare("key"@), "key"@), Gap::Blank, term::bare("value"@), "value"@)
}

/// Whether a key is of the bound range.
#[verifier::opaque]
pub open spec fn in_range() -> Cond {
    term::and(
        term::ge(term::bare("key"@), term::slot(1)),
        Gap::Blank,
        term::bracketed(
            term::or(term::absent(term::slot(2)), term::lt(term::bare("key"@), term::slot(2))),
        ),
    )
}

/// The query of a range of keys, without its ceiling.
pub open spec fn range() -> Query {
    query::ordered(
        query::select(pair_columns(), Gap::Blank, query::table("kv_store"@), Gap::Blank, in_range()),
        Gap::Blank,
        query::rising(term::bare("key"@)),
    )
}

/// The query of a range of keys.
pub open spec fn scan() -> Query {
    query::limited(range(), Gap::Blank, term::slot(3))
}

proof fn lemma_names()
    ensures
        "key"@.len() == 3,
        "value"@.len() == 5,
        "updated_at"@.len() == 10,
{
    reveal_strlit("key");
    reveal_strlit("value");
    reveal_strlit("updated_at");
}

proof fn lemma_texts()
    ensures
        kv::PUT@ == put().text,
        kv::GET@ == get().text,
        kv::DELETE@ == delete().text,
{
    reveal(put_columns);
    reveal(value_column);
    reveal_with_fuel(text::decimal, 2);
    reveal_strlit(
        "INSERT INTO kv_store (key, value, updated_at) VALUES (?1, ?2, ?3) ON CONFLICT(key) DO UPDATE SET value = excluded.value, updated_at = excluded.updated_at",
    );
    reveal_strlit("SELECT value FROM kv_store WHERE key = ?1");
    reveal_strlit("DELETE FROM kv_store WHERE key = ?1");
    reveal_strlit("INSERT INTO ");
    reveal_strlit("DELETE FROM ");
    reveal_strlit(" WHERE ");
    reveal_strlit("kv_store");
    reveal_strlit(" (");
    reveal_strlit(") VALUES (");
    reveal_strlit(")");
    reveal_strlit(" ON CONFLICT(");
    reveal_strlit(") DO UPDATE SET ");
    reveal_strlit(" = excluded.");
    reveal_strlit("key");
    reveal_strlit("value");
    reveal_strlit("updated_at");
    reveal_strlit("?");
    reveal_strlit("=");
    reveal_strlit(" ");
    reveal_strlit(",");
    reveal_strlit(", ");
    reveal_strlit("SELECT ");
    reveal_strlit("FROM ");
    reveal_strlit("WHERE ");
}

proof fn lemma_scan_text()
    ensures
        kv::SCAN@ == scan().text,
{
    reveal(pair_columns);
    reveal(in_range);
    reveal_with_fuel(text::decimal, 2);
    reveal_strlit(
        "SELECT key, value FROM kv_store WHERE key >= ?1 AND (?2 IS NULL OR key < ?2) ORDER BY key LIMIT ?3",
    );
    reveal_strlit("kv_store");
    reveal_strlit("key");
    reveal_strlit("value");
    reveal_strlit("?");
    reveal_strlit(">=");
    reveal_strlit("<");
    reveal_strlit(" ");
    reveal_strlit(",");
    reveal_strlit("(");
    reveal_strlit(")");
    reveal_strlit("AND ");
    reveal_strlit(" OR ");
    reveal_strlit(" IS NULL");
    reveal_strlit("SELECT ");
    reveal_strlit("FROM ");
    reveal_strlit("WHERE ");
    reveal_strlit("ORDER BY ");
    reveal_strlit("LIMIT ");
}

/// Whether the store holds a value under a key.
pub open spec fn holds(rows: Seq<Row>, key: Seq<char>, value: SqlView) -> bool {
    exists|i: int|
        0 <= i < rows.len() && (#[trigger] rows[i])("key"@) == SqlView::Text(key) && rows[i]("value"@) == value
}

/// Whether the store holds a key.
pub open spec fn holds_key(rows: Seq<Row>, key: Seq<char>) -> bool {
    exists|i: int| 0 <= i < rows.len() && (#[trigger] rows[i])("key"@) == SqlView::Text(key)
}

/// What a key reads is what was last put under it: reading gives back exactly the
/// value that the store holds, and nothing where it holds none.
pub proof fn law_a_key_reads_what_it_holds(key: Seq<char>, w: World, out: Seq<Row>)
    requires
        is_store(kept(w)),
        w.bound == seq![SqlView::Text(key)],
        get().answers(w, out),
    ensures
        kv::GET@ == get().text,
        out.len() == 0 <==> !holds_key(kept(w), key),
        out.len() <= 1,
        out.len() == 1 ==> holds(kept(w), key, out[0]("value"@)),
{
    lemma_texts();
    lemma_names();
    let rows = kept(w);
    let of = query::lemma_select_table(
        value_column(),
        Gap::Blank,
        query::table("kv_store"@),
        "kv_store"@,
        Gap::Blank,
        of_key(),
        w,
        out,
    );
    assert forall|row: Row| #[trigger] of_key().of(w.over(row)) <==> row("key"@) == SqlView::Text(key) by {}
    if out.len() > 0 {
        assert(of_key().of(w.over(rows[of[0]])));
        assert(out[0]("value"@) == rows[of[0]]("value"@)) by {
            reveal(value_column);
        }
    }
    if out.len() > 1 {
        assert(of_key().of(w.over(rows[of[1]])));
        assert(of[0] != of[1]);
        if of[0] < of[1] {
            assert(rows[of[0]]("key"@) != rows[of[1]]("key"@));
        } else {
            assert(rows[of[1]]("key"@) != rows[of[0]]("key"@));
        }
    }
    if holds_key(rows, key) {
        let i = choose|i: int| 0 <= i < rows.len() && (#[trigger] rows[i])("key"@) == SqlView::Text(key);
        assert(of_key().of(w.over(rows[i])));
        assert(query::is_one_of(of, i));
    }
}

/// Putting a value under a key makes the store hold it there, and it alone. Every
/// other key holds what it did.
pub proof fn law_a_key_holds_what_was_put(
    key: Seq<char>,
    value: Seq<char>,
    stamp: Seq<char>,
    w: World,
    after: Seq<Row>,
)
    requires
        is_store(kept(w)),
        w.bound == seq![SqlView::Text(key), SqlView::Text(value), SqlView::Text(stamp)],
        put().leaves(w, after),
    ensures
        kv::PUT@ == put().text,
        is_store(after),
        holds(after, key, SqlView::Text(value)),
        forall|other: Seq<char>, v: SqlView|
            other != key ==> (#[trigger] holds(after, other, v) <==> holds(kept(w), other, v)),
{
    lemma_texts();
    lemma_names();
    let before = kept(w);
    let row = put_columns().of(w.nowhere());
    assert(row("key"@) == SqlView::Text(key) && row("value"@) == SqlView::Text(value)) by {
        reveal(put_columns);
    }
    let keys = change::name("key"@).list;
    let sets = change::and_set(change::set("value"@), "updated_at"@).names;
    assert(keys[0] == "key"@);
    assert(sets =~= seq!["value"@, "updated_at"@]);
    assert(sets[0] == "value"@ && sets[1] == "updated_at"@);
    assert(sets.contains("value"@) && !sets.contains("key"@));
    let at = if change::is_new(before, keys, row) {
        assert forall|i: int| 0 <= i < before.len() implies (#[trigger] before[i])("key"@) != SqlView::Text(key) by {
            assert(!query::same_in(keys, before[i], row));
        }
        before.len() as int
    } else {
        let i = choose|i: int|
            0 <= i < before.len() && query::same_in(keys, #[trigger] before[i], row) && after == before.update(
                i,
                change::overwritten(before[i], row, sets),
            );
        assert(before[i](keys[0]) == row(keys[0]));
        i
    };
    assert(after[at]("key"@) == SqlView::Text(key) && after[at]("value"@) == SqlView::Text(value));
    assert forall|i: int| 0 <= i < before.len() && i != at implies #[trigger] after[i] == before[i] && before[i]("key"@)
        != SqlView::Text(key) by {
        if at < before.len() {
            if i < at {
                assert(before[i]("key"@) != before[at]("key"@));
            } else {
                assert(before[at]("key"@) != before[i]("key"@));
            }
        }
    }
    assert(is_store(after)) by {
        assert forall|i: int| 0 <= i < after.len() implies (#[trigger] after[i])("key"@) is Text by {
            if i != at {
                assert(after[i] == before[i]);
            }
        }
        assert forall|i: int, j: int| 0 <= i < j < after.len() implies (#[trigger] after[i])("key"@) != (
        #[trigger] after[j])("key"@) by {
            if i != at {
                assert(after[i] == before[i]);
            }
            if j != at {
                assert(after[j] == before[j]);
            }
        }
    }
    assert forall|other: Seq<char>, v: SqlView| other != key implies (#[trigger] holds(after, other, v) <==> holds(
        before,
        other,
        v,
    )) by {
        if holds(after, other, v) {
            let i = choose|i: int|
                0 <= i < after.len() && (#[trigger] after[i])("key"@) == SqlView::Text(other) && after[i]("value"@) == v;
            assert(i != at);
            assert(after[i] == before[i]);
        }
        if holds(before, other, v) {
            let i = choose|i: int|
                0 <= i < before.len() && (#[trigger] before[i])("key"@) == SqlView::Text(other) && before[i]("value"@)
                    == v;
            assert(i != at) by {
                if i == at {
                    assert(query::same_in(keys, before[i], row));
                    assert(before[i](keys[0]) == row(keys[0]));
                }
            }
            assert(after[i] == before[i]);
        }
    }
}

/// Removing a key leaves the store without it, and every other key as it was.
pub proof fn law_a_removed_key_is_gone(key: Seq<char>, w: World, after: Seq<Row>)
    requires
        w.bound == seq![SqlView::Text(key)],
        delete().leaves(w, after),
    ensures
        kv::DELETE@ == delete().text,
        !holds_key(after, key),
        forall|other: Seq<char>, v: SqlView|
            other != key ==> (#[trigger] holds(after, other, v) <==> holds(kept(w), other, v)),
{
    lemma_texts();
    let before = kept(w);
    let of = choose|of: Seq<int>| #[trigger] change::keeps(w, before, of_key(), of, after);
    assert forall|row: Row| #[trigger] of_key().of(w.over(row)) <==> row("key"@) == SqlView::Text(key) by {}
    if holds_key(after, key) {
        let i = choose|i: int| 0 <= i < after.len() && (#[trigger] after[i])("key"@) == SqlView::Text(key);
        assert(after[i] == before[of[i]]);
        assert(of_key().of(w.over(before[of[i]])));
    }
    assert forall|other: Seq<char>, v: SqlView| other != key implies (#[trigger] holds(after, other, v) <==> holds(
        before,
        other,
        v,
    )) by {
        if holds(after, other, v) {
            let i = choose|i: int|
                0 <= i < after.len() && (#[trigger] after[i])("key"@) == SqlView::Text(other) && after[i]("value"@) == v;
            assert(before[of[i]]("key"@) == SqlView::Text(other));
        }
        if holds(before, other, v) {
            let i = choose|i: int|
                0 <= i < before.len() && (#[trigger] before[i])("key"@) == SqlView::Text(other) && before[i]("value"@)
                    == v;
            assert(!of_key().of(w.over(before[i])));
            assert(query::is_one_of(of, i));
            let k = choose|k: int| 0 <= k < of.len() && #[trigger] of[k] == i;
            assert(after[k]("key"@) == SqlView::Text(other));
        }
    }
}

/// Whether `all` lists, once each and in order, the keys that begin with a prefix,
/// each with its value.
pub open spec fn lists_prefix(rows: Seq<Row>, prefix: Seq<char>, of: Seq<int>, all: Seq<Row>) -> bool {
    &&& of.len() == all.len()
    &&& forall|k: int|
        0 <= k < all.len() ==> 0 <= #[trigger] of[k] < rows.len() && kv::begins_with(
            rows[of[k]]("key"@)->Text_0,
            prefix,
        ) && all[k]("key"@) == rows[of[k]]("key"@) && all[k]("value"@) == rows[of[k]]("value"@)
    &&& forall|k: int, l: int| 0 <= k < l < all.len() ==> #[trigger] of[k] != #[trigger] of[l]
    &&& forall|i: int|
        0 <= i < rows.len() && kv::begins_with(rows[i]("key"@)->Text_0, prefix) ==> #[trigger] query::is_one_of(of, i)
    &&& forall|k: int, l: int|
        0 <= k < l < all.len() ==> !term::before((#[trigger] all[l])("key"@), (#[trigger] all[k])("key"@))
}

/// A scan gives back the keys that begin with a prefix, in order and each with its
/// value: the first so many of them.
pub proof fn law_a_scan_gives_the_keys_of_its_prefix(
    prefix: Seq<char>,
    limit: usize,
    w: World,
    out: Seq<Row>,
) -> (r: (Seq<int>, Seq<Row>))
    requires
        is_store(kept(w)),
        kv::is_kv_prefix(prefix),
        limit <= i64::MAX,
        w.bound == kv::scan_row(prefix, limit),
        scan().answers(w, out),
    ensures
        kv::SCAN@ == scan().text,
        lists_prefix(kept(w), prefix, r.0, r.1),
        out == query::first(r.1, limit as int),
{
    lemma_scan_text();
    lemma_names();
    let rows = kept(w);
    let all = choose|full: Seq<Row>| #[trigger] query::cut(range(), w, limit as int, full, out);
    let q = query::select(pair_columns(), Gap::Blank, query::table("kv_store"@), Gap::Blank, in_range());
    assert(q.answers(w, all));
    let of = query::lemma_select_table(
        pair_columns(),
        Gap::Blank,
        query::table("kv_store"@),
        "kv_store"@,
        Gap::Blank,
        in_range(),
        w,
        all,
    );
    assert forall|row: Row| row("key"@) is Text implies (#[trigger] in_range().of(w.over(row)) <==> kv::begins_with(
        row("key"@)->Text_0,
        prefix,
    )) by {
        lemma_in_range(prefix, limit, w, row);
    }
    assert forall|k: int| 0 <= k < all.len() implies 0 <= #[trigger] of[k] < rows.len() && kv::begins_with(
        rows[of[k]]("key"@)->Text_0,
        prefix,
    ) && all[k]("key"@) == rows[of[k]]("key"@) && all[k]("value"@) == rows[of[k]]("value"@) by {
        assert(in_range().of(w.over(rows[of[k]])));
        reveal(pair_columns);
    }
    assert forall|i: int|
        0 <= i < rows.len() && kv::begins_with(rows[i]("key"@)->Text_0, prefix) implies #[trigger] query::is_one_of(
        of,
        i,
    ) by {
        assert(in_range().of(w.over(rows[i])));
    }
    assert forall|k: int, l: int| 0 <= k < l < all.len() implies !term::before(
        (#[trigger] all[l])("key"@),
        (#[trigger] all[k])("key"@),
    ) by {
        assert(!query::rising(term::bare("key"@)).puts(w.over(all[l]), w.over(all[k])));
    }
    (of, all)
}

/// The bound range is of the keys that begin with the prefix.
proof fn lemma_in_range(prefix: Seq<char>, limit: usize, w: World, row: Row)
    requires
        kv::is_kv_prefix(prefix),
        w.bound == kv::scan_row(prefix, limit),
        row("key"@) is Text,
    ensures
        in_range().of(w.over(row)) <==> kv::begins_with(row("key"@)->Text_0, prefix),
{
    reveal(in_range);
    let key = row("key"@)->Text_0;
    let s = w.over(row);
    let low = term::ge(term::bare("key"@), term::slot(1));
    let open = term::absent(term::slot(2));
    let high = term::lt(term::bare("key"@), term::slot(2));
    assert(s.bound[0] == SqlView::Text(prefix));
    assert(low.of(s) <==> text::text_le(prefix, key));
    assert(term::or(open, high).of(s) <==> open.of(s) || high.of(s));
    if prefix.len() > 0 {
        kv::law_prefix_range_is_exact(prefix, key);
        assert(s.bound[1] == SqlView::Text(kv::past(prefix)));
        assert(high.of(s) <==> text::text_lt(key, kv::past(prefix)));
    } else {
        assert(s.bound[1] is Null);
        assert(key.take(0) =~= prefix);
        assert(open.of(s));
        lemma_nothing_is_first(prefix, key);
    }
}

/// The empty text comes before every other.
proof fn lemma_nothing_is_first(a: Seq<char>, b: Seq<char>)
    requires
        a.len() == 0,
    ensures
        text::text_le(a, b),
{
    text::lemma_text_lt_total(a, b);
    if text::text_lt(b, a) {
        let (x, y) = (encode_utf8(b), encode_utf8(a));
        assert(y.len() == 0);
        let i = choose|i: int| text::falls_below_at(x, y, i);
    }
}

} // verus!
