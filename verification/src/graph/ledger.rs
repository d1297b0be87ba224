//! A ledger and its current belief, and what a lineage is seen to hold of them
//! where it was cut.

use vstd::prelude::*;

use crate::graph::cut;
use crate::graph::fold;
use crate::graph::lineage_sql;
use crate::graph::lineage_sql::KeySlots;
use crate::integrity::latest;
use crate::relation::names;
use crate::relation::query;
use crate::relation::query::World;
use crate::relation::term;
use crate::relation::term::{Gap, Row, Scope};
use crate::sql::SqlView;
use crate::text;

verus! {

/// The text that a value is.
pub open spec fn text_of(v: SqlView) -> Seq<char> {
    v->Text_0
}

/// Whether a text holds no bar.
pub open spec fn no_bar(s: Seq<char>) -> bool {
    !s.contains('|')
}

/// How the log names an edge: its ends, its type and its start, with bars between
/// them.
pub open spec fn edge_name(source: Seq<char>, target: Seq<char>, edge_type: Seq<char>, start: Seq<char>) -> Seq<char> {
    source + "|"@ + target + "|"@ + edge_type + "|"@ + start
}

/// Whether an entry is of an edge.
pub open spec fn is_link(e: Row) -> bool {
    term::equal(e("table_name"@), SqlView::Text("links"@))
}

/// Whether an entry of an edge is written as the ledger writes them.
pub open spec fn is_written(w: World, e: Row) -> bool {
    let (s, t) = (fold::field(w, e, "source_id"@), fold::field(w, e, "target_id"@));
    let (y, v) = (fold::field(w, e, "edge_type"@), fold::field(w, e, "valid_from"@));
    &&& s is Text && t is Text && y is Text && v is Text
    &&& no_bar(text_of(s)) && no_bar(text_of(t)) && no_bar(text_of(y))
    &&& e("entity_id"@) == SqlView::Text(edge_name(text_of(s), text_of(t), text_of(y), text_of(v)))
    &&& e("seq_id"@) is Integer
    &&& e("recorded_at"@) is Text
    &&& e("branch_id"@) is Text
}

/// Current belief.
pub open spec fn beliefs(w: World) -> Seq<Row> {
    w.rows("links_current"@)
}

/// Whether a belief is what the last entry of its edge and lineage says.
pub open spec fn is_current(w: World, a: int, i: int) -> bool {
    &&& 0 <= i < fold::entries(w).len()
    &&& is_link(fold::entries(w)[i])
    &&& fold::tells(w, beliefs(w)[a], fold::entries(w)[i], true)
    &&& beliefs(w)[a]("recorded_at"@) == fold::entries(w)[i]("recorded_at"@)
    &&& forall|j: int|
        0 <= j < fold::entries(w).len() && is_link(#[trigger] fold::entries(w)[j]) && fold::same_entity(
            fold::entries(w)[i],
            fold::entries(w)[j],
        ) ==> !term::before(fold::entries(w)[i]("seq_id"@), fold::entries(w)[j]("seq_id"@))
}

/// The entry that a belief is what it says.
pub open spec fn entry_of(w: World, a: int) -> int {
    choose|i: int| is_current(w, a, i)
}

/// Whether something is believed of the edge and lineage of an entry.
pub open spec fn is_believed(w: World, i: int) -> bool {
    exists|a: int|
        0 <= a < beliefs(w).len() && fold::same_entity(
            fold::entries(w)[#[trigger] entry_of(w, a)],
            fold::entries(w)[i],
        )
}

/// Whether a log and a current belief are of one ledger: entries are numbered in
/// the order in which they were recorded, and of each edge and lineage that has
/// any, what the last says is believed, and once.
#[verifier::opaque]
pub open spec fn is_ledger(w: World) -> bool {
    &&& forall|i: int|
        0 <= i < fold::entries(w).len() && is_link(#[trigger] fold::entries(w)[i]) ==> is_written(
            w,
            fold::entries(w)[i],
        )
    &&& forall|i: int, j: int|
        0 <= i < fold::entries(w).len() && 0 <= j < fold::entries(w).len() && i != j && is_link(
            #[trigger] fold::entries(w)[i],
        ) && is_link(#[trigger] fold::entries(w)[j]) ==> {
            &&& fold::entries(w)[i]("seq_id"@) != fold::entries(w)[j]("seq_id"@)
            &&& term::before(fold::entries(w)[i]("seq_id"@), fold::entries(w)[j]("seq_id"@)) ==> !term::before(
                fold::entries(w)[j]("recorded_at"@),
                fold::entries(w)[i]("recorded_at"@),
            )
        }
    &&& forall|a: int| 0 <= a < beliefs(w).len() ==> is_current(w, a, #[trigger] entry_of(w, a))
    &&& forall|i: int|
        0 <= i < fold::entries(w).len() && is_link(fold::entries(w)[i]) ==> #[trigger] is_believed(w, i)
    &&& forall|a: int, b: int|
        0 <= a < b < beliefs(w).len() ==> !latest::same_key(#[trigger] beliefs(w)[a], #[trigger] beliefs(w)[b])
}

/// The ancestry that a statement has under a tag.
pub open spec fn ancestry(w: World, tag: Seq<char>) -> Seq<Row> {
    w.rows("lineage"@ + tag)
}

/// Whether an ancestry names each lineage once.
pub open spec fn is_ancestry(w: World, tag: Seq<char>) -> bool {
    &&& forall|j: int|
        0 <= j < ancestry(w, tag).len() ==> (#[trigger] ancestry(w, tag)[j])("branch_id"@) is Text && (ancestry(
            w,
            tag,
        )[j]("cutoff"@) is Null || ancestry(w, tag)[j]("cutoff"@) is Text)
    &&& forall|i: int, j: int|
        0 <= i < j < ancestry(w, tag).len() ==> (#[trigger] ancestry(w, tag)[i])("branch_id"@) != (
        #[trigger] ancestry(w, tag)[j])("branch_id"@)
}

/// Whether the edge that is asked for, if one is, goes from `source` to `target`
/// and is of this type.
pub open spec fn asks(w: World, key: Option<KeySlots>, source: SqlView, target: SqlView, edge_type: SqlView) -> bool {
    match key {
        Some(k) => {
            &&& term::equal(source, w.bound[k.source - 1])
            &&& term::equal(target, w.bound[k.target - 1])
            &&& term::equal(edge_type, w.bound[k.edge_type - 1])
        },
        None => true,
    }
}

/// Whether the reader may read an entry: it is of an edge, the one that is asked
/// for if one is, and was recorded before its lineage was cut.
pub open spec fn may_read(w: World, tag: Seq<char>, key: Option<KeySlots>, e: Row) -> bool {
    &&& is_link(e)
    &&& asks(w, key, fold::field(w, e, "source_id"@), fold::field(w, e, "target_id"@), fold::field(w, e, "edge_type"@))
    &&& exists|j: int| 0 <= j < ancestry(w, tag).len() && fold::reaches(#[trigger] ancestry(w, tag)[j], e)
}

/// What stands before the first bar, and after it.
proof fn lemma_split(a: Seq<char>, x: Seq<char>, b: Seq<char>, y: Seq<char>)
    requires
        no_bar(a),
        no_bar(b),
        a + "|"@ + x == b + "|"@ + y,
    ensures
        a == b,
        x == y,
{
    reveal_strlit("|");
    let (p, q) = (a + "|"@ + x, b + "|"@ + y);
    if a.len() < b.len() {
        assert(p[a.len() as int] == '|');
        assert(q[a.len() as int] == b[a.len() as int]);
    } else if b.len() < a.len() {
        assert(q[b.len() as int] == '|');
        assert(p[b.len() as int] == a[b.len() as int]);
    }
    assert(a =~= p.take(a.len() as int));
    assert(b =~= q.take(b.len() as int));
    assert(x =~= p.skip(a.len() as int + 1));
    assert(y =~= q.skip(b.len() as int + 1));
}

/// A name is of one edge.
proof fn lemma_names_are_told_apart(
    s1: Seq<char>,
    t1: Seq<char>,
    y1: Seq<char>,
    v1: Seq<char>,
    s2: Seq<char>,
    t2: Seq<char>,
    y2: Seq<char>,
    v2: Seq<char>,
)
    requires
        no_bar(s1) && no_bar(t1) && no_bar(y1),
        no_bar(s2) && no_bar(t2) && no_bar(y2),
        edge_name(s1, t1, y1, v1) == edge_name(s2, t2, y2, v2),
    ensures
        s1 == s2 && t1 == t2 && y1 == y2 && v1 == v2,
{
    let (c1, c2) = (y1 + "|"@ + v1, y2 + "|"@ + v2);
    let (b1, b2) = (t1 + "|"@ + c1, t2 + "|"@ + c2);
    assert(edge_name(s1, t1, y1, v1) =~= s1 + "|"@ + b1);
    assert(edge_name(s2, t2, y2, v2) =~= s2 + "|"@ + b2);
    lemma_split(s1, b1, s2, b2);
    lemma_split(t1, c1, t2, c2);
    lemma_split(y1, v1, y2, v2);
}

/// Two entries of one name are of one edge.
pub proof fn lemma_same_edge(w: World, e: Row, f: Row)
    requires
        is_written(w, e),
        is_written(w, f),
        e("entity_id"@) == f("entity_id"@),
    ensures
        fold::field(w, e, "source_id"@) == fold::field(w, f, "source_id"@),
        fold::field(w, e, "target_id"@) == fold::field(w, f, "target_id"@),
        fold::field(w, e, "edge_type"@) == fold::field(w, f, "edge_type"@),
        fold::field(w, e, "valid_from"@) == fold::field(w, f, "valid_from"@),
{
    lemma_names_are_told_apart(
        text_of(fold::field(w, e, "source_id"@)),
        text_of(fold::field(w, e, "target_id"@)),
        text_of(fold::field(w, e, "edge_type"@)),
        text_of(fold::field(w, e, "valid_from"@)),
        text_of(fold::field(w, f, "source_id"@)),
        text_of(fold::field(w, f, "target_id"@)),
        text_of(fold::field(w, f, "edge_type"@)),
        text_of(fold::field(w, f, "valid_from"@)),
    );
}

/// What a belief and the entry it is what it says have in common.
proof fn lemma_belief(w: World, a: int)
    requires
        is_ledger(w),
        0 <= a < beliefs(w).len(),
    ensures
        is_current(w, a, entry_of(w, a)),
        is_written(w, fold::entries(w)[entry_of(w, a)]),
        ({
            let (r, e) = (beliefs(w)[a], fold::entries(w)[entry_of(w, a)]);
            &&& r("source_id"@) == fold::field(w, e, "source_id"@)
            &&& r("target_id"@) == fold::field(w, e, "target_id"@)
            &&& r("edge_type"@) == fold::field(w, e, "edge_type"@)
            &&& r("valid_from"@) == fold::field(w, e, "valid_from"@)
            &&& r("branch_id"@) == e("branch_id"@)
            &&& r("recorded_at"@) == e("recorded_at"@)
            &&& fold::tells(w, r, e, true)
        }),
{
    reveal(is_ledger);
    reveal(fold::tells);
    assert(is_current(w, a, entry_of(w, a)));
    assert(is_link(fold::entries(w)[entry_of(w, a)]));
}

/// Of one edge of one lineage, one thing is believed.
proof fn lemma_believed_once(w: World, a: int, b: int)
    requires
        is_ledger(w),
        0 <= a < beliefs(w).len(),
        0 <= b < beliefs(w).len(),
        fold::same_entity(fold::entries(w)[entry_of(w, a)], fold::entries(w)[entry_of(w, b)]),
    ensures
        a == b,
{
    lemma_belief(w, a);
    lemma_belief(w, b);
    lemma_same_edge(w, fold::entries(w)[entry_of(w, a)], fold::entries(w)[entry_of(w, b)]);
    reveal(is_ledger);
    assert(latest::same_key(beliefs(w)[a], beliefs(w)[b]));
    assert(latest::same_key(beliefs(w)[b], beliefs(w)[a]));
    if a < b {
        assert(!latest::same_key(beliefs(w)[a], beliefs(w)[b]));
    } else if b < a {
        assert(!latest::same_key(beliefs(w)[b], beliefs(w)[a]));
    }
}

/// Texts come one before the other, or are one.
proof fn lemma_texts_compare(a: SqlView, b: SqlView)
    requires
        a is Text,
        b is Text,
    ensures
        term::at_most(a, b) <==> !term::before(b, a),
        !(term::before(a, b) && term::before(b, a)),
{
    text::lemma_text_lt_total(text_of(a), text_of(b));
    text::lemma_text_lt_asymmetric(text_of(a), text_of(b));
    text::lemma_text_lt_asymmetric(text_of(b), text_of(a));
    text::lemma_text_lt_asymmetric(text_of(a), text_of(a));
}

/// Whether a belief stands on a lineage of the ancestry.
pub open spec fn stands_on(w: World, tag: Seq<char>, a: int, j: int) -> bool {
    &&& 0 <= a < beliefs(w).len()
    &&& 0 <= j < ancestry(w, tag).len()
    &&& term::equal(ancestry(w, tag)[j]("branch_id"@), beliefs(w)[a]("branch_id"@))
}

/// Whether a belief is of the edge that is asked for, if one is.
pub open spec fn is_asked(w: World, key: Option<KeySlots>, a: int) -> bool {
    let r = beliefs(w)[a];
    asks(w, key, r("source_id"@), r("target_id"@), r("edge_type"@))
}

/// The scope of a belief beside a lineage.
pub open spec fn on(w: World, tag: Seq<char>, a: int, j: int) -> Scope {
    query::paired(w, beliefs(w)[a], "g"@, ancestry(w, tag)[j])
}

proof fn lemma_on(w: World, tag: Seq<char>, a: int, j: int)
    ensures
        on(w, tag, a, j).bound == w.bound,
        on(w, tag, a, j).calls == w.calls,
        forall|c: Seq<char>| #[trigger] on(w, tag, a, j).read("lc"@, c) == beliefs(w)[a](c),
        forall|c: Seq<char>| #[trigger] on(w, tag, a, j).read("g"@, c) == ancestry(w, tag)[j](c),
{
    names::lemma_aliases();
}

/// What a key says of a row.
pub proof fn lemma_keyed(key: KeySlots, alias: Seq<char>, s: Scope)
    ensures
        cut::keyed(key, alias).of(s) <==> {
            &&& term::equal(s.read(alias, "source_id"@), s.bound[key.source - 1])
            &&& term::equal(s.read(alias, "target_id"@), s.bound[key.target - 1])
            &&& term::equal(s.read(alias, "edge_type"@), s.bound[key.edge_type - 1])
        },
        !cut::keyed(key, alias).loose,
{
    reveal(cut::keyed);
    let k1 = term::eq(term::column(alias, "source_id"@), term::slot(key.source as nat));
    let k2 = term::eq(term::column(alias, "target_id"@), term::slot(key.target as nat));
    let k3 = term::eq(term::column(alias, "edge_type"@), term::slot(key.edge_type as nat));
    assert(k1.of(s) <==> term::equal(s.read(alias, "source_id"@), s.bound[key.source - 1]));
    assert(k2.of(s) <==> term::equal(s.read(alias, "target_id"@), s.bound[key.target - 1]));
    assert(k3.of(s) <==> term::equal(s.read(alias, "edge_type"@), s.bound[key.edge_type - 1]));
    assert(term::and(k1, Gap::Blank, k2).of(s) <==> k1.of(s) && k2.of(s));
}

/// What the two conditions on a belief say.
proof fn lemma_conditions(w: World, tag: Seq<char>, key: Option<KeySlots>, a: int, j: int)
    requires
        0 <= a < beliefs(w).len(),
        0 <= j < ancestry(w, tag).len(),
    ensures
        cut::on_lineage().of(on(w, tag, a, j)) <==> stands_on(w, tag, a, j),
        cut::was_churned(key).of(on(w, tag, a, j)) <==> {
            let (rec, to) = (beliefs(w)[a]("recorded_at"@), ancestry(w, tag)[j]("cutoff"@));
            is_asked(w, key, a) && !(to is Null) && !(rec is Null) && term::before(to, rec)
        },
        cut::was_kept(key).of(on(w, tag, a, j)) <==> {
            let (rec, to) = (beliefs(w)[a]("recorded_at"@), ancestry(w, tag)[j]("cutoff"@));
            is_asked(w, key, a) && (to is Null || term::at_most(rec, to))
        },
{
    reveal(cut::on_lineage);
    reveal(cut::was_churned);
    reveal(cut::was_kept);
    lemma_on(w, tag, a, j);
    let s = on(w, tag, a, j);
    let (r, g) = (beliefs(w)[a], ancestry(w, tag)[j]);
    assert(s.read("lc"@, "branch_id"@) == r("branch_id"@));
    assert(s.read("g"@, "branch_id"@) == g("branch_id"@));
    assert(s.read("lc"@, "recorded_at"@) == r("recorded_at"@));
    assert(s.read("g"@, "cutoff"@) == g("cutoff"@));
    assert(s.read("lc"@, "source_id"@) == r("source_id"@));
    assert(s.read("lc"@, "target_id"@) == r("target_id"@));
    assert(s.read("lc"@, "edge_type"@) == r("edge_type"@));
    let cutoff = term::present(cut::ancestral("cutoff"@));
    let later = term::gt(cut::current("recorded_at"@), cut::ancestral("cutoff"@));
    let still = term::or(
        term::absent(cut::ancestral("cutoff"@)),
        term::le(cut::current("recorded_at"@), cut::ancestral("cutoff"@)),
    );
    assert(cutoff.of(s) <==> !(g("cutoff"@) is Null));
    assert(later.of(s) <==> !(r("recorded_at"@) is Null) && !(g("cutoff"@) is Null) && term::before(
        g("cutoff"@),
        r("recorded_at"@),
    ));
    assert(still.of(s) <==> g("cutoff"@) is Null || term::at_most(r("recorded_at"@), g("cutoff"@)));
    match key {
        Some(k) => {
            lemma_keyed(k, "lc"@, s);
            let first = term::and(cut::keyed(k, "lc"@), Gap::Blank, cutoff);
            assert(first.of(s) <==> cut::keyed(k, "lc"@).of(s) && cutoff.of(s));
        },
        None => {},
    }
}

/// How the log names the edge of a belief.
proof fn lemma_entity(w: World, tag: Seq<char>, a: int, j: int)
    requires
        is_ledger(w),
        0 <= a < beliefs(w).len(),
        0 <= j < ancestry(w, tag).len(),
    ensures
        cut::entity().of(on(w, tag, a, j)) == fold::entries(w)[entry_of(w, a)]("entity_id"@),
{
    reveal(cut::entity);
    lemma_belief(w, a);
    lemma_on(w, tag, a, j);
    let s = on(w, tag, a, j);
    let r = beliefs(w)[a];
    assert(s.read("lc"@, "source_id"@) == r("source_id"@));
    assert(s.read("lc"@, "target_id"@) == r("target_id"@));
    assert(s.read("lc"@, "edge_type"@) == r("edge_type"@));
    assert(s.read("lc"@, "valid_from"@) == r("valid_from"@));
}

/// What was changed after its lineage was cut: the name and lineage of a belief
/// that was recorded after the cut.
pub open spec fn is_change(w: World, tag: Seq<char>, key: Option<KeySlots>, a: int, j: int, row: Row) -> bool {
    &&& stands_on(w, tag, a, j)
    &&& is_asked(w, key, a)
    &&& !(ancestry(w, tag)[j]("cutoff"@) is Null)
    &&& term::before(ancestry(w, tag)[j]("cutoff"@), beliefs(w)[a]("recorded_at"@))
    &&& row("entity_id"@) == fold::entries(w)[entry_of(w, a)]("entity_id"@)
    &&& row("branch_id"@) == beliefs(w)[a]("branch_id"@)
    &&& row("cutoff"@) == ancestry(w, tag)[j]("cutoff"@)
}

/// What was changed, as a statement has it under a tag.
pub open spec fn changes(w: World, tag: Seq<char>) -> Seq<Row> {
    w.rows("churned"@ + tag)
}

proof fn lemma_changes(w: World, tag: Seq<char>, key: Option<KeySlots>) -> (pairs: Seq<(int, int)>)
    requires
        is_ledger(w),
        is_ancestry(w, tag),
        cut::churned(tag, key).answers(w, changes(w, tag)),
    ensures
        pairs.len() == changes(w, tag).len(),
        forall|k: int|
            0 <= k < pairs.len() ==> is_change(w, tag, key, (#[trigger] pairs[k]).0, pairs[k].1, changes(w, tag)[k]),
        forall|a: int, j: int|
            stands_on(w, tag, a, j) && is_asked(w, key, a) && !(ancestry(w, tag)[j]("cutoff"@) is Null)
                && term::before(ancestry(w, tag)[j]("cutoff"@), beliefs(w)[a]("recorded_at"@))
                ==> #[trigger] query::is_among(pairs, a, j),
{
    let out = changes(w, tag);
    let pairs = query::lemma_select_join(
        cut::churned_columns(),
        Gap::Line(4),
        query::table_as("links_current"@, "lc"@),
        "links_current"@,
        Gap::Line(4),
        " "@,
        "lineage"@ + tag,
        "g"@,
        cut::on_lineage(),
        Gap::Line(4),
        cut::was_churned(key),
        w,
        out,
    );
    assert forall|k: int| 0 <= k < pairs.len() implies is_change(
        w,
        tag,
        key,
        (#[trigger] pairs[k]).0,
        pairs[k].1,
        out[k],
    ) by {
        let (a, j) = pairs[k];
        lemma_conditions(w, tag, key, a, j);
        lemma_entity(w, tag, a, j);
        lemma_on(w, tag, a, j);
        let s = on(w, tag, a, j);
        assert(s.read("lc"@, "branch_id"@) == beliefs(w)[a]("branch_id"@));
        assert(s.read("g"@, "cutoff"@) == ancestry(w, tag)[j]("cutoff"@));
        assert(out[k] == cut::churned_columns().of(s));
        reveal(cut::churned_columns);
        names::lemma_columns();
    }
    assert forall|a: int, j: int|
        stands_on(w, tag, a, j) && is_asked(w, key, a) && !(ancestry(w, tag)[j]("cutoff"@) is Null) && term::before(
            ancestry(w, tag)[j]("cutoff"@),
            beliefs(w)[a]("recorded_at"@),
        ) implies #[trigger] query::is_among(pairs, a, j) by {
        lemma_conditions(w, tag, key, a, j);
        lemma_belief(w, a);
    }
    pairs
}

/// Whether an entry is of an edge that was changed after its lineage was cut, and
/// was recorded before the cut.
pub open spec fn is_former(w: World, tag: Seq<char>, e: Row) -> bool {
    &&& is_link(e)
    &&& exists|k: int| 0 <= k < changes(w, tag).len() && #[trigger] is_former_of(w, tag, k, e)
}

/// Whether an entry is of the edge of one change, and was recorded before the cut.
pub open spec fn is_former_of(w: World, tag: Seq<char>, k: int, e: Row) -> bool {
    &&& term::equal(changes(w, tag)[k]("entity_id"@), e("entity_id"@))
    &&& term::equal(changes(w, tag)[k]("branch_id"@), e("branch_id"@))
    &&& term::at_most(e("recorded_at"@), changes(w, tag)[k]("cutoff"@))
}

/// Which entry a scope of the changed log is of.
spec fn changed_at(w: World, tag: Seq<char>) -> spec_fn(Seq<Scope>, int) -> int {
    |list: Seq<Scope>, m: int| fold::pairs_of(w, "churned"@ + tag, "k"@, cut::on_change(), list)[m].0
}

proof fn lemma_change_conditions(w: World, tag: Seq<char>, i: int, k: int)
    requires
        0 <= i < fold::entries(w).len(),
        0 <= k < changes(w, tag).len(),
    ensures
        ({
            let s = query::beside(query::scopes(w, fold::entries(w))[i], "k"@, changes(w, tag)[k]);
            let e = fold::entries(w)[i];
            &&& fold::is_of(w, s, i)
            &&& cut::on_change().of(s) && cut::before_cut().of(s) <==> is_link(e) && is_former_of(w, tag, k, e)
        }),
{
    reveal(cut::on_change);
    reveal(cut::before_cut);
    names::lemma_aliases();
    let s = query::beside(query::scopes(w, fold::entries(w))[i], "k"@, changes(w, tag)[k]);
    let (e, c) = (fold::entries(w)[i], changes(w, tag)[k]);
    fold::lemma_beside(w, i, "k"@, c);
    reveal(fold::is_of);
    assert(s.read("transaction_log"@, "entity_id"@) == e("entity_id"@));
    assert(s.read("transaction_log"@, "branch_id"@) == e("branch_id"@));
    assert(s.read("transaction_log"@, "recorded_at"@) == e("recorded_at"@));
    assert(s.read("transaction_log"@, "table_name"@) == e("table_name"@));
    assert(s.read("k"@, "entity_id"@) == c("entity_id"@));
    assert(s.read("k"@, "branch_id"@) == c("branch_id"@));
    assert(s.read("k"@, "cutoff"@) == c("cutoff"@));
    let o1 = term::eq(term::column("k"@, "entity_id"@), fold::logged("entity_id"@));
    let o2 = term::eq(term::column("k"@, "branch_id"@), fold::logged("branch_id"@));
    let b1 = fold::of_links();
    let b2 = term::le(fold::logged("recorded_at"@), term::column("k"@, "cutoff"@));
    assert(o1.of(s) <==> term::equal(c("entity_id"@), e("entity_id"@)));
    assert(o2.of(s) <==> term::equal(c("branch_id"@), e("branch_id"@)));
    assert(b1.of(s) <==> is_link(e));
    assert(b2.of(s) <==> term::at_most(e("recorded_at"@), c("cutoff"@)));
    assert(cut::on_change().of(s) <==> o1.of(s) && o2.of(s));
    assert(cut::before_cut().of(s) <==> b1.of(s) && b2.of(s));
}

proof fn lemma_changed_goes_through(w: World, tag: Seq<char>, list: Seq<Scope>)
    requires
        cut::changed_log(tag).has(w, list),
    ensures
        fold::goes_through(w, cut::before_cut(), |e: Row| is_former(w, tag, e), list, changed_at(w, tag)),
{
    reveal(cut::changed_log);
    let p = |e: Row| is_former(w, tag, e);
    let at = changed_at(w, tag);
    let base = query::scopes(w, fold::entries(w));
    let cs = changes(w, tag);
    let cond = cut::before_cut();
    let (b, some) = query::lemma_join(
        query::table("transaction_log"@),
        Gap::Line(8),
        " "@,
        "churned"@ + tag,
        "k"@,
        cut::on_change(),
        w,
        list,
    );
    let pairs = fold::pairs_of(w, "churned"@ + tag, "k"@, cut::on_change(), list);
    assert(query::is_join(base, cs, "k"@, cut::on_change(), pairs, list));
    assert forall|m: int| 0 <= m < list.len() && cond.of(#[trigger] list[m]) implies fold::is_of(
        w,
        list[m],
        at(list, m),
    ) && 0 <= at(list, m) < fold::entries(w).len() && p(fold::entries(w)[at(list, m)]) by {
        query::lemma_is_joined(base, cs, "k"@, cut::on_change(), pairs, list, m);
        let (i, k) = pairs[m];
        lemma_change_conditions(w, tag, i, k);
        assert(is_former_of(w, tag, k, fold::entries(w)[i]));
    }
    assert forall|i: int| 0 <= i < fold::entries(w).len() && p(fold::entries(w)[i]) implies #[trigger] fold::is_passed(
        cond,
        list,
        at,
        i,
    ) by {
        let k = choose|k: int| 0 <= k < cs.len() && #[trigger] is_former_of(w, tag, k, fold::entries(w)[i]);
        lemma_change_conditions(w, tag, i, k);
        let m = query::lemma_joined(base, cs, "k"@, cut::on_change(), pairs, list, i, k);
        assert(cond.of(list[m]));
    }
}

/// What the columns of a belief say.
proof fn lemma_shown(w: World, tag: Seq<char>, properties: bool, a: int, j: int)
    requires
        is_ledger(w),
        0 <= a < beliefs(w).len(),
    ensures
        fold::tells(
            w,
            cut::current_columns(properties).of(on(w, tag, a, j)),
            fold::entries(w)[entry_of(w, a)],
            properties,
        ),
{
    lemma_belief(w, a);
    lemma_on(w, tag, a, j);
    reveal(cut::current_columns);
    reveal(fold::tells);
    names::lemma_columns();
    let s = on(w, tag, a, j);
    let r = beliefs(w)[a];
    assert(s.read("lc"@, "source_id"@) == r("source_id"@));
    assert(s.read("lc"@, "target_id"@) == r("target_id"@));
    assert(s.read("lc"@, "edge_type"@) == r("edge_type"@));
    assert(s.read("lc"@, "valid_from"@) == r("valid_from"@));
    assert(s.read("lc"@, "valid_to"@) == r("valid_to"@));
    assert(s.read("lc"@, "weight"@) == r("weight"@));
    assert(s.read("lc"@, "properties"@) == r("properties"@));
    assert(s.read("lc"@, "branch_id"@) == r("branch_id"@));
}

/// Whether a belief stands as it did when its lineage was cut.
pub open spec fn is_kept(w: World, tag: Seq<char>, key: Option<KeySlots>, a: int, j: int) -> bool {
    &&& stands_on(w, tag, a, j)
    &&& is_asked(w, key, a)
    &&& ancestry(w, tag)[j]("cutoff"@) is Null || term::at_most(
        beliefs(w)[a]("recorded_at"@),
        ancestry(w, tag)[j]("cutoff"@),
    )
}

proof fn lemma_kept(w: World, tag: Seq<char>, key: Option<KeySlots>, out: Seq<Row>) -> (pairs: Seq<(int, int)>)
    requires
        is_ledger(w),
        cut::kept_part(tag, key).answers(w, out),
    ensures
        pairs.len() == out.len(),
        forall|k: int|
            0 <= k < pairs.len() ==> is_kept(w, tag, key, (#[trigger] pairs[k]).0, pairs[k].1) && fold::tells(
                w,
                out[k],
                fold::entries(w)[entry_of(w, pairs[k].0)],
                key.is_some(),
            ),
        forall|k: int, l: int| 0 <= k < l < pairs.len() ==> #[trigger] pairs[k] != #[trigger] pairs[l],
        forall|a: int, j: int| is_kept(w, tag, key, a, j) ==> #[trigger] query::is_among(pairs, a, j),
{
    let pairs = query::lemma_select_join(
        cut::current_columns(key.is_some()),
        Gap::Line(4),
        query::table_as("links_current"@, "lc"@),
        "links_current"@,
        Gap::Line(4),
        " "@,
        "lineage"@ + tag,
        "g"@,
        cut::on_lineage(),
        Gap::Line(4),
        cut::was_kept(key),
        w,
        out,
    );
    assert forall|k: int| 0 <= k < pairs.len() implies is_kept(w, tag, key, (#[trigger] pairs[k]).0, pairs[k].1)
        && fold::tells(w, out[k], fold::entries(w)[entry_of(w, pairs[k].0)], key.is_some()) by {
        let (a, j) = pairs[k];
        lemma_conditions(w, tag, key, a, j);
        lemma_shown(w, tag, key.is_some(), a, j);
        assert(out[k] == cut::current_columns(key.is_some()).of(on(w, tag, a, j)));
    }
    assert forall|a: int, j: int| is_kept(w, tag, key, a, j) implies #[trigger] query::is_among(pairs, a, j) by {
        lemma_conditions(w, tag, key, a, j);
    }
    pairs
}

/// A belief that stands as it did is of an entry that may be read.
proof fn lemma_kept_is_read(w: World, tag: Seq<char>, key: Option<KeySlots>, a: int, j: int)
    requires
        is_ledger(w),
        is_kept(w, tag, key, a, j),
    ensures
        may_read(w, tag, key, fold::entries(w)[entry_of(w, a)]),
{
    lemma_belief(w, a);
    assert(fold::reaches(ancestry(w, tag)[j], fold::entries(w)[entry_of(w, a)]));
}

/// One lineage of the ancestry is of a given name.
pub proof fn lemma_one_lineage(w: World, tag: Seq<char>, i: int, j: int)
    requires
        is_ancestry(w, tag),
        0 <= i < ancestry(w, tag).len(),
        0 <= j < ancestry(w, tag).len(),
        ancestry(w, tag)[i]("branch_id"@) == ancestry(w, tag)[j]("branch_id"@),
    ensures
        i == j,
{
    if i < j {
        assert(ancestry(w, tag)[i]("branch_id"@) != ancestry(w, tag)[j]("branch_id"@));
    } else if j < i {
        assert(ancestry(w, tag)[j]("branch_id"@) != ancestry(w, tag)[i]("branch_id"@));
    }
}

/// An entry that may be read is of a belief that stands as it did, or is a former
/// one of a belief that was changed.
proof fn lemma_read(w: World, tag: Seq<char>, key: Option<KeySlots>, cs: Seq<(int, int)>, i: int) -> (at: (int, int))
    requires
        is_ledger(w),
        is_ancestry(w, tag),
        cs.len() == changes(w, tag).len(),
        forall|k: int|
            0 <= k < cs.len() ==> is_change(w, tag, key, (#[trigger] cs[k]).0, cs[k].1, changes(w, tag)[k]),
        forall|a: int, j: int|
            stands_on(w, tag, a, j) && is_asked(w, key, a) && !(ancestry(w, tag)[j]("cutoff"@) is Null)
                && term::before(ancestry(w, tag)[j]("cutoff"@), beliefs(w)[a]("recorded_at"@))
                ==> #[trigger] query::is_among(cs, a, j),
        0 <= i < fold::entries(w).len(),
        may_read(w, tag, key, fold::entries(w)[i]),
    ensures
        0 <= at.0 < beliefs(w).len(),
        fold::same_entity(fold::entries(w)[entry_of(w, at.0)], fold::entries(w)[i]),
        is_kept(w, tag, key, at.0, at.1) || is_former(w, tag, fold::entries(w)[i]),
{
    let e = fold::entries(w)[i];
    assert(is_believed(w, i)) by {
        reveal(is_ledger);
    }
    assert(is_written(w, e)) by {
        reveal(is_ledger);
    }
    let a = choose|a: int|
        0 <= a < beliefs(w).len() && fold::same_entity(fold::entries(w)[#[trigger] entry_of(w, a)], e);
    let j = choose|j: int| 0 <= j < ancestry(w, tag).len() && fold::reaches(#[trigger] ancestry(w, tag)[j], e);
    lemma_belief(w, a);
    lemma_same_edge(w, fold::entries(w)[entry_of(w, a)], e);
    let g = ancestry(w, tag)[j];
    assert(stands_on(w, tag, a, j));
    assert(is_asked(w, key, a));
    if !is_kept(w, tag, key, a, j) {
        lemma_texts_compare(beliefs(w)[a]("recorded_at"@), g("cutoff"@));
        assert(query::is_among(cs, a, j));
        let k = choose|k: int| 0 <= k < cs.len() && #[trigger] cs[k] == (a, j);
        assert(is_change(w, tag, key, cs[k].0, cs[k].1, changes(w, tag)[k]));
        assert(is_former_of(w, tag, k, e));
    }
    (a, j)
}

/// A former entry may be read, and what is believed of its edge was changed.
proof fn lemma_former(w: World, tag: Seq<char>, key: Option<KeySlots>, cs: Seq<(int, int)>, i: int) -> (at: (int, int))
    requires
        is_ledger(w),
        is_ancestry(w, tag),
        cs.len() == changes(w, tag).len(),
        forall|k: int|
            0 <= k < cs.len() ==> is_change(w, tag, key, (#[trigger] cs[k]).0, cs[k].1, changes(w, tag)[k]),
        0 <= i < fold::entries(w).len(),
        is_former(w, tag, fold::entries(w)[i]),
    ensures
        may_read(w, tag, key, fold::entries(w)[i]),
        0 <= at.0 < beliefs(w).len(),
        fold::same_entity(fold::entries(w)[entry_of(w, at.0)], fold::entries(w)[i]),
        stands_on(w, tag, at.0, at.1),
        forall|j: int| !#[trigger] is_kept(w, tag, key, at.0, j),
{
    let e = fold::entries(w)[i];
    assert(is_written(w, e)) by {
        reveal(is_ledger);
    }
    let k = choose|k: int| 0 <= k < changes(w, tag).len() && #[trigger] is_former_of(w, tag, k, e);
    assert(is_change(w, tag, key, cs[k].0, cs[k].1, changes(w, tag)[k]));
    let (a, j) = cs[k];
    lemma_belief(w, a);
    lemma_same_edge(w, fold::entries(w)[entry_of(w, a)], e);
    assert(fold::reaches(ancestry(w, tag)[j], e));
    lemma_texts_compare(beliefs(w)[a]("recorded_at"@), ancestry(w, tag)[j]("cutoff"@));
    assert forall|l: int| !#[trigger] is_kept(w, tag, key, a, l) by {
        if is_kept(w, tag, key, a, l) {
            lemma_one_lineage(w, tag, l, j);
        }
    }
    (a, j)
}

proof fn lemma_cut_rows(
    w: World,
    tag: Seq<char>,
    key: Option<KeySlots>,
    x: Seq<Row>,
    y: Seq<Row>,
    cs: Seq<(int, int)>,
    ks: Seq<(int, int)>,
    former: Seq<int>,
) -> (of: Seq<int>)
    requires
        is_ledger(w),
        is_ancestry(w, tag),
        cs.len() == changes(w, tag).len(),
        forall|k: int|
            0 <= k < cs.len() ==> is_change(w, tag, key, (#[trigger] cs[k]).0, cs[k].1, changes(w, tag)[k]),
        forall|a: int, j: int|
            stands_on(w, tag, a, j) && is_asked(w, key, a) && !(ancestry(w, tag)[j]("cutoff"@) is Null)
                && term::before(ancestry(w, tag)[j]("cutoff"@), beliefs(w)[a]("recorded_at"@))
                ==> #[trigger] query::is_among(cs, a, j),
        ks.len() == x.len(),
        forall|k: int|
            0 <= k < ks.len() ==> is_kept(w, tag, key, (#[trigger] ks[k]).0, ks[k].1) && fold::tells(
                w,
                x[k],
                fold::entries(w)[entry_of(w, ks[k].0)],
                key.is_some(),
            ),
        forall|k: int, l: int| 0 <= k < l < ks.len() ==> #[trigger] ks[k] != #[trigger] ks[l],
        forall|a: int, j: int| is_kept(w, tag, key, a, j) ==> #[trigger] query::is_among(ks, a, j),
        fold::are_last(w, |e: Row| is_former(w, tag, e), key.is_some(), former, y),
    ensures
        fold::are_last(w, |e: Row| may_read(w, tag, key, e), key.is_some(), of, x + y),
{
    let p = |e: Row| may_read(w, tag, key, e);
    let q = |e: Row| is_former(w, tag, e);
    let es = fold::entries(w);
    let head = Seq::new(ks.len(), |k: int| entry_of(w, ks[k].0));
    let of = head + former;
    let out = x + y;
    assert forall|k: int| 0 <= k < out.len() implies 0 <= #[trigger] of[k] < es.len() && p(es[of[k]]) && fold::tells(
        w,
        out[k],
        es[of[k]],
        key.is_some(),
    ) by {
        if k < x.len() {
            assert(is_kept(w, tag, key, ks[k].0, ks[k].1));
            lemma_belief(w, ks[k].0);
            lemma_kept_is_read(w, tag, key, ks[k].0, ks[k].1);
        } else {
            let m = k - x.len();
            assert(of[k] == former[m]);
            assert(q(es[former[m]]));
            let at = lemma_former(w, tag, key, cs, former[m]);
        }
    }
    assert forall|k: int, l: int| 0 <= k < l < out.len() implies !fold::same_entity(
        es[#[trigger] of[k]],
        es[#[trigger] of[l]],
    ) by {
        if l < x.len() {
            if fold::same_entity(es[of[k]], es[of[l]]) {
                assert(is_kept(w, tag, key, ks[k].0, ks[k].1));
                assert(is_kept(w, tag, key, ks[l].0, ks[l].1));
                lemma_believed_once(w, ks[k].0, ks[l].0);
                lemma_one_lineage(w, tag, ks[k].1, ks[l].1);
                assert(ks[k] != ks[l]);
            }
        } else if k < x.len() {
            let m = l - x.len();
            assert(of[l] == former[m]);
            assert(q(es[former[m]]));
            if fold::same_entity(es[of[k]], es[of[l]]) {
                let at = lemma_former(w, tag, key, cs, former[m]);
                assert(is_kept(w, tag, key, ks[k].0, ks[k].1));
                lemma_believed_once(w, ks[k].0, at.0);
            }
        } else {
            assert(of[k] == former[k - x.len()]);
            assert(of[l] == former[l - x.len()]);
        }
    }
    assert forall|i: int| 0 <= i < es.len() && p(es[i]) implies #[trigger] fold::is_told(w, of, i) by {
        let at = lemma_read(w, tag, key, cs, i);
        if is_kept(w, tag, key, at.0, at.1) {
            assert(query::is_among(ks, at.0, at.1));
            let k = choose|k: int| 0 <= k < ks.len() && #[trigger] ks[k] == (at.0, at.1);
            assert(of[k] == entry_of(w, at.0));
        } else {
            assert(q(es[i]));
            assert(fold::is_told(w, former, i));
            let k = choose|k: int|
                0 <= k < former.len() && fold::same_entity(es[#[trigger] former[k]], es[i]);
            assert(of[x.len() + k] == former[k]);
        }
    }
    assert forall|i: int, k: int|
        0 <= i < es.len() && p(#[trigger] es[i]) && 0 <= k < of.len() && fold::same_entity(
            es[#[trigger] of[k]],
            es[i],
        ) implies !term::before(es[of[k]]("seq_id"@), es[i]("seq_id"@)) by {
        if k < x.len() {
            assert(is_kept(w, tag, key, ks[k].0, ks[k].1));
            lemma_belief(w, ks[k].0);
        } else {
            let m = k - x.len();
            assert(of[k] == former[m]);
            assert(q(es[former[m]]));
            let at = lemma_former(w, tag, key, cs, former[m]);
            let found = lemma_read(w, tag, key, cs, i);
            if is_kept(w, tag, key, found.0, found.1) {
                lemma_believed_once(w, found.0, at.0);
            }
            assert(q(es[i]));
        }
    }
    of
}

/// Of each lineage of the ancestry, a reader sees each edge as the last entry says
/// that was recorded before the lineage was cut, where there is one: whether or
/// not the lineage has changed the edge since, and once.
pub proof fn law_a_cut_lineage_stands_as_it_did(
    w: World,
    tag: Seq<char>,
    key: Option<KeySlots>,
    out: Seq<Row>,
) -> (of: Seq<int>)
    requires
        is_ledger(w),
        is_ancestry(w, tag),
        cut::churned(tag, key).answers(w, changes(w, tag)),
        cut::links_cut(tag, key).answers(w, out),
    ensures
        lineage_sql::churned_cte_text(tag, key) == cut::churned_named(tag, key).text,
        lineage_sql::links_cut_cte_text(tag, key) == cut::links_cut_named(tag, key).text,
        fold::are_last(w, |e: Row| may_read(w, tag, key, e), key.is_some(), of, out),
{
    cut::lemma_churned_text(tag, key);
    cut::lemma_links_cut_text(tag, key);
    let (kept, changed) = (cut::kept_part(tag, key), cut::changed_part(tag, key));
    assert(kept.names == changed.names) by {
        cut::lemma_same_names(key.is_some());
    }
    let (x, y) = choose|x: Seq<Row>, y: Seq<Row>| #[trigger] query::both(kept, changed, w, x, y, out);
    let cs = lemma_changes(w, tag, key);
    let ks = lemma_kept(w, tag, key, x);
    let q = |e: Row| is_former(w, tag, e);
    assert forall|list: Seq<Scope>| #[trigger] cut::changed_log(tag).has(w, list) implies fold::goes_through(
        w,
        cut::before_cut(),
        q,
        list,
        changed_at(w, tag),
    ) by {
        lemma_changed_goes_through(w, tag, list);
    }
    let former = fold::lemma_folded(
        key.is_some(),
        cut::changed_log(tag),
        cut::before_cut(),
        w,
        y,
        q,
        changed_at(w, tag),
    );
    lemma_cut_rows(w, tag, key, x, y, cs, ks, former)
}

} // verus!
