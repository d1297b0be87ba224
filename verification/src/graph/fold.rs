//! What the fold of the log holds.

use vstd::prelude::*;

use crate::graph::lineage::LineageShape;
use crate::graph::plan;
use crate::relation::names;
use crate::relation::query;
use crate::relation::query::{Cols, Named, Order, Query, Source, World};
use crate::relation::ranked;
use crate::relation::ranked::Class;
use crate::relation::term;
use crate::relation::term::{Cond, Gap, Row, Scope, Term};
use crate::sql::SqlView;
use crate::text;

verus! {

/// What the payload of an entry says of a column.
pub open spec fn extracted(field: Seq<char>) -> Term {
    term::call("json_extract"@, term::bare("payload"@), term::quote("$."@ + field))
}

/// The columns of an edge, out of the payload of an entry.
#[verifier::opaque]
pub open spec fn payload_columns(properties: bool) -> Cols {
    let g = Gap::Line(11);
    let c1 = query::one(extracted("source_id"@), "source_id"@);
    let c2 = query::also(c1, g, extracted("target_id"@), "target_id"@);
    let c3 = query::also(c2, g, extracted("edge_type"@), "edge_type"@);
    let c4 = query::also(c3, g, extracted("valid_from"@), "valid_from"@);
    let c5 = query::also(c4, g, extracted("valid_to"@), "valid_to"@);
    let c6 = query::also(c5, g, extracted("weight"@), "weight"@);
    let c7 = if properties {
        query::also(c6, g, extracted("properties"@), "properties"@)
    } else {
        c6
    };
    query::also(c7, g, term::bare("branch_id"@), "branch_id"@)
}

/// A column of the log.
pub open spec fn logged(col: Seq<char>) -> Term {
    term::column("transaction_log"@, col)
}

/// What is read of an entry.
#[verifier::opaque]
pub open spec fn entry_columns() -> Cols {
    query::also(query::one(logged("payload"@), "payload"@), Gap::Blank, logged("branch_id"@), "branch_id"@)
}

/// What an entry is of: an edge of a lineage.
#[verifier::opaque]
pub open spec fn entry_class() -> Class {
    ranked::and_classed(ranked::classed(logged("entity_id"@)), logged("branch_id"@))
}

/// The last entry first.
#[verifier::opaque]
pub open spec fn last_first() -> Order {
    query::descending(logged("seq_id"@))
}

/// The white space inside a fold.
pub open spec fn inside() -> (Gap, Gap, Gap, Gap, Gap) {
    (Gap::Line(15), Gap::Line(19), Gap::Line(15), Gap::Line(8), Gap::Line(8))
}

/// The white space around a fold.
pub open spec fn outside() -> (Gap, Gap, Gap, Gap) {
    (Gap::Line(4), Gap::Line(8), Gap::Line(4), Gap::Blank)
}

/// The last entry of each edge of each lineage, among those that a condition
/// holds for.
pub open spec fn folded(properties: bool, from: Source, cond: Cond) -> Query {
    ranked::firsts(
        payload_columns(properties),
        ranked::select_ranked(entry_columns(), entry_class(), last_first(), inside(), from, cond),
        outside(),
    )
}

/// Whether a row of the log is of an edge.
pub open spec fn of_links() -> Cond {
    term::eq(logged("table_name"@), term::quote("links"@))
}

/// Whether an entry was recorded at the bound instant or before.
pub open spec fn by_then(slot: nat) -> Cond {
    term::le(logged("recorded_at"@), term::slot(slot))
}

/// Whether an entry was recorded before its lineage was cut, if it was.
pub open spec fn uncut() -> Cond {
    term::or(
        term::absent(term::column("g"@, "cutoff"@)),
        term::le(logged("recorded_at"@), term::column("g"@, "cutoff"@)),
    )
}

/// What a fold goes through.
#[verifier::opaque]
pub open spec fn fold_source(shape: LineageShape, tag: Seq<char>) -> Source {
    if shape == LineageShape::Resolved {
        query::join(
            query::table("transaction_log"@),
            Gap::Line(8),
            " "@,
            "lineage"@ + tag,
            "g"@,
            own_lineage(),
        )
    } else {
        query::table("transaction_log"@)
    }
}

/// What a fold keeps to.
#[verifier::opaque]
pub open spec fn fold_cond(shape: LineageShape, branch_slot: nat, slot: nat) -> Cond {
    let c = term::and(of_links(), Gap::Line(10), by_then(slot));
    match shape {
        LineageShape::Resolved => term::and(c, Gap::Line(10), term::bracketed(uncut())),
        LineageShape::TrunkOnForked => term::and(
            c,
            Gap::Line(10),
            term::eq(term::plain(logged("branch_id"@)), term::slot(branch_slot)),
        ),
        LineageShape::Trunk => c,
    }
}

/// The query of the fold at an instant.
pub open spec fn fold(shape: LineageShape, branch_slot: nat, slot: nat, tag: Seq<char>) -> Query {
    folded(false, fold_source(shape, tag), fold_cond(shape, branch_slot, slot))
}

/// The fold under its name.
pub open spec fn fold_named(shape: LineageShape, branch_slot: nat, slot: nat, tag: Seq<char>) -> Named {
    query::named(
        "links_at_tx"@ + tag,
        " MATERIALIZED"@,
        Gap::Line(4),
        fold(shape, branch_slot, slot, tag),
        Gap::Line(0),
    )
}

/// Whether a row says what the payload of an entry does, on the entry's lineage.
#[verifier::opaque]
pub open spec fn tells(w: World, row: Row, entry: Row, properties: bool) -> bool {
    &&& row("source_id"@) == field(w, entry, "source_id"@)
    &&& row("target_id"@) == field(w, entry, "target_id"@)
    &&& row("edge_type"@) == field(w, entry, "edge_type"@)
    &&& row("valid_from"@) == field(w, entry, "valid_from"@)
    &&& row("valid_to"@) == field(w, entry, "valid_to"@)
    &&& row("weight"@) == field(w, entry, "weight"@)
    &&& properties ==> row("properties"@) == field(w, entry, "properties"@)
    &&& row("branch_id"@) == entry("branch_id"@)
}

/// What the payload of an entry says of a field.
pub open spec fn field(w: World, entry: Row, name: Seq<char>) -> SqlView {
    (w.calls)("json_extract"@, seq![entry("payload"@), SqlView::Text("$."@ + name)])
}

/// The entries of the log.
pub open spec fn entries(w: World) -> Seq<Row> {
    w.rows("transaction_log"@)
}

/// Whether two entries are of one edge of one lineage.
pub open spec fn same_entity(a: Row, b: Row) -> bool {
    a("entity_id"@) == b("entity_id"@) && a("branch_id"@) == b("branch_id"@)
}

/// Whether a lineage of the ancestry is the entry's own, and was not cut before
/// the entry was recorded.
pub open spec fn reaches(g: Row, entry: Row) -> bool {
    &&& term::equal(g("branch_id"@), entry("branch_id"@))
    &&& g("cutoff"@) is Null || term::at_most(entry("recorded_at"@), g("cutoff"@))
}

/// Whether the reader may see an entry: it is of an edge, was recorded by the
/// instant, and is of a lineage that the reader sees.
pub open spec fn may_see(
    w: World,
    shape: LineageShape,
    branch_slot: nat,
    slot: nat,
    tag: Seq<char>,
    entry: Row,
) -> bool {
    &&& term::equal(entry("table_name"@), SqlView::Text("links"@))
    &&& term::at_most(entry("recorded_at"@), w.bound[slot - 1])
    &&& match shape {
        LineageShape::Trunk => true,
        LineageShape::TrunkOnForked => term::equal(entry("branch_id"@), w.bound[branch_slot - 1]),
        LineageShape::Resolved => exists|j: int|
            0 <= j < w.rows("lineage"@ + tag).len() && reaches(#[trigger] w.rows("lineage"@ + tag)[j], entry),
    }
}

/// Whether an entry of the edge and lineage of one is told.
pub open spec fn is_told(w: World, of: Seq<int>, i: int) -> bool {
    exists|k: int| 0 <= k < of.len() && same_entity(entries(w)[#[trigger] of[k]], entries(w)[i])
}

/// Whether `of` names, for each row of `out`, the entry that it tells: one for
/// each edge of each lineage among the entries for which `p`, and none of its edge
/// and lineage among them is later in the log.
pub open spec fn are_last(w: World, p: spec_fn(Row) -> bool, properties: bool, of: Seq<int>, out: Seq<Row>) -> bool {
    &&& of.len() == out.len()
    &&& forall|k: int|
        0 <= k < out.len() ==> 0 <= #[trigger] of[k] < entries(w).len() && p(entries(w)[of[k]]) && tells(
            w,
            out[k],
            entries(w)[of[k]],
            properties,
        )
    &&& forall|k: int, l: int|
        0 <= k < l < out.len() ==> !same_entity(entries(w)[#[trigger] of[k]], entries(w)[#[trigger] of[l]])
    &&& forall|i: int| 0 <= i < entries(w).len() && p(entries(w)[i]) ==> #[trigger] is_told(w, of, i)
    &&& forall|i: int, k: int|
        0 <= i < entries(w).len() && p(#[trigger] entries(w)[i]) && 0 <= k < of.len() && same_entity(
            entries(w)[#[trigger] of[k]],
            entries(w)[i],
        ) ==> !term::before(entries(w)[of[k]]("seq_id"@), entries(w)[i]("seq_id"@))
}

proof fn lemma_extracted_text(field: Seq<char>)
    ensures
        extracted(field).text == "json_extract(payload, '$."@ + field + "')"@,
{
    reveal_strlit("json_extract(payload, '$.");
    reveal_strlit("')");
    reveal_strlit("json_extract");
    reveal_strlit("payload");
    reveal_strlit("$.");
    reveal_strlit("(");
    reveal_strlit(")");
    reveal_strlit("'");
    reveal_strlit(", ");
}

/// How the columns out of a payload are written.
pub proof fn lemma_payload_text(properties: bool)
    ensures
        payload_columns(properties).text == r"json_extract(payload, '$.source_id'),
           json_extract(payload, '$.target_id'),
           json_extract(payload, '$.edge_type'),
           json_extract(payload, '$.valid_from'),
           json_extract(payload, '$.valid_to'),
           json_extract(payload, '$.weight'),"@ + (if properties {
            "\n           json_extract(payload, '$.properties'),"@
        } else {
            ""@
        }) + "\n           branch_id"@,
        payload_columns(properties).header == "source_id, target_id, edge_type, valid_from, valid_to, weight"@ + (
        if properties {
            ", properties"@
        } else {
            ""@
        }) + ", branch_id"@,
{
    reveal(payload_columns);
    lemma_extracted_text("source_id"@);
    lemma_extracted_text("target_id"@);
    lemma_extracted_text("edge_type"@);
    lemma_extracted_text("valid_from"@);
    lemma_extracted_text("valid_to"@);
    lemma_extracted_text("weight"@);
    lemma_extracted_text("properties"@);
    reveal_strlit("json_extract(payload, '$.");
    reveal_strlit("')");
    reveal_strlit(
        r"json_extract(payload, '$.source_id'),
           json_extract(payload, '$.target_id'),
           json_extract(payload, '$.edge_type'),
           json_extract(payload, '$.valid_from'),
           json_extract(payload, '$.valid_to'),
           json_extract(payload, '$.weight'),",
    );
    reveal_strlit("\n           json_extract(payload, '$.properties'),");
    reveal_strlit("\n           branch_id");
    reveal_strlit("source_id, target_id, edge_type, valid_from, valid_to, weight");
    reveal_strlit(", properties");
    reveal_strlit(", branch_id");
    reveal_strlit("");
    reveal_strlit("source_id");
    reveal_strlit("target_id");
    reveal_strlit("edge_type");
    reveal_strlit("valid_from");
    reveal_strlit("valid_to");
    reveal_strlit("weight");
    reveal_strlit("properties");
    reveal_strlit("branch_id");
    reveal_strlit(",");
    reveal_strlit(", ");
}

/// How the entries of a fold are numbered, in words.
pub proof fn lemma_entries_text()
    ensures
        entry_columns().text == "transaction_log.payload, transaction_log.branch_id"@,
        entry_class().text == "transaction_log.entity_id, transaction_log.branch_id"@,
        last_first().text == "transaction_log.seq_id DESC"@,
{
    reveal(entry_columns);
    reveal(entry_class);
    reveal(last_first);
    reveal_strlit("transaction_log.payload, transaction_log.branch_id");
    reveal_strlit("transaction_log.entity_id, transaction_log.branch_id");
    reveal_strlit("transaction_log.seq_id DESC");
    reveal_strlit("transaction_log");
    reveal_strlit("payload");
    reveal_strlit("branch_id");
    reveal_strlit("entity_id");
    reveal_strlit("seq_id");
    reveal_strlit(" DESC");
    reveal_strlit(".");
    reveal_strlit(",");
    reveal_strlit(", ");
}

/// How a fold is written.
pub proof fn lemma_folded_text(properties: bool, from: Source, cond: Cond)
    ensures
        folded(properties, from, cond).text == "SELECT "@ + payload_columns(properties).text + r"
    FROM (
        SELECT transaction_log.payload, transaction_log.branch_id,
               ROW_NUMBER() OVER (
                   PARTITION BY transaction_log.entity_id, transaction_log.branch_id
                   ORDER BY transaction_log.seq_id DESC
               ) AS rn
        FROM "@ + from.text + r"
        WHERE "@ + cond.text + r"
    ) WHERE rn = 1"@,
{
    lemma_entries_text();
    ranked::lemma_numbered_one_text();
    reveal_strlit(
        r"
    FROM (
        SELECT transaction_log.payload, transaction_log.branch_id,
               ROW_NUMBER() OVER (
                   PARTITION BY transaction_log.entity_id, transaction_log.branch_id
                   ORDER BY transaction_log.seq_id DESC
               ) AS rn
        FROM ",
    );
    reveal_strlit(r"
        WHERE ");
    reveal_strlit(r"
    ) WHERE rn = 1");
    reveal_strlit("transaction_log.payload, transaction_log.branch_id");
    reveal_strlit("transaction_log.entity_id, transaction_log.branch_id");
    reveal_strlit("transaction_log.seq_id DESC");
    reveal_strlit("rn = 1");
    reveal_strlit("rn");
    reveal_strlit(",");
    reveal_strlit("(");
    reveal_strlit(")");
    reveal_strlit("SELECT ");
    reveal_strlit("FROM ");
    reveal_strlit("WHERE ");
    reveal_strlit("ROW_NUMBER() OVER (");
    reveal_strlit("PARTITION BY ");
    reveal_strlit("ORDER BY ");
    reveal_strlit(") AS ");
}

proof fn lemma_fold_source_text(shape: LineageShape, tag: Seq<char>)
    ensures
        fold_source(shape, tag).text == "transaction_log"@ + plan::fold_join(shape, tag),
{
    reveal(fold_source);
    reveal_strlit("\n        JOIN lineage");
    reveal_strlit(" g ON g.branch_id = transaction_log.branch_id");
    reveal_strlit("");
    reveal_strlit("transaction_log");
    reveal_strlit("lineage");
    reveal_strlit("branch_id");
    reveal_strlit("g");
    reveal_strlit("=");
    reveal_strlit(".");
    reveal_strlit(" ");
    reveal_strlit("JOIN ");
    reveal_strlit(" ON ");
    assert(fold_source(shape, tag).text =~= "transaction_log"@ + plan::fold_join(shape, tag));
}

proof fn lemma_fold_cond_text(shape: LineageShape, branch_slot: nat, slot: nat)
    ensures
        fold_cond(shape, branch_slot, slot).text == r"transaction_log.table_name = 'links'
          AND transaction_log.recorded_at <= ?"@ + text::decimal(slot) + plan::fold_bound(shape, branch_slot),
{
    reveal(fold_cond);
    reveal_strlit(r"transaction_log.table_name = 'links'
          AND transaction_log.recorded_at <= ?");
    reveal_strlit("\n          AND (g.cutoff IS NULL OR transaction_log.recorded_at <= g.cutoff)");
    reveal_strlit("\n          AND +transaction_log.branch_id = ?");
    reveal_strlit("");
    reveal_strlit("transaction_log");
    reveal_strlit("table_name");
    reveal_strlit("recorded_at");
    reveal_strlit("branch_id");
    reveal_strlit("cutoff");
    reveal_strlit("links");
    reveal_strlit("g");
    reveal_strlit("?");
    reveal_strlit("'");
    reveal_strlit("=");
    reveal_strlit("<=");
    reveal_strlit(".");
    reveal_strlit(" ");
    reveal_strlit("(");
    reveal_strlit(")");
    reveal_strlit("+");
    reveal_strlit("AND ");
    reveal_strlit(" OR ");
    reveal_strlit(" IS NULL");
    assert(fold_cond(shape, branch_slot, slot).text =~= r"transaction_log.table_name = 'links'
          AND transaction_log.recorded_at <= ?"@ + text::decimal(slot) + plan::fold_bound(shape, branch_slot));
}

/// The fold is written as its query is.
pub proof fn lemma_fold_text(shape: LineageShape, branch_slot: nat, slot: nat, tag: Seq<char>)
    ensures
        plan::links_at_tx_cte_text(shape, branch_slot, slot, tag) == fold_named(shape, branch_slot, slot, tag).text,
{
    lemma_payload_text(false);
    lemma_folded_text(false, fold_source(shape, tag), fold_cond(shape, branch_slot, slot));
    lemma_fold_source_text(shape, tag);
    lemma_fold_cond_text(shape, branch_slot, slot);
    let join = plan::fold_join(shape, tag);
    let bound = plan::fold_bound(shape, branch_slot);
    let at = text::decimal(slot);
    lemma_fold_pieces(tag, join, at, bound);
}

proof fn lemma_fold_pieces(tag: Seq<char>, join: Seq<char>, at: Seq<char>, bound: Seq<char>)
    ensures
        "links_at_tx"@ + tag
            + r"(source_id, target_id, edge_type, valid_from, valid_to, weight, branch_id) AS MATERIALIZED (
    SELECT json_extract(payload, '$.source_id'),
           json_extract(payload, '$.target_id'),
           json_extract(payload, '$.edge_type'),
           json_extract(payload, '$.valid_from'),
           json_extract(payload, '$.valid_to'),
           json_extract(payload, '$.weight'),
           branch_id
    FROM (
        SELECT transaction_log.payload, transaction_log.branch_id,
               ROW_NUMBER() OVER (
                   PARTITION BY transaction_log.entity_id, transaction_log.branch_id
                   ORDER BY transaction_log.seq_id DESC
               ) AS rn
        FROM transaction_log"@ + join + r"
        WHERE transaction_log.table_name = 'links'
          AND transaction_log.recorded_at <= ?"@ + at + bound + r"
    ) WHERE rn = 1
)"@ == "links_at_tx"@ + tag + "("@ + ("source_id, target_id, edge_type, valid_from, valid_to, weight"@ + ""@
            + ", branch_id"@) + ") AS"@ + " MATERIALIZED"@ + " ("@ + Gap::Line(4).text() + ("SELECT "@ + (
        r"json_extract(payload, '$.source_id'),
           json_extract(payload, '$.target_id'),
           json_extract(payload, '$.edge_type'),
           json_extract(payload, '$.valid_from'),
           json_extract(payload, '$.valid_to'),
           json_extract(payload, '$.weight'),"@ + ""@ + "\n           branch_id"@) + r"
    FROM (
        SELECT transaction_log.payload, transaction_log.branch_id,
               ROW_NUMBER() OVER (
                   PARTITION BY transaction_log.entity_id, transaction_log.branch_id
                   ORDER BY transaction_log.seq_id DESC
               ) AS rn
        FROM "@ + ("transaction_log"@ + join) + r"
        WHERE "@ + (r"transaction_log.table_name = 'links'
          AND transaction_log.recorded_at <= ?"@ + at + bound) + r"
    ) WHERE rn = 1"@) + Gap::Line(0).text() + ")"@,
{
    reveal_strlit(
        r"(source_id, target_id, edge_type, valid_from, valid_to, weight, branch_id) AS MATERIALIZED (
    SELECT json_extract(payload, '$.source_id'),
           json_extract(payload, '$.target_id'),
           json_extract(payload, '$.edge_type'),
           json_extract(payload, '$.valid_from'),
           json_extract(payload, '$.valid_to'),
           json_extract(payload, '$.weight'),
           branch_id
    FROM (
        SELECT transaction_log.payload, transaction_log.branch_id,
               ROW_NUMBER() OVER (
                   PARTITION BY transaction_log.entity_id, transaction_log.branch_id
                   ORDER BY transaction_log.seq_id DESC
               ) AS rn
        FROM transaction_log",
    );
    reveal_strlit(r"
        WHERE transaction_log.table_name = 'links'
          AND transaction_log.recorded_at <= ?");
    reveal_strlit(r"
    ) WHERE rn = 1
)");
    reveal_strlit("source_id, target_id, edge_type, valid_from, valid_to, weight");
    reveal_strlit(", branch_id");
    reveal_strlit("");
    reveal_strlit("(");
    reveal_strlit(") AS");
    reveal_strlit(" MATERIALIZED");
    reveal_strlit(" (");
    reveal_strlit("SELECT ");
    reveal_strlit(
        r"json_extract(payload, '$.source_id'),
           json_extract(payload, '$.target_id'),
           json_extract(payload, '$.edge_type'),
           json_extract(payload, '$.valid_from'),
           json_extract(payload, '$.valid_to'),
           json_extract(payload, '$.weight'),",
    );
    reveal_strlit("\n           branch_id");
    reveal_strlit(
        r"
    FROM (
        SELECT transaction_log.payload, transaction_log.branch_id,
               ROW_NUMBER() OVER (
                   PARTITION BY transaction_log.entity_id, transaction_log.branch_id
                   ORDER BY transaction_log.seq_id DESC
               ) AS rn
        FROM ",
    );
    reveal_strlit("transaction_log");
    reveal_strlit(r"
        WHERE ");
    reveal_strlit(r"transaction_log.table_name = 'links'
          AND transaction_log.recorded_at <= ?");
    reveal_strlit(r"
    ) WHERE rn = 1");
    reveal_strlit(")");
}

/// What a fold shows of an entry.
proof fn lemma_tells(properties: bool, w: World, s: Scope, i: int)
    requires
        is_of(w, s, i),
    ensures
        tells(
            w,
            payload_columns(properties).of(w.over(ranked::numbered(entry_columns().of(s), 1))),
            entries(w)[i],
            properties,
        ),
{
    reveal(is_of);
    reveal(tells);
    let entry = entries(w)[i];
    reveal(payload_columns);
    reveal(entry_columns);
    names::lemma_columns();
    let shown = ranked::numbered(entry_columns().of(s), 1);
    assert(shown("payload"@) == entry("payload"@)) by {
        assert(s.read("transaction_log"@, "payload"@) == entry("payload"@));
    }
    assert(shown("branch_id"@) == entry("branch_id"@)) by {
        assert(s.read("transaction_log"@, "branch_id"@) == entry("branch_id"@));
    }
}

proof fn lemma_entity(w: World, a: Scope, b: Scope, i: int, j: int)
    requires
        is_of(w, a, i),
        is_of(w, b, j),
    ensures
        entry_class().of(a) == entry_class().of(b) <==> same_entity(entries(w)[i], entries(w)[j]),
        last_first().puts(a, b) <==> term::before(entries(w)[j]("seq_id"@), entries(w)[i]("seq_id"@)),
{
    reveal(is_of);
    let (x, y) = (entries(w)[i], entries(w)[j]);
    reveal(entry_class);
    reveal(last_first);
    let (p, q) = (entry_class().of(a), entry_class().of(b));
    assert(p =~= seq![x("entity_id"@), x("branch_id"@)]);
    assert(q =~= seq![y("entity_id"@), y("branch_id"@)]);
    if p == q {
        assert(p[0] == q[0] && p[1] == q[1]);
    }
    assert(a.read("transaction_log"@, "seq_id"@) == x("seq_id"@));
    assert(b.read("transaction_log"@, "seq_id"@) == y("seq_id"@));
}

/// A fold that goes through the entries keeps the last of each edge and lineage:
/// `at` says which entry a scope is of, and each entry for which `p` is gone
/// through.
pub proof fn lemma_folded(
    properties: bool,
    from: Source,
    cond: Cond,
    w: World,
    out: Seq<Row>,
    p: spec_fn(Row) -> bool,
    at: spec_fn(Seq<Scope>, int) -> int,
) -> (of: Seq<int>)
    requires
        folded(properties, from, cond).answers(w, out),
        forall|list: Seq<Scope>| #[trigger] from.has(w, list) ==> goes_through(w, cond, p, list, at),
    ensures
        are_last(w, p, properties, of, out),
{
    let (list, chosen) = ranked::lemma_firsts_lead(
        payload_columns(properties),
        entry_columns(),
        entry_class(),
        last_first(),
        inside(),
        outside(),
        from,
        cond,
        ranked::select_ranked(entry_columns(), entry_class(), last_first(), inside(), from, cond),
        w,
        out,
    );
    let of = Seq::new(chosen.len(), |k: int| at(list, chosen[k]));
    assert(goes_through(w, cond, p, list, at));
    assert forall|k: int| 0 <= k < out.len() implies 0 <= #[trigger] of[k] < entries(w).len() && p(
        entries(w)[of[k]],
    ) && tells(w, out[k], entries(w)[of[k]], properties) by {
        assert(is_of(w, list[chosen[k]], at(list, chosen[k])));
        lemma_tells(properties, w, list[chosen[k]], of[k]);
    }
    assert forall|k: int, l: int| 0 <= k < l < out.len() implies !same_entity(
        entries(w)[#[trigger] of[k]],
        entries(w)[#[trigger] of[l]],
    ) by {
        assert(is_of(w, list[chosen[k]], at(list, chosen[k])));
        assert(is_of(w, list[chosen[l]], at(list, chosen[l])));
        lemma_entity(w, list[chosen[k]], list[chosen[l]], of[k], of[l]);
    }
    assert forall|i: int| 0 <= i < entries(w).len() && p(entries(w)[i]) implies #[trigger] is_told(w, of, i) by {
        assert(is_passed(cond, list, at, i));
        let m = choose|m: int| 0 <= m < list.len() && cond.of(#[trigger] list[m]) && at(list, m) == i;
        assert(ranked::is_led(list, entry_class(), chosen, m));
        let k = choose|k: int|
            0 <= k < chosen.len() && entry_class().of(list[#[trigger] chosen[k]]) == entry_class().of(list[m]);
        assert(is_of(w, list[chosen[k]], at(list, chosen[k])));
        assert(is_of(w, list[m], at(list, m)));
        lemma_entity(w, list[chosen[k]], list[m], of[k], i);
    }
    assert forall|i: int, k: int|
        0 <= i < entries(w).len() && p(#[trigger] entries(w)[i]) && 0 <= k < of.len() && same_entity(
            entries(w)[#[trigger] of[k]],
            entries(w)[i],
        ) implies !term::before(entries(w)[of[k]]("seq_id"@), entries(w)[i]("seq_id"@)) by {
        assert(is_passed(cond, list, at, i));
        let m = choose|m: int| 0 <= m < list.len() && cond.of(#[trigger] list[m]) && at(list, m) == i;
        assert(is_of(w, list[chosen[k]], at(list, chosen[k])));
        assert(is_of(w, list[m], at(list, m)));
        lemma_entity(w, list[m], list[chosen[k]], i, of[k]);
        assert(!last_first().puts(list[m], list[chosen[k]]));
    }
    of
}

/// Whether a scope is of an entry.
#[verifier::opaque]
pub open spec fn is_of(w: World, s: Scope, i: int) -> bool {
    0 <= i < entries(w).len() && forall|c: Seq<char>| #[trigger] s.read("transaction_log"@, c) == entries(w)[i](c)
}

/// Whether the scopes for which a condition holds are of the entries for which
/// `p`, and each of those.
pub open spec fn goes_through(
    w: World,
    cond: Cond,
    p: spec_fn(Row) -> bool,
    list: Seq<Scope>,
    at: spec_fn(Seq<Scope>, int) -> int,
) -> bool {
    &&& forall|m: int|
        0 <= m < list.len() && cond.of(#[trigger] list[m]) ==> is_of(w, list[m], at(list, m)) && 0 <= at(list, m)
            < entries(w).len() && p(entries(w)[at(list, m)])
    &&& forall|i: int| 0 <= i < entries(w).len() && p(entries(w)[i]) ==> #[trigger] is_passed(cond, list, at, i)
}

/// Whether a scope for which a condition holds is of an entry.
pub open spec fn is_passed(cond: Cond, list: Seq<Scope>, at: spec_fn(Seq<Scope>, int) -> int, i: int) -> bool {
    exists|m: int| 0 <= m < list.len() && cond.of(#[trigger] list[m]) && at(list, m) == i
}

/// What a fold keeps to, said of an entry.
proof fn lemma_fold_cond(w: World, shape: LineageShape, branch_slot: nat, slot: nat, s: Scope, i: int)
    requires
        is_of(w, s, i),
        s.bound == w.bound,
    ensures
        ({
            let entry = entries(w)[i];
            fold_cond(shape, branch_slot, slot).of(s) <==> {
                &&& term::equal(entry("table_name"@), SqlView::Text("links"@))
                &&& term::at_most(entry("recorded_at"@), w.bound[slot - 1])
                &&& match shape {
                    LineageShape::Trunk => true,
                    LineageShape::TrunkOnForked => term::equal(entry("branch_id"@), w.bound[branch_slot - 1]),
                    LineageShape::Resolved => s.read("g"@, "cutoff"@) is Null || term::at_most(
                        entry("recorded_at"@),
                        s.read("g"@, "cutoff"@),
                    ),
                }
            }
        }),
{
    reveal(is_of);
    reveal(fold_cond);
    let entry = entries(w)[i];
    assert(s.read("transaction_log"@, "table_name"@) == entry("table_name"@));
    assert(s.read("transaction_log"@, "recorded_at"@) == entry("recorded_at"@));
    assert(s.read("transaction_log"@, "branch_id"@) == entry("branch_id"@));
    assert(of_links().of(s) <==> term::equal(entry("table_name"@), SqlView::Text("links"@)));
    assert(by_then(slot).of(s) <==> term::at_most(entry("recorded_at"@), w.bound[slot - 1]));
    assert(uncut().of(s) <==> s.read("g"@, "cutoff"@) is Null || term::at_most(
        entry("recorded_at"@),
        s.read("g"@, "cutoff"@),
    ));
    assert(term::eq(term::plain(logged("branch_id"@)), term::slot(branch_slot)).of(s) <==> term::equal(
        entry("branch_id"@),
        w.bound[branch_slot - 1],
    ));
    let c = term::and(of_links(), Gap::Line(10), by_then(slot));
    assert(c.of(s) <==> of_links().of(s) && by_then(slot).of(s));
}

/// What joins a lineage to an entry.
pub open spec fn own_lineage() -> Cond {
    term::eq(term::column("g"@, "branch_id"@), logged("branch_id"@))
}

/// Which entry and which lineage each scope is of.
pub open spec fn pairs_of(w: World, name: Seq<char>, alias: Seq<char>, on: Cond, list: Seq<Scope>) -> Seq<(int, int)> {
    choose|pairs: Seq<(int, int)>| #[trigger]
        query::is_join(query::scopes(w, entries(w)), w.rows(name), alias, on, pairs, list)
}

/// An entry beside a row under another name.
pub proof fn lemma_beside(w: World, i: int, alias: Seq<char>, row: Row)
    requires
        0 <= i < entries(w).len(),
        alias != "transaction_log"@,
    ensures
        is_of(w, query::beside(query::scopes(w, entries(w))[i], alias, row), i),
        forall|c: Seq<char>| #[trigger]
            query::beside(query::scopes(w, entries(w))[i], alias, row).read(alias, c) == row(c),
        query::beside(query::scopes(w, entries(w))[i], alias, row).bound == w.bound,
{
    reveal(is_of);
}

proof fn lemma_fold_goes_through(
    w: World,
    shape: LineageShape,
    branch_slot: nat,
    slot: nat,
    tag: Seq<char>,
    list: Seq<Scope>,
)
    requires
        fold_source(shape, tag).has(w, list),
    ensures
        goes_through(
            w,
            fold_cond(shape, branch_slot, slot),
            |e: Row| may_see(w, shape, branch_slot, slot, tag, e),
            list,
            entry_at(w, shape, tag),
        ),
{
    reveal(fold_source);
    names::lemma_aliases();
    let cond = fold_cond(shape, branch_slot, slot);
    let p = |e: Row| may_see(w, shape, branch_slot, slot, tag, e);
    let at = entry_at(w, shape, tag);
    let base = query::scopes(w, entries(w));
    if shape == LineageShape::Resolved {
        let gs = w.rows("lineage"@ + tag);
        let (b, some) = query::lemma_join(
            query::table("transaction_log"@),
            Gap::Line(8),
            " "@,
            "lineage"@ + tag,
            "g"@,
            own_lineage(),
            w,
            list,
        );
        let pairs = pairs_of(w, "lineage"@ + tag, "g"@, own_lineage(), list);
        assert(query::is_join(base, gs, "g"@, own_lineage(), pairs, list));
        assert forall|m: int| 0 <= m < list.len() && cond.of(#[trigger] list[m]) implies is_of(
            w,
            list[m],
            at(list, m),
        ) && 0 <= at(list, m) < entries(w).len() && p(entries(w)[at(list, m)]) by {
            query::lemma_is_joined(base, gs, "g"@, own_lineage(), pairs, list, m);
            let (i, j) = pairs[m];
            lemma_beside(w, i, "g"@, gs[j]);
            lemma_own_lineage(w, list[m], i);
            lemma_fold_cond(w, shape, branch_slot, slot, list[m], i);
            assert(list[m].read("g"@, "cutoff"@) == gs[j]("cutoff"@));
            assert(list[m].read("g"@, "branch_id"@) == gs[j]("branch_id"@));
            assert(reaches(gs[j], entries(w)[i]));
        }
        assert forall|i: int| 0 <= i < entries(w).len() && p(entries(w)[i]) implies #[trigger] is_passed(
            cond,
            list,
            at,
            i,
        ) by {
            let j = choose|j: int| 0 <= j < gs.len() && reaches(#[trigger] gs[j], entries(w)[i]);
            let s = query::beside(base[i], "g"@, gs[j]);
            lemma_beside(w, i, "g"@, gs[j]);
            assert(s.read("g"@, "cutoff"@) == gs[j]("cutoff"@));
            assert(s.read("g"@, "branch_id"@) == gs[j]("branch_id"@));
            lemma_own_lineage(w, s, i);
            let m = query::lemma_joined(base, gs, "g"@, own_lineage(), pairs, list, i, j);
            lemma_fold_cond(w, shape, branch_slot, slot, list[m], i);
            assert(cond.of(list[m]));
        }
    } else {
        assert forall|i: int| 0 <= i < entries(w).len() implies is_of(w, #[trigger] list[i], i) && list[i].bound
            == w.bound by {
            reveal(is_of);
        }
        assert forall|m: int| 0 <= m < list.len() && cond.of(#[trigger] list[m]) implies is_of(
            w,
            list[m],
            at(list, m),
        ) && 0 <= at(list, m) < entries(w).len() && p(entries(w)[at(list, m)]) by {
            lemma_fold_cond(w, shape, branch_slot, slot, list[m], m);
        }
        assert forall|i: int| 0 <= i < entries(w).len() && p(entries(w)[i]) implies #[trigger] is_passed(
            cond,
            list,
            at,
            i,
        ) by {
            lemma_fold_cond(w, shape, branch_slot, slot, list[i], i);
            assert(cond.of(list[i]));
        }
    }
}

proof fn lemma_own_lineage(w: World, s: Scope, i: int)
    requires
        is_of(w, s, i),
    ensures
        own_lineage().of(s) <==> term::equal(s.read("g"@, "branch_id"@), entries(w)[i]("branch_id"@)),
{
    reveal(is_of);
    assert(s.read("transaction_log"@, "branch_id"@) == entries(w)[i]("branch_id"@));
}

/// Which entry a scope of the fold is of.
spec fn entry_at(w: World, shape: LineageShape, tag: Seq<char>) -> spec_fn(Seq<Scope>, int) -> int {
    |list: Seq<Scope>, m: int|
        if shape == LineageShape::Resolved {
            pairs_of(w, "lineage"@ + tag, "g"@, own_lineage(), list)[m].0
        } else {
            m
        }
}

/// The fold at an instant holds, for each edge of each lineage that the reader may
/// see, exactly one row: what the last entry of the log says of it, among those
/// recorded by the instant and before their lineage was cut. What that entry
/// superseded is absent.
pub proof fn law_fold_keeps_the_last(
    shape: LineageShape,
    branch_slot: nat,
    slot: nat,
    tag: Seq<char>,
    w: World,
    out: Seq<Row>,
) -> (of: Seq<int>)
    requires
        fold(shape, branch_slot, slot, tag).answers(w, out),
    ensures
        plan::links_at_tx_cte_text(shape, branch_slot, slot, tag) == fold_named(shape, branch_slot, slot, tag).text,
        are_last(w, |e: Row| may_see(w, shape, branch_slot, slot, tag, e), false, of, out),
{
    lemma_fold_text(shape, branch_slot, slot, tag);
    let p = |e: Row| may_see(w, shape, branch_slot, slot, tag, e);
    assert forall|list: Seq<Scope>| #[trigger] fold_source(shape, tag).has(w, list) implies goes_through(
        w,
        fold_cond(shape, branch_slot, slot),
        p,
        list,
        entry_at(w, shape, tag),
    ) by {
        lemma_fold_goes_through(w, shape, branch_slot, slot, tag, list);
    }
    lemma_folded(
        false,
        fold_source(shape, tag),
        fold_cond(shape, branch_slot, slot),
        w,
        out,
        p,
        entry_at(w, shape, tag),
    )
}

} // verus!
