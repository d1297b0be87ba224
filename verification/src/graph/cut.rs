//! What a lineage is seen to hold where it was cut.

use vstd::prelude::*;

use crate::graph::fold;
use crate::graph::lineage_sql;
use crate::graph::lineage_sql::KeySlots;
use crate::relation::query;
use crate::relation::query::{Cols, Named, Query, Source};
use crate::relation::term;
use crate::relation::term::{Cond, Gap, Term};

verus! {

/// A column of current belief.
pub open spec fn current(col: Seq<char>) -> Term {
    term::column("lc"@, col)
}

/// A column of the ancestry.
pub open spec fn ancestral(col: Seq<char>) -> Term {
    term::column("g"@, col)
}

/// Whether a row is of the one edge that is asked for.
#[verifier::opaque]
pub open spec fn keyed(key: KeySlots, alias: Seq<char>) -> Cond {
    term::and(
        term::and(
            term::eq(term::column(alias, "source_id"@), term::slot(key.source as nat)),
            Gap::Blank,
            term::eq(term::column(alias, "target_id"@), term::slot(key.target as nat)),
        ),
        Gap::Blank,
        term::eq(term::column(alias, "edge_type"@), term::slot(key.edge_type as nat)),
    )
}

/// The name of an edge in the log.
#[verifier::opaque]
pub open spec fn entity() -> Term {
    let bar = term::quote("|"@);
    let t1 = term::glue(term::glue(current("source_id"@), bar), current("target_id"@));
    let t2 = term::glue(term::glue(t1, bar), current("edge_type"@));
    term::glue(term::glue(t2, bar), current("valid_from"@))
}

/// The name of an edge, its lineage, and where that was cut.
#[verifier::opaque]
pub open spec fn churned_columns() -> Cols {
    let c1 = query::one(entity(), "entity_id"@);
    let c2 = query::also(c1, Gap::Line(11), current("branch_id"@), "branch_id"@);
    query::also(c2, Gap::Blank, ancestral("cutoff"@), "cutoff"@)
}

/// What joins a lineage to current belief.
#[verifier::opaque]
pub open spec fn on_lineage() -> Cond {
    term::eq(ancestral("branch_id"@), current("branch_id"@))
}

/// Current belief beside the ancestry.
pub open spec fn current_on(tag: Seq<char>) -> Source {
    query::join(
        query::table_as("links_current"@, "lc"@),
        Gap::Line(4),
        " "@,
        "lineage"@ + tag,
        "g"@,
        on_lineage(),
    )
}

/// Whether a belief was changed after its lineage was cut.
#[verifier::opaque]
pub open spec fn was_churned(key: Option<KeySlots>) -> Cond {
    let cut = term::present(ancestral("cutoff"@));
    let later = term::gt(current("recorded_at"@), ancestral("cutoff"@));
    match key {
        Some(k) => term::and(term::and(keyed(k, "lc"@), Gap::Blank, cut), Gap::Blank, later),
        None => term::and(cut, Gap::Blank, later),
    }
}

/// The query of what was changed after its lineage was cut.
pub open spec fn churned(tag: Seq<char>, key: Option<KeySlots>) -> Query {
    query::select(churned_columns(), Gap::Line(4), current_on(tag), Gap::Line(4), was_churned(key))
}

/// That query under its name.
pub open spec fn churned_named(tag: Seq<char>, key: Option<KeySlots>) -> Named {
    query::named("churned"@ + tag, ""@, Gap::Line(4), churned(tag, key), Gap::Line(0))
}

/// The columns of an edge of current belief.
#[verifier::opaque]
pub open spec fn current_columns(properties: bool) -> Cols {
    let c1 = query::one(current("source_id"@), "source_id"@);
    let c2 = query::also(c1, Gap::Blank, current("target_id"@), "target_id"@);
    let c3 = query::also(c2, Gap::Blank, current("edge_type"@), "edge_type"@);
    let c4 = query::also(c3, Gap::Blank, current("valid_from"@), "valid_from"@);
    let c5 = query::also(c4, Gap::Blank, current("valid_to"@), "valid_to"@);
    let c6 = query::also(c5, Gap::Line(11), current("weight"@), "weight"@);
    let c7 = if properties {
        query::also(c6, Gap::Blank, current("properties"@), "properties"@)
    } else {
        c6
    };
    query::also(c7, Gap::Blank, current("branch_id"@), "branch_id"@)
}

/// Whether a belief stands as it did when its lineage was cut.
#[verifier::opaque]
pub open spec fn was_kept(key: Option<KeySlots>) -> Cond {
    let still = term::or(
        term::absent(ancestral("cutoff"@)),
        term::le(current("recorded_at"@), ancestral("cutoff"@)),
    );
    match key {
        Some(k) => term::and(keyed(k, "lc"@), Gap::Blank, term::bracketed(still)),
        None => still,
    }
}

/// What joins a change to the entries of its edge.
#[verifier::opaque]
pub open spec fn on_change() -> Cond {
    term::and(
        term::eq(term::column("k"@, "entity_id"@), fold::logged("entity_id"@)),
        Gap::Line(22),
        term::eq(term::column("k"@, "branch_id"@), fold::logged("branch_id"@)),
    )
}

/// The log beside what was changed.
#[verifier::opaque]
pub open spec fn changed_log(tag: Seq<char>) -> Source {
    query::join(query::table("transaction_log"@), Gap::Line(8), " "@, "churned"@ + tag, "k"@, on_change())
}

/// Whether an entry was recorded before its lineage was cut.
#[verifier::opaque]
pub open spec fn before_cut() -> Cond {
    term::and(
        fold::of_links(),
        Gap::Line(10),
        term::le(fold::logged("recorded_at"@), term::column("k"@, "cutoff"@)),
    )
}

/// What stands as it did.
pub open spec fn kept_part(tag: Seq<char>, key: Option<KeySlots>) -> Query {
    query::select(current_columns(key.is_some()), Gap::Line(4), current_on(tag), Gap::Line(4), was_kept(key))
}

/// What the log says of the rest.
pub open spec fn changed_part(tag: Seq<char>, key: Option<KeySlots>) -> Query {
    fold::folded(key.is_some(), changed_log(tag), before_cut())
}

/// The query of each lineage's edges as they stood when it was cut.
pub open spec fn links_cut(tag: Seq<char>, key: Option<KeySlots>) -> Query {
    query::union_all(kept_part(tag, key), Gap::Line(4), changed_part(tag, key))
}

/// That query under its name.
pub open spec fn links_cut_named(tag: Seq<char>, key: Option<KeySlots>) -> Named {
    query::named("links_cut"@ + tag, ""@, Gap::Line(4), links_cut(tag, key), Gap::Line(0))
}

/// How a key is written.
pub proof fn lemma_keyed_text(key: KeySlots, alias: Seq<char>)
    ensures
        keyed(key, alias).text == key.equalities_text(alias),
        !keyed(key, alias).loose,
{
    reveal(keyed);
    reveal_strlit(".source_id = ?");
    reveal_strlit(".target_id = ?");
    reveal_strlit(".edge_type = ?");
    reveal_strlit(" AND ");
    reveal_strlit("source_id");
    reveal_strlit("target_id");
    reveal_strlit("edge_type");
    reveal_strlit(".");
    reveal_strlit("=");
    reveal_strlit(" ");
    reveal_strlit("?");
    reveal_strlit("AND ");
    assert(keyed(key, alias).text =~= key.equalities_text(alias));
}

proof fn lemma_entity_text()
    ensures
        entity().text == "lc.source_id || '|' || lc.target_id || '|' || lc.edge_type || '|' || lc.valid_from"@,
{
    reveal(entity);
    reveal_strlit("lc.source_id || '|' || lc.target_id || '|' || lc.edge_type || '|' || lc.valid_from");
    reveal_strlit("source_id");
    reveal_strlit("target_id");
    reveal_strlit("edge_type");
    reveal_strlit("valid_from");
    reveal_strlit("lc");
    reveal_strlit(".");
    reveal_strlit("|");
    reveal_strlit("'");
    reveal_strlit(" || ");
}

proof fn lemma_current_on_text(tag: Seq<char>)
    ensures
        current_on(tag).text == "links_current lc\n    JOIN lineage"@ + tag + " g ON g.branch_id = lc.branch_id"@,
{
    reveal(on_lineage);
    reveal_strlit("links_current lc\n    JOIN lineage");
    reveal_strlit(" g ON g.branch_id = lc.branch_id");
    reveal_strlit("links_current");
    reveal_strlit("lineage");
    reveal_strlit("branch_id");
    reveal_strlit("lc");
    reveal_strlit("g");
    reveal_strlit(".");
    reveal_strlit("=");
    reveal_strlit(" ");
    reveal_strlit("JOIN ");
    reveal_strlit(" ON ");
    assert(current_on(tag).text =~= "links_current lc\n    JOIN lineage"@ + tag
        + " g ON g.branch_id = lc.branch_id"@);
}

proof fn lemma_was_churned_text(key: Option<KeySlots>)
    ensures
        was_churned(key).text == lineage_sql::key_first(key) + "g.cutoff IS NOT NULL AND lc.recorded_at > g.cutoff"@,
{
    reveal(was_churned);
    if key.is_some() {
        lemma_keyed_text(key.unwrap(), "lc"@);
    }
    reveal_strlit("g.cutoff IS NOT NULL AND lc.recorded_at > g.cutoff");
    reveal_strlit(" AND ");
    reveal_strlit("");
    reveal_strlit("cutoff");
    reveal_strlit("recorded_at");
    reveal_strlit("lc");
    reveal_strlit("g");
    reveal_strlit(".");
    reveal_strlit(">");
    reveal_strlit(" ");
    reveal_strlit("AND ");
    reveal_strlit(" IS NOT NULL");
    assert(was_churned(key).text =~= lineage_sql::key_first(key)
        + "g.cutoff IS NOT NULL AND lc.recorded_at > g.cutoff"@);
}

proof fn lemma_churned_columns_text()
    ensures
        churned_columns().text
            == r"lc.source_id || '|' || lc.target_id || '|' || lc.edge_type || '|' || lc.valid_from,
           lc.branch_id, g.cutoff"@,
        churned_columns().header == "entity_id, branch_id, cutoff"@,
{
    reveal(churned_columns);
    lemma_entity_text();
    reveal_strlit(
        r"lc.source_id || '|' || lc.target_id || '|' || lc.edge_type || '|' || lc.valid_from,
           lc.branch_id, g.cutoff",
    );
    reveal_strlit("lc.source_id || '|' || lc.target_id || '|' || lc.edge_type || '|' || lc.valid_from");
    reveal_strlit("entity_id, branch_id, cutoff");
    reveal_strlit("entity_id");
    reveal_strlit("branch_id");
    reveal_strlit("cutoff");
    reveal_strlit("lc");
    reveal_strlit("g");
    reveal_strlit(".");
    reveal_strlit(",");
    reveal_strlit(", ");
}

/// What was changed is written as its query is.
pub proof fn lemma_churned_text(tag: Seq<char>, key: Option<KeySlots>)
    ensures
        lineage_sql::churned_cte_text(tag, key) == churned_named(tag, key).text,
{
    lemma_churned_columns_text();
    lemma_current_on_text(tag);
    lemma_was_churned_text(key);
    reveal_strlit(
        r"(entity_id, branch_id, cutoff) AS (
    SELECT lc.source_id || '|' || lc.target_id || '|' || lc.edge_type || '|' || lc.valid_from,
           lc.branch_id, g.cutoff
    FROM links_current lc
    JOIN lineage",
    );
    reveal_strlit(r" g ON g.branch_id = lc.branch_id
    WHERE ");
    reveal_strlit(r"g.cutoff IS NOT NULL AND lc.recorded_at > g.cutoff
)");
    reveal_strlit(
        r"lc.source_id || '|' || lc.target_id || '|' || lc.edge_type || '|' || lc.valid_from,
           lc.branch_id, g.cutoff",
    );
    reveal_strlit("entity_id, branch_id, cutoff");
    reveal_strlit("links_current lc\n    JOIN lineage");
    reveal_strlit(" g ON g.branch_id = lc.branch_id");
    reveal_strlit("g.cutoff IS NOT NULL AND lc.recorded_at > g.cutoff");
    reveal_strlit("");
    reveal_strlit("(");
    reveal_strlit(")");
    reveal_strlit(") AS");
    reveal_strlit(" (");
    reveal_strlit("SELECT ");
    reveal_strlit("FROM ");
    reveal_strlit("WHERE ");
    assert(lineage_sql::churned_cte_text(tag, key) =~= churned_named(tag, key).text);
}

proof fn lemma_was_kept_text(key: Option<KeySlots>)
    ensures
        was_kept(key).text == lineage_sql::uncut_rows(key),
{
    reveal(was_kept);
    if key.is_some() {
        lemma_keyed_text(key.unwrap(), "lc"@);
    }
    reveal_strlit(" AND (g.cutoff IS NULL OR lc.recorded_at <= g.cutoff)");
    reveal_strlit("g.cutoff IS NULL OR lc.recorded_at <= g.cutoff");
    reveal_strlit("cutoff");
    reveal_strlit("recorded_at");
    reveal_strlit("lc");
    reveal_strlit("g");
    reveal_strlit(".");
    reveal_strlit("<=");
    reveal_strlit(" ");
    reveal_strlit("(");
    reveal_strlit(")");
    reveal_strlit("AND ");
    reveal_strlit(" OR ");
    reveal_strlit(" IS NULL");
    assert(was_kept(key).text =~= lineage_sql::uncut_rows(key));
}

proof fn lemma_current_columns_text(key: Option<KeySlots>)
    ensures
        current_columns(key.is_some()).text
            == "lc.source_id, lc.target_id, lc.edge_type, lc.valid_from, lc.valid_to,\n           "@
            + lineage_sql::by_key(key, "lc.weight, lc.properties, lc.branch_id"@, "lc.weight, lc.branch_id"@),
        current_columns(key.is_some()).header == "source_id, target_id, edge_type, valid_from, valid_to, weight"@
            + lineage_sql::by_key(key, ", properties"@, ""@) + ", branch_id"@,
{
    reveal(current_columns);
    reveal_strlit("lc.source_id, lc.target_id, lc.edge_type, lc.valid_from, lc.valid_to,\n           ");
    reveal_strlit("lc.weight, lc.properties, lc.branch_id");
    reveal_strlit("lc.weight, lc.branch_id");
    reveal_strlit("source_id, target_id, edge_type, valid_from, valid_to, weight");
    reveal_strlit(", properties");
    reveal_strlit(", branch_id");
    reveal_strlit("");
    reveal_strlit("source_id");
    reveal_strlit("target_id");
    reveal_strlit("edge_type");
    reveal_strlit("valid_from");
    reveal_strlit("valid_to");
    reveal_strlit("weight");
    reveal_strlit("properties");
    reveal_strlit("branch_id");
    reveal_strlit("lc");
    reveal_strlit(".");
    reveal_strlit(",");
    reveal_strlit(", ");
}

proof fn lemma_changed_log_text(tag: Seq<char>)
    ensures
        changed_log(tag).text == "transaction_log\n        JOIN churned"@ + tag
            + " k ON k.entity_id = transaction_log.entity_id\n                      AND k.branch_id = transaction_log.branch_id"@,
{
    reveal(changed_log);
    reveal(on_change);
    reveal_strlit("transaction_log\n        JOIN churned");
    reveal_strlit(
        " k ON k.entity_id = transaction_log.entity_id\n                      AND k.branch_id = transaction_log.branch_id",
    );
    reveal_strlit("transaction_log");
    reveal_strlit("churned");
    reveal_strlit("entity_id");
    reveal_strlit("branch_id");
    reveal_strlit("k");
    reveal_strlit(".");
    reveal_strlit("=");
    reveal_strlit(" ");
    reveal_strlit("AND ");
    reveal_strlit("JOIN ");
    reveal_strlit(" ON ");
}

proof fn lemma_before_cut_text()
    ensures
        before_cut().text
            == "transaction_log.table_name = 'links'\n          AND transaction_log.recorded_at <= k.cutoff"@,
{
    reveal(before_cut);
    reveal_strlit("transaction_log.table_name = 'links'\n          AND transaction_log.recorded_at <= k.cutoff");
    reveal_strlit("transaction_log");
    reveal_strlit("table_name");
    reveal_strlit("recorded_at");
    reveal_strlit("cutoff");
    reveal_strlit("links");
    reveal_strlit("k");
    reveal_strlit("'");
    reveal_strlit(".");
    reveal_strlit("=");
    reveal_strlit("<=");
    reveal_strlit(" ");
    reveal_strlit("AND ");
}

/// What stands as it did is written as its query is.
proof fn lemma_kept_part_text(tag: Seq<char>, key: Option<KeySlots>)
    ensures
        kept_part(tag, key).text
            == "SELECT lc.source_id, lc.target_id, lc.edge_type, lc.valid_from, lc.valid_to,\n           "@
            + lineage_sql::by_key(key, "lc.weight, lc.properties, lc.branch_id"@, "lc.weight, lc.branch_id"@)
            + "\n    FROM links_current lc\n    JOIN lineage"@ + tag
            + " g ON g.branch_id = lc.branch_id\n    WHERE "@ + lineage_sql::uncut_rows(key),
{
    lemma_current_columns_text(key);
    lemma_current_on_text(tag);
    lemma_was_kept_text(key);
    let pick = lineage_sql::by_key(key, "lc.weight, lc.properties, lc.branch_id"@, "lc.weight, lc.branch_id"@);
    let rows = lineage_sql::uncut_rows(key);
    reveal_strlit("SELECT lc.source_id, lc.target_id, lc.edge_type, lc.valid_from, lc.valid_to,\n           ");
    reveal_strlit("lc.source_id, lc.target_id, lc.edge_type, lc.valid_from, lc.valid_to,\n           ");
    reveal_strlit("\n    FROM links_current lc\n    JOIN lineage");
    reveal_strlit("links_current lc\n    JOIN lineage");
    reveal_strlit(" g ON g.branch_id = lc.branch_id\n    WHERE ");
    reveal_strlit(" g ON g.branch_id = lc.branch_id");
    reveal_strlit("SELECT ");
    reveal_strlit("FROM ");
    reveal_strlit("WHERE ");
    assert(kept_part(tag, key).text
        =~= "SELECT lc.source_id, lc.target_id, lc.edge_type, lc.valid_from, lc.valid_to,\n           "@ + pick
        + "\n    FROM links_current lc\n    JOIN lineage"@ + tag + " g ON g.branch_id = lc.branch_id\n    WHERE "@
        + rows);
}

/// What the log says of the rest is written as its query is.
proof fn lemma_changed_part_text(tag: Seq<char>, key: Option<KeySlots>)
    ensures
        changed_part(tag, key).text == r"SELECT json_extract(payload, '$.source_id'),
           json_extract(payload, '$.target_id'),
           json_extract(payload, '$.edge_type'),
           json_extract(payload, '$.valid_from'),
           json_extract(payload, '$.valid_to'),
           json_extract(payload, '$.weight'),"@
            + lineage_sql::by_key(key, "\n           json_extract(payload, '$.properties'),"@, ""@)
            + r"
           branch_id
    FROM (
        SELECT transaction_log.payload, transaction_log.branch_id,
               ROW_NUMBER() OVER (
                   PARTITION BY transaction_log.entity_id, transaction_log.branch_id
                   ORDER BY transaction_log.seq_id DESC
               ) AS rn
        FROM transaction_log
        JOIN churned"@ + tag
            + r" k ON k.entity_id = transaction_log.entity_id
                      AND k.branch_id = transaction_log.branch_id
        WHERE transaction_log.table_name = 'links'
          AND transaction_log.recorded_at <= k.cutoff
    ) WHERE rn = 1"@,
{
    fold::lemma_payload_text(key.is_some());
    fold::lemma_folded_text(key.is_some(), changed_log(tag), before_cut());
    lemma_changed_log_text(tag);
    lemma_before_cut_text();
    lemma_changed_pieces(
        tag,
        lineage_sql::by_key(key, "\n           json_extract(payload, '$.properties'),"@, ""@),
    );
}

proof fn lemma_changed_pieces(tag: Seq<char>, pick: Seq<char>)
    ensures
        "SELECT "@ + (r"json_extract(payload, '$.source_id'),
           json_extract(payload, '$.target_id'),
           json_extract(payload, '$.edge_type'),
           json_extract(payload, '$.valid_from'),
           json_extract(payload, '$.valid_to'),
           json_extract(payload, '$.weight'),"@ + pick + "\n           branch_id"@) + r"
    FROM (
        SELECT transaction_log.payload, transaction_log.branch_id,
               ROW_NUMBER() OVER (
                   PARTITION BY transaction_log.entity_id, transaction_log.branch_id
                   ORDER BY transaction_log.seq_id DESC
               ) AS rn
        FROM "@ + ("transaction_log\n        JOIN churned"@ + tag
            + " k ON k.entity_id = transaction_log.entity_id\n                      AND k.branch_id = transaction_log.branch_id"@)
            + r"
        WHERE "@ + "transaction_log.table_name = 'links'\n          AND transaction_log.recorded_at <= k.cutoff"@ + r"
    ) WHERE rn = 1"@ == r"SELECT json_extract(payload, '$.source_id'),
           json_extract(payload, '$.target_id'),
           json_extract(payload, '$.edge_type'),
           json_extract(payload, '$.valid_from'),
           json_extract(payload, '$.valid_to'),
           json_extract(payload, '$.weight'),"@ + pick + r"
           branch_id
    FROM (
        SELECT transaction_log.payload, transaction_log.branch_id,
               ROW_NUMBER() OVER (
                   PARTITION BY transaction_log.entity_id, transaction_log.branch_id
                   ORDER BY transaction_log.seq_id DESC
               ) AS rn
        FROM transaction_log
        JOIN churned"@ + tag + r" k ON k.entity_id = transaction_log.entity_id
                      AND k.branch_id = transaction_log.branch_id
        WHERE transaction_log.table_name = 'links'
          AND transaction_log.recorded_at <= k.cutoff
    ) WHERE rn = 1"@,
{
    reveal_strlit(
        r"SELECT json_extract(payload, '$.source_id'),
           json_extract(payload, '$.target_id'),
           json_extract(payload, '$.edge_type'),
           json_extract(payload, '$.valid_from'),
           json_extract(payload, '$.valid_to'),
           json_extract(payload, '$.weight'),",
    );
    reveal_strlit(
        r"
           branch_id
    FROM (
        SELECT transaction_log.payload, transaction_log.branch_id,
               ROW_NUMBER() OVER (
                   PARTITION BY transaction_log.entity_id, transaction_log.branch_id
                   ORDER BY transaction_log.seq_id DESC
               ) AS rn
        FROM transaction_log
        JOIN churned",
    );
    reveal_strlit(
        r" k ON k.entity_id = transaction_log.entity_id
                      AND k.branch_id = transaction_log.branch_id
        WHERE transaction_log.table_name = 'links'
          AND transaction_log.recorded_at <= k.cutoff
    ) WHERE rn = 1",
    );
    reveal_strlit(
        r"json_extract(payload, '$.source_id'),
           json_extract(payload, '$.target_id'),
           json_extract(payload, '$.edge_type'),
           json_extract(payload, '$.valid_from'),
           json_extract(payload, '$.valid_to'),
           json_extract(payload, '$.weight'),",
    );
    reveal_strlit("\n           branch_id");
    reveal_strlit(
        r"
    FROM (
        SELECT transaction_log.payload, transaction_log.branch_id,
               ROW_NUMBER() OVER (
                   PARTITION BY transaction_log.entity_id, transaction_log.branch_id
                   ORDER BY transaction_log.seq_id DESC
               ) AS rn
        FROM ",
    );
    reveal_strlit("transaction_log\n        JOIN churned");
    reveal_strlit(
        " k ON k.entity_id = transaction_log.entity_id\n                      AND k.branch_id = transaction_log.branch_id",
    );
    reveal_strlit(r"
        WHERE ");
    reveal_strlit("transaction_log.table_name = 'links'\n          AND transaction_log.recorded_at <= k.cutoff");
    reveal_strlit(r"
    ) WHERE rn = 1");
    reveal_strlit("SELECT ");
}

/// Each lineage's edges are written as their query is.
pub proof fn lemma_links_cut_text(tag: Seq<char>, key: Option<KeySlots>)
    ensures
        lineage_sql::links_cut_cte_text(tag, key) == links_cut_named(tag, key).text,
{
    lemma_current_columns_text(key);
    lemma_kept_part_text(tag, key);
    lemma_changed_part_text(tag, key);
    let p1 = lineage_sql::by_key(key, ", properties"@, ""@);
    let p2 = lineage_sql::by_key(key, "lc.weight, lc.properties, lc.branch_id"@, "lc.weight, lc.branch_id"@);
    let p3 = lineage_sql::by_key(key, "\n           json_extract(payload, '$.properties'),"@, ""@);
    lemma_links_cut_pieces(tag, p1, p2, lineage_sql::uncut_rows(key), p3);
}

proof fn lemma_links_cut_pieces(tag: Seq<char>, p1: Seq<char>, p2: Seq<char>, rows: Seq<char>, p3: Seq<char>)
    ensures
        "links_cut"@ + tag + "(source_id, target_id, edge_type, valid_from, valid_to, weight"@ + p1
            + r", branch_id) AS (
    SELECT lc.source_id, lc.target_id, lc.edge_type, lc.valid_from, lc.valid_to,
           "@ + p2 + r"
    FROM links_current lc
    JOIN lineage"@ + tag + r" g ON g.branch_id = lc.branch_id
    WHERE "@ + rows + r"
    UNION ALL
    SELECT json_extract(payload, '$.source_id'),
           json_extract(payload, '$.target_id'),
           json_extract(payload, '$.edge_type'),
           json_extract(payload, '$.valid_from'),
           json_extract(payload, '$.valid_to'),
           json_extract(payload, '$.weight'),"@ + p3 + r"
           branch_id
    FROM (
        SELECT transaction_log.payload, transaction_log.branch_id,
               ROW_NUMBER() OVER (
                   PARTITION BY transaction_log.entity_id, transaction_log.branch_id
                   ORDER BY transaction_log.seq_id DESC
               ) AS rn
        FROM transaction_log
        JOIN churned"@ + tag + r" k ON k.entity_id = transaction_log.entity_id
                      AND k.branch_id = transaction_log.branch_id
        WHERE transaction_log.table_name = 'links'
          AND transaction_log.recorded_at <= k.cutoff
    ) WHERE rn = 1
)"@ == "links_cut"@ + tag + "("@ + ("source_id, target_id, edge_type, valid_from, valid_to, weight"@ + p1
            + ", branch_id"@) + ") AS"@ + ""@ + " ("@ + Gap::Line(4).text() + (
        "SELECT lc.source_id, lc.target_id, lc.edge_type, lc.valid_from, lc.valid_to,\n           "@ + p2
            + "\n    FROM links_current lc\n    JOIN lineage"@ + tag
            + " g ON g.branch_id = lc.branch_id\n    WHERE "@ + rows + Gap::Line(4).text() + "UNION ALL"@ + Gap::Line(
            4,
        ).text() + (r"SELECT json_extract(payload, '$.source_id'),
           json_extract(payload, '$.target_id'),
           json_extract(payload, '$.edge_type'),
           json_extract(payload, '$.valid_from'),
           json_extract(payload, '$.valid_to'),
           json_extract(payload, '$.weight'),"@ + p3 + r"
           branch_id
    FROM (
        SELECT transaction_log.payload, transaction_log.branch_id,
               ROW_NUMBER() OVER (
                   PARTITION BY transaction_log.entity_id, transaction_log.branch_id
                   ORDER BY transaction_log.seq_id DESC
               ) AS rn
        FROM transaction_log
        JOIN churned"@ + tag + r" k ON k.entity_id = transaction_log.entity_id
                      AND k.branch_id = transaction_log.branch_id
        WHERE transaction_log.table_name = 'links'
          AND transaction_log.recorded_at <= k.cutoff
    ) WHERE rn = 1"@)) + Gap::Line(0).text() + ")"@,
{
    reveal_strlit("(source_id, target_id, edge_type, valid_from, valid_to, weight");
    reveal_strlit(
        r", branch_id) AS (
    SELECT lc.source_id, lc.target_id, lc.edge_type, lc.valid_from, lc.valid_to,
           ",
    );
    reveal_strlit(r"
    FROM links_current lc
    JOIN lineage");
    reveal_strlit(r" g ON g.branch_id = lc.branch_id
    WHERE ");
    reveal_strlit(
        r"
    UNION ALL
    SELECT json_extract(payload, '$.source_id'),
           json_extract(payload, '$.target_id'),
           json_extract(payload, '$.edge_type'),
           json_extract(payload, '$.valid_from'),
           json_extract(payload, '$.valid_to'),
           json_extract(payload, '$.weight'),",
    );
    reveal_strlit(
        r"
           branch_id
    FROM (
        SELECT transaction_log.payload, transaction_log.branch_id,
               ROW_NUMBER() OVER (
                   PARTITION BY transaction_log.entity_id, transaction_log.branch_id
                   ORDER BY transaction_log.seq_id DESC
               ) AS rn
        FROM transaction_log
        JOIN churned",
    );
    reveal_strlit(
        r" k ON k.entity_id = transaction_log.entity_id
                      AND k.branch_id = transaction_log.branch_id
        WHERE transaction_log.table_name = 'links'
          AND transaction_log.recorded_at <= k.cutoff
    ) WHERE rn = 1
)",
    );
    reveal_strlit("source_id, target_id, edge_type, valid_from, valid_to, weight");
    reveal_strlit(", branch_id");
    reveal_strlit("(");
    reveal_strlit(") AS");
    reveal_strlit("");
    reveal_strlit(" (");
    reveal_strlit("SELECT lc.source_id, lc.target_id, lc.edge_type, lc.valid_from, lc.valid_to,\n           ");
    reveal_strlit("\n    FROM links_current lc\n    JOIN lineage");
    reveal_strlit(" g ON g.branch_id = lc.branch_id\n    WHERE ");
    reveal_strlit("UNION ALL");
    reveal_strlit(
        r"SELECT json_extract(payload, '$.source_id'),
           json_extract(payload, '$.target_id'),
           json_extract(payload, '$.edge_type'),
           json_extract(payload, '$.valid_from'),
           json_extract(payload, '$.valid_to'),
           json_extract(payload, '$.weight'),",
    );
    reveal_strlit(
        r" k ON k.entity_id = transaction_log.entity_id
                      AND k.branch_id = transaction_log.branch_id
        WHERE transaction_log.table_name = 'links'
          AND transaction_log.recorded_at <= k.cutoff
    ) WHERE rn = 1",
    );
    reveal_strlit(")");
}

/// The two parts have the same columns.
pub proof fn lemma_same_names(properties: bool)
    ensures
        current_columns(properties).names == fold::payload_columns(properties).names,
{
    reveal(current_columns);
    reveal(fold::payload_columns);
    assert(current_columns(properties).names =~= fold::payload_columns(properties).names);
}

} // verus!
