//! The pieces of SQL that resolve a lineage.

use vstd::prelude::*;

use crate::graph::lineage;
use crate::graph::lineage::Ancestor;
use crate::sql;
use crate::sql::{bind, nullable_value, text_value, SqlValue, SqlView};
use crate::text;
use crate::text::push_decimal;

verus! {

/// One entry of an ancestry as a row of placeholders.
pub open spec fn ancestor_slots(first: nat) -> Seq<char> {
    "(?"@ + text::decimal(first) + ", ?"@ + text::decimal(first + 1) + ", ?"@ + text::decimal(first + 2)
        + ")"@
}

/// `rows` entries of an ancestry as rows of placeholders, separated by `, `.
pub open spec fn ancestry_slots(rows: nat, first: nat) -> Seq<char>
    decreases rows,
{
    if rows == 0 {
        Seq::empty()
    } else if rows == 1 {
        ancestor_slots(first)
    } else {
        ancestry_slots((rows - 1) as nat, first) + ", "@ + ancestor_slots((first + 3 * (rows - 1)) as nat)
    }
}

/// The ancestry as a table of `rows` bound rows.
pub open spec fn ancestry_values_text(rows: nat, first_slot: nat, tag: Seq<char>) -> Seq<char> {
    "lineage"@ + tag + "(branch_id, dist, cutoff) AS (VALUES "@ + ancestry_slots(rows, first_slot) + ")"@
}

fn push_ancestor(out: &mut String, first: usize)
    requires
        first + 2 <= usize::MAX,
    ensures
        final(out)@ == old(out)@ + ancestor_slots(first as nat),
{
    out.append("(?");
    push_decimal(out, first as u64);
    out.append(", ?");
    push_decimal(out, (first + 1) as u64);
    out.append(", ?");
    push_decimal(out, (first + 2) as u64);
    out.append(")");
    proof {
        assert(out@ =~= old(out)@ + ancestor_slots(first as nat));
    }
}

/// The ancestry as a table of `rows` bound rows, which stand in three slots
/// each from `first_slot` on.
pub fn ancestry_values(rows: usize, first_slot: usize, tag: &str) -> (sql: String)
    requires
        first_slot + 3 * rows <= usize::MAX,
    ensures
        sql@ == ancestry_values_text(rows as nat, first_slot as nat, tag@),
{
    let mut tuples = String::new();
    let mut i: usize = 0;
    while i < rows
        invariant
            i <= rows,
            first_slot + 3 * rows <= usize::MAX,
            tuples@ == ancestry_slots(i as nat, first_slot as nat),
        decreases rows - i,
    {
        if i > 0 {
            tuples.append(", ");
        }
        push_ancestor(&mut tuples, first_slot + 3 * i);
        proof {
            assert(tuples@ =~= ancestry_slots((i + 1) as nat, first_slot as nat));
        }
        i = i + 1;
    }
    let mut out = "lineage".to_owned();
    out.append(tag);
    out.append("(branch_id, dist, cutoff) AS (VALUES ");
    out.append(tuples.as_str());
    out.append(")");
    out
}

/// The three values of one entry of an ancestry.
pub open spec fn ancestor_row(a: lineage::AncestorView) -> Seq<SqlView> {
    seq![SqlView::Text(a.branch_id), SqlView::Integer(a.dist as i64), sql::nullable(a.cutoff)]
}

/// The values of an ancestry, three for each entry.
pub open spec fn ancestry_row(list: Seq<lineage::AncestorView>) -> Seq<SqlView>
    decreases list.len(),
{
    if list.len() == 0 {
        Seq::empty()
    } else {
        ancestry_row(list.drop_last()) + ancestor_row(list.last())
    }
}

/// Binds an ancestry: three values for each entry.
pub fn ancestry_params(ancestry: &[Ancestor]) -> (row: Vec<SqlValue>)
    ensures
        sql::values(row@) == ancestry_row(lineage::ancestors_view(ancestry@)),
        row@.len() == 3 * ancestry@.len(),
{
    let mut row: Vec<SqlValue> = Vec::new();
    let n: usize = ancestry.len();
    let mut i: usize = 0;
    proof {
        assert(sql::values(row@) =~= Seq::empty());
        assert(lineage::ancestors_view(ancestry@).take(0) =~= Seq::empty());
    }
    while i < n
        invariant
            n == ancestry@.len(),
            i <= n,
            sql::values(row@) == ancestry_row(lineage::ancestors_view(ancestry@).take(i as int)),
            row@.len() == 3 * i,
        decreases n - i,
    {
        let a = &ancestry[i];
        let ghost before = sql::values(row@);
        bind(&mut row, text_value(a.branch_id.as_str()));
        bind(&mut row, SqlValue::Integer(a.dist));
        bind(&mut row, nullable_value(&a.cutoff));
        proof {
            let views = lineage::ancestors_view(ancestry@);
            assert(views.take(i + 1).drop_last() =~= views.take(i as int));
            assert(views.take(i + 1).last() == a@);
            assert(sql::values(row@) =~= before + ancestor_row(a@));
        }
        i = i + 1;
    }
    proof {
        assert(lineage::ancestors_view(ancestry@).take(n as int) =~= lineage::ancestors_view(ancestry@));
    }
    row
}

/// The slots in which the key of one edge is bound.
#[derive(Debug, Clone, Copy, PartialEq, Eq, Structural)]
pub struct KeySlots {
    pub source: usize,
    pub target: usize,
    pub edge_type: usize,
}

impl KeySlots {
    /// That the row `alias` stands for has the key.
    pub open spec fn equalities_text(self, alias: Seq<char>) -> Seq<char> {
        alias + ".source_id = ?"@ + text::decimal(self.source as nat) + " AND "@ + alias
            + ".target_id = ?"@ + text::decimal(self.target as nat) + " AND "@ + alias
            + ".edge_type = ?"@ + text::decimal(self.edge_type as nat)
    }

    /// That the row `alias` stands for has the key.
    pub fn equalities(&self, alias: &str) -> (sql: String)
        ensures
            sql@ == self.equalities_text(alias@),
    {
        let mut out = alias.to_owned();
        out.append(".source_id = ?");
        push_decimal(&mut out, self.source as u64);
        out.append(" AND ");
        out.append(alias);
        out.append(".target_id = ?");
        push_decimal(&mut out, self.target as u64);
        out.append(" AND ");
        out.append(alias);
        out.append(".edge_type = ?");
        push_decimal(&mut out, self.edge_type as u64);
        out
    }
}

/// The ancestry, climbed by the engine.
pub open spec fn ancestry_cte_text(slot: nat, tag: Seq<char>) -> Seq<char> {
    "lineage"@
        + tag
        + r"(branch_id, dist, cutoff) AS (
    SELECT ?"@
        + text::decimal(slot)
        + r", 0, NULL
    UNION ALL
    SELECT b.parent_id, g.dist + 1,
           CASE WHEN g.cutoff IS NULL OR b.forked_at < g.cutoff
                THEN b.forked_at ELSE g.cutoff END
    FROM branches b JOIN lineage"@
        + tag
        + r" g ON b.branch_id = g.branch_id
    WHERE b.parent_id IS NOT NULL
)"@
}

/// The ancestry of the branch in `slot`, climbed by the engine.
pub fn ancestry_cte(slot: usize, tag: &str) -> (sql: String)
    ensures
        sql@ == ancestry_cte_text(slot as nat, tag@),
{
    let mut out = "lineage".to_owned();
    out.append(tag);
    out.append(r"(branch_id, dist, cutoff) AS (
    SELECT ?");
    push_decimal(&mut out, slot as u64);
    out.append(r", 0, NULL
    UNION ALL
    SELECT b.parent_id, g.dist + 1,
           CASE WHEN g.cutoff IS NULL OR b.forked_at < g.cutoff
                THEN b.forked_at ELSE g.cutoff END
    FROM branches b JOIN lineage");
    out.append(tag);
    out.append(r" g ON b.branch_id = g.branch_id
    WHERE b.parent_id IS NOT NULL
)");
    out
}

/// What narrows a scan of the projection to one edge, before another condition.
pub open spec fn key_first(key: Option<KeySlots>) -> Seq<char> {
    match key {
        Some(k) => k.equalities_text("lc"@) + " AND "@,
        None => ""@,
    }
}

fn key_first_sql(key: Option<KeySlots>) -> (sql: String)
    ensures
        sql@ == key_first(key),
{
    match key {
        Some(k) => {
            let mut out = k.equalities("lc");
            out.append(" AND ");
            out
        },
        None => "".to_owned(),
    }
}

/// The edges that changed after their lineage was cut.
pub open spec fn churned_cte_text(tag: Seq<char>, key: Option<KeySlots>) -> Seq<char> {
    "churned"@
        + tag
        + r"(entity_id, branch_id, cutoff) AS (
    SELECT lc.source_id || '|' || lc.target_id || '|' || lc.edge_type || '|' || lc.valid_from,
           lc.branch_id, g.cutoff
    FROM links_current lc
    JOIN lineage"@
        + tag
        + r" g ON g.branch_id = lc.branch_id
    WHERE "@
        + key_first(key)
        + r"g.cutoff IS NOT NULL AND lc.recorded_at > g.cutoff
)"@
}

/// The edges that a lineage changed after the reader may no longer see it.
pub fn churned_cte(tag: &str, key: Option<KeySlots>) -> (sql: String)
    ensures
        sql@ == churned_cte_text(tag@, key),
{
    let narrow = key_first_sql(key);
    let mut out = "churned".to_owned();
    out.append(tag);
    out.append(r"(entity_id, branch_id, cutoff) AS (
    SELECT lc.source_id || '|' || lc.target_id || '|' || lc.edge_type || '|' || lc.valid_from,
           lc.branch_id, g.cutoff
    FROM links_current lc
    JOIN lineage");
    out.append(tag);
    out.append(r" g ON g.branch_id = lc.branch_id
    WHERE ");
    out.append(narrow.as_str());
    out.append(r"g.cutoff IS NOT NULL AND lc.recorded_at > g.cutoff
)");
    out
}

/// Which rows of the projection stand before their lineage was cut. The
/// disjunction is bracketed wherever the key goes before it.
pub open spec fn uncut_rows(key: Option<KeySlots>) -> Seq<char> {
    match key {
        Some(k) => k.equalities_text("lc"@) + " AND (g.cutoff IS NULL OR lc.recorded_at <= g.cutoff)"@,
        None => "g.cutoff IS NULL OR lc.recorded_at <= g.cutoff"@,
    }
}

fn uncut_rows_sql(key: Option<KeySlots>) -> (sql: String)
    ensures
        sql@ == uncut_rows(key),
{
    match key {
        Some(k) => {
            let mut out = k.equalities("lc");
            out.append(" AND (g.cutoff IS NULL OR lc.recorded_at <= g.cutoff)");
            out
        },
        None => "g.cutoff IS NULL OR lc.recorded_at <= g.cutoff".to_owned(),
    }
}

/// `keyed` where one edge is asked for, `open` where all are.
pub open spec fn by_key(key: Option<KeySlots>, keyed: Seq<char>, open: Seq<char>) -> Seq<char> {
    if key.is_some() {
        keyed
    } else {
        open
    }
}

fn pick(key: Option<KeySlots>, keyed: &'static str, open: &'static str) -> (sql: &'static str)
    ensures
        sql@ == by_key(key, keyed@, open@),
{
    if key.is_some() {
        keyed
    } else {
        open
    }
}

/// Each lineage's edges as they stood when it was cut.
pub open spec fn links_cut_cte_text(tag: Seq<char>, key: Option<KeySlots>) -> Seq<char> {
    "links_cut"@
        + tag
        + "(source_id, target_id, edge_type, valid_from, valid_to, weight"@
        + by_key(key, ", properties"@, ""@)
        + r", branch_id) AS (
    SELECT lc.source_id, lc.target_id, lc.edge_type, lc.valid_from, lc.valid_to,
           "@
        + by_key(key, "lc.weight, lc.properties, lc.branch_id"@, "lc.weight, lc.branch_id"@)
        + r"
    FROM links_current lc
    JOIN lineage"@
        + tag
        + r" g ON g.branch_id = lc.branch_id
    WHERE "@
        + uncut_rows(key)
        + r"
    UNION ALL
    SELECT json_extract(payload, '$.source_id'),
           json_extract(payload, '$.target_id'),
           json_extract(payload, '$.edge_type'),
           json_extract(payload, '$.valid_from'),
           json_extract(payload, '$.valid_to'),
           json_extract(payload, '$.weight'),"@
        + by_key(key, "\n           json_extract(payload, '$.properties'),"@, ""@)
        + r"
           branch_id
    FROM (
        SELECT transaction_log.payload, transaction_log.branch_id,
               ROW_NUMBER() OVER (
                   PARTITION BY transaction_log.entity_id, transaction_log.branch_id
                   ORDER BY transaction_log.seq_id DESC
               ) AS rn
        FROM transaction_log
        JOIN churned"@
        + tag
        + r" k ON k.entity_id = transaction_log.entity_id
                      AND k.branch_id = transaction_log.branch_id
        WHERE transaction_log.table_name = 'links'
          AND transaction_log.recorded_at <= k.cutoff
    ) WHERE rn = 1
)"@
}

/// Each lineage's edges as they stood when it was cut: the projection where
/// nothing changed since, the log where something did.
pub fn links_cut_cte(tag: &str, key: Option<KeySlots>) -> (sql: String)
    ensures
        sql@ == links_cut_cte_text(tag@, key),
{
    let narrow = uncut_rows_sql(key);
    let mut out = "links_cut".to_owned();
    out.append(tag);
    out.append("(source_id, target_id, edge_type, valid_from, valid_to, weight");
    out.append(pick(key, ", properties", ""));
    out.append(r", branch_id) AS (
    SELECT lc.source_id, lc.target_id, lc.edge_type, lc.valid_from, lc.valid_to,
           ");
    out.append(pick(key, "lc.weight, lc.properties, lc.branch_id", "lc.weight, lc.branch_id"));
    out.append(r"
    FROM links_current lc
    JOIN lineage");
    out.append(tag);
    out.append(r" g ON g.branch_id = lc.branch_id
    WHERE ");
    out.append(narrow.as_str());
    out.append(r"
    UNION ALL
    SELECT json_extract(payload, '$.source_id'),
           json_extract(payload, '$.target_id'),
           json_extract(payload, '$.edge_type'),
           json_extract(payload, '$.valid_from'),
           json_extract(payload, '$.valid_to'),
           json_extract(payload, '$.weight'),");
    out.append(pick(key, "\n           json_extract(payload, '$.properties'),", ""));
    out.append(r"
           branch_id
    FROM (
        SELECT transaction_log.payload, transaction_log.branch_id,
               ROW_NUMBER() OVER (
                   PARTITION BY transaction_log.entity_id, transaction_log.branch_id
                   ORDER BY transaction_log.seq_id DESC
               ) AS rn
        FROM transaction_log
        JOIN churned");
    out.append(tag);
    out.append(r" k ON k.entity_id = transaction_log.entity_id
                      AND k.branch_id = transaction_log.branch_id
        WHERE transaction_log.table_name = 'links'
          AND transaction_log.recorded_at <= k.cutoff
    ) WHERE rn = 1
)");
    out
}

/// One row for each edge key: that of the nearest lineage.
pub open spec fn visible_cte_text(source: Seq<char>, tag: Seq<char>, key: Option<KeySlots>) -> Seq<char> {
    "visible"@
        + tag
        + "(source_id, target_id, edge_type, valid_from, valid_to, weight"@
        + by_key(key, ", properties"@, ""@)
        + r", branch_id) AS (
    SELECT source_id, target_id, edge_type, valid_from, valid_to, weight"@
        + by_key(key, ", properties"@, ""@)
        + r", branch_id FROM (
        SELECT l.source_id, l.target_id, l.edge_type, l.valid_from, l.valid_to, l.weight,
               "@
        + by_key(key, "l.properties, l.branch_id,"@, "l.branch_id,"@)
        + r"
               ROW_NUMBER() OVER (
                   PARTITION BY l.source_id, l.target_id, l.edge_type, l.valid_from
                   ORDER BY g.dist
               ) AS rn
        FROM "@
        + source
        + r" l
        JOIN lineage"@
        + tag
        + r" g ON g.branch_id = l.branch_id
    ) WHERE rn = 1
)"@
}

/// One row for each edge key of `source`: that of the nearest lineage.
pub fn visible_cte(source: &str, tag: &str, key: Option<KeySlots>) -> (sql: String)
    ensures
        sql@ == visible_cte_text(source@, tag@, key),
{
    let mut out = "visible".to_owned();
    out.append(tag);
    out.append("(source_id, target_id, edge_type, valid_from, valid_to, weight");
    out.append(pick(key, ", properties", ""));
    out.append(r", branch_id) AS (
    SELECT source_id, target_id, edge_type, valid_from, valid_to, weight");
    out.append(pick(key, ", properties", ""));
    out.append(r", branch_id FROM (
        SELECT l.source_id, l.target_id, l.edge_type, l.valid_from, l.valid_to, l.weight,
               ");
    out.append(pick(key, "l.properties, l.branch_id,", "l.branch_id,"));
    out.append(r"
               ROW_NUMBER() OVER (
                   PARTITION BY l.source_id, l.target_id, l.edge_type, l.valid_from
                   ORDER BY g.dist
               ) AS rn
        FROM ");
    out.append(source);
    out.append(r" l
        JOIN lineage");
    out.append(tag);
    out.append(r" g ON g.branch_id = l.branch_id
    ) WHERE rn = 1
)");
    out
}

} // verus!
