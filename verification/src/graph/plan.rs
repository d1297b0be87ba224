//! How a read over lineages becomes SQL: one lowering for every reader.

use vstd::prelude::*;

use crate::graph::lineage;
use crate::graph::lineage::{Ancestor, LineageShape};
use crate::graph::lineage_sql;
use crate::graph::lineage_sql::{
    ancestry_cte, ancestry_values, churned_cte, links_cut_cte, visible_cte, KeySlots,
};
use crate::text;
use crate::text::push_decimal;

verus! {

/// What a reader asks the lowering for.
#[derive(Debug, Clone, Copy, PartialEq, Eq)]
pub struct Resolution<'a> {
    pub shape: LineageShape,
    /// The slot in which the branch is bound.
    pub branch_slot: usize,
    /// The slot of the recorded instant; none reads current belief.
    pub recorded_slot: Option<usize>,
    /// A suffix that tells two resolutions in one statement apart.
    pub tag: &'a str,
    /// The slots of the one edge that is asked for; none asks for all.
    pub key: Option<KeySlots>,
    /// What the reader may see, where it has been resolved already. Empty
    /// leaves the climb to the engine.
    pub ancestry: &'a [Ancestor],
    /// The first slot of the ancestry.
    pub ancestry_slot: usize,
}

/// What a lowering depends on.
pub struct ResolutionView {
    pub shape: LineageShape,
    pub branch_slot: nat,
    pub recorded_slot: Option<usize>,
    pub tag: Seq<char>,
    pub key: Option<KeySlots>,
    /// How many entries the ancestry has.
    pub entries: nat,
    pub ancestry_slot: nat,
}

impl<'a> View for Resolution<'a> {
    type V = ResolutionView;

    open spec fn view(&self) -> ResolutionView {
        ResolutionView {
            shape: self.shape,
            branch_slot: self.branch_slot as nat,
            recorded_slot: self.recorded_slot,
            tag: self.tag@,
            key: self.key,
            entries: self.ancestry@.len(),
            ancestry_slot: self.ancestry_slot as nat,
        }
    }
}

/// The common table expressions of a read, the relation that it joins, and the
/// condition that goes with the relation.
#[derive(Debug, Clone, PartialEq, Eq)]
pub struct Lowered {
    pub ctes: Vec<String>,
    pub source: String,
    pub filter: String,
}

/// What a list of texts is.
pub open spec fn texts(list: Seq<String>) -> Seq<Seq<char>> {
    list.map_values(|s: String| s@)
}

/// Each text followed by a comma and a line break.
pub open spec fn each_ended(list: Seq<Seq<char>>) -> Seq<char>
    decreases list.len(),
{
    if list.len() == 0 {
        ""@
    } else {
        each_ended(list.drop_last()) + list.last() + ",\n"@
    }
}

/// The texts with a comma and a line break between them.
pub open spec fn joined(list: Seq<Seq<char>>) -> Seq<char>
    decreases list.len(),
{
    if list.len() == 0 {
        ""@
    } else if list.len() == 1 {
        list[0]
    } else {
        joined(list.drop_last()) + ",\n"@ + list.last()
    }
}

/// A `WITH` clause of the texts; nothing where there is none.
pub open spec fn with_clause_text(list: Seq<Seq<char>>) -> Seq<char> {
    if list.len() == 0 {
        ""@
    } else {
        "WITH RECURSIVE "@ + joined(list) + "\n"@
    }
}

impl Lowered {
    /// The expressions as a reader puts them before its own: each ended by a
    /// comma.
    pub fn prelude(&self) -> (sql: String)
        ensures
            sql@ == each_ended(texts(self.ctes@)),
    {
        let mut out = "".to_owned();
        let n: usize = self.ctes.len();
        let mut i: usize = 0;
        proof {
            assert(texts(self.ctes@).take(0) =~= Seq::empty());
        }
        while i < n
            invariant
                n == self.ctes@.len(),
                i <= n,
                out@ == each_ended(texts(self.ctes@).take(i as int)),
            decreases n - i,
        {
            out.append(self.ctes[i].as_str());
            out.append(",\n");
            proof {
                assert(texts(self.ctes@).take(i + 1).drop_last() =~= texts(self.ctes@).take(i as int));
            }
            i = i + 1;
        }
        proof {
            assert(texts(self.ctes@).take(n as int) =~= texts(self.ctes@));
        }
        out
    }

    /// The expressions as the body of a `WITH` list.
    pub fn with_list(&self) -> (sql: String)
        ensures
            sql@ == joined(texts(self.ctes@)),
    {
        let mut out = "".to_owned();
        let n: usize = self.ctes.len();
        let mut i: usize = 0;
        proof {
            assert(texts(self.ctes@).take(0) =~= Seq::empty());
        }
        while i < n
            invariant
                n == self.ctes@.len(),
                i <= n,
                out@ == joined(texts(self.ctes@).take(i as int)),
            decreases n - i,
        {
            if i > 0 {
                out.append(",\n");
            } else {
                out = "".to_owned();
                proof {
                    reveal_strlit("");
                }
            }
            let ghost before = out@;
            out.append(self.ctes[i].as_str());
            proof {
                reveal_strlit("");
                assert(texts(self.ctes@).take(i + 1).drop_last() =~= texts(self.ctes@).take(i as int));
                assert(out@ == before + self.ctes@[i as int]@);
                if i == 0 {
                    assert(out@ =~= self.ctes@[0]@);
                }
                assert(out@ =~= joined(texts(self.ctes@).take(i + 1)));
            }
            i = i + 1;
        }
        proof {
            assert(texts(self.ctes@).take(n as int) =~= texts(self.ctes@));
        }
        out
    }

    /// The expressions as a whole `WITH` clause; nothing where there is none.
    pub fn with_clause(&self) -> (sql: String)
        ensures
            sql@ == with_clause_text(texts(self.ctes@)),
    {
        if self.ctes.len() == 0 {
            return "".to_owned();
        }
        let list = self.with_list();
        let mut out = "WITH RECURSIVE ".to_owned();
        out.append(list.as_str());
        out.append("\n");
        out
    }
}

/// What joins a lineage to the fold, where the lineage is resolved.
pub open spec fn fold_join(shape: LineageShape, tag: Seq<char>) -> Seq<char> {
    if shape == LineageShape::Resolved {
        "\n        JOIN lineage"@ + tag + " g ON g.branch_id = transaction_log.branch_id"@
    } else {
        ""@
    }
}

/// What bounds the fold to what the reader may see.
pub open spec fn fold_bound(shape: LineageShape, branch_slot: nat) -> Seq<char> {
    match shape {
        LineageShape::Resolved => "\n          AND (g.cutoff IS NULL OR transaction_log.recorded_at <= g.cutoff)"@,
        LineageShape::TrunkOnForked => "\n          AND +transaction_log.branch_id = ?"@ + text::decimal(
            branch_slot,
        ),
        LineageShape::Trunk => ""@,
    }
}

/// The edges as they were believed at the instant in a slot.
pub open spec fn links_at_tx_cte_text(shape: LineageShape, branch_slot: nat, slot: nat, tag: Seq<char>) -> Seq<char> {
    "links_at_tx"@
        + tag
        + r"(source_id, target_id, edge_type, valid_from, valid_to, weight, branch_id) AS MATERIALIZED (
    SELECT json_extract(payload, '$.source_id'),
           json_extract(payload, '$.target_id'),
           json_extract(payload, '$.edge_type'),
           json_extract(payload, '$.valid_from'),
           json_extract(payload, '$.valid_to'),
           json_extract(payload, '$.weight'),
           branch_id
    FROM (
        SELECT transaction_log.payload, transaction_log.branch_id,
               ROW_NUMBER() OVER (
                   PARTITION BY transaction_log.entity_id, transaction_log.branch_id
                   ORDER BY transaction_log.seq_id DESC
               ) AS rn
        FROM transaction_log"@
        + fold_join(shape, tag)
        + r"
        WHERE transaction_log.table_name = 'links'
          AND transaction_log.recorded_at <= ?"@
        + text::decimal(slot)
        + fold_bound(shape, branch_slot)
        + r"
    ) WHERE rn = 1
)"@
}

/// The edges as they were believed at the instant in `slot`: the last entry of
/// the log for each edge and lineage. The bound on what the reader may see stands
/// inside the fold, so that a later entry cannot win and then be dropped.
pub fn links_at_tx_cte(shape: LineageShape, branch_slot: usize, slot: usize, tag: &str) -> (sql: String)
    ensures
        sql@ == links_at_tx_cte_text(shape, branch_slot as nat, slot as nat, tag@),
{
    let lineage_join = match shape {
        LineageShape::Resolved => {
            let mut join = "\n        JOIN lineage".to_owned();
            join.append(tag);
            join.append(" g ON g.branch_id = transaction_log.branch_id");
            join
        },
        _ => "".to_owned(),
    };
    let bound = match shape {
        LineageShape::Resolved =>
            "\n          AND (g.cutoff IS NULL OR transaction_log.recorded_at <= g.cutoff)".to_owned(),
        LineageShape::TrunkOnForked => {
            let mut only = "\n          AND +transaction_log.branch_id = ?".to_owned();
            push_decimal(&mut only, branch_slot as u64);
            only
        },
        LineageShape::Trunk => "".to_owned(),
    };
    let mut out = "links_at_tx".to_owned();
    out.append(tag);
    out.append(r"(source_id, target_id, edge_type, valid_from, valid_to, weight, branch_id) AS MATERIALIZED (
    SELECT json_extract(payload, '$.source_id'),
           json_extract(payload, '$.target_id'),
           json_extract(payload, '$.edge_type'),
           json_extract(payload, '$.valid_from'),
           json_extract(payload, '$.valid_to'),
           json_extract(payload, '$.weight'),
           branch_id
    FROM (
        SELECT transaction_log.payload, transaction_log.branch_id,
               ROW_NUMBER() OVER (
                   PARTITION BY transaction_log.entity_id, transaction_log.branch_id
                   ORDER BY transaction_log.seq_id DESC
               ) AS rn
        FROM transaction_log");
    out.append(lineage_join.as_str());
    out.append(r"
        WHERE transaction_log.table_name = 'links'
          AND transaction_log.recorded_at <= ?");
    push_decimal(&mut out, slot as u64);
    out.append(bound.as_str());
    out.append(r"
    ) WHERE rn = 1
)");
    out
}

impl ResolutionView {
    /// Where the ancestry comes from.
    pub open spec fn lineage_cte(self) -> Seq<char> {
        if self.entries == 0 {
            lineage_sql::ancestry_cte_text(self.branch_slot, self.tag)
        } else {
            lineage_sql::ancestry_values_text(self.entries, self.ancestry_slot, self.tag)
        }
    }

    /// The fold at the recorded instant.
    pub open spec fn fold_cte(self) -> Seq<char> {
        links_at_tx_cte_text(
            self.shape,
            self.branch_slot,
            self.recorded_slot.unwrap() as nat,
            self.tag,
        )
    }

    /// The expressions, in the order in which each may read those before it.
    pub open spec fn ctes(self) -> Seq<Seq<char>> {
        match (self.shape, self.recorded_slot) {
            (LineageShape::Resolved, None) => seq![
                self.lineage_cte(),
                lineage_sql::churned_cte_text(self.tag, self.key),
                lineage_sql::links_cut_cte_text(self.tag, self.key),
                lineage_sql::visible_cte_text("links_cut"@ + self.tag, self.tag, self.key),
            ],
            (LineageShape::Resolved, Some(_)) => seq![
                self.lineage_cte(),
                self.fold_cte(),
                lineage_sql::visible_cte_text("links_at_tx"@ + self.tag, self.tag, self.key),
            ],
            (_, Some(_)) => seq![self.fold_cte()],
            (_, None) => seq![],
        }
    }

    /// The relation that the reader joins.
    pub open spec fn source(self) -> Seq<char> {
        if self.shape == LineageShape::Resolved {
            "visible"@ + self.tag
        } else if self.recorded_slot.is_some() {
            "links_at_tx"@ + self.tag
        } else {
            "links_current"@
        }
    }

    /// What keeps a reader of the projection to its own lineage.
    pub open spec fn own_lineage(self) -> Seq<char> {
        if self.shape == LineageShape::TrunkOnForked && self.recorded_slot.is_none() {
            " AND +l.branch_id = ?"@ + text::decimal(self.branch_slot)
        } else {
            ""@
        }
    }

    /// What keeps a reader to the one edge it asks for, where no expression
    /// has done so already.
    pub open spec fn own_edge(self) -> Seq<char> {
        match self.key {
            Some(key) => if self.shape == LineageShape::Resolved {
                ""@
            } else {
                " AND "@ + key.equalities_text("l"@)
            },
            None => ""@,
        }
    }
}

/// Lowers a resolution to its expressions, its source and its filter.
pub fn lower(r: &Resolution<'_>) -> (lowered: Lowered)
    requires
        r.ancestry_slot + 3 * r.ancestry@.len() <= usize::MAX,
    ensures
        texts(lowered.ctes@) == r@.ctes(),
        lowered.source@ == r@.source(),
        lowered.filter@ == r@.own_lineage() + r@.own_edge(),
{
    let mut ctes: Vec<String> = Vec::new();
    let resolved = r.shape == LineageShape::Resolved;
    if resolved {
        ctes.push(
            if r.ancestry.len() == 0 {
                ancestry_cte(r.branch_slot, r.tag)
            } else {
                ancestry_values(r.ancestry.len(), r.ancestry_slot, r.tag)
            },
        );
    }
    if let Some(slot) = r.recorded_slot {
        ctes.push(links_at_tx_cte(r.shape, r.branch_slot, slot, r.tag));
    }
    let folded = r.recorded_slot.is_some();
    let source = if resolved {
        let mut reduced;
        if folded {
            reduced = "links_at_tx".to_owned();
        } else {
            ctes.push(churned_cte(r.tag, r.key));
            ctes.push(links_cut_cte(r.tag, r.key));
            reduced = "links_cut".to_owned();
        }
        reduced.append(r.tag);
        ctes.push(visible_cte(reduced.as_str(), r.tag, r.key));
        let mut visible = "visible".to_owned();
        visible.append(r.tag);
        visible
    } else if folded {
        let mut fold = "links_at_tx".to_owned();
        fold.append(r.tag);
        fold
    } else {
        "links_current".to_owned()
    };
    let mut filter = "".to_owned();
    if r.shape == LineageShape::TrunkOnForked && !folded {
        filter = " AND +l.branch_id = ?".to_owned();
        push_decimal(&mut filter, r.branch_slot as u64);
    }
    let ghost own = filter@;
    if let Some(key) = r.key {
        if !resolved {
            let only = key.equalities("l");
            filter.append(" AND ");
            filter.append(only.as_str());
        }
    }
    proof {
        reveal_strlit("");
        assert(own == r@.own_lineage());
        assert(filter@ =~= r@.own_lineage() + r@.own_edge());
        assert(texts(ctes@) =~= r@.ctes());
    }
    Lowered { ctes, source, filter }
}

/// A prelude is a `WITH` list with one more separator at its end, so that the
/// readers that put it before an expression of their own and those that put it
/// before a `SELECT` hold the same text.
pub proof fn law_prelude_ends_the_list(list: Seq<Seq<char>>)
    requires
        0 < list.len(),
    ensures
        each_ended(list) == joined(list) + ",\n"@,
    decreases list.len(),
{
    reveal_strlit("");
    if list.len() == 1 {
        assert(each_ended(list.drop_last()) =~= Seq::empty());
        assert(each_ended(list) =~= list[0] + ",\n"@);
    } else {
        law_prelude_ends_the_list(list.drop_last());
    }
}

} // verus!
