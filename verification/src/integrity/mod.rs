//! Whether current belief is what the ledger says it is, and how it is derived
//! anew.

use vstd::prelude::*;

pub mod audit;
pub mod audited;
pub mod exchanged;
pub mod keyed;
pub mod latest;
pub mod rebuild;
pub mod shadow;

pub use audit::audit_current;
pub use rebuild::{RebuildReport, RebuildRun};
pub use shadow::{ShadowOutcome, ShadowStep};

verus! {

/// The latest belief about each edge of each lineage, among the assertions for
/// which a clause holds.
pub open spec fn projection_where_text(clause: Seq<char>) -> Seq<char> {
    r"
    SELECT source_id, target_id, edge_type, valid_from,
           valid_to, weight, properties, recorded_at, branch_id
    FROM (
        SELECT source_id, target_id, edge_type, valid_from,
               valid_to, weight, properties, recorded_at, branch_id,
               ROW_NUMBER() OVER (
                   PARTITION BY source_id, target_id, edge_type, valid_from, branch_id
                   ORDER BY recorded_at DESC
               ) AS rn
        FROM links
        WHERE "@
        + clause
        + r"
    ) WHERE rn = 1
"@
}

/// The latest belief about each edge of each lineage, among the assertions for
/// which `clause` holds. The clause stands inside the window, so that it narrows
/// what is ranked and not what is left of the ranking.
pub fn projection_where(clause: &str) -> (sql: String)
    ensures
        sql@ == projection_where_text(clause@),
{
    let mut out = r"
    SELECT source_id, target_id, edge_type, valid_from,
           valid_to, weight, properties, recorded_at, branch_id
    FROM (
        SELECT source_id, target_id, edge_type, valid_from,
               valid_to, weight, properties, recorded_at, branch_id,
               ROW_NUMBER() OVER (
                   PARTITION BY source_id, target_id, edge_type, valid_from, branch_id
                   ORDER BY recorded_at DESC
               ) AS rn
        FROM links
        WHERE ".to_owned();
    out.append(clause);
    out.append(r"
    ) WHERE rn = 1
");
    out
}

/// The latest belief about each edge of each lineage.
pub fn latest_belief_projection() -> (sql: String)
    ensures
        sql@ == projection_where_text("1 = 1"@),
{
    projection_where("1 = 1")
}

} // verus!
