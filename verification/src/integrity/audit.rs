//! How far current belief has drifted from the ledger.

use vstd::prelude::*;

use crate::error::{DbError, Result};
use crate::integrity;
use crate::integrity::latest_belief_projection;

verus! {

/// Counts the rows by which current belief and the ledger differ.
pub open spec fn audit_query_text() -> Seq<char> {
    r"
        WITH materialized AS (
            SELECT source_id, target_id, edge_type, valid_from,
                   valid_to, weight, properties, recorded_at, branch_id
            FROM links_current
        ),
        projection AS ("@
        + integrity::projection_where_text("1 = 1"@)
        + r")
        SELECT
            (SELECT COUNT(*) FROM (
                SELECT * FROM materialized EXCEPT SELECT * FROM projection))
          + (SELECT COUNT(*) FROM (
                SELECT * FROM projection EXCEPT SELECT * FROM materialized))
    "@
}

/// Counts the rows that current belief holds and the ledger does not, and those
/// that the ledger holds and current belief does not.
pub fn audit_query() -> (sql: String)
    ensures
        sql@ == audit_query_text(),
{
    let projection = latest_belief_projection();
    let mut out = r"
        WITH materialized AS (
            SELECT source_id, target_id, edge_type, valid_from,
                   valid_to, weight, properties, recorded_at, branch_id
            FROM links_current
        ),
        projection AS (".to_owned();
    out.append(projection.as_str());
    out.append(r")
        SELECT
            (SELECT COUNT(*) FROM (
                SELECT * FROM materialized EXCEPT SELECT * FROM projection))
          + (SELECT COUNT(*) FROM (
                SELECT * FROM projection EXCEPT SELECT * FROM materialized))
    ");
    out
}

/// What an audit that counted `count` rows comes to: any at all is drift.
pub fn audit_current(count: Option<i64>) -> (drift: Result<usize>)
    ensures
        drift.is_ok() == (count matches Some(n) ==> n <= 0),
        drift matches Ok(n) ==> n == 0,
        drift matches Err(e) ==> (e matches DbError::CurrentDrift { n } && n == count->0 as usize),
{
    match count {
        Some(n) => if n > 0 {
            Err(DbError::CurrentDrift { n: n as usize })
        } else {
            Ok(0)
        },
        None => Ok(0),
    }
}

} // verus!
