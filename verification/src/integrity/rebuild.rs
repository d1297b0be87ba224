//! Deriving current belief anew, under one lock.

use vstd::prelude::*;

use crate::error::{DbError, EngineError, Result};
use crate::integrity;
use crate::integrity::audit;
use crate::integrity::audit::{audit_current, audit_query};
use crate::integrity::{latest_belief_projection, projection_where};
use crate::text;

verus! {

/// What a rebuild did.
#[derive(Debug, Clone, Copy, PartialEq, Eq, Structural)]
pub struct RebuildReport {
    pub rows_rebuilt: usize,
    pub drift_after: usize,
}

/// Whether a rebuild audits itself before it is kept.
#[derive(Debug, Clone, Copy, PartialEq, Eq, Structural)]
pub enum Verify {
    Yes,
    No,
}

/// What tells one row of current belief from another.
pub const PROJECTION_KEY: &'static str = "source_id, target_id, edge_type, valid_from, branch_id";

/// Clears current belief.
pub const CLEAR_CURRENT: &'static str = "DELETE FROM links_current";

/// Fills current belief from the ledger.
pub open spec fn fill_current_text() -> Seq<char> {
    "INSERT INTO links_current (source_id, target_id, edge_type, valid_from, valid_to, weight, properties, recorded_at, branch_id) "@
        + integrity::projection_where_text("1 = 1"@)
}

/// Fills current belief from the ledger.
pub fn fill_current() -> (sql: String)
    ensures
        sql@ == fill_current_text(),
{
    let projection = latest_belief_projection();
    let mut out = "INSERT INTO links_current (source_id, target_id, edge_type, valid_from, valid_to, weight, properties, recorded_at, branch_id) ".to_owned();
    out.append(projection.as_str());
    out
}

/// That a row has a key which stands in a table.
pub open spec fn keyed_by_text(keys: Seq<char>) -> Seq<char> {
    "("@
        + PROJECTION_KEY@
        + ") IN (SELECT "@
        + PROJECTION_KEY@
        + " FROM "@
        + keys
        + ")"@
}

/// That a row has a key which stands in the table `keys`.
pub fn keyed_by(keys: &str) -> (sql: String)
    ensures
        sql@ == keyed_by_text(keys@),
{
    let mut out = "(".to_owned();
    out.append(PROJECTION_KEY);
    out.append(") IN (SELECT ");
    out.append(PROJECTION_KEY);
    out.append(" FROM ");
    out.append(keys);
    out.append(")");
    out
}

/// Clears current belief about the keys in a table.
pub open spec fn clear_keys_text(keys: Seq<char>) -> Seq<char> {
    "DELETE FROM links_current WHERE "@
        + keyed_by_text(keys)
}

/// Clears current belief about the keys in the table `keys`.
pub fn clear_keys(keys: &str) -> (sql: String)
    ensures
        sql@ == clear_keys_text(keys@),
{
    let only = keyed_by(keys);
    let mut out = "DELETE FROM links_current WHERE ".to_owned();
    out.append(only.as_str());
    out
}

/// Fills current belief about the keys in a table.
pub open spec fn fill_keys_text(keys: Seq<char>) -> Seq<char> {
    "INSERT INTO links_current (source_id, target_id, edge_type, valid_from, valid_to, weight, properties, recorded_at, branch_id) "@
        + integrity::projection_where_text(keyed_by_text(keys))
}

/// Fills current belief about the keys in the table `keys` from the ledger.
pub fn fill_keys(keys: &str) -> (sql: String)
    ensures
        sql@ == fill_keys_text(keys@),
{
    let only = keyed_by(keys);
    let projection = projection_where(only.as_str());
    let mut out = "INSERT INTO links_current (source_id, target_id, edge_type, valid_from, valid_to, weight, properties, recorded_at, branch_id) ".to_owned();
    out.append(projection.as_str());
    out
}

/// The statements that derive current belief anew about the keys in the table
/// `keys` alone, in order.
pub fn repair_keys(keys: &str) -> (statements: (String, String))
    ensures
        statements.0@ == clear_keys_text(keys@),
        statements.1@ == fill_keys_text(keys@),
{
    (clear_keys(keys), fill_keys(keys))
}

/// What a rebuild of `rows` rows comes to once it has been audited: drift that
/// is left after a rebuild is a failed rebuild.
pub fn rebuild_outcome(rows: usize, audit: Result<usize>) -> (report: Result<RebuildReport>)
    ensures
        match audit {
            Ok(n) => if n == 0 {
                report == Ok::<RebuildReport, DbError>(RebuildReport { rows_rebuilt: rows, drift_after: 0 })
            } else {
                report matches Err(e) && (e matches DbError::RebuildFailed { n: left } && left == n)
            },
            Err(e) => report matches Err(err) && (match e {
                DbError::CurrentDrift { n } => err matches DbError::RebuildFailed { n: left } && left == n,
                _ => err == e,
            }),
        },
{
    match audit {
        Ok(n) => if n == 0 {
            Ok(RebuildReport { rows_rebuilt: rows, drift_after: 0 })
        } else {
            Err(DbError::RebuildFailed { n })
        },
        Err(DbError::CurrentDrift { n }) => Err(DbError::RebuildFailed { n }),
        Err(e) => Err(e),
    }
}

/// Where a rebuild stands.
#[derive(Debug, Clone, Copy, PartialEq, Eq, Structural)]
pub enum RebuildPhase {
    Begin,
    Clear,
    Fill,
    Audit,
    Commit,
    RollBack,
    Done,
}

/// A rebuild of current belief under one lock, step by step.
#[derive(Debug)]
pub struct RebuildRun {
    pub verify: Verify,
    pub phase: RebuildPhase,
    pub rows: usize,
    pub failure: Option<DbError>,
}

impl RebuildRun {
    /// Only a rebuild that failed is rolled back, and none that failed is
    /// committed.
    pub open spec fn wf(&self) -> bool {
        &&& self.failure.is_some() ==> self.phase == RebuildPhase::RollBack || self.phase == RebuildPhase::Done
        &&& self.phase == RebuildPhase::RollBack ==> self.failure.is_some()
        &&& self.phase == RebuildPhase::Audit ==> self.verify == Verify::Yes
    }

    /// A rebuild that has not begun.
    pub fn new(verify: Verify) -> (r: RebuildRun)
        ensures
            r.wf(),
            r.verify == verify,
            r.phase == RebuildPhase::Begin,
            r.rows == 0,
            r.failure.is_none(),
    {
        RebuildRun { verify, phase: RebuildPhase::Begin, rows: 0, failure: None }
    }

    /// The statement that the rebuild stands at.
    pub open spec fn statement_text(self) -> Option<Seq<char>> {
        match self.phase {
            RebuildPhase::Clear => Some(CLEAR_CURRENT@),
            RebuildPhase::Fill => Some(fill_current_text()),
            RebuildPhase::Audit => Some(audit::audit_query_text()),
            _ => None,
        }
    }

    /// The statement that the rebuild stands at. None begins, ends or undoes it.
    pub fn statement(&self) -> (sql: Option<String>)
        ensures
            text::opt_view(sql) == self.statement_text(),
    {
        match self.phase {
            RebuildPhase::Clear => Some(CLEAR_CURRENT.to_owned()),
            RebuildPhase::Fill => Some(fill_current()),
            RebuildPhase::Audit => Some(audit_query()),
            _ => None,
        }
    }

    /// The phase after a step that succeeded.
    pub open spec fn onward(self) -> RebuildPhase {
        match self.phase {
            RebuildPhase::Begin => RebuildPhase::Clear,
            RebuildPhase::Clear => RebuildPhase::Fill,
            RebuildPhase::Fill => if self.verify == Verify::Yes {
                RebuildPhase::Audit
            } else {
                RebuildPhase::Commit
            },
            RebuildPhase::Audit => RebuildPhase::Commit,
            RebuildPhase::Commit => RebuildPhase::Done,
            RebuildPhase::RollBack => RebuildPhase::Done,
            RebuildPhase::Done => RebuildPhase::Done,
        }
    }

    /// The phase after a step that failed.
    pub open spec fn back(self) -> RebuildPhase {
        match self.phase {
            RebuildPhase::Begin => RebuildPhase::Done,
            RebuildPhase::Commit => RebuildPhase::Done,
            _ => RebuildPhase::RollBack,
        }
    }

    /// Takes in what came of the step that the rebuild stands at, which is not
    /// the audit: the rows it touched, or why it failed.
    pub fn step(&mut self, res: std::result::Result<u64, EngineError>)
        requires
            old(self).wf(),
            old(self).phase == RebuildPhase::Begin || old(self).phase == RebuildPhase::Clear
                || old(self).phase == RebuildPhase::Fill || old(self).phase == RebuildPhase::Commit,
        ensures
            final(self).wf(),
            final(self).verify == old(self).verify,
            match res {
                Ok(n) => {
                    &&& final(self).phase == old(self).onward()
                    &&& final(self).rows == (if old(self).phase == RebuildPhase::Fill {
                        n as usize
                    } else {
                        old(self).rows
                    })
                    &&& final(self).failure.is_none()
                },
                Err(e) => {
                    &&& final(self).phase == old(self).back()
                    &&& final(self).rows == old(self).rows
                    &&& final(self).failure == Some(DbError::Engine(e))
                },
            },
    {
        match res {
            Ok(n) => {
                if self.phase == RebuildPhase::Fill {
                    self.rows = n as usize;
                }
                self.phase = match self.phase {
                    RebuildPhase::Begin => RebuildPhase::Clear,
                    RebuildPhase::Clear => RebuildPhase::Fill,
                    RebuildPhase::Fill => if self.verify == Verify::Yes {
                        RebuildPhase::Audit
                    } else {
                        RebuildPhase::Commit
                    },
                    _ => RebuildPhase::Done,
                };
            },
            Err(e) => {
                self.phase = match self.phase {
                    RebuildPhase::Begin => RebuildPhase::Done,
                    RebuildPhase::Commit => RebuildPhase::Done,
                    _ => RebuildPhase::RollBack,
                };
                self.failure = Some(DbError::Engine(e));
            },
        }
    }

    /// Takes in what the audit counted.
    pub fn audited(&mut self, res: std::result::Result<Option<i64>, EngineError>)
        requires
            old(self).wf(),
            old(self).phase == RebuildPhase::Audit,
        ensures
            final(self).wf(),
            final(self).verify == old(self).verify,
            final(self).rows == old(self).rows,
            match res {
                Ok(count) => if (count matches Some(n) ==> n <= 0) {
                    final(self).phase == RebuildPhase::Commit && final(self).failure.is_none()
                } else {
                    final(self).phase == RebuildPhase::RollBack && (final(self).failure
                        matches Some(DbError::RebuildFailed { n }) && n == count->0 as usize)
                },
                Err(e) => final(self).phase == RebuildPhase::RollBack && final(self).failure == Some(
                    DbError::Engine(e),
                ),
            },
    {
        match res {
            Ok(count) => match rebuild_outcome(self.rows, audit_current(count)) {
                Ok(_) => {
                    self.phase = RebuildPhase::Commit;
                },
                Err(e) => {
                    self.phase = RebuildPhase::RollBack;
                    self.failure = Some(e);
                },
            },
            Err(e) => {
                self.phase = RebuildPhase::RollBack;
                self.failure = Some(DbError::Engine(e));
            },
        }
    }

    /// Takes in that the rebuild was rolled back.
    pub fn rolled_back(&mut self)
        requires
            old(self).wf(),
            old(self).phase == RebuildPhase::RollBack,
        ensures
            final(self).wf(),
            final(self).verify == old(self).verify,
            final(self).rows == old(self).rows,
            final(self).failure == old(self).failure,
            final(self).phase == RebuildPhase::Done,
    {
        self.phase = RebuildPhase::Done;
    }

    /// What the rebuild came to.
    pub fn outcome(self) -> (report: Result<RebuildReport>)
        requires
            self.phase == RebuildPhase::Done,
        ensures
            report == (match self.failure {
                Some(e) => Err(e),
                None => Ok(RebuildReport { rows_rebuilt: self.rows, drift_after: 0 }),
            }),
    {
        match self.failure {
            Some(e) => Err(e),
            None => Ok(RebuildReport { rows_rebuilt: self.rows, drift_after: 0 }),
        }
    }
}

} // verus!
