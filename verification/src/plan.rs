//! What a read asks for, stated once.

use vstd::prelude::*;

use crate::branch;
use crate::branch::BranchId;
use crate::error::{DbError, Result};
use crate::graph::lineage;
use crate::graph::lineage::LineageShape;
use crate::graph::plan;
use crate::graph::plan::{lower, Resolution};
use crate::schema::MAIN_BRANCH;
use crate::sql;
use crate::sql::{bind, text_value, SqlValue, SqlView};
use crate::text;
use crate::text::push_decimal;

verus! {

/// The lineage, the two instants and the ceiling of a read.
#[derive(Debug, Clone, PartialEq, Eq)]
#[non_exhaustive]
pub struct ReadPlan {
    /// The lineage; none is the trunk.
    pub branch: Option<BranchId>,
    /// The valid-time instant; none is the present.
    pub valid: Option<String>,
    /// The transaction-time instant; none is current belief.
    pub recorded: Option<String>,
    /// How many rows to pay for; none is all of them.
    pub limit: Option<usize>,
}

/// What a plan asks for.
pub struct PlanView {
    pub branch: Option<Seq<char>>,
    pub valid: Option<Seq<char>>,
    pub recorded: Option<Seq<char>>,
    pub limit: Option<usize>,
}

impl View for ReadPlan {
    type V = PlanView;

    open spec fn view(&self) -> PlanView {
        PlanView {
            branch: branch::branch_view(self.branch),
            valid: text::opt_view(self.valid),
            recorded: text::opt_view(self.recorded),
            limit: self.limit,
        }
    }
}

/// The plan that asks for nothing in particular.
pub open spec fn nothing_asked() -> PlanView {
    PlanView { branch: None, valid: None, recorded: None, limit: None }
}

impl Default for ReadPlan {
    fn default() -> (plan: ReadPlan)
        ensures
            plan@ == nothing_asked(),
    {
        ReadPlan { branch: None, valid: None, recorded: None, limit: None }
    }
}

impl ReadPlan {
    /// The trunk, now, under current belief, without a ceiling.
    pub fn new() -> (plan: ReadPlan)
        ensures
            plan@ == nothing_asked(),
    {
        ReadPlan { branch: None, valid: None, recorded: None, limit: None }
    }

    /// The same read on `branch`.
    pub fn on(self, branch: BranchId) -> (plan: ReadPlan)
        ensures
            plan@ == (PlanView { branch: Some(branch@), ..self@ }),
    {
        let mut plan = self;
        plan.branch = Some(branch);
        plan
    }

    /// The same read of what holds at `ts`.
    pub fn valid_at(self, ts: &str) -> (plan: ReadPlan)
        ensures
            plan@ == (PlanView { valid: Some(ts@), ..self@ }),
    {
        let mut plan = self;
        plan.valid = Some(ts.to_owned());
        plan
    }

    /// The same read of what was believed at `ts`.
    pub fn recorded_at(self, ts: &str) -> (plan: ReadPlan)
        ensures
            plan@ == (PlanView { recorded: Some(ts@), ..self@ }),
    {
        let mut plan = self;
        plan.recorded = Some(ts.to_owned());
        plan
    }

    /// The same read, cut after `n` rows.
    pub fn limit(self, n: usize) -> (plan: ReadPlan)
        ensures
            plan@ == (PlanView { limit: Some(n), ..self@ }),
    {
        let mut plan = self;
        plan.limit = Some(n);
        plan
    }

    /// The name of the lineage, where one is named.
    pub fn branch_name(&self) -> (name: Option<&str>)
        ensures
            name.is_some() == self@.branch.is_some(),
            name matches Some(n) ==> self@.branch == Some(n@),
    {
        match &self.branch {
            Some(b) => Some(b.as_str()),
            None => None,
        }
    }
}

/// Refuses a recorded instant that the log no longer answers for.
pub fn check_recorded_reach(recorded: Option<&str>, answers: bool) -> (reach: Result<()>)
    ensures
        reach.is_ok() == (recorded.is_none() || answers),
        reach matches Err(e) ==> (e matches DbError::RecordedInstantUnreachable { ts } && Some(ts@)
            == opt_text(recorded)),
{
    match recorded {
        Some(ts) => if answers {
            Ok(())
        } else {
            Err(DbError::RecordedInstantUnreachable { ts: ts.to_owned() })
        },
        None => Ok(()),
    }
}

/// The text of an optional instant.
pub open spec fn opt_text(ts: Option<&str>) -> Option<Seq<char>> {
    match ts {
        Some(t) => Some(t@),
        None => None,
    }
}

/// The slot in which a read of all edges binds the branch.
pub const BRANCH_SLOT: usize = 2;

/// The slot of the recorded instant: after the branch, where one is bound.
pub open spec fn recorded_slot_of(shape: LineageShape) -> nat {
    if shape == LineageShape::Trunk {
        2
    } else {
        3
    }
}

/// What the lowering of a read of all edges is asked for.
pub open spec fn edges_resolution(shape: LineageShape, folded: bool) -> plan::ResolutionView {
    plan::ResolutionView {
        shape,
        branch_slot: BRANCH_SLOT as nat,
        recorded_slot: if folded {
            Some(recorded_slot_of(shape) as usize)
        } else {
            None
        },
        tag: ""@,
        key: None,
        entries: 0,
        ancestry_slot: 0,
    }
}

/// A ceiling as SQL; nothing where there is none.
pub open spec fn limit_text(limit: Option<usize>) -> Seq<char> {
    match limit {
        Some(n) => " LIMIT "@ + text::decimal(n as nat),
        None => ""@,
    }
}

/// The statement that reads all edges that hold at one instant.
pub open spec fn edges_text(shape: LineageShape, folded: bool, limit: Option<usize>) -> Seq<char> {
    let r = edges_resolution(shape, folded);
    plan::with_clause_text(r.ctes())
        + "SELECT l.source_id, l.target_id, l.edge_type, l.valid_from, l.valid_to, l.branch_id FROM "@
        + r.source() + " l WHERE l.valid_from <= ?1 AND ?1 < l.valid_to"@ + (r.own_lineage() + r.own_edge())
        + limit_text(limit)
}

/// What the statement binds: the instant, the branch where the shape names one,
/// the recorded instant where there is one.
pub open spec fn edges_row(
    shape: LineageShape,
    valid: Seq<char>,
    recorded: Option<Seq<char>>,
    branch: Seq<char>,
) -> Seq<SqlView> {
    let at = seq![SqlView::Text(valid)];
    let on = if shape == LineageShape::Trunk {
        at
    } else {
        at.push(SqlView::Text(branch))
    };
    match recorded {
        Some(ts) => on.push(SqlView::Text(ts)),
        None => on,
    }
}

/// The statement that reads all edges that hold at `valid`, and what it binds.
pub fn edges_at(
    shape: LineageShape,
    valid: &str,
    recorded: Option<&str>,
    branch: Option<&str>,
    limit: Option<usize>,
) -> (query: (String, Vec<SqlValue>))
    ensures
        query.0@ == edges_text(shape, recorded.is_some(), limit),
        sql::values(query.1@) == edges_row(shape, valid@, opt_text(recorded), lineage::named(branch)),
{
    let slot: usize = if shape.binds_branch() {
        BRANCH_SLOT + 1
    } else {
        BRANCH_SLOT
    };
    let r = Resolution {
        shape,
        branch_slot: BRANCH_SLOT,
        recorded_slot: if recorded.is_some() {
            Some(slot)
        } else {
            None
        },
        tag: "",
        key: None,
        ancestry: &[],
        ancestry_slot: 0,
    };
    proof {
        assert(r@ == edges_resolution(shape, recorded.is_some()));
    }
    let lowered = lower(&r);
    let mut out = lowered.with_clause();
    out.append("SELECT l.source_id, l.target_id, l.edge_type, l.valid_from, l.valid_to, l.branch_id FROM ");
    out.append(lowered.source.as_str());
    out.append(" l WHERE l.valid_from <= ?1 AND ?1 < l.valid_to");
    out.append(lowered.filter.as_str());
    let mut ceiling = "".to_owned();
    if let Some(n) = limit {
        ceiling = " LIMIT ".to_owned();
        push_decimal(&mut ceiling, n as u64);
    }
    out.append(ceiling.as_str());

    let mut row: Vec<SqlValue> = Vec::new();
    bind(&mut row, text_value(valid));
    proof {
        assert(sql::values(row@) =~= seq![SqlView::Text(valid@)]);
    }
    if shape.binds_branch() {
        bind(
            &mut row,
            text_value(
                match branch {
                    Some(name) => name,
                    None => MAIN_BRANCH,
                },
            ),
        );
    }
    if let Some(ts) = recorded {
        bind(&mut row, text_value(ts));
    }
    (out, row)
}

} // verus!
