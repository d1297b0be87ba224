//! How a traversal is asked for, and the statement it becomes.

use vstd::prelude::*;

use crate::branch;
use crate::branch::BranchId;
use crate::error::{DbError, Result, StatedInstants};
use crate::graph::lineage::LineageShape;
use crate::graph::plan;
use crate::graph::plan::{lower, Resolution};
use crate::plan::{PlanView, ReadPlan};
use crate::schema;
use crate::schema::MAIN_BRANCH;
use crate::sql;
use crate::sql::{bind, slots, text_value, SqlValue, SqlView};
use crate::temporal::AsOf;
use crate::text;
use crate::text::{opt_clone, opt_str, push_decimal};

verus! {

/// Which text of a concept a traversal brings with it.
#[derive(Debug, Clone, Copy, PartialEq, Eq, Structural)]
#[non_exhaustive]
pub enum AttributeMode {
    /// The text as it is now.
    Current,
    /// The text as it was at the traversal's own instants.
    AtTime,
    /// No text.
    Omit,
}

/// Whether a walk found everything it could have.
#[derive(Debug, Clone, Copy, PartialEq, Eq, Structural)]
#[non_exhaustive]
pub enum WalkOutcome {
    Complete,
    LimitReached,
}

impl WalkOutcome {
    /// Whether the walk was cut.
    pub fn hit_limit(self) -> (cut: bool)
        ensures
            cut == (self == WalkOutcome::LimitReached),
    {
        matches!(self, WalkOutcome::LimitReached)
    }
}

/// A traversal: where it starts, how far it goes, and over what.
#[derive(Debug, Clone)]
pub struct TraversalBuilder {
    pub start_node: String,
    pub max_depth: usize,
    pub limit: Option<usize>,
    pub edge_types: Vec<String>,
    /// The least weight of an edge that is followed, as binary64 bits.
    pub min_weight: u64,
    pub attribute_mode: Option<AttributeMode>,
    pub as_of_valid: Option<String>,
    pub as_of_recorded: Option<String>,
    pub branch: Option<String>,
    pub content: bool,
}

/// What a traversal is.
pub struct TraversalView {
    pub start_node: Seq<char>,
    pub max_depth: usize,
    pub limit: Option<usize>,
    pub edge_types: Seq<Seq<char>>,
    pub min_weight: u64,
    pub attribute_mode: Option<AttributeMode>,
    pub as_of_valid: Option<Seq<char>>,
    pub as_of_recorded: Option<Seq<char>>,
    pub branch: Option<Seq<char>>,
    pub content: bool,
}

impl View for TraversalBuilder {
    type V = TraversalView;

    open spec fn view(&self) -> TraversalView {
        TraversalView {
            start_node: self.start_node@,
            max_depth: self.max_depth,
            limit: self.limit,
            edge_types: plan::texts(self.edge_types@),
            min_weight: self.min_weight,
            attribute_mode: self.attribute_mode,
            as_of_valid: text::opt_view(self.as_of_valid),
            as_of_recorded: text::opt_view(self.as_of_recorded),
            branch: text::opt_view(self.branch),
            content: self.content,
        }
    }
}

/// The slot in which a traversal binds its branch.
pub const BRANCH_SLOT: usize = 5;

/// The slot of the recorded instant: after the branch, where one is bound.
pub open spec fn recorded_slot_of(shape: LineageShape) -> int {
    if shape == LineageShape::Trunk {
        BRANCH_SLOT as int
    } else {
        BRANCH_SLOT + 1
    }
}

/// Everything a walk reaches, retired concepts left out.
pub const PROJECTION: &'static str = r"
SELECT DISTINCT w.node_id
FROM walk w JOIN concepts c ON c.id = w.node_id
WHERE c.retired = 0
ORDER BY w.node_id;
            ";

/// The same, with the number of rows the walk itself had. One row comes back
/// even where nothing was kept.
pub const LIMITED_PROJECTION: &'static str = r"
SELECT r.n, w.node_id
FROM (SELECT COUNT(*) AS n FROM walk) r
LEFT JOIN (
    SELECT DISTINCT w.node_id AS node_id
    FROM walk w JOIN concepts c ON c.id = w.node_id
    WHERE c.retired = 0
) w ON 1 = 1
ORDER BY w.node_id;
            ";

impl TraversalView {
    /// The traversal of three hops from `start` over all edges of the trunk.
    pub open spec fn from_node(start: Seq<char>) -> TraversalView {
        TraversalView {
            start_node: start,
            max_depth: 3,
            limit: None,
            edge_types: Seq::empty(),
            min_weight: 0,
            attribute_mode: None,
            as_of_valid: None,
            as_of_recorded: None,
            branch: None,
            content: false,
        }
    }

    /// The same traversal under a plan.
    pub open spec fn under(self, p: PlanView) -> TraversalView {
        TraversalView {
            branch: p.branch,
            as_of_valid: p.valid,
            as_of_recorded: p.recorded,
            limit: p.limit,
            ..self
        }
    }

    /// The plan that a traversal is under.
    pub open spec fn asked(self) -> PlanView {
        PlanView {
            branch: self.branch,
            valid: self.as_of_valid,
            recorded: self.as_of_recorded,
            limit: self.limit,
        }
    }

    /// The first slot of the edge types.
    pub open spec fn edge_type_slot(self, shape: LineageShape) -> int {
        recorded_slot_of(shape) + if self.as_of_recorded.is_some() {
            1int
        } else {
            0
        }
    }

    /// The slot of the ceiling.
    pub open spec fn ceiling_slot(self, shape: LineageShape) -> int {
        self.edge_type_slot(shape) + self.edge_types.len()
    }

    /// What the lowering is asked for.
    pub open spec fn asks(self, shape: LineageShape) -> plan::ResolutionView {
        plan::ResolutionView {
            shape,
            branch_slot: BRANCH_SLOT as nat,
            recorded_slot: if self.as_of_recorded.is_some() {
                Some(recorded_slot_of(shape) as usize)
            } else {
                None
            },
            tag: ""@,
            key: None,
            entries: 0,
            ancestry_slot: 0,
        }
    }

    /// The condition on the edge type; nothing where every type will do.
    pub open spec fn edge_filter(self, shape: LineageShape) -> Seq<char> {
        if self.edge_types.len() == 0 {
            ""@
        } else {
            " AND l.edge_type IN ("@ + sql::slot_list(
                self.edge_type_slot(shape) as nat,
                self.edge_types.len(),
            ) + ")"@
        }
    }

    /// The ceiling of the walk; nothing where there is none.
    pub open spec fn ceiling(self, shape: LineageShape) -> Seq<char> {
        if self.limit.is_some() {
            "\n    LIMIT ?"@ + text::decimal(self.ceiling_slot(shape) as nat)
        } else {
            ""@
        }
    }

    /// The walk itself, after the expressions it reads.
    pub open spec fn walk_text(self, shape: LineageShape) -> Seq<char> {
        let r = self.asks(shape);
        "\nWITH RECURSIVE "@ + plan::each_ended(r.ctes())
            + r"walk(node_id, depth) AS (
    SELECT ?1, 0
    UNION
    SELECT l.target_id, w.depth + 1
    FROM walk w
    JOIN "@ + r.source()
            + r" l ON l.source_id = w.node_id
    WHERE w.depth < ?2
      AND l.valid_from <= ?3 AND ?3 < l.valid_to
      AND l.weight >= ?4"@ + (r.own_lineage() + r.own_edge()) + "\n      "@ + self.edge_filter(shape)
            + self.ceiling(shape) + "\n)"@
    }

    /// The whole statement.
    pub open spec fn statement(self, shape: LineageShape) -> Seq<char> {
        self.walk_text(shape) + if self.limit.is_some() {
            LIMITED_PROJECTION@
        } else {
            PROJECTION@
        }
    }

    /// The shape that the traversal's own settings imply.
    pub open spec fn implied(self) -> LineageShape {
        if self.branch.is_some() {
            LineageShape::Resolved
        } else {
            LineageShape::Trunk
        }
    }

    /// The instant at which edges must hold.
    pub open spec fn valid_at(self, now: Seq<char>) -> Seq<char> {
        match self.as_of_valid {
            Some(ts) => ts,
            None => now,
        }
    }

    /// The lineage that is read.
    pub open spec fn lineage(self) -> Seq<char> {
        match self.branch {
            Some(name) => name,
            None => schema::MAIN_BRANCH@,
        }
    }

    /// The four values that every traversal binds.
    pub open spec fn fixed_row(self, now: Seq<char>) -> Seq<SqlView> {
        seq![
            SqlView::Text(self.start_node),
            SqlView::Integer(self.max_depth as i64),
            SqlView::Text(self.valid_at(now)),
            SqlView::Real(self.min_weight),
        ]
    }

    /// The branch, where the statement names one.
    pub open spec fn branch_row(self, shape: LineageShape) -> Seq<SqlView> {
        if shape == LineageShape::Trunk {
            Seq::empty()
        } else {
            seq![SqlView::Text(self.lineage())]
        }
    }

    /// The recorded instant, where there is one.
    pub open spec fn recorded_row(self) -> Seq<SqlView> {
        match self.as_of_recorded {
            Some(ts) => seq![SqlView::Text(ts)],
            None => Seq::empty(),
        }
    }

    /// The edge types.
    pub open spec fn types_row(self) -> Seq<SqlView> {
        self.edge_types.map_values(|t: Seq<char>| SqlView::Text(t))
    }

    /// The ceiling, where there is one.
    pub open spec fn limit_row(self) -> Seq<SqlView> {
        match self.limit {
            Some(n) => seq![SqlView::Integer(n as i64)],
            None => Seq::empty(),
        }
    }

    /// Everything that is bound, in the order of the slots.
    pub open spec fn bound(self, now: Seq<char>, shape: LineageShape) -> Seq<SqlView> {
        self.fixed_row(now) + self.branch_row(shape) + self.recorded_row() + self.types_row()
            + self.limit_row()
    }
}

/// One row that a walk gave back.
#[derive(Debug)]
pub struct WalkRow {
    /// How many rows the walk had; nought where the statement does not say.
    pub walk_rows: i64,
    /// The node, where the row holds one.
    pub id: Option<String>,
}

/// The nodes of the first `n` rows.
pub open spec fn nodes_of(rows: Seq<WalkRow>, n: int) -> Seq<Seq<char>>
    decreases n,
{
    if n <= 0 {
        Seq::empty()
    } else {
        match rows[n - 1].id {
            Some(id) => nodes_of(rows, n - 1).push(id@),
            None => nodes_of(rows, n - 1),
        }
    }
}

/// The nodes of a walk are those that its rows name, in their order: `of` tells
/// which.
pub proof fn law_the_nodes_are_those_named(rows: Seq<WalkRow>, n: int) -> (of: Seq<int>)
    requires
        0 <= n <= rows.len(),
    ensures
        of.len() == nodes_of(rows, n).len(),
        forall|k: int|
            0 <= k < of.len() ==> 0 <= (#[trigger] of[k]) < n && rows[of[k]].id.is_some() && nodes_of(rows, n)[k]
                == rows[of[k]].id.unwrap()@,
        forall|k: int, l: int| 0 <= k < l < of.len() ==> #[trigger] of[k] < #[trigger] of[l],
        forall|i: int| 0 <= i < n && (#[trigger] rows[i]).id.is_some() ==> of.contains(i),
    decreases n,
{
    if n == 0 {
        Seq::empty()
    } else {
        let before = law_the_nodes_are_those_named(rows, n - 1);
        if rows[n - 1].id.is_some() {
            let of = before.push(n - 1);
            assert forall|i: int| 0 <= i < n && (#[trigger] rows[i]).id.is_some() implies of.contains(i) by {
                if i < n - 1 {
                    let k = before.index_of(i);
                    assert(of[k] == i);
                } else {
                    assert(of[before.len() as int] == i);
                }
            }
            of
        } else {
            before
        }
    }
}

/// The number of rows that the walk had, as the last row says it.
pub open spec fn rows_walked(rows: Seq<WalkRow>) -> i64 {
    if rows.len() == 0 {
        0
    } else {
        rows.last().walk_rows
    }
}

/// Whether a walk of `walked` rows reached its ceiling. A walk level with it
/// has been cut.
pub open spec fn outcome_of(limit: Option<usize>, walked: i64) -> WalkOutcome {
    match limit {
        Some(n) => if walked >= n as i64 {
            WalkOutcome::LimitReached
        } else {
            WalkOutcome::Complete
        },
        None => WalkOutcome::Complete,
    }
}

impl TraversalBuilder {
    /// A traversal of three hops from `start_node`.
    pub fn new(start_node: &str) -> (b: TraversalBuilder)
        ensures
            b@ == TraversalView::from_node(start_node@),
    {
        let b = TraversalBuilder {
            start_node: start_node.to_owned(),
            max_depth: 3,
            limit: None,
            edge_types: Vec::new(),
            min_weight: 0,
            attribute_mode: None,
            as_of_valid: None,
            as_of_recorded: None,
            branch: None,
            content: false,
        };
        proof {
            assert(b@.edge_types =~= Seq::empty());
        }
        b
    }

    /// The same traversal on `branch`.
    pub fn on_branch(self, branch: &str) -> (b: TraversalBuilder)
        ensures
            b@ == (TraversalView { branch: Some(branch@), ..self@ }),
    {
        let mut b = self;
        b.branch = Some(branch.to_owned());
        b
    }

    /// The same traversal under `plan`.
    pub fn plan(self, plan: ReadPlan) -> (b: TraversalBuilder)
        ensures
            b@ == self@.under(plan@),
    {
        let mut b = self;
        b.branch = match &plan.branch {
            Some(name) => Some(name.as_str().to_owned()),
            None => None,
        };
        b.as_of_valid = plan.valid;
        b.as_of_recorded = plan.recorded;
        b.limit = plan.limit;
        b
    }

    /// The plan that the traversal is under. A branch whose name breaks the
    /// rule is refused.
    pub fn read_plan(&self) -> (plan: Result<ReadPlan>)
        ensures
            plan.is_ok() == (self@.branch matches Some(name) ==> branch::is_branch_name(name)),
            plan matches Ok(p) ==> p@ == self@.asked(),
            plan matches Err(e) ==> (e matches DbError::InvalidBranchId(n) && self@.branch == Some(n@)),
    {
        let mut plan = ReadPlan::new();
        if let Some(name) = &self.branch {
            match BranchId::new(name.as_str()) {
                Ok(id) => {
                    plan.branch = Some(id);
                },
                Err(e) => {
                    return Err(e);
                },
            }
        }
        plan.valid = opt_clone(&self.as_of_valid);
        plan.recorded = opt_clone(&self.as_of_recorded);
        plan.limit = self.limit;
        Ok(plan)
    }

    /// The same traversal, `depth` hops far.
    pub fn max_depth(self, depth: usize) -> (b: TraversalBuilder)
        ensures
            b@ == (TraversalView { max_depth: depth, ..self@ }),
    {
        let mut b = self;
        b.max_depth = depth;
        b
    }

    /// The same traversal, cut after `n` rows of the walk.
    pub fn limit(self, n: usize) -> (b: TraversalBuilder)
        ensures
            b@ == (TraversalView { limit: Some(n), ..self@ }),
    {
        let mut b = self;
        b.limit = Some(n);
        b
    }

    /// The same traversal over edges of these types alone; all where there is
    /// none.
    pub fn edge_types(self, types: Vec<String>) -> (b: TraversalBuilder)
        ensures
            b@ == (TraversalView { edge_types: plan::texts(types@), ..self@ }),
    {
        let mut b = self;
        b.edge_types = types;
        b
    }

    /// The same traversal over edges of at least this weight.
    pub fn min_weight(self, weight: u64) -> (b: TraversalBuilder)
        ensures
            b@ == (TraversalView { min_weight: weight, ..self@ }),
    {
        let mut b = self;
        b.min_weight = weight;
        b
    }

    /// The same traversal with this text of each concept.
    pub fn attribute_mode(self, mode: AttributeMode) -> (b: TraversalBuilder)
        ensures
            b@ == (TraversalView { attribute_mode: Some(mode), ..self@ }),
    {
        let mut b = self;
        b.attribute_mode = Some(mode);
        b
    }

    /// The same traversal with or without the concepts' content.
    pub fn content(self, content: bool) -> (b: TraversalBuilder)
        ensures
            b@ == (TraversalView { content, ..self@ }),
    {
        let mut b = self;
        b.content = content;
        b
    }

    /// The same traversal of what holds at `ts`.
    pub fn as_of_valid(self, ts: &str) -> (b: TraversalBuilder)
        ensures
            b@ == (TraversalView { as_of_valid: Some(ts@), ..self@ }),
    {
        let mut b = self;
        b.as_of_valid = Some(ts.to_owned());
        b
    }

    /// The same traversal of what was believed at `ts`.
    pub fn as_of_recorded(self, ts: &str) -> (b: TraversalBuilder)
        ensures
            b@ == (TraversalView { as_of_recorded: Some(ts@), ..self@ }),
    {
        let mut b = self;
        b.as_of_recorded = Some(ts.to_owned());
        b
    }

    /// The instant at which edges must hold: the stated one, or `now_ts`.
    pub fn valid_instant<'a>(&'a self, now_ts: &'a str) -> (ts: &'a str)
        ensures
            ts@ == self@.valid_at(now_ts@),
    {
        match &self.as_of_valid {
            Some(ts) => ts.as_str(),
            None => now_ts,
        }
    }

    /// Both instants as hydration takes them.
    pub fn instants(&self, now_ts: &str) -> (as_of: AsOf)
        ensures
            text::opt_view(as_of.valid) == Some(self@.valid_at(now_ts@)),
            text::opt_view(as_of.recorded) == self@.as_of_recorded,
    {
        AsOf {
            valid: Some(self.valid_instant(now_ts).to_owned()),
            recorded: opt_clone(&self.as_of_recorded),
        }
    }

    /// The shape that the traversal's own settings imply. The ledger may ask
    /// for another.
    pub fn implied_shape(&self) -> (shape: LineageShape)
        ensures
            shape == self@.implied(),
    {
        if self.branch.is_some() {
            LineageShape::Resolved
        } else {
            LineageShape::Trunk
        }
    }

    /// The slot of the recorded instant.
    pub fn recorded_slot(shape: LineageShape) -> (slot: usize)
        ensures
            slot == recorded_slot_of(shape),
    {
        if shape.binds_branch() {
            BRANCH_SLOT + 1
        } else {
            BRANCH_SLOT
        }
    }

    /// The first slot of the edge types.
    pub fn edge_type_base(&self, shape: LineageShape) -> (slot: usize)
        ensures
            slot == self@.edge_type_slot(shape),
    {
        if self.as_of_recorded.is_some() {
            Self::recorded_slot(shape) + 1
        } else {
            Self::recorded_slot(shape)
        }
    }

    /// The slot of the ceiling.
    pub fn limit_slot(&self, shape: LineageShape) -> (slot: usize)
        requires
            self.edge_types@.len() + BRANCH_SLOT + 2 <= usize::MAX,
        ensures
            slot == self@.ceiling_slot(shape),
    {
        self.edge_type_base(shape) + self.edge_types.len()
    }

    /// The condition on the edge type.
    pub fn edge_filter_sql(&self, shape: LineageShape) -> (sql: String)
        requires
            self.edge_types@.len() + BRANCH_SLOT + 2 <= usize::MAX,
        ensures
            sql@ == self@.edge_filter(shape),
    {
        if self.edge_types.len() == 0 {
            return "".to_owned();
        }
        let placeholders = slots(self.edge_type_base(shape), self.edge_types.len());
        let mut out = " AND l.edge_type IN (".to_owned();
        out.append(placeholders.as_str());
        out.append(")");
        out
    }

    /// Everything that the statement binds, in the order of its slots.
    pub fn bind_params(&self, now_ts: &str, shape: LineageShape) -> (row: Vec<SqlValue>)
        ensures
            sql::values(row@) == self@.bound(now_ts@, shape),
    {
        let mut row: Vec<SqlValue> = Vec::new();
        bind(&mut row, text_value(self.start_node.as_str()));
        bind(&mut row, SqlValue::Integer(self.max_depth as i64));
        bind(&mut row, text_value(self.valid_instant(now_ts)));
        bind(&mut row, SqlValue::Real(self.min_weight));
        let ghost fixed = self@.fixed_row(now_ts@);
        proof {
            assert(sql::values(row@) =~= fixed);
        }
        if shape.binds_branch() {
            bind(
                &mut row,
                text_value(
                    match &self.branch {
                        Some(name) => name.as_str(),
                        None => MAIN_BRANCH,
                    },
                ),
            );
        }
        let ghost on = fixed + self@.branch_row(shape);
        proof {
            assert(sql::values(row@) =~= on);
        }
        if let Some(recorded) = &self.as_of_recorded {
            bind(&mut row, text_value(recorded.as_str()));
        }
        let ghost at = on + self@.recorded_row();
        proof {
            assert(sql::values(row@) =~= at);
        }
        let n: usize = self.edge_types.len();
        let mut i: usize = 0;
        proof {
            assert(at + self@.types_row().take(0) =~= at);
        }
        while i < n
            invariant
                n == self.edge_types@.len(),
                i <= n,
                sql::values(row@) == at + self@.types_row().take(i as int),
            decreases n - i,
        {
            bind(&mut row, text_value(self.edge_types[i].as_str()));
            proof {
                assert(self@.types_row().take(i + 1) =~= self@.types_row().take(i as int).push(
                    SqlView::Text(self.edge_types@[i as int]@),
                ));
                assert(sql::values(row@) =~= at + self@.types_row().take(i + 1));
            }
            i = i + 1;
        }
        proof {
            assert(self@.types_row().take(n as int) =~= self@.types_row());
        }
        if let Some(n) = self.limit {
            bind(&mut row, SqlValue::Integer(n as i64));
        }
        proof {
            assert(sql::values(row@) =~= self@.bound(now_ts@, shape));
        }
        row
    }

    /// What the lowering is asked for. A walk finds its edges as it goes, so
    /// there is no key to narrow it by.
    pub fn resolution(&self, shape: LineageShape) -> (r: Resolution<'static>)
        ensures
            r@ == self@.asks(shape),
            r.ancestry@.len() == 0,
            r.ancestry_slot == 0,
    {
        Resolution {
            shape,
            branch_slot: BRANCH_SLOT,
            recorded_slot: if self.as_of_recorded.is_some() {
                Some(Self::recorded_slot(shape))
            } else {
                None
            },
            tag: "",
            key: None,
            ancestry: &[],
            ancestry_slot: 0,
        }
    }

    /// The relation that the walk joins.
    pub fn link_source(&self, shape: LineageShape) -> (source: String)
        ensures
            source@ == self@.asks(shape).source(),
    {
        lower(&self.resolution(shape)).source
    }

    /// What keeps the walk to its lineage.
    pub fn lineage_filter_sql(&self, shape: LineageShape) -> (filter: String)
        ensures
            filter@ == self@.asks(shape).own_lineage() + self@.asks(shape).own_edge(),
    {
        lower(&self.resolution(shape)).filter
    }

    /// The walk, after the expressions it reads.
    pub fn walk_cte(&self, shape: LineageShape) -> (sql: String)
        requires
            self.edge_types@.len() + BRANCH_SLOT + 2 <= usize::MAX,
        ensures
            sql@ == self@.walk_text(shape),
    {
        let lowered = lower(&self.resolution(shape));
        let prelude = lowered.prelude();
        let edge_filter = self.edge_filter_sql(shape);
        let mut ceiling = "".to_owned();
        if self.limit.is_some() {
            ceiling = "\n    LIMIT ?".to_owned();
            push_decimal(&mut ceiling, self.limit_slot(shape) as u64);
        }
        let mut out = "\nWITH RECURSIVE ".to_owned();
        out.append(prelude.as_str());
        out.append(
            r"walk(node_id, depth) AS (
    SELECT ?1, 0
    UNION
    SELECT l.target_id, w.depth + 1
    FROM walk w
    JOIN ",
        );
        out.append(lowered.source.as_str());
        out.append(
            r" l ON l.source_id = w.node_id
    WHERE w.depth < ?2
      AND l.valid_from <= ?3 AND ?3 < l.valid_to
      AND l.weight >= ?4",
        );
        out.append(lowered.filter.as_str());
        out.append("\n      ");
        out.append(edge_filter.as_str());
        out.append(ceiling.as_str());
        out.append("\n)");
        out
    }

    /// The statement for the shape that the settings imply.
    pub fn build_sql(&self) -> (sql: String)
        requires
            self.edge_types@.len() + BRANCH_SLOT + 2 <= usize::MAX,
        ensures
            sql@ == self@.statement(self@.implied()),
    {
        self.build_sql_with(self.implied_shape())
    }

    /// The statement for a shape.
    pub fn build_sql_with(&self, shape: LineageShape) -> (sql: String)
        requires
            self.edge_types@.len() + BRANCH_SLOT + 2 <= usize::MAX,
        ensures
            sql@ == self@.statement(shape),
    {
        let mut out = self.walk_cte(shape);
        if self.limit.is_some() {
            out.append(LIMITED_PROJECTION);
        } else {
            out.append(PROJECTION);
        }
        out
    }

    /// The nodes that a walk gave back, in order, and whether it was cut.
    pub fn gather(&self, rows: Vec<WalkRow>) -> (found: (Vec<String>, WalkOutcome))
        ensures
            plan::texts(found.0@) == nodes_of(rows@, rows@.len() as int),
            found.1 == outcome_of(self.limit, rows_walked(rows@)),
    {
        let mut ids: Vec<String> = Vec::new();
        let mut walk_rows: i64 = 0;
        let n: usize = rows.len();
        let mut i: usize = 0;
        proof {
            assert(plan::texts(ids@) =~= Seq::empty());
        }
        while i < n
            invariant
                n == rows@.len(),
                i <= n,
                plan::texts(ids@) == nodes_of(rows@, i as int),
                walk_rows == (if i == 0 {
                    0
                } else {
                    rows@[i - 1].walk_rows
                }),
            decreases n - i,
        {
            walk_rows = rows[i].walk_rows;
            if let Some(id) = &rows[i].id {
                let ghost before = plan::texts(ids@);
                ids.push(id.clone());
                proof {
                    assert(plan::texts(ids@) =~= before.push(id@));
                }
            }
            i = i + 1;
        }
        let outcome = match self.limit {
            Some(n) => if walk_rows >= n as i64 {
                WalkOutcome::LimitReached
            } else {
                WalkOutcome::Complete
            },
            None => WalkOutcome::Complete,
        };
        (ids, outcome)
    }

    /// The text of each concept that the traversal brings. A traversal of the
    /// past that does not say which is refused.
    pub fn resolved_mode(&self) -> (mode: Result<AttributeMode>)
        ensures
            mode.is_ok() == (self.attribute_mode.is_some() || (self.as_of_valid.is_none()
                && self.as_of_recorded.is_none())),
            mode matches Ok(m) ==> m == (match self.attribute_mode {
                Some(stated) => stated,
                None => AttributeMode::Current,
            }),
            mode matches Err(e) ==> (e matches DbError::AttributeModeUnstated { instants }
                && instants.valid_text() == self@.as_of_valid && instants.recorded_text()
                == self@.as_of_recorded),
    {
        let stated = StatedInstants::new(opt_str(&self.as_of_valid), opt_str(&self.as_of_recorded));
        match self.attribute_mode {
            Some(mode) => Ok(mode),
            None => match stated {
                Some(instants) => Err(DbError::AttributeModeUnstated { instants }),
                None => Ok(AttributeMode::Current),
            },
        }
    }
}

/// A traversal under a plan is under that plan: nothing of it is lost on the
/// way through the builder.
pub proof fn law_a_plan_comes_back(t: TraversalView, p: PlanView)
    ensures
        t.under(p).asked() == p,
        t.under(t.asked()) == t,
{
}

/// Every slot that the statement names holds the value that belongs there, and
/// nothing is bound that it does not name.
pub proof fn law_every_slot_holds_its_value(t: TraversalView, now: Seq<char>, shape: LineageShape)
    ensures
        t.bound(now, shape).len() == t.ceiling_slot(shape) - 1 + if t.limit.is_some() {
            1int
        } else {
            0
        },
        t.bound(now, shape)[0] == SqlView::Text(t.start_node),
        t.bound(now, shape)[1] == SqlView::Integer(t.max_depth as i64),
        t.bound(now, shape)[2] == SqlView::Text(t.valid_at(now)),
        t.bound(now, shape)[3] == SqlView::Real(t.min_weight),
        shape != LineageShape::Trunk ==> t.bound(now, shape)[BRANCH_SLOT - 1] == SqlView::Text(t.lineage()),
        t.as_of_recorded matches Some(ts) ==> t.bound(now, shape)[recorded_slot_of(shape) - 1]
            == SqlView::Text(ts),
        forall|i: int|
            0 <= i < t.edge_types.len() ==> t.bound(now, shape)[t.edge_type_slot(shape) + i - 1]
                == SqlView::Text(#[trigger] t.edge_types[i]),
        t.limit matches Some(n) ==> t.bound(now, shape)[t.ceiling_slot(shape) - 1] == SqlView::Integer(
            n as i64,
        ),
{
}

} // verus!
