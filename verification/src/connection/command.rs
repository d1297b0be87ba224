//! What the writer is asked to do, and how it does it.

use vstd::prelude::*;

use crate::connection::batch;
use crate::connection::batch::{edge_failure, EdgeBatch};
use crate::connection::chunk::ChunkOutcome;
use crate::connection::concepts;
use crate::connection::concepts::{AnnotationBatch, ConceptBatch, ConceptRun};
use crate::connection::guard;
use crate::connection::guard::check_prepared;
use crate::connection::rows;
use crate::connection::rows::{
    edge_params, guard_params, Annotation, ConceptUpsert, Retirement, INSERT_LINK,
};
use crate::error::{DbError, EngineError, Result};
use crate::graph::edge::EdgeAssertion;
use crate::graph::lineage;
use crate::graph::lineage::{Ancestor, LineageShape, Lineages};
use crate::graph::resolved;
use crate::graph::resolved::{overlap_candidates_resolved, retire_from_resolved};
use crate::integrity::rebuild::{RebuildPhase, RebuildRun, Verify};
use crate::integrity::shadow;
use crate::integrity::shadow::{drop_shadow, fill_bound, shadow_ddl, swap, ShadowStep, Statement, SwapPlan};
use crate::metrics::CommandKind;
use crate::schema;
use crate::schema::{Declarations, GuardMessages};
use crate::sql;
use crate::sql::{SqlValue, SqlView};
use crate::temporal::Interval;
use crate::text;
use crate::text::opt_str;
use crate::vector::ModelName;

verus! {

/// Work that a caller waits for.
#[derive(Debug)]
pub enum HighPriCommand {
    AssertEdge { edge: EdgeAssertion },
    RetireEdge { retirement: Retirement },
    UpsertConcept { concept: ConceptUpsert },
    WriteBulkAtomic { edges: Vec<EdgeAssertion> },
    RebuildCurrent,
    RegisterModel { model: ModelName, dim: usize },
    Checkpoint,
    Shutdown,
}

/// Work that goes when nobody waits.
#[derive(Debug)]
#[allow(inconsistent_fields)]
pub enum LowPriCommand {
    WriteConceptsChunk { chunk: Vec<ConceptUpsert> },
    WriteAnalyticsChunk { chunk: Vec<Annotation> },
    /// Vectors by concept, as binary32 bits.
    UpsertEmbeddingChunk { model: ModelName, chunk: Vec<(String, Vec<u32>)> },
    BulkImportChunk { chunk: Vec<EdgeAssertion> },
    Archive { cutoff: String },
    Rehydrate { ids: Vec<String> },
    RebuildFts,
    Analyze { incremental: bool },
    ShadowRebuild { step: ShadowStep },
}

/// Whether the writer goes on after a command.
#[derive(Debug, Clone, Copy, PartialEq, Eq, Structural)]
pub enum LoopCtl {
    Continue,
    Break,
}

impl HighPriCommand {
    /// What a turn for the command counts as.
    pub fn kind(&self) -> (kind: CommandKind)
        ensures
            kind == (match self {
                HighPriCommand::AssertEdge { .. } => CommandKind::AssertEdge,
                HighPriCommand::RetireEdge { .. } => CommandKind::RetireEdge,
                HighPriCommand::UpsertConcept { .. } => CommandKind::UpsertConcept,
                HighPriCommand::WriteBulkAtomic { .. } => CommandKind::WriteBulkAtomic,
                HighPriCommand::RebuildCurrent => CommandKind::RebuildCurrent,
                HighPriCommand::RegisterModel { .. } => CommandKind::RegisterModel,
                HighPriCommand::Checkpoint => CommandKind::Checkpoint,
                HighPriCommand::Shutdown => CommandKind::Shutdown,
            }),
    {
        match self {
            HighPriCommand::AssertEdge { .. } => CommandKind::AssertEdge,
            HighPriCommand::RetireEdge { .. } => CommandKind::RetireEdge,
            HighPriCommand::UpsertConcept { .. } => CommandKind::UpsertConcept,
            HighPriCommand::WriteBulkAtomic { .. } => CommandKind::WriteBulkAtomic,
            HighPriCommand::RebuildCurrent => CommandKind::RebuildCurrent,
            HighPriCommand::RegisterModel { .. } => CommandKind::RegisterModel,
            HighPriCommand::Checkpoint => CommandKind::Checkpoint,
            HighPriCommand::Shutdown => CommandKind::Shutdown,
        }
    }

    /// Whether the writer goes on after the command: a shutdown alone ends it.
    pub fn control(&self) -> (ctl: LoopCtl)
        ensures
            ctl == (if self is Shutdown {
                LoopCtl::Break
            } else {
                LoopCtl::Continue
            }),
    {
        match self {
            HighPriCommand::Shutdown => LoopCtl::Break,
            _ => LoopCtl::Continue,
        }
    }

    /// Whether the command is stamped with the instant at which it is taken.
    pub open spec fn is_stamped(self) -> bool {
        self is AssertEdge || self is RetireEdge || self is UpsertConcept || self is WriteBulkAtomic
    }

    /// Whether the command is stamped with the instant at which it is taken.
    pub fn stamped(&self) -> (yes: bool)
        ensures
            yes == self.is_stamped(),
    {
        match self {
            HighPriCommand::AssertEdge { .. } => true,
            HighPriCommand::RetireEdge { .. } => true,
            HighPriCommand::UpsertConcept { .. } => true,
            HighPriCommand::WriteBulkAtomic { .. } => true,
            _ => false,
        }
    }
}

impl LowPriCommand {
    /// What a turn for the command counts as.
    pub fn kind(&self) -> (kind: CommandKind)
        ensures
            kind == (match self {
                LowPriCommand::WriteConceptsChunk { .. } => CommandKind::WriteConceptsChunk,
                LowPriCommand::WriteAnalyticsChunk { .. } => CommandKind::WriteAnalyticsChunk,
                LowPriCommand::UpsertEmbeddingChunk { .. } => CommandKind::UpsertEmbeddingChunk,
                LowPriCommand::BulkImportChunk { .. } => CommandKind::BulkImportChunk,
                LowPriCommand::Archive { .. } => CommandKind::Archive,
                LowPriCommand::Rehydrate { .. } => CommandKind::Rehydrate,
                LowPriCommand::RebuildFts => CommandKind::RebuildFts,
                LowPriCommand::Analyze { .. } => CommandKind::Analyze,
                LowPriCommand::ShadowRebuild { .. } => CommandKind::ShadowRebuild,
            }),
    {
        match self {
            LowPriCommand::WriteConceptsChunk { .. } => CommandKind::WriteConceptsChunk,
            LowPriCommand::WriteAnalyticsChunk { .. } => CommandKind::WriteAnalyticsChunk,
            LowPriCommand::UpsertEmbeddingChunk { .. } => CommandKind::UpsertEmbeddingChunk,
            LowPriCommand::BulkImportChunk { .. } => CommandKind::BulkImportChunk,
            LowPriCommand::Archive { .. } => CommandKind::Archive,
            LowPriCommand::Rehydrate { .. } => CommandKind::Rehydrate,
            LowPriCommand::RebuildFts => CommandKind::RebuildFts,
            LowPriCommand::Analyze { .. } => CommandKind::Analyze,
            LowPriCommand::ShadowRebuild { .. } => CommandKind::ShadowRebuild,
        }
    }

    /// Whether the writer goes on after the command: always.
    pub fn control(&self) -> (ctl: LoopCtl)
        ensures
            ctl == LoopCtl::Continue,
    {
        LoopCtl::Continue
    }

    /// Whether the command is stamped with the instant at which it is taken.
    pub open spec fn is_stamped(self) -> bool {
        self is WriteConceptsChunk || self is WriteAnalyticsChunk || self is BulkImportChunk || self is Archive
    }

    /// Whether the command is stamped with the instant at which it is taken.
    pub fn stamped(&self) -> (yes: bool)
        ensures
            yes == self.is_stamped(),
    {
        match self {
            LowPriCommand::WriteConceptsChunk { .. } => true,
            LowPriCommand::WriteAnalyticsChunk { .. } => true,
            LowPriCommand::BulkImportChunk { .. } => true,
            LowPriCommand::Archive { .. } => true,
            _ => false,
        }
    }
}

/// What a queue holds out to the writer.
#[derive(Debug, Clone, Copy, PartialEq, Eq, Structural)]
pub enum Queue {
    Ready,
    Empty,
    /// Empty, with nobody left to fill it.
    Closed,
}

/// Where the writer turns next.
#[derive(Debug, Clone, Copy, PartialEq, Eq, Structural)]
pub enum Choice {
    High,
    Low,
    Wait,
    Stop,
}

/// Where the writer turns next: to work that a caller waits for whenever there
/// is any, to other work only where there is none.
pub fn choose_queue(high: Queue, low: Queue) -> (choice: Choice)
    ensures
        high == Queue::Ready ==> choice == Choice::High,
        high != Queue::Ready && low == Queue::Ready ==> choice == Choice::Low,
        high == Queue::Closed && low == Queue::Closed ==> choice == Choice::Stop,
        high != Queue::Ready && low != Queue::Ready && !(high == Queue::Closed && low == Queue::Closed)
            ==> choice == Choice::Wait,
{
    if high == Queue::Ready {
        Choice::High
    } else if low == Queue::Ready {
        Choice::Low
    } else if high == Queue::Closed && low == Queue::Closed {
        Choice::Stop
    } else {
        Choice::Wait
    }
}

/// How often the archive has taken or given back rows. A rebuild beside current
/// belief cannot see what it took.
#[derive(Debug, Clone, Copy, PartialEq, Eq, Structural)]
pub struct ArchiveEpoch {
    pub epoch: u64,
}

/// Whether a command moves rows between the ledger and its archive.
pub open spec fn moves_archive(kind: CommandKind) -> bool {
    kind == CommandKind::Archive || kind == CommandKind::Rehydrate
}

impl ArchiveEpoch {
    /// No session yet.
    pub fn new() -> (e: ArchiveEpoch)
        ensures
            e.epoch == 0,
    {
        ArchiveEpoch { epoch: 0 }
    }

    /// Takes in that a command of this kind ended: an archive session that
    /// succeeded begins a new epoch, and nothing else does.
    pub fn settled(&mut self, kind: CommandKind, ok: bool)
        requires
            old(self).epoch < u64::MAX,
        ensures
            final(self).epoch == old(self).epoch + (if ok && moves_archive(kind) {
                1int
            } else {
                0
            }),
    {
        if ok && (kind == CommandKind::Archive || kind == CommandKind::Rehydrate) {
            self.epoch = self.epoch + 1;
        }
    }
}

/// What the sender of a chunk is answered: the rows written and the time taken,
/// or why none were.
pub fn answer_chunk(res: Result<usize>, held: u128) -> (answer: Result<ChunkOutcome>)
    ensures
        match res {
            Ok(rows) => answer == Ok::<ChunkOutcome, DbError>(ChunkOutcome { rows, held }),
            Err(e) => answer == Err::<ChunkOutcome, DbError>(e),
        },
{
    match res {
        Ok(rows) => Ok(ChunkOutcome { rows, held }),
        Err(e) => Err(e),
    }
}

/// The statement that refreshes the engine's statistics: `optimize` does so
/// where it seems worth it, `analyze` throughout.
pub fn statistics_sql<'a>(incremental: bool, optimize: &'a str, analyze: &'a str) -> (sql: &'a str)
    ensures
        sql@ == (if incremental {
            optimize@
        } else {
            analyze@
        }),
{
    if incremental {
        optimize
    } else {
        analyze
    }
}

/// Where the assertion of one edge stands.
#[derive(Debug, Clone, Copy, PartialEq, Eq, Structural)]
pub enum AssertPhase {
    Guard,
    Write,
    Done,
}

/// The assertion of one edge, step by step.
#[derive(Debug)]
pub struct AssertRun {
    pub edge: EdgeAssertion,
    pub stamp: String,
    pub shape: LineageShape,
    pub ancestry: Vec<Ancestor>,
    pub phase: AssertPhase,
    pub failure: Option<DbError>,
}

/// What a read on `name` may see of each lineage, where its shape resolves one.
pub open spec fn seen_from(lineages: Lineages, name: Seq<char>, shape: LineageShape) -> Seq<lineage::AncestorView> {
    if shape == LineageShape::Resolved {
        lineage::ancestry_of(lineages.rows@, name)
    } else {
        Seq::empty()
    }
}

/// Whether `r` is the assertion of `edge` before its first step. An edge on a
/// lineage that is no branch has failed already.
pub open spec fn assert_started(r: AssertRun, edge: EdgeAssertion, stamp: Seq<char>, lineages: Lineages) -> bool {
    &&& r.edge == edge
    &&& r.stamp@ == stamp
    &&& match lineage::shape_for(lineages.rows@, edge@.lineage()) {
        Some(shape) => {
            &&& r.phase == AssertPhase::Guard
            &&& r.failure.is_none()
            &&& r.shape == shape
            &&& lineage::ancestors_view(r.ancestry@) == seen_from(lineages, edge@.lineage(), shape)
        },
        None => {
            &&& r.phase == AssertPhase::Done
            &&& r.failure matches Some(DbError::UnknownBranch(n)) && n@ == edge@.lineage()
        },
    }
}

impl AssertRun {
    /// Nothing is written for an edge that was refused.
    pub open spec fn wf(&self) -> bool {
        &&& self.failure.is_some() ==> self.phase == AssertPhase::Done
        &&& resolved::GUARD_ANCESTRY_SLOT + 3 * self.ancestry@.len() <= usize::MAX
    }

    /// Everything but where the assertion stands.
    pub open spec fn same_run(&self, other: AssertRun) -> bool {
        self.edge == other.edge && self.stamp == other.stamp && self.shape == other.shape && self.ancestry
            == other.ancestry
    }

    /// The assertion of `edge`, stamped `stamp`.
    pub fn new(edge: EdgeAssertion, stamp: &str, lineages: &Lineages) -> (r: AssertRun)
        requires
            lineages.rows@.len() < i64::MAX,
            resolved::GUARD_ANCESTRY_SLOT + 3 * (lineages.rows@.len() + 1) <= usize::MAX,
        ensures
            r.wf(),
            assert_started(r, edge, stamp@, *lineages),
    {
        proof {
            lineage::law_ancestry_climbs_from_the_reader(lineages.rows@, edge@.lineage());
        }
        match lineages.resolve_for(Some(edge.branch_name())) {
            Ok((shape, ancestry)) => {
                proof {
                    assert(ancestry@.len() == lineage::ancestors_view(ancestry@).len());
                }
                AssertRun {
                    edge,
                    stamp: stamp.to_owned(),
                    shape,
                    ancestry,
                    phase: AssertPhase::Guard,
                    failure: None,
                }
            },
            Err(e) => AssertRun {
                edge,
                stamp: stamp.to_owned(),
                shape: LineageShape::Trunk,
                ancestry: Vec::new(),
                phase: AssertPhase::Done,
                failure: Some(e),
            },
        }
    }

    /// The statement that reads what the edge must not overlap, and what it
    /// binds.
    pub fn guard(&self) -> (query: (String, Vec<SqlValue>))
        requires
            self.wf(),
        ensures
            query.0@ == resolved::overlap_text(self.shape, self.ancestry@.len()),
            sql::values(query.1@) == rows::guard_row(
                self.edge@,
                self.shape,
                lineage::ancestors_view(self.ancestry@),
            ),
    {
        (
            overlap_candidates_resolved(self.shape, self.ancestry.as_slice()),
            guard_params(&self.edge, self.shape, self.ancestry.as_slice()),
        )
    }

    /// The statement that writes the edge, and what it binds.
    pub fn write(&self) -> (statement: (&'static str, Vec<SqlValue>))
        ensures
            statement.0@ == INSERT_LINK@,
            sql::values(statement.1@) == rows::edge_row(self.edge@, self.stamp@),
    {
        (INSERT_LINK, edge_params(&self.edge, self.stamp.as_str()))
    }

    /// Takes in the stored validities of the edge.
    pub fn guarded(&mut self, res: std::result::Result<Vec<Interval>, EngineError>)
        requires
            old(self).wf(),
            old(self).phase == AssertPhase::Guard,
        ensures
            final(self).wf(),
            final(self).same_run(*old(self)),
            match res {
                Ok(list) => if guard::is_clear(old(self).edge@, list@) {
                    final(self).phase == AssertPhase::Write && final(self).failure.is_none()
                } else {
                    final(self).phase == AssertPhase::Done && final(self).failure.is_some()
                        && guard::clash_reported(final(self).failure->0, old(self).edge@, list@)
                },
                Err(e) => final(self).phase == AssertPhase::Done && final(self).failure == Some(
                    DbError::Engine(e),
                ),
            },
    {
        match res {
            Ok(list) => match check_prepared(&self.edge, list.as_slice()) {
                Ok(()) => {
                    self.phase = AssertPhase::Write;
                },
                Err(e) => {
                    self.phase = AssertPhase::Done;
                    self.failure = Some(e);
                },
            },
            Err(e) => {
                self.phase = AssertPhase::Done;
                self.failure = Some(DbError::Engine(e));
            },
        }
    }

    /// Takes in whether the edge is written.
    pub fn wrote(&mut self, res: std::result::Result<(), EngineError>, guards: &GuardMessages)
        requires
            old(self).wf(),
            old(self).phase == AssertPhase::Write,
        ensures
            final(self).wf(),
            final(self).same_run(*old(self)),
            final(self).phase == AssertPhase::Done,
            final(self).failure.is_some() == res.is_err(),
            res matches Err(e) ==> batch::edge_failed(e, old(self).edge, *guards, final(self).failure->0),
    {
        self.phase = AssertPhase::Done;
        if let Err(e) = res {
            self.failure = Some(edge_failure(e, &self.edge, guards));
        }
    }

    /// What the assertion came to.
    pub fn outcome(self) -> (res: Result<()>)
        requires
            self.phase == AssertPhase::Done,
        ensures
            res == (match self.failure {
                Some(e) => Err(e),
                None => Ok(()),
            }),
    {
        match self.failure {
            Some(e) => Err(e),
            None => Ok(()),
        }
    }
}

/// Whether `s` is the statement that ends the validity of an edge, and what it
/// binds. An edge on a lineage that is no branch is refused.
pub open spec fn retires(
    s: Result<(String, Vec<SqlValue>)>,
    r: Retirement,
    stamp: Seq<char>,
    lineages: Lineages,
) -> bool {
    match lineage::shape_for(lineages.rows@, r.lineage()) {
        Some(shape) => {
            let ancestry = seen_from(lineages, r.lineage(), shape);
            s matches Ok(st) && st.0@ == resolved::retire_text(shape, ancestry.len()) && sql::values(st.1@)
                == rows::retire_row(r, stamp, shape, ancestry)
        },
        None => s matches Err(e) && (e matches DbError::UnknownBranch(n) && n@ == r.lineage()),
    }
}

/// The statement that ends the validity of an edge, and what it binds.
pub fn retire_statement(r: &Retirement, stamp: &str, lineages: &Lineages) -> (s: Result<(String, Vec<SqlValue>)>)
    requires
        lineages.rows@.len() < i64::MAX,
        resolved::RETIRE_ANCESTRY_SLOT + 3 * (lineages.rows@.len() + 1) <= usize::MAX,
    ensures
        retires(s, *r, stamp@, *lineages),
{
    proof {
        lineage::law_ancestry_climbs_from_the_reader(lineages.rows@, r.lineage());
    }
    let name = match &r.branch {
        Some(b) => b.as_str(),
        None => schema::MAIN_BRANCH,
    };
    match lineages.resolve_for(Some(name)) {
        Ok((shape, ancestry)) => {
            proof {
                assert(ancestry@.len() == lineage::ancestors_view(ancestry@).len());
            }
            Ok(
                (
                    retire_from_resolved(shape, ancestry.as_slice()),
                    r.params(stamp, shape, ancestry.as_slice()),
                ),
            )
        },
        Err(e) => Err(e),
    }
}

/// What the writer does for work that a caller waits for.
#[derive(Debug)]
pub enum HighPriWork {
    Assert(AssertRun),
    /// One statement, which settles the retirement by the rows it wrote.
    Retire { retirement: Retirement, statement: Result<(String, Vec<SqlValue>)> },
    Upsert(ConceptRun),
    Batch(EdgeBatch),
    Rebuild(RebuildRun),
    Register { model: ModelName, dim: usize },
    Checkpoint,
    Stop,
}

/// Whether `work` is what a command comes to.
pub open spec fn is_work(
    cmd: HighPriCommand,
    stamp: Seq<char>,
    lineages: Lineages,
    work: HighPriWork,
) -> bool {
    match cmd {
        HighPriCommand::AssertEdge { edge } => work matches HighPriWork::Assert(run) && run.wf()
            && assert_started(run, edge, stamp, lineages),
        HighPriCommand::RetireEdge { retirement } => work matches HighPriWork::Retire {
            retirement: r,
            statement,
        } && r == retirement && retires(statement, retirement, stamp, lineages),
        HighPriCommand::UpsertConcept { concept } => work matches HighPriWork::Upsert(run) && run.wf()
            && concepts::concept_started(run, concept, stamp, lineages),
        HighPriCommand::WriteBulkAtomic { edges } => work matches HighPriWork::Batch(b) && b.wf()
            && batch::batch_started(b, edges, stamp, lineages),
        HighPriCommand::RebuildCurrent => work matches HighPriWork::Rebuild(run) && run.wf() && run.verify
            == Verify::Yes && run.phase == RebuildPhase::Begin,
        HighPriCommand::RegisterModel { model, dim } => work matches HighPriWork::Register {
            model: m,
            dim: d,
        } && m == model && d == dim,
        HighPriCommand::Checkpoint => work is Checkpoint,
        HighPriCommand::Shutdown => work is Stop,
    }
}

impl HighPriCommand {
    /// What the writer does for the command, taken at `stamp` in a ledger of
    /// these lineages.
    pub fn execute(self, stamp: &str, lineages: Lineages) -> (work: HighPriWork)
        requires
            lineages.rows@.len() < i64::MAX,
            resolved::RETIRE_ANCESTRY_SLOT + 3 * (lineages.rows@.len() + 1) <= usize::MAX,
        ensures
            is_work(self, stamp@, lineages, work),
    {
        match self {
            HighPriCommand::AssertEdge { edge } => HighPriWork::Assert(AssertRun::new(edge, stamp, &lineages)),
            HighPriCommand::RetireEdge { retirement } => {
                let statement = retire_statement(&retirement, stamp, &lineages);
                HighPriWork::Retire { retirement, statement }
            },
            HighPriCommand::UpsertConcept { concept } => HighPriWork::Upsert(
                ConceptRun::new(concept, stamp, &lineages),
            ),
            HighPriCommand::WriteBulkAtomic { edges } => HighPriWork::Batch(
                EdgeBatch::new(edges, stamp, lineages),
            ),
            HighPriCommand::RebuildCurrent => HighPriWork::Rebuild(RebuildRun::new(Verify::Yes)),
            HighPriCommand::RegisterModel { model, dim } => HighPriWork::Register { model, dim },
            HighPriCommand::Checkpoint => HighPriWork::Checkpoint,
            HighPriCommand::Shutdown => HighPriWork::Stop,
        }
    }
}

/// What the writer does for work that goes when nobody waits.
#[derive(Debug)]
#[allow(inconsistent_fields)]
pub enum LowPriWork {
    Edges(EdgeBatch),
    Concepts(ConceptBatch),
    Annotations(AnnotationBatch),
    Embeddings { model: ModelName, chunk: Vec<(String, Vec<u32>)> },
    Archive { cutoff: String },
    Rehydrate { ids: Vec<String> },
    /// The shadow is dropped and declared anew by these statements; the last
    /// stamp then says what it is caught up from, in this epoch.
    ShadowBegin { drop: String, declare: String, epoch: u64 },
    /// The bound of the chunk is read by this statement; the chunk then goes in.
    ShadowFill { after: Option<String>, bound: Statement },
    ShadowSwap(SwapPlan),
    /// One statement, and whether it answers with rows.
    Statement { sql: String, answers: bool },
}

/// Whether `work` is what a command comes to, taken at `stamp` in a ledger of
/// these lineages and declarations, in the epoch `now`.
pub open spec fn is_low_work(
    cmd: LowPriCommand,
    stamp: Seq<char>,
    lineages: Lineages,
    now: u64,
    ddl: Declarations<'_>,
    work: LowPriWork,
) -> bool {
    match cmd {
        LowPriCommand::BulkImportChunk { chunk } => work matches LowPriWork::Edges(b) && b.wf()
            && batch::batch_started(b, chunk, stamp, lineages),
        LowPriCommand::WriteConceptsChunk { chunk } => work matches LowPriWork::Concepts(b) && b.wf()
            && concepts::concepts_started(b, chunk, stamp, lineages),
        LowPriCommand::WriteAnalyticsChunk { chunk } => work matches LowPriWork::Annotations(b) && b.wf()
            && concepts::annotations_started(b, chunk, stamp),
        LowPriCommand::UpsertEmbeddingChunk { model, chunk } => work == (LowPriWork::Embeddings {
            model,
            chunk,
        }),
        LowPriCommand::Archive { cutoff } => work == (LowPriWork::Archive { cutoff }),
        LowPriCommand::Rehydrate { ids } => work == (LowPriWork::Rehydrate { ids }),
        LowPriCommand::ShadowRebuild { step } => match step {
            ShadowStep::Begin => work matches LowPriWork::ShadowBegin { drop, declare, epoch } && drop@
                == shadow::drop_shadow_text() && shadow::declares_shadow(ddl.links_current@, declare@)
                && epoch == now,
            ShadowStep::Fill { after } => work matches LowPriWork::ShadowFill { after: a, bound } && a == after
                && bound@.sql == shadow::chunk_end_text() && bound@.row == seq![
                SqlView::Text(shadow::low_of(text::opt_view(after))),
            ],
            ShadowStep::Swap { build_start, epoch } => work matches LowPriWork::ShadowSwap(p) && shadow::is_swap(
                p,
                build_start@,
                epoch,
                now,
                ddl.indices@,
                ddl.triggers@,
            ),
        },
        LowPriCommand::RebuildFts => work matches LowPriWork::Statement { sql, answers } && sql@
            == ddl.rebuild_fts@ && !answers,
        LowPriCommand::Analyze { incremental } => work matches LowPriWork::Statement { sql, answers } && sql@ == (
        if incremental {
            ddl.optimize@
        } else {
            ddl.analyze@
        }) && answers,
    }
}

impl LowPriCommand {
    /// What the writer does for the command, taken at `stamp` in a ledger of
    /// these lineages and declarations, in the epoch `now`.
    pub fn execute(self, stamp: &str, lineages: Lineages, now: u64, ddl: &Declarations<'_>) -> (work: LowPriWork)
        requires
            lineages.rows@.len() < i64::MAX,
            resolved::GUARD_ANCESTRY_SLOT + 3 * (lineages.rows@.len() + 1) <= usize::MAX,
            self matches LowPriCommand::ShadowRebuild { step } ==> (step matches ShadowStep::Swap {
                epoch,
                ..
            } ==> epoch <= now),
        ensures
            is_low_work(self, stamp@, lineages, now, *ddl, work),
    {
        match self {
            LowPriCommand::BulkImportChunk { chunk } => LowPriWork::Edges(
                EdgeBatch::new(chunk, stamp, lineages),
            ),
            LowPriCommand::WriteConceptsChunk { chunk } => LowPriWork::Concepts(
                ConceptBatch::new(chunk, stamp, &lineages),
            ),
            LowPriCommand::WriteAnalyticsChunk { chunk } => LowPriWork::Annotations(
                AnnotationBatch::new(chunk, stamp),
            ),
            LowPriCommand::UpsertEmbeddingChunk { model, chunk } => LowPriWork::Embeddings { model, chunk },
            LowPriCommand::Archive { cutoff } => LowPriWork::Archive { cutoff },
            LowPriCommand::Rehydrate { ids } => LowPriWork::Rehydrate { ids },
            LowPriCommand::ShadowRebuild { step } => match step {
                ShadowStep::Begin => LowPriWork::ShadowBegin {
                    drop: drop_shadow(),
                    declare: shadow_ddl(ddl.links_current),
                    epoch: now,
                },
                ShadowStep::Fill { after } => {
                    let bound = fill_bound(opt_str(&after));
                    LowPriWork::ShadowFill { after, bound }
                },
                ShadowStep::Swap { build_start, epoch } => LowPriWork::ShadowSwap(
                    swap(build_start.as_str(), epoch, now, ddl.indices, ddl.triggers),
                ),
            },
            LowPriCommand::RebuildFts => LowPriWork::Statement {
                sql: ddl.rebuild_fts.to_owned(),
                answers: false,
            },
            LowPriCommand::Analyze { incremental } => LowPriWork::Statement {
                sql: statistics_sql(incremental, ddl.optimize, ddl.analyze).to_owned(),
                answers: true,
            },
        }
    }
}

} // verus!
