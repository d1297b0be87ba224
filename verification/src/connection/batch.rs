//! Writes that land whole or not at all, step by step.
//!
//! A batch says what is to be done next; whoever holds the connection does it
//! and hands back what came of it.

use vstd::prelude::*;

use crate::connection::guard;
use crate::connection::guard::{check_prepared, reject_overlaps_within};
use crate::connection::rows;
use crate::connection::rows::{edge_params, guard_params, Annotation, ConceptUpsert, INSERT_LINK};
use crate::error;
use crate::error::{classify, DbError, EngineError, Result, WriteOp};
use crate::graph::edge::EdgeAssertion;
use crate::graph::lineage;
use crate::graph::lineage::{Ancestor, LineageShape, Lineages};
use crate::graph::resolved;
use crate::graph::resolved::overlap_candidates_resolved;
use crate::schema::GuardMessages;
use crate::sql;
use crate::sql::SqlValue;
use crate::temporal::Interval;

verus! {

/// Where a batch stands.
#[derive(Debug, Clone, Copy, PartialEq, Eq, Structural)]
pub enum Phase {
    /// The transaction is to begin.
    Begin,
    /// The row of this index is to be held against what is stored.
    Guard(usize),
    /// The row of this index is to be written.
    Write(usize),
    /// The transaction is to be committed.
    Commit,
    /// The transaction is to be rolled back.
    RollBack,
    /// Nothing is left to do.
    Done,
}

/// When the rows of a batch are held against what is stored.
#[derive(Debug, Clone, Copy, PartialEq, Eq, Structural)]
pub enum Guarding {
    /// Not at all.
    Never,
    /// All of them before the first is written.
    First,
    /// Each right before it is written.
    Each,
}

/// What comes once row `i` of `n` has been written.
pub open spec fn after_write(guarding: Guarding, n: usize, i: usize) -> Phase {
    if i + 1 >= n {
        Phase::Commit
    } else if guarding == Guarding::Each {
        Phase::Guard((i + 1) as usize)
    } else {
        Phase::Write((i + 1) as usize)
    }
}

/// What comes once row `i` of `n` has passed its guard.
pub open spec fn after_guard(guarding: Guarding, n: usize, i: usize) -> Phase {
    if guarding == Guarding::Each {
        Phase::Write(i)
    } else if i + 1 < n {
        Phase::Guard((i + 1) as usize)
    } else {
        Phase::Write(0)
    }
}

/// The phase after one in which `ok` says whether what was asked for succeeded,
/// in a batch of `n` rows.
pub open spec fn next_phase(guarding: Guarding, n: usize, at: Phase, ok: bool) -> Phase {
    match at {
        Phase::Begin => if !ok {
            Phase::Done
        } else if guarding == Guarding::Never {
            Phase::Write(0)
        } else {
            Phase::Guard(0)
        },
        Phase::Guard(i) => if !ok {
            Phase::RollBack
        } else {
            after_guard(guarding, n, i)
        },
        Phase::Write(i) => if !ok {
            Phase::RollBack
        } else {
            after_write(guarding, n, i)
        },
        Phase::Commit => Phase::Done,
        Phase::RollBack => Phase::Done,
        Phase::Done => Phase::Done,
    }
}

/// Whether a phase lies inside a batch of `n` rows.
pub open spec fn phase_in(n: nat, at: Phase) -> bool {
    match at {
        Phase::Guard(i) => i < n,
        Phase::Write(i) => i < n,
        _ => true,
    }
}

fn advance(guarding: Guarding, n: usize, at: Phase, ok: bool) -> (next: Phase)
    requires
        0 < n,
        phase_in(n as nat, at),
    ensures
        next == next_phase(guarding, n, at, ok),
        phase_in(n as nat, next),
{
    match at {
        Phase::Begin => if !ok {
            Phase::Done
        } else if guarding == Guarding::Never {
            Phase::Write(0)
        } else {
            Phase::Guard(0)
        },
        Phase::Guard(i) => if !ok {
            Phase::RollBack
        } else if guarding == Guarding::Each {
            Phase::Write(i)
        } else if i + 1 < n {
            Phase::Guard(i + 1)
        } else {
            Phase::Write(0)
        },
        Phase::Write(i) => if !ok {
            Phase::RollBack
        } else if i + 1 >= n {
            Phase::Commit
        } else if guarding == Guarding::Each {
            Phase::Guard(i + 1)
        } else {
            Phase::Write(i + 1)
        },
        Phase::Commit => Phase::Done,
        Phase::RollBack => Phase::Done,
        Phase::Done => Phase::Done,
    }
}

/// The phase after everything in `oks` came of what was asked for, one by one.
pub open spec fn phase_after(guarding: Guarding, n: usize, oks: Seq<bool>) -> Phase
    decreases oks.len(),
{
    if oks.len() == 0 {
        Phase::Begin
    } else {
        next_phase(guarding, n, phase_after(guarding, n, oks.drop_last()), oks.last())
    }
}

/// How many steps must succeed before the commit: the begin, each guard, each
/// write.
pub open spec fn steps_to_commit(guarding: Guarding, n: usize) -> int {
    1 + (if guarding == Guarding::Never {
        0
    } else {
        n as int
    }) + n
}

/// The phase after `k` successes in a row.
pub open spec fn phase_at(guarding: Guarding, n: usize, k: int) -> Phase {
    let guards = if guarding == Guarding::First {
        n as int
    } else {
        0
    };
    if k <= 0 {
        Phase::Begin
    } else if k == steps_to_commit(guarding, n) {
        Phase::Commit
    } else if k > steps_to_commit(guarding, n) {
        Phase::Done
    } else if guarding == Guarding::Each {
        if (k - 1) % 2 == 0 {
            Phase::Guard(((k - 1) / 2) as usize)
        } else {
            Phase::Write(((k - 1) / 2) as usize)
        }
    } else if k - 1 < guards {
        Phase::Guard((k - 1) as usize)
    } else {
        Phase::Write((k - 1 - guards) as usize)
    }
}

proof fn lemma_phase_at(guarding: Guarding, n: usize, oks: Seq<bool>)
    requires
        0 < n,
        forall|i: int| 0 <= i < oks.len() ==> #[trigger] oks[i],
    ensures
        phase_after(guarding, n, oks) == phase_at(guarding, n, oks.len() as int),
    decreases oks.len(),
{
    if oks.len() > 0 {
        let rest = oks.drop_last();
        assert forall|i: int| 0 <= i < rest.len() implies #[trigger] rest[i] by {
            assert(oks[i]);
        }
        lemma_phase_at(guarding, n, rest);
        assert(oks[oks.len() - 1]);
    }
}

proof fn lemma_no_way_back(guarding: Guarding, n: usize, oks: Seq<bool>, i: int)
    requires
        0 < n,
        0 <= i < oks.len(),
        !oks[i],
    ensures
        phase_after(guarding, n, oks) == Phase::RollBack || phase_after(guarding, n, oks) == Phase::Done,
    decreases oks.len(),
{
    if i < oks.len() - 1 {
        assert(!oks.drop_last()[i]);
        lemma_no_way_back(guarding, n, oks.drop_last(), i);
    }
}

/// A batch comes to its commit exactly when the begin, every guard and every
/// write have succeeded, in that order and with nothing else in between. So a
/// batch is committed whole or not at all.
pub proof fn law_commit_only_when_whole(guarding: Guarding, n: usize, oks: Seq<bool>)
    requires
        0 < n,
    ensures
        phase_after(guarding, n, oks) == Phase::Commit <==> (oks.len() == steps_to_commit(guarding, n)
            && forall|i: int| 0 <= i < oks.len() ==> #[trigger] oks[i]),
{
    if forall|i: int| 0 <= i < oks.len() ==> #[trigger] oks[i] {
        lemma_phase_at(guarding, n, oks);
    } else {
        let i = choose|i: int| 0 <= i < oks.len() && !#[trigger] oks[i];
        lemma_no_way_back(guarding, n, oks, i);
    }
}

/// Edges that are asserted together.
#[derive(Debug)]
pub struct EdgeBatch {
    pub edges: Vec<EdgeAssertion>,
    pub stamp: String,
    pub lineages: Lineages,
    /// The shape that serves every lineage in the batch.
    pub shape: LineageShape,
    pub phase: Phase,
    pub failure: Option<DbError>,
}

/// The lineages of a batch.
fn branch_names(edges: &Vec<EdgeAssertion>) -> (names: Vec<&str>)
    ensures
        names@.len() == edges@.len(),
        forall|i: int| 0 <= i < names@.len() ==> (#[trigger] names@[i])@ == edges@[i]@.lineage(),
{
    let mut names: Vec<&str> = Vec::new();
    let n: usize = edges.len();
    let mut i: usize = 0;
    while i < n
        invariant
            n == edges@.len(),
            i <= n,
            names@.len() == i,
            forall|j: int| 0 <= j < i ==> (#[trigger] names@[j])@ == edges@[j]@.lineage(),
        decreases n - i,
    {
        names.push(edges[i].branch_name());
        i = i + 1;
    }
    names
}

/// Whether `name` is the lineage of an edge before which every lineage of the
/// batch is a branch, and is none itself.
pub open spec fn unknown_lineage(rows: Seq<lineage::BranchRow>, edges: Seq<EdgeAssertion>, name: Seq<char>) -> bool {
    exists|i: int|
        0 <= i < edges.len() && (#[trigger] edges[i])@.lineage() == name && lineage::row_of(rows, name).is_none()
            && forall|j: int|
            0 <= j < i ==> lineage::row_of(rows, (#[trigger] edges[j])@.lineage()).is_some()
}

/// Whether every lineage of the batch is a branch.
pub open spec fn lineages_known(rows: Seq<lineage::BranchRow>, edges: Seq<EdgeAssertion>) -> bool {
    forall|i: int| 0 <= i < edges.len() ==> lineage::row_of(rows, (#[trigger] edges[i])@.lineage()).is_some()
}

/// The shape that serves every edge of a batch.
pub open spec fn batch_shape(rows: Seq<lineage::BranchRow>, edges: Seq<EdgeAssertion>) -> LineageShape {
    if edges.len() == 0 {
        LineageShape::Trunk
    } else if forall|i: int|
        0 <= i < edges.len() ==> lineage::shape_for(rows, (#[trigger] edges[i])@.lineage())
            == lineage::shape_for(rows, edges[0]@.lineage()) {
        lineage::shape_for(rows, edges[0]@.lineage()).unwrap()
    } else {
        LineageShape::Resolved
    }
}

/// Whether `b` is the batch of `edges` before its first step. An empty one has
/// nothing to do; one in which two edges clash, or which names a lineage that
/// is no branch, has failed already.
pub open spec fn batch_started(
    b: EdgeBatch,
    edges: Vec<EdgeAssertion>,
    stamp: Seq<char>,
    lineages: Lineages,
) -> bool {
    let agrees = guard::batch_agrees(edges@);
    let known = lineages_known(lineages.rows@, edges@);
    &&& b.edges == edges
    &&& b.stamp@ == stamp
    &&& b.lineages == lineages
    &&& b.phase == (if edges@.len() == 0 || !agrees || !known {
        Phase::Done
    } else {
        Phase::Begin
    })
    &&& b.phase == Phase::Begin ==> b.shape == batch_shape(lineages.rows@, edges@)
    &&& b.failure.is_none() == (agrees && known)
    &&& b.failure matches Some(err) ==> (if !agrees {
        guard::batch_clash_reported(err, edges@)
    } else {
        err matches DbError::UnknownBranch(name) && unknown_lineage(lineages.rows@, edges@, name@)
    })
}

impl EdgeBatch {
    /// The batch stands in one of its own rows, and only a batch that failed
    /// or never began has nothing left to do before its commit.
    pub open spec fn wf(&self) -> bool {
        &&& phase_in(self.edges@.len(), self.phase)
        &&& self.phase != Phase::Done ==> 0 < self.edges@.len()
        &&& self.phase == Phase::RollBack ==> self.failure.is_some()
        &&& self.failure.is_some() ==> self.phase == Phase::RollBack || self.phase == Phase::Done
        &&& self.lineages.rows@.len() < i64::MAX
        &&& resolved::GUARD_ANCESTRY_SLOT + 3 * (self.lineages.rows@.len() + 1) <= usize::MAX
    }

    /// What a guard may see of each lineage for the edge of index `i`.
    pub open spec fn sees(&self, i: int) -> Seq<lineage::AncestorView> {
        if self.shape == LineageShape::Resolved {
            lineage::ancestry_of(self.lineages.rows@, self.edges@[i]@.lineage())
        } else {
            Seq::empty()
        }
    }

    /// Everything about a batch but where it stands.
    pub open spec fn same_batch(&self, other: EdgeBatch) -> bool {
        &&& self.edges == other.edges
        &&& self.stamp == other.stamp
        &&& self.lineages == other.lineages
        &&& self.shape == other.shape
    }

    /// The batch of `edges`, stamped `stamp`.
    pub fn new(edges: Vec<EdgeAssertion>, stamp: &str, lineages: Lineages) -> (b: EdgeBatch)
        requires
            lineages.rows@.len() < i64::MAX,
            resolved::GUARD_ANCESTRY_SLOT + 3 * (lineages.rows@.len() + 1) <= usize::MAX,
        ensures
            b.wf(),
            batch_started(b, edges, stamp@, lineages),
    {
        let mut shape = LineageShape::Trunk;
        let mut failure: Option<DbError> = None;
        let mut phase = Phase::Done;
        if edges.len() > 0 {
            match reject_overlaps_within(edges.as_slice()) {
                Err(e) => {
                    failure = Some(e);
                },
                Ok(()) => {
                    let names = branch_names(&edges);
                    proof {
                        let (rs, ns) = (lineages.rows@, names@);
                        assert(forall|i: int|
                            0 <= i < ns.len() ==> (#[trigger] ns[i])@ == edges@[i]@.lineage());
                        if lineage::all_known(rs, ns, ns.len() as int) {
                            assert forall|i: int| 0 <= i < edges@.len() implies lineage::row_of(
                                rs,
                                (#[trigger] edges@[i])@.lineage(),
                            ).is_some() by {
                                assert(ns[i]@ == edges@[i]@.lineage());
                            }
                            if forall|i: int|
                                0 <= i < edges@.len() ==> lineage::shape_for(
                                    rs,
                                    (#[trigger] edges@[i])@.lineage(),
                                ) == lineage::shape_for(rs, edges@[0]@.lineage()) {
                                assert forall|i: int| 0 <= i < ns.len() implies lineage::shape_for(
                                    rs,
                                    (#[trigger] ns[i])@,
                                ) == lineage::shape_for(rs, ns[0]@) by {
                                    assert(edges@[i]@.lineage() == ns[i]@);
                                }
                            } else {
                                let i = choose|i: int|
                                    0 <= i < edges@.len() && lineage::shape_for(
                                        rs,
                                        (#[trigger] edges@[i])@.lineage(),
                                    ) != lineage::shape_for(rs, edges@[0]@.lineage());
                                assert(ns[i]@ == edges@[i]@.lineage());
                            }
                        }
                    }
                    match lineages.shape_of(names.as_slice()) {
                        Ok(s) => {
                            shape = s;
                            phase = Phase::Begin;
                        },
                        Err(e) => {
                            proof {
                                let name = e->UnknownBranch_0@;
                                let (rs, ns) = (lineages.rows@, names@);
                                let i = choose|i: int|
                                    0 <= i < ns.len() && lineage::all_known(rs, ns, i) && lineage::row_of(
                                        rs,
                                        name,
                                    ).is_none() && #[trigger] ns[i]@ == name;
                                assert(edges@[i]@.lineage() == name);
                                assert forall|j: int| 0 <= j < i implies lineage::row_of(
                                    rs,
                                    (#[trigger] edges@[j])@.lineage(),
                                ).is_some() by {
                                    assert(ns[j]@ == edges@[j]@.lineage());
                                }
                                assert(unknown_lineage(rs, edges@, name));
                                assert(!lineages_known(rs, edges@));
                            }
                            failure = Some(e);
                        },
                    }
                },
            }
        }
        EdgeBatch { edges, stamp: stamp.to_owned(), lineages, shape, phase, failure }
    }

    fn ancestry(&self, i: usize) -> (list: Vec<Ancestor>)
        requires
            self.wf(),
            i < self.edges@.len(),
        ensures
            lineage::ancestors_view(list@) == self.sees(i as int),
            list@.len() <= self.lineages.rows@.len() + 1,
    {
        let list = if self.shape == LineageShape::Resolved {
            self.lineages.ancestry(self.edges[i].branch_name())
        } else {
            Vec::new()
        };
        proof {
            lineage::law_ancestry_climbs_from_the_reader(
                self.lineages.rows@,
                self.edges@[i as int]@.lineage(),
            );
            if self.shape == LineageShape::Resolved {
                assert(list@.len() == lineage::ancestors_view(list@).len());
            } else {
                assert(lineage::ancestors_view(list@) =~= Seq::empty());
            }
        }
        list
    }

    /// The statement that reads what the edge of index `i` must not overlap,
    /// and what it binds.
    pub fn guard(&self, i: usize) -> (query: (String, Vec<SqlValue>))
        requires
            self.wf(),
            i < self.edges@.len(),
        ensures
            query.0@ == resolved::overlap_text(self.shape, self.sees(i as int).len()),
            sql::values(query.1@) == rows::guard_row(self.edges@[i as int]@, self.shape, self.sees(i as int)),
    {
        let ancestry = self.ancestry(i);
        (
            overlap_candidates_resolved(self.shape, ancestry.as_slice()),
            guard_params(&self.edges[i], self.shape, ancestry.as_slice()),
        )
    }

    /// The statement that writes the edge of index `i`, and what it binds.
    pub fn write(&self, i: usize) -> (statement: (&'static str, Vec<SqlValue>))
        requires
            i < self.edges@.len(),
        ensures
            statement.0@ == INSERT_LINK@,
            sql::values(statement.1@) == rows::edge_row(self.edges@[i as int]@, self.stamp@),
    {
        (INSERT_LINK, edge_params(&self.edges[i], self.stamp.as_str()))
    }

    /// Takes in whether the transaction began.
    pub fn began(&mut self, res: std::result::Result<(), EngineError>)
        requires
            old(self).wf(),
            old(self).phase == Phase::Begin,
        ensures
            final(self).wf(),
            final(self).same_batch(*old(self)),
            final(self).phase == next_phase(Guarding::First, old(self).edges.len(), Phase::Begin, res.is_ok()),
            final(self).failure == (match res {
                Ok(_) => None,
                Err(e) => Some(DbError::Engine(e)),
            }),
    {
        self.phase = advance(Guarding::First, self.edges.len(), self.phase, res.is_ok());
        if let Err(e) = res {
            self.failure = Some(DbError::Engine(e));
        }
    }

    /// Takes in the stored validities of the edge that is being guarded.
    pub fn guarded(&mut self, res: std::result::Result<Vec<Interval>, EngineError>)
        requires
            old(self).wf(),
            old(self).phase is Guard,
        ensures
            final(self).wf(),
            final(self).same_batch(*old(self)),
            ({
                let e = old(self).edges@[old(self).phase->Guard_0 as int]@;
                let clear = res matches Ok(list) && guard::is_clear(e, list@);
                &&& final(self).phase == next_phase(Guarding::First, old(self).edges.len(), old(self).phase, clear)
                &&& final(self).failure.is_none() == clear
                &&& match res {
                    Err(err) => final(self).failure == Some(DbError::Engine(err)),
                    Ok(list) => clear || guard::clash_reported(final(self).failure->0, e, list@),
                }
            }),
    {
        let i: usize = match self.phase {
            Phase::Guard(i) => i,
            _ => 0,
        };
        match res {
            Err(e) => {
                self.failure = Some(DbError::Engine(e));
                self.phase = advance(Guarding::First, self.edges.len(), self.phase, false);
            },
            Ok(list) => match check_prepared(&self.edges[i], list.as_slice()) {
                Ok(()) => {
                    self.phase = advance(Guarding::First, self.edges.len(), self.phase, true);
                },
                Err(e) => {
                    self.failure = Some(e);
                    self.phase = advance(Guarding::First, self.edges.len(), self.phase, false);
                },
            },
        }
    }

    /// Takes in whether the edge that was being written is written.
    pub fn wrote(&mut self, res: std::result::Result<(), EngineError>, guards: &GuardMessages)
        requires
            old(self).wf(),
            old(self).phase is Write,
        ensures
            final(self).wf(),
            final(self).same_batch(*old(self)),
            final(self).phase == next_phase(Guarding::First, old(self).edges.len(), old(self).phase, res.is_ok()),
            final(self).failure.is_some() == res.is_err(),
            res matches Err(err) ==> edge_failed(
                err,
                old(self).edges@[old(self).phase->Write_0 as int],
                *guards,
                final(self).failure->0,
            ),
    {
        let i: usize = match self.phase {
            Phase::Write(i) => i,
            _ => 0,
        };
        self.phase = advance(Guarding::First, self.edges.len(), self.phase, res.is_ok());
        if let Err(e) = res {
            self.failure = Some(edge_failure(e, &self.edges[i], guards));
        }
    }

    /// Takes in whether the transaction was committed.
    pub fn committed(&mut self, res: std::result::Result<(), EngineError>)
        requires
            old(self).wf(),
            old(self).phase == Phase::Commit,
        ensures
            final(self).wf(),
            final(self).same_batch(*old(self)),
            final(self).phase == Phase::Done,
            final(self).failure == (match res {
                Ok(_) => None,
                Err(e) => Some(DbError::Engine(e)),
            }),
    {
        self.phase = Phase::Done;
        if let Err(e) = res {
            self.failure = Some(DbError::Engine(e));
        }
    }

    /// Takes in that the transaction was rolled back.
    pub fn rolled_back(&mut self)
        requires
            old(self).wf(),
            old(self).phase == Phase::RollBack,
        ensures
            final(self).wf(),
            final(self).same_batch(*old(self)),
            final(self).phase == Phase::Done,
            final(self).failure == old(self).failure,
    {
        self.phase = Phase::Done;
    }

    /// How many edges were asserted: all, or none and why.
    pub fn outcome(self) -> (rows: Result<usize>)
        requires
            self.phase == Phase::Done,
        ensures
            rows == (match self.failure {
                Some(e) => Err(e),
                None => Ok(self.edges.len()),
            }),
    {
        match self.failure {
            Some(e) => Err(e),
            None => Ok(self.edges.len()),
        }
    }
}

/// Whether `typed` is what an engine error makes of the edge being written.
pub open spec fn edge_failed(err: EngineError, e: EdgeAssertion, guards: GuardMessages, typed: DbError) -> bool {
    let kind = error::guard_named(err.wording(), guards);
    if kind == error::AbortKind::SingleOpenInterval {
        typed matches DbError::SingleOpenViolation { source_id, target_id, edge_type } && source_id@
            == e.source@ && target_id@ == e.target@ && edge_type@ == e.edge_type@
    } else {
        typed == DbError::Engine(err)
    }
}

/// What an engine error makes of the edge being written.
pub fn edge_failure(err: EngineError, e: &EdgeAssertion, guards: &GuardMessages) -> (typed: DbError)
    ensures
        edge_failed(err, *e, *guards, typed),
{
    classify(
        err,
        WriteOp::Edge {
            source_id: e.source.as_str(),
            target_id: e.target.as_str(),
            edge_type: e.edge_type.as_str(),
        },
        guards,
        None,
    )
}

/// Whether `typed` is what an engine error makes of the concept being written.
pub open spec fn concept_failed(
    err: EngineError,
    c: ConceptUpsert,
    stamp: Seq<char>,
    guards: GuardMessages,
    had: Option<String>,
    typed: DbError,
) -> bool {
    if error::guard_named(err.wording(), guards) == error::AbortKind::RecordedAtRegression {
        typed matches DbError::RecordedAtRegression { got, had: h } && got@ == stamp && h@ == (match had {
            Some(ts) => ts@,
            None => Seq::empty(),
        })
    } else {
        typed == DbError::Engine(err)
    }
}

/// What an engine error makes of the concept being written, which `had` says
/// was stamped before.
pub fn concept_failure(
    err: EngineError,
    c: &ConceptUpsert,
    stamp: &str,
    guards: &GuardMessages,
    had: Option<String>,
) -> (typed: DbError)
    ensures
        concept_failed(err, *c, stamp@, *guards, had, typed),
{
    classify(err, WriteOp::Concept { id: c.id.as_str(), recorded_at: stamp }, guards, had)
}

/// Whether `typed` is what an engine error makes of the annotation being
/// written.
pub open spec fn annotation_failed(err: EngineError, a: Annotation, typed: DbError) -> bool {
    if err matches EngineError::SqliteFailure { code, .. } && code == error::SQLITE_CONSTRAINT_FOREIGNKEY {
        typed matches DbError::NotFound(id) && id@ == a.concept_id@
    } else {
        typed == DbError::Engine(err)
    }
}

/// What an engine error makes of the annotation being written.
pub fn annotation_failure(err: EngineError, a: &Annotation, guards: &GuardMessages) -> (typed: DbError)
    ensures
        annotation_failed(err, *a, typed),
{
    classify(err, WriteOp::Annotation { concept_id: a.concept_id.as_str() }, guards, None)
}

/// Where rows that are written together stand, whatever they are.
#[derive(Debug)]
pub struct RowBatch {
    pub guarding: Guarding,
    pub rows: usize,
    pub phase: Phase,
    pub failure: Option<DbError>,
}

impl RowBatch {
    /// The batch stands in one of its own rows, and a failure is followed by
    /// nothing but the way out.
    pub open spec fn wf(&self) -> bool {
        &&& phase_in(self.rows as nat, self.phase)
        &&& self.guarding == Guarding::Never ==> !(self.phase is Guard)
        &&& self.phase != Phase::Done ==> 0 < self.rows
        &&& self.phase == Phase::RollBack ==> self.failure.is_some()
        &&& self.failure.is_some() ==> self.phase == Phase::RollBack || self.phase == Phase::Done
    }

    /// The batch of `rows` rows. An empty one has nothing to do.
    pub fn new(guarding: Guarding, rows: usize) -> (b: RowBatch)
        ensures
            b.wf(),
            b.guarding == guarding,
            b.rows == rows,
            b.phase == (if rows == 0 {
                Phase::Done
            } else {
                Phase::Begin
            }),
            b.failure.is_none(),
    {
        RowBatch {
            guarding,
            rows,
            phase: if rows == 0 {
                Phase::Done
            } else {
                Phase::Begin
            },
            failure: None,
        }
    }

    /// Takes in what came of the step that the batch stands at: nothing where
    /// it succeeded, the failure where it did not.
    pub fn step(&mut self, failure: Option<DbError>)
        requires
            old(self).wf(),
            old(self).phase == Phase::RollBack ==> failure.is_none(),
            old(self).phase != Phase::Done,
        ensures
            final(self).wf(),
            final(self).rows == old(self).rows,
            final(self).guarding == old(self).guarding,
            final(self).phase == next_phase(old(self).guarding, old(self).rows, old(self).phase, failure.is_none()),
            final(self).failure == (if failure.is_some() {
                failure
            } else {
                old(self).failure
            }),
    {
        self.phase = advance(self.guarding, self.rows, self.phase, failure.is_none());
        if failure.is_some() {
            self.failure = failure;
        }
    }

    /// How many rows were written: all, or none and why.
    pub fn outcome(self) -> (rows: Result<usize>)
        requires
            self.phase == Phase::Done,
        ensures
            rows == (match self.failure {
                Some(e) => Err(e),
                None => Ok(self.rows),
            }),
    {
        match self.failure {
            Some(e) => Err(e),
            None => Ok(self.rows),
        }
    }
}

} // verus!
