//! Concepts and annotations, written step by step.
//!
//! A concept belongs to the lineage that minted it. The lineages that forked
//! from that one inherit it, and none of them may restate it.

use vstd::prelude::*;

use crate::connection::batch;
use crate::connection::batch::{annotation_failure, concept_failure, Guarding, Phase, RowBatch};
use crate::connection::rows;
use crate::connection::rows::{
    annotation_params, concept_params, Annotation, ConceptUpsert, CONCEPT_LINEAGE, UPSERT_ANNOTATION,
    UPSERT_CONCEPT,
};
use crate::error::{DbError, EngineError, Result};
use crate::graph::lineage;
use crate::graph::lineage::{find, Lineages};
use crate::schema::GuardMessages;
use crate::sql;
use crate::sql::{bind, text_value, SqlValue, SqlView};
use crate::text;
use crate::text::same;

verus! {

/// Whether a concept may be written on its lineage, where `held_on` holds one of
/// its id: that is the same lineage, or there is none.
pub open spec fn may_claim(c: rows::ConceptView, held_on: Option<Seq<char>>) -> bool {
    held_on matches Some(name) ==> name == c.lineage()
}

/// Whether `err` refuses to restate a concept that another lineage holds.
pub open spec fn crosses(err: DbError, c: rows::ConceptView, held_on: Option<Seq<char>>) -> bool {
    err matches DbError::CrossLineage { id, held_on: h, claimed } && id@ == c.id && Some(h@) == held_on
        && claimed@ == c.lineage()
}

/// Decides whether a concept may be written, where `held_on` is the lineage that
/// holds one of its id.
pub fn concept_claim(c: &ConceptUpsert, held_on: Option<String>) -> (r: Result<()>)
    ensures
        r.is_ok() == may_claim(c@, text::opt_view(held_on)),
        r matches Err(e) ==> crosses(e, c@, text::opt_view(held_on)),
{
    match held_on {
        None => Ok(()),
        Some(held_on) => if same(held_on.as_str(), c.branch_name()) {
            Ok(())
        } else {
            Err(
                DbError::CrossLineage {
                    id: c.id.clone(),
                    held_on,
                    claimed: c.branch_name().to_owned(),
                },
            )
        },
    }
}

/// What reading the lineage that holds a concept binds.
pub open spec fn holder_row(c: rows::ConceptView) -> Seq<SqlView> {
    seq![SqlView::Text(c.id)]
}

/// The statement that reads the lineage that holds a concept, and what it binds.
pub fn holder_query(c: &ConceptUpsert) -> (query: (&'static str, Vec<SqlValue>))
    ensures
        query.0@ == CONCEPT_LINEAGE@,
        sql::values(query.1@) == holder_row(c@),
{
    let mut row: Vec<SqlValue> = Vec::new();
    bind(&mut row, text_value(c.id.as_str()));
    proof {
        assert(sql::values(row@) =~= holder_row(c@));
    }
    (CONCEPT_LINEAGE, row)
}

/// Whether every lineage that the concepts name is a branch.
pub open spec fn all_known(branches: Seq<lineage::BranchRow>, concepts: Seq<ConceptUpsert>) -> bool {
    forall|i: int|
        0 <= i < concepts.len() ==> lineage::row_of(branches, (#[trigger] concepts[i])@.lineage()).is_some()
}

/// Whether `name` is the first lineage that the concepts name and that is no
/// branch.
pub open spec fn first_unknown(
    branches: Seq<lineage::BranchRow>,
    concepts: Seq<ConceptUpsert>,
    name: Seq<char>,
) -> bool {
    exists|i: int|
        0 <= i < concepts.len() && (#[trigger] concepts[i])@.lineage() == name && lineage::row_of(
            branches,
            name,
        ).is_none() && all_known(branches, concepts.take(i))
}

/// Refuses concepts of which one names a lineage that is no branch.
pub fn check_lineages(concepts: &[ConceptUpsert], lineages: &Lineages) -> (checked: Result<()>)
    ensures
        checked.is_ok() == all_known(lineages.rows@, concepts@),
        checked matches Err(e) ==> (e matches DbError::UnknownBranch(name) && first_unknown(
            lineages.rows@,
            concepts@,
            name@,
        )),
{
    let mut i: usize = 0;
    while i < concepts.len()
        invariant
            i <= concepts@.len(),
            all_known(lineages.rows@, concepts@.take(i as int)),
        decreases concepts@.len() - i,
    {
        let name = concepts[i].branch_name();
        if find(lineages.rows.as_slice(), name).is_none() {
            proof {
                assert(concepts@[i as int]@.lineage() == name@);
                assert(first_unknown(lineages.rows@, concepts@, name@));
            }
            return Err(DbError::UnknownBranch(name.to_owned()));
        }
        proof {
            let more = concepts@.take(i + 1);
            assert forall|j: int| 0 <= j < more.len() implies lineage::row_of(
                lineages.rows@,
                (#[trigger] more[j])@.lineage(),
            ).is_some() by {
                if j < i {
                    assert(more[j] == concepts@.take(i as int)[j]);
                } else {
                    assert(more[j] == concepts@[i as int]);
                }
            }
        }
        i = i + 1;
    }
    proof {
        assert(concepts@.take(i as int) =~= concepts@);
    }
    Ok(())
}

/// Where the writing of one concept stands.
#[derive(Debug, Clone, Copy, PartialEq, Eq, Structural)]
pub enum ConceptPhase {
    /// The lineage that holds it is to be read.
    Hold,
    Write,
    Done,
}

/// The writing of one concept, step by step.
#[derive(Debug)]
pub struct ConceptRun {
    pub concept: ConceptUpsert,
    pub stamp: String,
    pub phase: ConceptPhase,
    pub failure: Option<DbError>,
}

/// Whether `r` is the writing of a concept before its first step. One on a
/// lineage that is no branch has failed already.
pub open spec fn concept_started(
    r: ConceptRun,
    concept: ConceptUpsert,
    stamp: Seq<char>,
    lineages: Lineages,
) -> bool {
    let name = concept@.lineage();
    &&& r.concept == concept
    &&& r.stamp@ == stamp
    &&& if lineage::row_of(lineages.rows@, name).is_some() {
        r.phase == ConceptPhase::Hold && r.failure.is_none()
    } else {
        r.phase == ConceptPhase::Done && (r.failure matches Some(DbError::UnknownBranch(n)) && n@ == name)
    }
}

impl ConceptRun {
    /// Nothing is written of a concept that was refused.
    pub open spec fn wf(&self) -> bool {
        self.failure.is_some() ==> self.phase == ConceptPhase::Done
    }

    /// The writing of `concept`, stamped `stamp`.
    pub fn new(concept: ConceptUpsert, stamp: &str, lineages: &Lineages) -> (r: ConceptRun)
        ensures
            r.wf(),
            concept_started(r, concept, stamp@, *lineages),
    {
        let mut phase = ConceptPhase::Hold;
        let mut failure: Option<DbError> = None;
        if find(lineages.rows.as_slice(), concept.branch_name()).is_none() {
            phase = ConceptPhase::Done;
            failure = Some(DbError::UnknownBranch(concept.branch_name().to_owned()));
        }
        ConceptRun { concept, stamp: stamp.to_owned(), phase, failure }
    }

    /// The statement that reads the lineage that holds the concept, and what it
    /// binds.
    pub fn guard(&self) -> (query: (&'static str, Vec<SqlValue>))
        ensures
            query.0@ == CONCEPT_LINEAGE@,
            sql::values(query.1@) == holder_row(self.concept@),
    {
        holder_query(&self.concept)
    }

    /// The statement that writes the concept, and what it binds.
    pub fn write(&self) -> (statement: (&'static str, Vec<SqlValue>))
        ensures
            statement.0@ == UPSERT_CONCEPT@,
            sql::values(statement.1@) == rows::concept_row(self.concept@, self.stamp@),
    {
        (UPSERT_CONCEPT, concept_params(&self.concept, self.stamp.as_str()))
    }

    /// Takes in the lineage that holds the concept.
    pub fn held(&mut self, res: std::result::Result<Option<String>, EngineError>)
        requires
            old(self).wf(),
            old(self).phase == ConceptPhase::Hold,
        ensures
            final(self).wf(),
            final(self).concept == old(self).concept,
            final(self).stamp == old(self).stamp,
            match res {
                Ok(held_on) => if may_claim(old(self).concept@, text::opt_view(held_on)) {
                    final(self).phase == ConceptPhase::Write && final(self).failure.is_none()
                } else {
                    final(self).phase == ConceptPhase::Done && final(self).failure.is_some() && crosses(
                        final(self).failure->0,
                        old(self).concept@,
                        text::opt_view(held_on),
                    )
                },
                Err(e) => final(self).phase == ConceptPhase::Done && final(self).failure == Some(
                    DbError::Engine(e),
                ),
            },
    {
        let claim = match res {
            Ok(held_on) => concept_claim(&self.concept, held_on),
            Err(e) => Err(DbError::Engine(e)),
        };
        match claim {
            Ok(()) => {
                self.phase = ConceptPhase::Write;
            },
            Err(e) => {
                self.phase = ConceptPhase::Done;
                self.failure = Some(e);
            },
        }
    }

    /// Takes in whether the concept is written; `had` is the stamp that it had
    /// before.
    pub fn wrote(
        &mut self,
        res: std::result::Result<(), EngineError>,
        guards: &GuardMessages,
        had: Option<String>,
    )
        requires
            old(self).wf(),
            old(self).phase == ConceptPhase::Write,
        ensures
            final(self).wf(),
            final(self).concept == old(self).concept,
            final(self).stamp == old(self).stamp,
            final(self).phase == ConceptPhase::Done,
            final(self).failure.is_some() == res.is_err(),
            res matches Err(e) ==> batch::concept_failed(
                e,
                old(self).concept,
                old(self).stamp@,
                *guards,
                had,
                final(self).failure->0,
            ),
    {
        self.phase = ConceptPhase::Done;
        if let Err(e) = res {
            self.failure = Some(concept_failure(e, &self.concept, self.stamp.as_str(), guards, had));
        }
    }

    /// What the writing came to.
    pub fn outcome(self) -> (res: Result<()>)
        requires
            self.phase == ConceptPhase::Done,
        ensures
            res == (match self.failure {
                Some(e) => Err(e),
                None => Ok(()),
            }),
    {
        match self.failure {
            Some(e) => Err(e),
            None => Ok(()),
        }
    }
}

/// Concepts that are written together. Each is held against what is stored
/// right before it is written, so that those before it count too.
#[derive(Debug)]
pub struct ConceptBatch {
    pub concepts: Vec<ConceptUpsert>,
    pub stamp: String,
    pub run: RowBatch,
}

/// Whether `b` is the batch of `concepts` before its first step. An empty one
/// has nothing to do; one that names a lineage that is no branch has failed
/// already.
pub open spec fn concepts_started(
    b: ConceptBatch,
    concepts: Vec<ConceptUpsert>,
    stamp: Seq<char>,
    lineages: Lineages,
) -> bool {
    let known = all_known(lineages.rows@, concepts@);
    &&& b.concepts == concepts
    &&& b.stamp@ == stamp
    &&& b.run.phase == (if concepts@.len() == 0 || !known {
        Phase::Done
    } else {
        Phase::Begin
    })
    &&& b.run.failure.is_none() == known
    &&& b.run.failure matches Some(err) ==> (err matches DbError::UnknownBranch(name) && first_unknown(
        lineages.rows@,
        concepts@,
        name@,
    ))
}

/// What an engine result leaves of a failure.
fn failure_of(res: std::result::Result<(), EngineError>) -> (failure: Option<DbError>)
    ensures
        failure == (match res {
            Ok(_) => None,
            Err(e) => Some(DbError::Engine(e)),
        }),
{
    match res {
        Ok(()) => None,
        Err(e) => Some(DbError::Engine(e)),
    }
}

impl ConceptBatch {
    /// The batch stands in one of its own concepts.
    pub open spec fn wf(&self) -> bool {
        &&& self.run.wf()
        &&& self.run.rows == self.concepts@.len()
        &&& self.run.guarding == Guarding::Each
    }

    /// Everything about a batch but where it stands.
    pub open spec fn same_batch(&self, other: ConceptBatch) -> bool {
        self.concepts == other.concepts && self.stamp == other.stamp
    }

    /// Whether a step with this outcome was taken from `before`.
    pub open spec fn stepped(&self, before: ConceptBatch, ok: bool) -> bool {
        &&& self.same_batch(before)
        &&& self.run.phase == batch::next_phase(
            Guarding::Each,
            before.concepts.len(),
            before.run.phase,
            ok,
        )
        &&& ok ==> self.run.failure == before.run.failure
        &&& !ok ==> self.run.failure.is_some()
    }

    /// The batch of `concepts`, stamped `stamp`.
    pub fn new(concepts: Vec<ConceptUpsert>, stamp: &str, lineages: &Lineages) -> (b: ConceptBatch)
        ensures
            b.wf(),
            concepts_started(b, concepts, stamp@, *lineages),
    {
        let mut run = RowBatch::new(Guarding::Each, concepts.len());
        if let Err(e) = check_lineages(concepts.as_slice(), lineages) {
            run = RowBatch {
                guarding: Guarding::Each,
                rows: concepts.len(),
                phase: Phase::Done,
                failure: Some(e),
            };
        }
        ConceptBatch { concepts, stamp: stamp.to_owned(), run }
    }

    /// The statement that reads the lineage that holds the concept of index `i`,
    /// and what it binds.
    pub fn guard(&self, i: usize) -> (query: (&'static str, Vec<SqlValue>))
        requires
            i < self.concepts@.len(),
        ensures
            query.0@ == CONCEPT_LINEAGE@,
            sql::values(query.1@) == holder_row(self.concepts@[i as int]@),
    {
        holder_query(&self.concepts[i])
    }

    /// The statement that writes the concept of index `i`, and what it binds.
    pub fn write(&self, i: usize) -> (statement: (&'static str, Vec<SqlValue>))
        requires
            i < self.concepts@.len(),
        ensures
            statement.0@ == UPSERT_CONCEPT@,
            sql::values(statement.1@) == rows::concept_row(self.concepts@[i as int]@, self.stamp@),
    {
        (UPSERT_CONCEPT, concept_params(&self.concepts[i], self.stamp.as_str()))
    }

    /// Takes in whether the transaction began.
    pub fn began(&mut self, res: std::result::Result<(), EngineError>)
        requires
            old(self).wf(),
            old(self).run.phase == Phase::Begin,
        ensures
            final(self).wf(),
            final(self).stepped(*old(self), res.is_ok()),
            res matches Err(e) ==> final(self).run.failure == Some(DbError::Engine(e)),
    {
        self.run.step(failure_of(res));
    }

    /// Takes in the lineage that holds the concept that is about to be written.
    pub fn held(&mut self, res: std::result::Result<Option<String>, EngineError>)
        requires
            old(self).wf(),
            old(self).run.phase is Guard,
        ensures
            final(self).wf(),
            ({
                let c = old(self).concepts@[old(self).run.phase->Guard_0 as int]@;
                let ok = res matches Ok(held_on) && may_claim(c, text::opt_view(held_on));
                &&& final(self).stepped(*old(self), ok)
                &&& match res {
                    Ok(held_on) => ok || crosses(final(self).run.failure->0, c, text::opt_view(held_on)),
                    Err(e) => final(self).run.failure == Some(DbError::Engine(e)),
                }
            }),
    {
        let i: usize = match self.run.phase {
            Phase::Guard(i) => i,
            _ => 0,
        };
        let failure = match res {
            Ok(held_on) => match concept_claim(&self.concepts[i], held_on) {
                Ok(()) => None,
                Err(e) => Some(e),
            },
            Err(e) => Some(DbError::Engine(e)),
        };
        self.run.step(failure);
    }

    /// Takes in whether the concept that was being written is written; `had` is
    /// the stamp that it had before.
    pub fn wrote(
        &mut self,
        res: std::result::Result<(), EngineError>,
        guards: &GuardMessages,
        had: Option<String>,
    )
        requires
            old(self).wf(),
            old(self).run.phase is Write,
        ensures
            final(self).wf(),
            final(self).stepped(*old(self), res.is_ok()),
            res matches Err(e) ==> batch::concept_failed(
                e,
                old(self).concepts@[old(self).run.phase->Write_0 as int],
                old(self).stamp@,
                *guards,
                had,
                final(self).run.failure->0,
            ),
    {
        let i: usize = match self.run.phase {
            Phase::Write(i) => i,
            _ => 0,
        };
        let failure = match res {
            Ok(()) => None,
            Err(e) => Some(concept_failure(e, &self.concepts[i], self.stamp.as_str(), guards, had)),
        };
        self.run.step(failure);
    }

    /// Takes in whether the transaction was committed.
    pub fn committed(&mut self, res: std::result::Result<(), EngineError>)
        requires
            old(self).wf(),
            old(self).run.phase == Phase::Commit,
        ensures
            final(self).wf(),
            final(self).stepped(*old(self), res.is_ok()),
            res matches Err(e) ==> final(self).run.failure == Some(DbError::Engine(e)),
    {
        self.run.step(failure_of(res));
    }

    /// Takes in that the transaction was rolled back.
    pub fn rolled_back(&mut self)
        requires
            old(self).wf(),
            old(self).run.phase == Phase::RollBack,
        ensures
            final(self).wf(),
            final(self).stepped(*old(self), true),
    {
        self.run.step(None);
    }

    /// How many concepts were written: all, or none and why.
    pub fn outcome(self) -> (rows: Result<usize>)
        requires
            self.wf(),
            self.run.phase == Phase::Done,
        ensures
            rows == (match self.run.failure {
                Some(e) => Err(e),
                None => Ok(self.concepts.len()),
            }),
    {
        self.run.outcome()
    }
}

/// Annotations that are written together.
#[derive(Debug)]
pub struct AnnotationBatch {
    pub annotations: Vec<Annotation>,
    pub stamp: String,
    pub run: RowBatch,
}

/// Whether `b` is the batch of `annotations` before its first step. An empty
/// one has nothing to do.
pub open spec fn annotations_started(b: AnnotationBatch, annotations: Vec<Annotation>, stamp: Seq<char>) -> bool {
    &&& b.annotations == annotations
    &&& b.stamp@ == stamp
    &&& b.run.phase == (if annotations@.len() == 0 {
        Phase::Done
    } else {
        Phase::Begin
    })
    &&& b.run.failure.is_none()
}

impl AnnotationBatch {
    /// The batch stands in one of its own annotations.
    pub open spec fn wf(&self) -> bool {
        &&& self.run.wf()
        &&& self.run.rows == self.annotations@.len()
        &&& self.run.guarding == Guarding::Never
    }

    /// Everything about a batch but where it stands.
    pub open spec fn same_batch(&self, other: AnnotationBatch) -> bool {
        self.annotations == other.annotations && self.stamp == other.stamp
    }

    /// Whether a step with this outcome was taken from `before`.
    pub open spec fn stepped(&self, before: AnnotationBatch, ok: bool) -> bool {
        &&& self.same_batch(before)
        &&& self.run.phase == batch::next_phase(
            Guarding::Never,
            before.annotations.len(),
            before.run.phase,
            ok,
        )
        &&& ok ==> self.run.failure == before.run.failure
        &&& !ok ==> self.run.failure.is_some()
    }

    /// The batch of `annotations`, stamped `stamp`.
    pub fn new(annotations: Vec<Annotation>, stamp: &str) -> (b: AnnotationBatch)
        ensures
            b.wf(),
            annotations_started(b, annotations, stamp@),
    {
        let run = RowBatch::new(Guarding::Never, annotations.len());
        AnnotationBatch { annotations, stamp: stamp.to_owned(), run }
    }

    /// The statement that writes the annotation of index `i`, and what it binds.
    pub fn write(&self, i: usize) -> (statement: (&'static str, Vec<SqlValue>))
        requires
            i < self.annotations@.len(),
        ensures
            statement.0@ == UPSERT_ANNOTATION@,
            sql::values(statement.1@) == rows::annotation_row(self.annotations@[i as int], self.stamp@),
    {
        (UPSERT_ANNOTATION, annotation_params(&self.annotations[i], self.stamp.as_str()))
    }

    /// Takes in whether the transaction began.
    pub fn began(&mut self, res: std::result::Result<(), EngineError>)
        requires
            old(self).wf(),
            old(self).run.phase == Phase::Begin,
        ensures
            final(self).wf(),
            final(self).stepped(*old(self), res.is_ok()),
            res matches Err(e) ==> final(self).run.failure == Some(DbError::Engine(e)),
    {
        self.run.step(failure_of(res));
    }

    /// Takes in whether the annotation that was being written is written.
    pub fn wrote(&mut self, res: std::result::Result<(), EngineError>, guards: &GuardMessages)
        requires
            old(self).wf(),
            old(self).run.phase is Write,
        ensures
            final(self).wf(),
            final(self).stepped(*old(self), res.is_ok()),
            res matches Err(e) ==> batch::annotation_failed(
                e,
                old(self).annotations@[old(self).run.phase->Write_0 as int],
                final(self).run.failure->0,
            ),
    {
        let i: usize = match self.run.phase {
            Phase::Write(i) => i,
            _ => 0,
        };
        let failure = match res {
            Ok(()) => None,
            Err(e) => Some(annotation_failure(e, &self.annotations[i], guards)),
        };
        self.run.step(failure);
    }

    /// Takes in whether the transaction was committed.
    pub fn committed(&mut self, res: std::result::Result<(), EngineError>)
        requires
            old(self).wf(),
            old(self).run.phase == Phase::Commit,
        ensures
            final(self).wf(),
            final(self).stepped(*old(self), res.is_ok()),
            res matches Err(e) ==> final(self).run.failure == Some(DbError::Engine(e)),
    {
        self.run.step(failure_of(res));
    }

    /// Takes in that the transaction was rolled back.
    pub fn rolled_back(&mut self)
        requires
            old(self).wf(),
            old(self).run.phase == Phase::RollBack,
        ensures
            final(self).wf(),
            final(self).stepped(*old(self), true),
    {
        self.run.step(None);
    }

    /// How many annotations were written: all, or none and why.
    pub fn outcome(self) -> (rows: Result<usize>)
        requires
            self.wf(),
            self.run.phase == Phase::Done,
        ensures
            rows == (match self.run.failure {
                Some(e) => Err(e),
                None => Ok(self.annotations.len()),
            }),
    {
        self.run.outcome()
    }
}

/// What a lineage holds no other may claim, and it may itself: so a concept that
/// is written over binds the lineage that holds it.
pub proof fn law_a_concept_stays_with_its_lineage(c: rows::ConceptView, held_on: Seq<char>)
    ensures
        may_claim(c, Some(held_on)) <==> c.lineage() == held_on,
        may_claim(c, None),
        may_claim(c, Some(held_on)) ==> rows::concept_row(c, Seq::empty())[8] == SqlView::Text(held_on),
{
}

} // verus!
