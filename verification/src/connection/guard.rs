//! The guard against two validities of one edge that overlap.

use vstd::prelude::*;

use crate::error::{DbError, Overlap, Result};
use crate::graph::edge;
use crate::graph::edge::EdgeAssertion;
use crate::temporal;
use crate::temporal::Interval;
use crate::text::same;

verus! {

/// Whether the ledger's own guard on open validities answers for a pair: both
/// are open.
pub open spec fn both_open(to1: Seq<char>, to2: Seq<char>) -> bool {
    temporal::is_open_end(to1) && temporal::is_open_end(to2)
}

/// Whether two validities of one edge are refused here: they share an instant,
/// and not both are open.
pub open spec fn clashes(from1: Seq<char>, to1: Seq<char>, from2: Seq<char>, to2: Seq<char>) -> bool {
    !both_open(to1, to2) && temporal::share_an_instant(from1, to1, from2, to2)
}

/// The two guards divide the overlaps between them: a pair that shares an
/// instant is refused here unless both are open, and then it is the other
/// guard's to refuse.
pub proof fn law_the_guards_divide_the_overlaps(
    from1: Seq<char>,
    to1: Seq<char>,
    from2: Seq<char>,
    to2: Seq<char>,
)
    ensures
        temporal::share_an_instant(from1, to1, from2, to2) ==> (clashes(from1, to1, from2, to2) != both_open(
            to1,
            to2,
        )),
        !temporal::share_an_instant(from1, to1, from2, to2) ==> !clashes(from1, to1, from2, to2),
        clashes(from1, to1, from2, to2) == clashes(from2, to2, from1, to1),
{
    temporal::law_overlap_is_symmetric(from1, to1, from2, to2);
}

/// Whether a pair is left to the ledger's own guard on open validities.
pub fn defer_to_single_open(proposed: &Interval, existing: &Interval) -> (deferred: bool)
    ensures
        deferred == both_open(proposed.valid_to@, existing.valid_to@),
{
    proposed.is_open() && existing.is_open()
}

/// Whether an asserted edge clashes with a stored validity of it.
pub open spec fn clashes_with(e: edge::AssertionView, existing: Interval) -> bool {
    clashes(e.valid_from, e.valid_to, existing.valid_from@, existing.valid_to@)
}

/// Whether `o` reports that `e` overlaps the validity from `from` to `to`.
pub open spec fn reports(
    o: Overlap,
    e: edge::AssertionView,
    from: Seq<char>,
    to: Seq<char>,
    within_batch: bool,
) -> bool {
    &&& o.source_id@ == e.source
    &&& o.target_id@ == e.target
    &&& o.edge_type@ == e.edge_type
    &&& o.valid_from@ == e.valid_from
    &&& o.valid_to@ == e.valid_to
    &&& o.existing_from@ == from
    &&& o.existing_to@ == to
    &&& o.within_batch == within_batch
}

/// Whether `i` is the first stored validity that an edge clashes with.
pub open spec fn first_clash(e: edge::AssertionView, existing: Seq<Interval>, i: int) -> bool {
    &&& 0 <= i < existing.len()
    &&& clashes_with(e, existing[i])
    &&& forall|j: int| 0 <= j < i ==> !clashes_with(e, #[trigger] existing[j])
}

/// Whether `err` reports the first stored validity that an edge clashes with.
pub open spec fn clash_reported(err: DbError, e: edge::AssertionView, existing: Seq<Interval>) -> bool {
    err matches DbError::OverlappingInterval { overlap } && exists|i: int|
        first_clash(e, existing, i) && reports(
            *overlap,
            e,
            (#[trigger] existing[i]).valid_from@,
            existing[i].valid_to@,
            false,
        )
}

/// Whether an edge clashes with none of the stored validities of it.
pub open spec fn is_clear(e: edge::AssertionView, existing: Seq<Interval>) -> bool {
    forall|i: int| 0 <= i < existing.len() ==> !clashes_with(e, #[trigger] existing[i])
}

fn overlap_error(e: &EdgeAssertion, from: &str, to: &str, within_batch: bool) -> (err: DbError)
    ensures
        err matches DbError::OverlappingInterval { overlap } && reports(
            *overlap,
            e@,
            from@,
            to@,
            within_batch,
        ),
{
    DbError::OverlappingInterval {
        overlap: Box::new(
            Overlap {
                source_id: e.source.clone(),
                target_id: e.target.clone(),
                edge_type: e.edge_type.clone(),
                valid_from: e.valid_from.clone(),
                valid_to: e.valid_to.clone(),
                existing_from: from.to_owned(),
                existing_to: to.to_owned(),
                within_batch,
            },
        ),
    }
}

/// An edge that is let in holds together with none of the stored validities of it,
/// unless neither has ended. One that is refused does, at some instant.
pub proof fn law_what_is_let_in_holds_alone(e: edge::AssertionView, existing: Seq<Interval>)
    ensures
        is_clear(e, existing) <==> forall|i: int, t: Seq<char>|
            0 <= i < existing.len() && temporal::holds_at(e.valid_from, e.valid_to, t) && #[trigger]
            temporal::holds_at(existing[i].valid_from@, existing[i].valid_to@, t) ==> temporal::is_open_end(
                e.valid_to,
            ) && temporal::is_open_end(existing[i].valid_to@),
{
    assert forall|i: int| 0 <= i < existing.len() implies (clashes_with(e, #[trigger] existing[i]) <==> exists|t: Seq<
        char,
    >|
        temporal::holds_at(e.valid_from, e.valid_to, t) && (#[trigger] temporal::holds_at(
            existing[i].valid_from@,
            existing[i].valid_to@,
            t,
        )) && !(temporal::is_open_end(e.valid_to) && temporal::is_open_end(existing[i].valid_to@))) by {
        temporal::law_overlapping_is_holding_together(
            e.valid_from,
            e.valid_to,
            existing[i].valid_from@,
            existing[i].valid_to@,
        );
    }
    if is_clear(e, existing) {
        assert forall|i: int, t: Seq<char>|
            0 <= i < existing.len() && temporal::holds_at(e.valid_from, e.valid_to, t) && #[trigger]
            temporal::holds_at(existing[i].valid_from@, existing[i].valid_to@, t) implies temporal::is_open_end(
            e.valid_to,
        ) && temporal::is_open_end(existing[i].valid_to@) by {
            assert(!clashes_with(e, existing[i]));
        }
    }
}

/// Refuses an edge that clashes with one of the stored validities of it, and
/// reports the first.
pub fn check_prepared(e: &EdgeAssertion, existing: &[Interval]) -> (checked: Result<()>)
    ensures
        checked.is_ok() == is_clear(e@, existing@),
        checked matches Err(err) ==> clash_reported(err, e@, existing@),
{
    let proposed = Interval::new(e.valid_from.clone(), e.valid_to.clone());
    let n: usize = existing.len();
    let mut i: usize = 0;
    while i < n
        invariant
            n == existing@.len(),
            i <= n,
            proposed.valid_from@ == e@.valid_from,
            proposed.valid_to@ == e@.valid_to,
            forall|j: int| 0 <= j < i ==> !clashes_with(e@, #[trigger] existing@[j]),
        decreases n - i,
    {
        let stored = &existing[i];
        if !defer_to_single_open(&proposed, stored) && proposed.overlaps(stored) {
            proof {
                assert(first_clash(e@, existing@, i as int));
            }
            return Err(
                overlap_error(e, stored.valid_from.as_str(), stored.valid_to.as_str(), false),
            );
        }
        i = i + 1;
    }
    Ok(())
}

/// Whether two edges of one batch are refused together: they are the same edge
/// of the same lineage, start at different instants, and clash.
pub open spec fn batch_clash(a: edge::AssertionView, b: edge::AssertionView) -> bool {
    &&& a.source == b.source
    &&& a.target == b.target
    &&& a.edge_type == b.edge_type
    &&& a.lineage() == b.lineage()
    &&& a.valid_from != b.valid_from
    &&& clashes(a.valid_from, a.valid_to, b.valid_from, b.valid_to)
}

/// Whether no two edges of a batch clash.
pub open spec fn batch_agrees(edges: Seq<EdgeAssertion>) -> bool {
    forall|i: int, j: int|
        0 <= i < j < edges.len() ==> !batch_clash((#[trigger] edges[i])@, (#[trigger] edges[j])@)
}

/// Two validities of one edge in a batch that agrees, from different starts, hold
/// together at no instant, unless neither has ended.
pub proof fn law_a_batch_that_agrees_holds_apart(edges: Seq<EdgeAssertion>, i: int, j: int, t: Seq<char>)
    requires
        batch_agrees(edges),
        0 <= i < edges.len(),
        0 <= j < edges.len(),
        edges[i]@.source == edges[j]@.source,
        edges[i]@.target == edges[j]@.target,
        edges[i]@.edge_type == edges[j]@.edge_type,
        edges[i]@.lineage() == edges[j]@.lineage(),
        edges[i]@.valid_from != edges[j]@.valid_from,
        temporal::holds_at(edges[i]@.valid_from, edges[i]@.valid_to, t),
        temporal::holds_at(edges[j]@.valid_from, edges[j]@.valid_to, t),
    ensures
        temporal::is_open_end(edges[i]@.valid_to),
        temporal::is_open_end(edges[j]@.valid_to),
{
    let (a, b) = (edges[i]@, edges[j]@);
    temporal::law_overlapping_is_holding_together(a.valid_from, a.valid_to, b.valid_from, b.valid_to);
    temporal::law_overlap_is_symmetric(a.valid_from, a.valid_to, b.valid_from, b.valid_to);
    if i < j {
        assert(!batch_clash(edges[i]@, edges[j]@));
    } else {
        assert(!batch_clash(edges[j]@, edges[i]@));
    }
}

/// Whether `i` and `j` are the first edges of a batch that clash.
pub open spec fn first_batch_clash(edges: Seq<EdgeAssertion>, i: int, j: int) -> bool {
    &&& 0 <= i < j < edges.len()
    &&& batch_clash(edges[i]@, edges[j]@)
    &&& forall|a: int, b: int|
        0 <= a < b < edges.len() && (a < i || (a == i && b < j)) ==> !batch_clash(
            (#[trigger] edges[a])@,
            (#[trigger] edges[b])@,
        )
}

/// Whether `err` reports the first edges of a batch that clash.
pub open spec fn batch_clash_reported(err: DbError, edges: Seq<EdgeAssertion>) -> bool {
    err matches DbError::OverlappingInterval { overlap } && exists|i: int, j: int|
        first_batch_clash(edges, i, j) && reports(
            *overlap,
            (#[trigger] edges[i])@,
            (#[trigger] edges[j]).valid_from@,
            edges[j].valid_to@,
            true,
        )
}

fn clash_in_batch(a: &EdgeAssertion, b: &EdgeAssertion) -> (yes: bool)
    ensures
        yes == batch_clash(a@, b@),
{
    if !same(a.source.as_str(), b.source.as_str()) || !same(a.target.as_str(), b.target.as_str()) || !same(
        a.edge_type.as_str(),
        b.edge_type.as_str(),
    ) || !same(a.branch_name(), b.branch_name()) {
        return false;
    }
    if same(a.valid_from.as_str(), b.valid_from.as_str()) {
        return false;
    }
    let ia = Interval::new(a.valid_from.clone(), a.valid_to.clone());
    let ib = Interval::new(b.valid_from.clone(), b.valid_to.clone());
    !defer_to_single_open(&ia, &ib) && ia.overlaps(&ib)
}

/// Refuses a batch in which two edges clash, and reports the first pair.
pub fn reject_overlaps_within(edges: &[EdgeAssertion]) -> (checked: Result<()>)
    ensures
        checked.is_ok() == batch_agrees(edges@),
        checked matches Err(err) ==> batch_clash_reported(err, edges@),
{
    let n: usize = edges.len();
    let mut i: usize = 0;
    while i < n
        invariant
            n == edges@.len(),
            i <= n,
            forall|a: int, b: int|
                0 <= a < i && a < b < n ==> !batch_clash((#[trigger] edges@[a])@, (#[trigger] edges@[b])@),
        decreases n - i,
    {
        let mut j: usize = i + 1;
        while j < n
            invariant
                n == edges@.len(),
                i < n,
                i < j <= n,
                forall|a: int, b: int|
                    0 <= a < i && a < b < n ==> !batch_clash(
                        (#[trigger] edges@[a])@,
                        (#[trigger] edges@[b])@,
                    ),
                forall|b: int| i < b < j ==> !batch_clash(edges@[i as int]@, (#[trigger] edges@[b])@),
            decreases n - j,
        {
            if clash_in_batch(&edges[i], &edges[j]) {
                proof {
                    assert(first_batch_clash(edges@, i as int, j as int));
                }
                return Err(
                    overlap_error(
                        &edges[i],
                        edges[j].valid_from.as_str(),
                        edges[j].valid_to.as_str(),
                        true,
                    ),
                );
            }
            j = j + 1;
        }
        i = i + 1;
    }
    Ok(())
}

} // verus!
