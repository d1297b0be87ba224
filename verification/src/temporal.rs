//! Validity intervals and the instants of a read.

use vstd::prelude::*;

use crate::schema;
use crate::schema::OPEN_SENTINEL;
use crate::text;
use crate::text::{same, text_order, Order};

verus! {

/// The validity from `valid_from` up to, and not including, `valid_to`.
#[derive(Debug)]
pub struct Interval {
    pub valid_from: String,
    pub valid_to: String,
}

/// The two instants of a read: what holds, and what was believed.
#[derive(Debug)]
pub struct AsOf {
    pub valid: Option<String>,
    pub recorded: Option<String>,
}

/// Whether a validity that ends at `to` has not ended.
pub open spec fn is_open_end(to: Seq<char>) -> bool {
    to == schema::OPEN_SENTINEL@
}

/// Whether two half-open validities share an instant: the later start comes
/// before the earlier end.
pub open spec fn share_an_instant(
    from1: Seq<char>,
    to1: Seq<char>,
    from2: Seq<char>,
    to2: Seq<char>,
) -> bool {
    let start = if text::text_lt(from1, from2) {
        from2
    } else {
        from1
    };
    let end = if text::text_lt(to1, to2) {
        to1
    } else {
        to2
    };
    text::text_lt(start, end)
}

/// Overlapping does not depend on which interval comes first.
pub proof fn law_overlap_is_symmetric(from1: Seq<char>, to1: Seq<char>, from2: Seq<char>, to2: Seq<char>)
    ensures
        share_an_instant(from1, to1, from2, to2) == share_an_instant(from2, to2, from1, to1),
{
    text::lemma_text_lt_total(from1, from2);
    text::lemma_text_lt_total(to1, to2);
    text::lemma_text_lt_asymmetric(from1, from2);
    text::lemma_text_lt_asymmetric(to1, to2);
}

/// Whether a validity holds at an instant: it has begun by then, and has not ended.
pub open spec fn holds_at(from: Seq<char>, to: Seq<char>, t: Seq<char>) -> bool {
    !text::text_lt(t, from) && text::text_lt(t, to)
}

/// Two validities overlap exactly where there is an instant at which both hold.
pub proof fn law_overlapping_is_holding_together(from1: Seq<char>, to1: Seq<char>, from2: Seq<char>, to2: Seq<char>)
    ensures
        share_an_instant(from1, to1, from2, to2) <==> exists|t: Seq<char>| #[trigger]
            holds_at(from1, to1, t) && #[trigger] holds_at(from2, to2, t),
{
    text::lemma_text_lt_total(from1, from2);
    text::lemma_text_lt_total(to1, to2);
    if share_an_instant(from1, to1, from2, to2) {
        let start = if text::text_lt(from1, from2) {
            from2
        } else {
            from1
        };
        lemma_irreflexive(start);
        if text::text_lt(from1, from2) {
            text::lemma_text_lt_asymmetric(from1, from2);
        }
        if text::text_lt(to1, to2) {
            text::lemma_text_lt_transitive(start, to1, to2);
        } else if text::text_lt(to2, to1) {
            text::lemma_text_lt_transitive(start, to2, to1);
        }
        assert(holds_at(from1, to1, start) && holds_at(from2, to2, start));
    }
    if exists|t: Seq<char>| #[trigger] holds_at(from1, to1, t) && #[trigger] holds_at(from2, to2, t) {
        let t = choose|t: Seq<char>| #[trigger] holds_at(from1, to1, t) && #[trigger] holds_at(from2, to2, t);
        lemma_begun_before_the_end(from1, to1, t);
        lemma_begun_before_the_end(from1, to2, t);
        lemma_begun_before_the_end(from2, to1, t);
        lemma_begun_before_the_end(from2, to2, t);
    }
}

/// Nothing comes before itself.
proof fn lemma_irreflexive(t: Seq<char>)
    ensures
        !text::text_lt(t, t),
{
    if text::text_lt(t, t) {
        text::lemma_text_lt_asymmetric(t, t);
    }
}

/// What has begun by an instant begins before what ends after it.
proof fn lemma_begun_before_the_end(from: Seq<char>, to: Seq<char>, t: Seq<char>)
    requires
        holds_at(from, to, t),
    ensures
        text::text_lt(from, to),
{
    text::lemma_text_lt_total(from, t);
    if text::text_lt(from, t) {
        text::lemma_text_lt_transitive(from, t, to);
    }
}

impl Interval {
    /// The interval between two instants.
    pub fn new(valid_from: String, valid_to: String) -> (i: Interval)
        ensures
            i.valid_from@ == valid_from@,
            i.valid_to@ == valid_to@,
    {
        Interval { valid_from, valid_to }
    }

    /// Whether the validity has not ended.
    pub fn is_open(&self) -> (yes: bool)
        ensures
            yes == is_open_end(self.valid_to@),
    {
        same(self.valid_to.as_str(), OPEN_SENTINEL)
    }

    /// Whether the two validities share an instant.
    pub fn overlaps(&self, other: &Interval) -> (yes: bool)
        ensures
            yes == share_an_instant(self.valid_from@, self.valid_to@, other.valid_from@, other.valid_to@),
    {
        let start = if text_order(self.valid_from.as_str(), other.valid_from.as_str()) == Order::Less {
            other.valid_from.as_str()
        } else {
            self.valid_from.as_str()
        };
        let end = if text_order(self.valid_to.as_str(), other.valid_to.as_str()) == Order::Less {
            self.valid_to.as_str()
        } else {
            other.valid_to.as_str()
        };
        text_order(start, end) == Order::Less
    }
}

} // verus!
