//! Names the stored schema fixes.

use vstd::prelude::*;

verus! {

/// The lineage every database starts with.
pub const MAIN_BRANCH: &'static str = "main";

/// The end of a validity that has not ended.
pub const OPEN_SENTINEL: &'static str = "9999-12-31T23:59:59.999999Z";

/// What the schema's guards say when they abort a statement.
///
/// Each is spliced into a trigger, and is how the abort is told from any other
/// constraint failure.
#[derive(Debug)]
pub struct GuardMessages {
    /// A second open interval for one relationship.
    pub single_open: String,
    /// A concept whose `recorded_at` would go back.
    pub monotonic_recorded_at: String,
    /// A physical delete outside an archive session.
    pub delete_guard: String,
}

/// The declarations of the schema that statements are taken from.
#[derive(Debug, Clone, Copy)]
pub struct Declarations<'a> {
    /// Declares current belief.
    pub links_current: &'a str,
    /// Declare the indices.
    pub indices: &'a [&'a str],
    /// Declare the triggers.
    pub triggers: &'a [&'a str],
    /// Derives the text index anew.
    pub rebuild_fts: &'a str,
    /// Refreshes the engine's statistics throughout.
    pub analyze: &'a str,
    /// Refreshes them where it seems worth it.
    pub optimize: &'a str,
}

} // verus!
