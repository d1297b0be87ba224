//! What can go wrong, and how an engine failure becomes a typed error.

use vstd::prelude::*;

use crate::schema::GuardMessages;
use crate::text;
use crate::text::{contains, push_decimal};

verus! {

/// What the database engine reported.
#[derive(Debug)]
pub enum EngineError {
    /// A statement failed, with the engine's extended result code.
    SqliteFailure { code: i32, message: String },
    /// Any other failure, as the engine words it.
    Other { text: String },
}

/// How the engine words a statement failure: libSQL's `Error::SqliteFailure`
/// through its `Display`, which quotes the message in backticks after
/// `SQLite failure: ` and leaves the code out.
#[verifier::external_body]
fn sqlite_failure_text(code: i32, message: &str) -> (text: String)
    ensures
        text@ == "SQLite failure: `"@ + message@ + "`"@,
{
    libsql::Error::SqliteFailure(code, message.to_owned()).to_string()
}

impl EngineError {
    /// The wording of the error.
    pub open spec fn wording(self) -> Seq<char> {
        match self {
            EngineError::SqliteFailure { code, message } => "SQLite failure: `"@ + message@ + "`"@,
            EngineError::Other { text } => text@,
        }
    }

    /// The wording of the error.
    pub fn text(&self) -> (text: String)
        ensures
            text@ == self.wording(),
    {
        match self {
            EngineError::SqliteFailure { code, message } => sqlite_failure_text(*code, message.as_str()),
            EngineError::Other { text } => text.clone(),
        }
    }
}

/// Two validities for one relationship that claim the same instant.
#[derive(Debug, Clone, PartialEq, Eq)]
pub struct Overlap {
    pub source_id: String,
    pub target_id: String,
    pub edge_type: String,
    pub valid_from: String,
    pub valid_to: String,
    pub existing_from: String,
    pub existing_to: String,
    /// Whether the other validity comes from the same batch.
    pub within_batch: bool,
}

impl Overlap {
    /// Where the other validity comes from, in words.
    pub open spec fn blame(self) -> Seq<char> {
        if self.within_batch {
            "this same batch also asserts"@
        } else {
            "is already recorded"@
        }
    }

    /// Where the other validity comes from, in words.
    pub fn provenance(&self) -> (words: &'static str)
        ensures
            words@ == self.blame(),
    {
        if self.within_batch {
            "this same batch also asserts"
        } else {
            "is already recorded"
        }
    }
}

/// The instants a traversal states, at least one of the two.
#[derive(Debug, Clone, PartialEq, Eq)]
pub enum StatedInstants {
    Valid(String),
    Recorded(String),
    Both { valid: String, recorded: String },
}

impl StatedInstants {
    /// The valid-time instant.
    pub open spec fn valid_text(self) -> Option<Seq<char>> {
        match self {
            StatedInstants::Valid(v) => Some(v@),
            StatedInstants::Recorded(_) => None,
            StatedInstants::Both { valid, recorded } => Some(valid@),
        }
    }

    /// The transaction-time instant.
    pub open spec fn recorded_text(self) -> Option<Seq<char>> {
        match self {
            StatedInstants::Valid(_) => None,
            StatedInstants::Recorded(r) => Some(r@),
            StatedInstants::Both { valid, recorded } => Some(recorded@),
        }
    }

    /// The instants as the calls that state them.
    pub open spec fn wording(self) -> Seq<char> {
        match self {
            StatedInstants::Valid(v) => "as_of_valid("@ + v@ + ")"@,
            StatedInstants::Recorded(r) => "as_of_recorded("@ + r@ + ")"@,
            StatedInstants::Both { valid, recorded } => "as_of_valid("@ + valid@
                + ") with as_of_recorded("@ + recorded@ + ")"@,
        }
    }

    /// The instants stated, or `None` where neither is.
    pub fn new(valid: Option<&str>, recorded: Option<&str>) -> (stated: Option<StatedInstants>)
        ensures
            stated.is_some() == (valid.is_some() || recorded.is_some()),
            stated.is_some() ==> {
                let s = stated.unwrap();
                &&& s.valid_text().is_some() == valid.is_some()
                &&& s.recorded_text().is_some() == recorded.is_some()
                &&& valid.is_some() ==> s.valid_text().unwrap() == valid.unwrap()@
                &&& recorded.is_some() ==> s.recorded_text().unwrap() == recorded.unwrap()@
            },
    {
        match (valid, recorded) {
            (Some(v), Some(r)) => Some(
                StatedInstants::Both { valid: v.to_owned(), recorded: r.to_owned() },
            ),
            (Some(v), None) => Some(StatedInstants::Valid(v.to_owned())),
            (None, Some(r)) => Some(StatedInstants::Recorded(r.to_owned())),
            (None, None) => None,
        }
    }

    /// The valid-time instant, if one is stated.
    pub fn valid(&self) -> (s: Option<&str>)
        ensures
            s.is_some() == self.valid_text().is_some(),
            s.is_some() ==> s.unwrap()@ == self.valid_text().unwrap(),
    {
        match self {
            StatedInstants::Valid(v) => Some(v.as_str()),
            StatedInstants::Recorded(_) => None,
            StatedInstants::Both { valid, recorded } => Some(valid.as_str()),
        }
    }

    /// The transaction-time instant, if one is stated.
    pub fn recorded(&self) -> (s: Option<&str>)
        ensures
            s.is_some() == self.recorded_text().is_some(),
            s.is_some() ==> s.unwrap()@ == self.recorded_text().unwrap(),
    {
        match self {
            StatedInstants::Valid(_) => None,
            StatedInstants::Recorded(r) => Some(r.as_str()),
            StatedInstants::Both { valid, recorded } => Some(recorded.as_str()),
        }
    }

    /// The instants as the calls that state them.
    pub fn text(&self) -> (text: String)
        ensures
            text@ == self.wording(),
    {
        match self {
            StatedInstants::Valid(v) => {
                let mut out = "as_of_valid(".to_owned();
                out.append(v.as_str());
                out.append(")");
                out
            },
            StatedInstants::Recorded(r) => {
                let mut out = "as_of_recorded(".to_owned();
                out.append(r.as_str());
                out.append(")");
                out
            },
            StatedInstants::Both { valid, recorded } => {
                let mut out = "as_of_valid(".to_owned();
                out.append(valid.as_str());
                out.append(") with as_of_recorded(");
                out.append(recorded.as_str());
                out.append(")");
                out
            },
        }
    }
}

/// Every way an operation can fail.
#[derive(Debug)]
#[allow(inconsistent_fields)]
pub enum DbError {
    /// The engine failed.
    Engine(EngineError),
    /// A migration did not complete.
    Migration { to: u32, reason: String },
    /// An edge type outside the rule.
    InvalidEdgeType(String),
    /// A second open interval for one relationship.
    SingleOpenViolation { source_id: String, target_id: String, edge_type: String },
    /// Something named was not there.
    NotFound(String),
    /// An embedding of the wrong dimension.
    DimMismatch { got: usize, expected: usize, model: String },
    /// A model name outside the rule.
    InvalidModelName(String),
    /// A model that was never registered.
    ModelNotRegistered { model: String, table: String },
    /// A graph over its byte budget.
    SubgraphTooLarge { n: usize, budget: usize },
    /// A weight shortest paths cannot use, as a bit pattern.
    NegativeEdgeWeight { source_id: String, target_id: String, weight: u64 },
    /// The log could not be replayed.
    ReplayCorrupt { seq: i64, reason: String },
    /// A snapshot of another format.
    SnapshotIncompatible { path: String, reason: String },
    /// A payload of a later version.
    PayloadVersion { got: u8, max: u8 },
    /// A physical delete outside an archive session.
    ArchiveViolation { table: String },
    /// The archive marker was left behind.
    ArchiveSessionLeaked { marker: String },
    /// A dated traversal that did not say which attributes it wants.
    AttributeModeUnstated { instants: StatedInstants },
    /// A diagnostic connection could not be opened.
    DiagnosticConn { path: String, reason: String },
    /// An archive window that cannot be used, in nanoseconds.
    ArchiveWindow { window: u128, reason: String },
    /// An instant the hot log no longer answers for.
    RecordedInstantUnreachable { ts: String },
    /// A timestamp that is not canonical.
    InvalidTimestamp { value: String, reason: String },
    /// An identifier that cannot be encoded.
    InvalidId { id: String, reason: String },
    /// Two validities for one relationship claim the same instant.
    OverlappingInterval { overlap: Box<Overlap> },
    /// Current belief diverges from the ledger.
    CurrentDrift { n: usize },
    /// A rebuild left divergence behind.
    RebuildFailed { n: usize },
    /// A chunked rebuild was abandoned.
    RebuildInterrupted { reason: String },
    /// The write actor is gone.
    WriterUnavailable,
    /// The write actor took a command and did not answer.
    WriterDroppedResponder,
    /// The write actor did not stop cleanly.
    WriterStopped(String),
    /// A concept whose `recorded_at` would go back.
    RecordedAtRegression { got: String, had: String },
    /// A stored stamp too far in the future.
    FutureRecordedAt { stamp: String, limit: String },
    /// A bulk write was cancelled between chunks.
    BulkCancelled,
    /// A branch name outside the rule.
    InvalidBranchId(String),
    /// A branch name that is taken.
    BranchExists(String),
    /// A branch that was never registered.
    UnknownBranch(String),
    /// A fork point before the parent's own.
    ForkPrecedesParent { branch: String, parent: String, forked_at: String, parent_forked_at: String },
    /// A row that names another branch than the view it goes through.
    BranchMismatch { view: String, named: String },
    /// A concept is held on one lineage and was written on another.
    CrossLineage { id: String, held_on: String, claimed: String },
    /// A key outside the store's rule.
    InvalidKvKey(String),
}

/// The result of an operation.
pub type Result<T> = core::result::Result<T, DbError>;

/// A string as Rust source would quote it.
pub uninterp spec fn quoted(s: Seq<char>) -> Seq<char>;

/// std's `Debug` of a string slice: the string in double quotes, with what needs
/// escaping escaped.
#[verifier::external_body]
fn quote(s: &str) -> (text: String)
    ensures
        text@ == quoted(s@),
{
    format!("{:?}", s)
}

/// A duration of `secs` seconds and `nanos` nanoseconds, in words.
pub uninterp spec fn duration_text(secs: u64, nanos: u32) -> Seq<char>;

/// std's `Debug` of a `Duration`.
#[verifier::external_body]
fn duration_words(secs: u64, nanos: u32) -> (text: String)
    requires
        nanos < 1_000_000_000,
    ensures
        text@ == duration_text(secs, nanos),
{
    format!("{:?}", core::time::Duration::new(secs, nanos))
}

/// A duration in nanoseconds, in words; past the longest there is, the longest.
pub open spec fn duration_shown(nanos: u128) -> Seq<char> {
    if nanos / 1_000_000_000 > u64::MAX {
        duration_text(u64::MAX, 999_999_999)
    } else {
        duration_text((nanos / 1_000_000_000) as u64, (nanos % 1_000_000_000) as u32)
    }
}

pub(crate) fn duration_debug(nanos: u128) -> (text: String)
    ensures
        text@ == duration_shown(nanos),
{
    let secs: u128 = nanos / 1_000_000_000;
    if secs > u64::MAX as u128 {
        duration_words(u64::MAX, 999_999_999)
    } else {
        duration_words(secs as u64, (nanos % 1_000_000_000) as u32)
    }
}

/// A signed number in decimal.
pub open spec fn signed(n: int) -> Seq<char> {
    if n < 0 {
        "-"@ + text::decimal((-n) as nat)
    } else {
        text::decimal(n as nat)
    }
}

pub(crate) fn push_signed(out: &mut String, n: i64)
    ensures
        final(out)@ == old(out)@ + signed(n as int),
{
    if n < 0 {
        out.append("-");
        let magnitude: u64 = if n == i64::MIN {
            9_223_372_036_854_775_808
        } else {
            (-n) as u64
        };
        push_decimal(out, magnitude);
        proof {
            assert(out@ =~= old(out)@ + ("-"@ + text::decimal((-n) as nat)));
        }
    } else {
        push_decimal(out, n as u64);
    }
}

impl DbError {
    /// The error in words.
    pub open spec fn wording(self) -> Seq<char> {
        match self {
            DbError::Engine(e) => "engine: "@ + e.wording(),
            DbError::Migration { to, reason } => "migration to v"@ + text::decimal(to as nat) + " failed: "@ + reason@,
            DbError::InvalidEdgeType(t) => "invalid edge type "@ + t@ + " (must be 1 to 64 of [A-Z0-9_:.-] or of [a-z0-9_:.-])"@,
            DbError::SingleOpenViolation { source_id, target_id, edge_type } => source_id@ + " -> "@ + target_id@ + " ("@ + edge_type@ + ") already has an open interval; retire it first"@,
            DbError::NotFound(id) => "node "@ + id@ + " not found"@,
            DbError::DimMismatch { got, expected, model } => "embedding dim "@ + text::decimal(got as nat) + ", expected "@ + text::decimal(expected as nat) + " for model "@ + model@,
            DbError::InvalidModelName(name) => "invalid embedding model name "@ + quoted(name@) + ": expected [a-z][a-z0-9_]* up to 48 characters"@,
            DbError::ModelNotRegistered { model, table } => "embedding model "@ + model@ + " is not registered (no "@ + table@ + " table)"@,
            DbError::SubgraphTooLarge { n, budget } => "subgraph exceeds budget ("@ + text::decimal(n as nat) + " > "@ + text::decimal(budget as nat) + ")"@,
            DbError::NegativeEdgeWeight { .. } => Seq::empty(),
            DbError::ReplayCorrupt { seq, reason } => "replay corrupt at seq "@ + signed(seq as int) + ": "@ + reason@,
            DbError::SnapshotIncompatible { path, reason } => "snapshot "@ + path@ + " is not readable by this build: "@ + reason@,
            DbError::PayloadVersion { got, max } => "payload v"@ + text::decimal(got as nat) + " unsupported (max "@ + text::decimal(max as nat) + ")"@,
            DbError::ArchiveViolation { table } => "physical delete blocked outside archive session ("@ + table@ + ")"@,
            DbError::ArchiveSessionLeaked { marker } => "the archive-session marker table "@ + quoted(marker@) + " is present as committed state. While it exists, the delete guards on concepts, links and transaction_log are disarmed and concept inserts write no transaction_log row. An archive session creates and drops this table inside one transaction, so it should never be visible here — something wrote it outside the write actor. Drop it (DROP TABLE "@ + marker@ + ") and audit for deletions and missing log rows since it appeared"@,
            DbError::AttributeModeUnstated { instants } => "traversal "@ + instants.wording() + " did not state an attribute mode: that topology would be returned with attributes as they are *now*. Call .attribute_mode(AttributeMode::AtTime) for attributes as believed at the stated instant, or .attribute_mode(AttributeMode::Current) to confirm live attributes are intended"@,
            DbError::DiagnosticConn { path, reason } => "cannot open "@ + path@ + " read-only for diagnostics: "@ + reason@,
            DbError::ArchiveWindow { window, reason } => "archive window "@ + duration_shown(window) + " is unusable: "@ + reason@,
            DbError::RecordedInstantUnreachable { ts } => "transaction-time instant "@ + ts@ + " cannot be answered from the hot log: rows have been archived out of it and a traversal has no archive path. Use macrame::temporal::reconstruct(conn, ts, archive_path, snapshots_dir), which does"@,
            DbError::InvalidTimestamp { value, reason } => "timestamp "@ + quoted(value@) + " is not canonical: "@ + reason@,
            DbError::InvalidId { id, reason } => "invalid identifier "@ + quoted(id@) + ": "@ + reason@,
            DbError::OverlappingInterval { overlap } => "edge "@ + overlap.source_id@ + " -> "@ + overlap.target_id@ + " ("@ + overlap.edge_type@ + "): the asserted ["@ + overlap.valid_from@ + ", "@ + overlap.valid_to@ + ") overlaps ["@ + overlap.existing_from@ + ", "@ + overlap.existing_to@ + "), which "@ + overlap.blame(),
            DbError::CurrentDrift { n } => "links_current drift detected: "@ + text::decimal(n as nat) + " intervals diverge"@,
            DbError::RebuildFailed { n } => "rebuild verification failed: "@ + text::decimal(n as nat) + " intervals still diverge"@,
            DbError::RebuildInterrupted { reason } => "chunked rebuild abandoned: "@ + reason@,
            DbError::WriterUnavailable => "write actor is not running (reopen the Database)"@,
            DbError::WriterDroppedResponder => "write actor dropped the response channel mid-request"@,
            DbError::WriterStopped(reason) => "write actor did not shut down cleanly: "@ + reason@,
            DbError::RecordedAtRegression { got, had } => "recorded_at must advance on concept update (got "@ + got@ + ", had "@ + had@ + ")"@,
            DbError::FutureRecordedAt { stamp, limit } => "the newest recorded_at in this database is "@ + stamp@ + ", past the limit "@ + limit@ + ". The clock floor is taken from it, so opening would stamp every later write at or after it — permanently, since the next open reads those rows back. Set the future_stamps policy to allow to open it and inspect it; that inherits the floor rather than repairing it"@,
            DbError::BulkCancelled => "the bulk write was cancelled between chunks"@,
            DbError::InvalidBranchId(name) => "invalid branch name "@ + quoted(name@) + ": expected 1 to 128 bytes, no ASCII control characters, no surrounding white space"@,
            DbError::BranchExists(name) => "branch "@ + name@ + " already exists"@,
            DbError::UnknownBranch(name) => "branch "@ + name@ + " is not registered"@,
            DbError::ForkPrecedesParent { branch, parent, forked_at, parent_forked_at } => "branch "@ + branch@ + " would fork from "@ + parent@ + " at "@ + forked_at@ + ", before "@ + parent@ + " itself forked at "@ + parent_forked_at@,
            DbError::BranchMismatch { view, named } => "a view on branch "@ + view@ + " was handed a row that names branch "@ + named@,
            DbError::CrossLineage { id, held_on, claimed } => "concept "@ + id@ + " is held on branch "@ + held_on@ + " and branch "@ + claimed@ + " may not restate it"@,
            DbError::InvalidKvKey(key) => "invalid key "@ + quoted(key@) + ": expected [A-Za-z0-9_:./-]+ up to 256 characters"@,
        }
    }

    /// The error in words, where a weight it speaks of is written `weight`.
    pub open spec fn wording_with(self, weight: Seq<char>) -> Seq<char> {
        match self {
            DbError::NegativeEdgeWeight { source_id, target_id, .. } => "edge "@ + source_id@ + " -> "@ + target_id@
                + " has weight "@ + weight + ", which shortest-path analytics cannot use"@,
            _ => self.wording(),
        }
    }

    /// The error in words, where a weight it speaks of is written `weight`.
    pub fn message_with(&self, weight: &str) -> (text: String)
        ensures
            text@ == self.wording_with(weight@),
    {
        match self {
            DbError::NegativeEdgeWeight { source_id, target_id, .. } => {
                let mut out = "edge ".to_owned();
                out.append(source_id.as_str());
                out.append(" -> ");
                out.append(target_id.as_str());
                out.append(" has weight ");
                out.append(weight);
                out.append(", which shortest-path analytics cannot use");
                out
            },
            _ => self.message(),
        }
    }

    /// The error in words.
    ///
    /// Not for an error about a weight, which has to be written out first.
    pub fn message(&self) -> (text: String)
        requires
            !(self is NegativeEdgeWeight),
        ensures
            text@ == self.wording(),
    {
        match self {
            DbError::Engine(e) => {
                let mut out = "engine: ".to_owned();
                out.append(e.text().as_str());
                out
            },
            DbError::Migration { to, reason } => {
                let mut out = "migration to v".to_owned();
                push_decimal(&mut out, *to as u64);
                out.append(" failed: ");
                out.append(reason.as_str());
                out
            },
            DbError::InvalidEdgeType(t) => {
                let mut out = "invalid edge type ".to_owned();
                out.append(t.as_str());
                out.append(" (must be 1 to 64 of [A-Z0-9_:.-] or of [a-z0-9_:.-])");
                out
            },
            DbError::SingleOpenViolation { source_id, target_id, edge_type } => {
                let mut out = source_id.clone();
                out.append(" -> ");
                out.append(target_id.as_str());
                out.append(" (");
                out.append(edge_type.as_str());
                out.append(") already has an open interval; retire it first");
                out
            },
            DbError::NotFound(id) => {
                let mut out = "node ".to_owned();
                out.append(id.as_str());
                out.append(" not found");
                out
            },
            DbError::DimMismatch { got, expected, model } => {
                let mut out = "embedding dim ".to_owned();
                push_decimal(&mut out, *got as u64);
                out.append(", expected ");
                push_decimal(&mut out, *expected as u64);
                out.append(" for model ");
                out.append(model.as_str());
                out
            },
            DbError::InvalidModelName(name) => {
                let mut out = "invalid embedding model name ".to_owned();
                out.append(quote(name.as_str()).as_str());
                out.append(": expected [a-z][a-z0-9_]* up to 48 characters");
                out
            },
            DbError::ModelNotRegistered { model, table } => {
                let mut out = "embedding model ".to_owned();
                out.append(model.as_str());
                out.append(" is not registered (no ");
                out.append(table.as_str());
                out.append(" table)");
                out
            },
            DbError::SubgraphTooLarge { n, budget } => {
                let mut out = "subgraph exceeds budget (".to_owned();
                push_decimal(&mut out, *n as u64);
                out.append(" > ");
                push_decimal(&mut out, *budget as u64);
                out.append(")");
                out
            },
            DbError::NegativeEdgeWeight { .. } => String::new(),
            DbError::ReplayCorrupt { seq, reason } => {
                let mut out = "replay corrupt at seq ".to_owned();
                push_signed(&mut out, *seq);
                out.append(": ");
                out.append(reason.as_str());
                out
            },
            DbError::SnapshotIncompatible { path, reason } => {
                let mut out = "snapshot ".to_owned();
                out.append(path.as_str());
                out.append(" is not readable by this build: ");
                out.append(reason.as_str());
                out
            },
            DbError::PayloadVersion { got, max } => {
                let mut out = "payload v".to_owned();
                push_decimal(&mut out, *got as u64);
                out.append(" unsupported (max ");
                push_decimal(&mut out, *max as u64);
                out.append(")");
                out
            },
            DbError::ArchiveViolation { table } => {
                let mut out = "physical delete blocked outside archive session (".to_owned();
                out.append(table.as_str());
                out.append(")");
                out
            },
            DbError::ArchiveSessionLeaked { marker } => {
                let mut out = "the archive-session marker table ".to_owned();
                out.append(quote(marker.as_str()).as_str());
                out.append(" is present as committed state. While it exists, the delete guards on concepts, links and transaction_log are disarmed and concept inserts write no transaction_log row. An archive session creates and drops this table inside one transaction, so it should never be visible here — something wrote it outside the write actor. Drop it (DROP TABLE ");
                out.append(marker.as_str());
                out.append(") and audit for deletions and missing log rows since it appeared");
                out
            },
            DbError::AttributeModeUnstated { instants } => {
                let mut out = "traversal ".to_owned();
                out.append(instants.text().as_str());
                out.append(" did not state an attribute mode: that topology would be returned with attributes as they are *now*. Call .attribute_mode(AttributeMode::AtTime) for attributes as believed at the stated instant, or .attribute_mode(AttributeMode::Current) to confirm live attributes are intended");
                out
            },
            DbError::DiagnosticConn { path, reason } => {
                let mut out = "cannot open ".to_owned();
                out.append(path.as_str());
                out.append(" read-only for diagnostics: ");
                out.append(reason.as_str());
                out
            },
            DbError::ArchiveWindow { window, reason } => {
                let mut out = "archive window ".to_owned();
                out.append(duration_debug(*window).as_str());
                out.append(" is unusable: ");
                out.append(reason.as_str());
                out
            },
            DbError::RecordedInstantUnreachable { ts } => {
                let mut out = "transaction-time instant ".to_owned();
                out.append(ts.as_str());
                out.append(" cannot be answered from the hot log: rows have been archived out of it and a traversal has no archive path. Use macrame::temporal::reconstruct(conn, ts, archive_path, snapshots_dir), which does");
                out
            },
            DbError::InvalidTimestamp { value, reason } => {
                let mut out = "timestamp ".to_owned();
                out.append(quote(value.as_str()).as_str());
                out.append(" is not canonical: ");
                out.append(reason.as_str());
                out
            },
            DbError::InvalidId { id, reason } => {
                let mut out = "invalid identifier ".to_owned();
                out.append(quote(id.as_str()).as_str());
                out.append(": ");
                out.append(reason.as_str());
                out
            },
            DbError::OverlappingInterval { overlap } => {
                let mut out = "edge ".to_owned();
                out.append(overlap.source_id.as_str());
                out.append(" -> ");
                out.append(overlap.target_id.as_str());
                out.append(" (");
                out.append(overlap.edge_type.as_str());
                out.append("): the asserted [");
                out.append(overlap.valid_from.as_str());
                out.append(", ");
                out.append(overlap.valid_to.as_str());
                out.append(") overlaps [");
                out.append(overlap.existing_from.as_str());
                out.append(", ");
                out.append(overlap.existing_to.as_str());
                out.append("), which ");
                out.append(overlap.provenance());
                out
            },
            DbError::CurrentDrift { n } => {
                let mut out = "links_current drift detected: ".to_owned();
                push_decimal(&mut out, *n as u64);
                out.append(" intervals diverge");
                out
            },
            DbError::RebuildFailed { n } => {
                let mut out = "rebuild verification failed: ".to_owned();
                push_decimal(&mut out, *n as u64);
                out.append(" intervals still diverge");
                out
            },
            DbError::RebuildInterrupted { reason } => {
                let mut out = "chunked rebuild abandoned: ".to_owned();
                out.append(reason.as_str());
                out
            },
            DbError::WriterUnavailable => {
                let mut out = "write actor is not running (reopen the Database)".to_owned();
                out
            },
            DbError::WriterDroppedResponder => {
                let mut out = "write actor dropped the response channel mid-request".to_owned();
                out
            },
            DbError::WriterStopped(reason) => {
                let mut out = "write actor did not shut down cleanly: ".to_owned();
                out.append(reason.as_str());
                out
            },
            DbError::RecordedAtRegression { got, had } => {
                let mut out = "recorded_at must advance on concept update (got ".to_owned();
                out.append(got.as_str());
                out.append(", had ");
                out.append(had.as_str());
                out.append(")");
                out
            },
            DbError::FutureRecordedAt { stamp, limit } => {
                let mut out = "the newest recorded_at in this database is ".to_owned();
                out.append(stamp.as_str());
                out.append(", past the limit ");
                out.append(limit.as_str());
                out.append(". The clock floor is taken from it, so opening would stamp every later write at or after it — permanently, since the next open reads those rows back. Set the future_stamps policy to allow to open it and inspect it; that inherits the floor rather than repairing it");
                out
            },
            DbError::BulkCancelled => {
                let mut out = "the bulk write was cancelled between chunks".to_owned();
                out
            },
            DbError::InvalidBranchId(name) => {
                let mut out = "invalid branch name ".to_owned();
                out.append(quote(name.as_str()).as_str());
                out.append(": expected 1 to 128 bytes, no ASCII control characters, no surrounding white space");
                out
            },
            DbError::BranchExists(name) => {
                let mut out = "branch ".to_owned();
                out.append(name.as_str());
                out.append(" already exists");
                out
            },
            DbError::UnknownBranch(name) => {
                let mut out = "branch ".to_owned();
                out.append(name.as_str());
                out.append(" is not registered");
                out
            },
            DbError::ForkPrecedesParent { branch, parent, forked_at, parent_forked_at } => {
                let mut out = "branch ".to_owned();
                out.append(branch.as_str());
                out.append(" would fork from ");
                out.append(parent.as_str());
                out.append(" at ");
                out.append(forked_at.as_str());
                out.append(", before ");
                out.append(parent.as_str());
                out.append(" itself forked at ");
                out.append(parent_forked_at.as_str());
                out
            },
            DbError::BranchMismatch { view, named } => {
                let mut out = "a view on branch ".to_owned();
                out.append(view.as_str());
                out.append(" was handed a row that names branch ");
                out.append(named.as_str());
                out
            },
            DbError::CrossLineage { id, held_on, claimed } => {
                let mut out = "concept ".to_owned();
                out.append(id.as_str());
                out.append(" is held on branch ");
                out.append(held_on.as_str());
                out.append(" and branch ");
                out.append(claimed.as_str());
                out.append(" may not restate it");
                out
            },
            DbError::InvalidKvKey(key) => {
                let mut out = "invalid key ".to_owned();
                out.append(quote(key.as_str()).as_str());
                out.append(": expected [A-Za-z0-9_:./-]+ up to 256 characters");
                out
            },
        }
    }
}

/// A chunked bulk write that stopped before its end.
#[derive(Debug)]
pub struct BulkInterrupted {
    /// Rows committed before the stop, which stay committed.
    pub written: usize,
    /// Why it stopped.
    pub cause: DbError,
}

impl BulkInterrupted {
    /// Whether it stopped because it was asked to.
    pub fn was_cancelled(&self) -> (yes: bool)
        ensures
            yes == (self.cause is BulkCancelled),
    {
        match &self.cause {
            DbError::BulkCancelled => true,
            _ => false,
        }
    }

    /// The interruption in words, where a weight that its cause speaks of is
    /// written `weight`.
    pub fn message_with(&self, weight: &str) -> (text: String)
        ensures
            text@ == self.cause.wording_with(weight@) + " ("@ + text::decimal(self.written as nat)
                + " row(s) committed before the stop, and still committed)"@,
    {
        let mut out = self.cause.message_with(weight);
        out.append(" (");
        push_decimal(&mut out, self.written as u64);
        out.append(" row(s) committed before the stop, and still committed)");
        out
    }

    /// The interruption in words.
    ///
    /// Not for one by an error about a weight, which has to be written out first.
    pub fn message(&self) -> (text: String)
        requires
            !(self.cause is NegativeEdgeWeight),
        ensures
            text@ == self.cause.wording() + " ("@ + text::decimal(self.written as nat)
                + " row(s) committed before the stop, and still committed)"@,
    {
        self.message_with("")
    }

    /// The cause alone.
    pub fn source(&self) -> (cause: &DbError)
        ensures
            *cause == self.cause,
    {
        &self.cause
    }
}

impl From<BulkInterrupted> for DbError {
    fn from(e: BulkInterrupted) -> (cause: DbError) {
        e.cause
    }
}

impl vstd::std_specs::convert::FromSpecImpl<BulkInterrupted> for DbError {
    open spec fn obeys_from_spec() -> bool {
        true
    }

    open spec fn from_spec(e: BulkInterrupted) -> DbError {
        e.cause
    }
}

/// The result of a chunked bulk write.
pub type BulkResult<T> = core::result::Result<T, BulkInterrupted>;

/// A guard abort, recognised by its message.
#[derive(Debug, Clone, Copy, PartialEq, Eq, Structural)]
pub enum AbortKind {
    SingleOpenInterval,
    RecordedAtRegression,
    DeleteOutsideArchive,
    /// An ordinary engine error.
    NotAGuard,
}

/// The guard that a wording names, the first one in order.
pub open spec fn guard_named(wording: Seq<char>, guards: GuardMessages) -> AbortKind {
    if text::occurs_in(wording, guards.single_open@) {
        AbortKind::SingleOpenInterval
    } else if text::occurs_in(wording, guards.monotonic_recorded_at@) {
        AbortKind::RecordedAtRegression
    } else if text::occurs_in(wording, guards.delete_guard@) {
        AbortKind::DeleteOutsideArchive
    } else {
        AbortKind::NotAGuard
    }
}

/// Recognises a schema guard's abort by its message.
pub fn abort_kind(err: &EngineError, guards: &GuardMessages) -> (kind: AbortKind)
    ensures
        kind == guard_named(err.wording(), *guards),
{
    let wording = err.text();
    if contains(wording.as_str(), guards.single_open.as_str()) {
        AbortKind::SingleOpenInterval
    } else if contains(wording.as_str(), guards.monotonic_recorded_at.as_str()) {
        AbortKind::RecordedAtRegression
    } else if contains(wording.as_str(), guards.delete_guard.as_str()) {
        AbortKind::DeleteOutsideArchive
    } else {
        AbortKind::NotAGuard
    }
}

/// What a failing statement was trying to do.
#[derive(Debug, Clone, Copy)]
pub enum WriteOp<'a> {
    Edge { source_id: &'a str, target_id: &'a str, edge_type: &'a str },
    Concept { id: &'a str, recorded_at: &'a str },
    Delete { table: &'a str },
    Annotation { concept_id: &'a str },
}

/// The extended result code of a foreign-key failure.
pub const SQLITE_CONSTRAINT_FOREIGNKEY: i32 = 787;

/// Whether `err` is a foreign-key failure, by its code.
pub fn is_foreign_key_violation(err: &EngineError) -> (yes: bool)
    ensures
        yes == (err matches EngineError::SqliteFailure { code, .. } && code == SQLITE_CONSTRAINT_FOREIGNKEY),
{
    match err {
        EngineError::SqliteFailure { code, message } => *code == SQLITE_CONSTRAINT_FOREIGNKEY,
        EngineError::Other { text } => false,
    }
}

/// Whether `typed` is what an engine failure becomes.
///
/// A guard names the operation it fired for, an annotation that names a missing
/// concept becomes a missing concept, and everything else stays what it was.
pub open spec fn classified(
    err: EngineError,
    op: WriteOp,
    guards: GuardMessages,
    had: Option<String>,
    typed: DbError,
) -> bool {
    let kind = guard_named(err.wording(), guards);
    match op {
        WriteOp::Edge { source_id, target_id, edge_type } if kind == AbortKind::SingleOpenInterval => {
            typed matches DbError::SingleOpenViolation { source_id: s, target_id: t, edge_type: e } && s@
                == source_id@ && t@ == target_id@ && e@ == edge_type@
        },
        WriteOp::Concept { id, recorded_at } if kind == AbortKind::RecordedAtRegression => {
            typed matches DbError::RecordedAtRegression { got: g, had: h } && g@ == recorded_at@ && h@
                == match had {
                Some(stamp) => stamp@,
                None => Seq::empty(),
            }
        },
        WriteOp::Delete { table } if kind == AbortKind::DeleteOutsideArchive => {
            typed matches DbError::ArchiveViolation { table: t } && t@ == table@
        },
        WriteOp::Annotation { concept_id } if (err matches EngineError::SqliteFailure { code, .. } && code
            == SQLITE_CONSTRAINT_FOREIGNKEY) => {
            typed matches DbError::NotFound(id) && id@ == concept_id@
        },
        _ => typed == DbError::Engine(err),
    }
}

/// Turns an engine failure into the typed error that applies.
///
/// `had` is the `recorded_at` the database holds for the concept, where the
/// operation is about one.
pub fn classify(err: EngineError, op: WriteOp<'_>, guards: &GuardMessages, had: Option<String>) -> (typed:
    DbError)
    ensures
        classified(err, op, *guards, had, typed),
{
    let kind = abort_kind(&err, guards);
    match op {
        WriteOp::Edge { source_id, target_id, edge_type } => {
            if kind == AbortKind::SingleOpenInterval {
                return DbError::SingleOpenViolation {
                    source_id: source_id.to_owned(),
                    target_id: target_id.to_owned(),
                    edge_type: edge_type.to_owned(),
                };
            }
        },
        WriteOp::Concept { id, recorded_at } => {
            if kind == AbortKind::RecordedAtRegression {
                let had: String = match had {
                    Some(stamp) => stamp,
                    None => String::new(),
                };
                return DbError::RecordedAtRegression { got: recorded_at.to_owned(), had };
            }
        },
        WriteOp::Delete { table } => {
            if kind == AbortKind::DeleteOutsideArchive {
                return DbError::ArchiveViolation { table: table.to_owned() };
            }
        },
        WriteOp::Annotation { concept_id } => {
            if is_foreign_key_violation(&err) {
                return DbError::NotFound(concept_id.to_owned());
            }
        },
    }
    DbError::Engine(err)
}

} // verus!
