//! How a ledger is opened, and what its files and connections are called on to
//! be.

use vstd::prelude::*;

use crate::error::{push_signed, DbError, Result};
use crate::error;
use crate::text;
use crate::text::push_decimal;

verus! {

/// How often snapshots are taken, `C` being a cadence.
#[derive(Debug, Clone, Copy, PartialEq, Eq)]
#[non_exhaustive]
pub enum CadencePolicy<C> {
    /// As often as the ledger itself thinks right.
    Default,
    /// Never.
    Disabled,
    /// This often.
    Every(C),
}

impl<C> Default for CadencePolicy<C> {
    fn default() -> (p: CadencePolicy<C>)
        ensures
            p == CadencePolicy::<C>::Default,
    {
        CadencePolicy::Default
    }
}

impl<C> CadencePolicy<C> {
    /// The cadence that the policy comes to, `standard` being the ledger's own.
    pub open spec fn resolved(self, standard: C) -> Option<C> {
        match self {
            CadencePolicy::Default => Some(standard),
            CadencePolicy::Disabled => None,
            CadencePolicy::Every(cadence) => Some(cadence),
        }
    }

    /// The cadence that the policy comes to, `standard` being the ledger's own.
    pub fn resolve(self, standard: C) -> (cadence: Option<C>)
        ensures
            cadence == self.resolved(standard),
    {
        match self {
            CadencePolicy::Default => Some(standard),
            CadencePolicy::Disabled => None,
            CadencePolicy::Every(cadence) => Some(cadence),
        }
    }
}

/// When the engine checkpoints the write-ahead log by itself.
#[derive(Debug, Clone, Copy, PartialEq, Eq, Structural)]
#[non_exhaustive]
pub enum WalCheckpointPolicy {
    /// When the engine thinks right.
    Default,
    /// Never.
    Disabled,
    /// After this many pages.
    EveryPages(u32),
}

impl Default for WalCheckpointPolicy {
    fn default() -> (p: WalCheckpointPolicy)
        ensures
            p == WalCheckpointPolicy::Default,
    {
        WalCheckpointPolicy::Default
    }
}

impl WalCheckpointPolicy {
    /// The pragma that sets the policy; none where the engine's own stands.
    pub open spec fn pragma_text(self) -> Option<Seq<char>> {
        match self {
            WalCheckpointPolicy::Default => None,
            WalCheckpointPolicy::Disabled => Some("PRAGMA wal_autocheckpoint = 0"@),
            WalCheckpointPolicy::EveryPages(pages) => Some(
                "PRAGMA wal_autocheckpoint = "@ + text::decimal(pages as nat),
            ),
        }
    }

    /// The pragma that sets the policy; none where the engine's own stands.
    pub fn pragma(self) -> (sql: Option<String>)
        ensures
            text::opt_view(sql) == self.pragma_text(),
    {
        match self {
            WalCheckpointPolicy::Default => None,
            WalCheckpointPolicy::Disabled => Some("PRAGMA wal_autocheckpoint = 0".to_owned()),
            WalCheckpointPolicy::EveryPages(pages) => {
                let mut out = "PRAGMA wal_autocheckpoint = ".to_owned();
                push_decimal(&mut out, pages as u64);
                Some(out)
            },
        }
    }
}

/// What may be set when a ledger is opened, `C` being a cadence and `K` a
/// clock.
#[derive(Debug, Clone)]
pub struct Tuning<C, K> {
    pub cadence: CadencePolicy<C>,
    pub clock: Option<K>,
    pub wal_autocheckpoint: WalCheckpointPolicy,
    /// The writer's page cache, as the engine counts it.
    pub writer_cache_size: Option<i32>,
    /// The readers' page cache, as the engine counts it.
    pub reader_cache_size: Option<i32>,
}

impl<C, K> Default for Tuning<C, K> {
    fn default() -> (t: Tuning<C, K>)
        ensures
            t.cadence == CadencePolicy::<C>::Default,
            t.clock.is_none(),
            t.wal_autocheckpoint == WalCheckpointPolicy::Default,
            t.writer_cache_size.is_none(),
            t.reader_cache_size.is_none(),
    {
        Tuning {
            cadence: CadencePolicy::Default,
            clock: None,
            wal_autocheckpoint: WalCheckpointPolicy::Default,
            writer_cache_size: None,
            reader_cache_size: None,
        }
    }
}

impl<C, K> Tuning<C, K> {
    /// The tuning that a bare cadence and clock stand for: no cadence means
    /// that none is wanted.
    pub fn from_legacy(cadence: Option<C>, clock: Option<K>) -> (t: Tuning<C, K>)
        ensures
            t.cadence == (match cadence {
                Some(c) => CadencePolicy::Every(c),
                None => CadencePolicy::Disabled,
            }),
            t.clock == clock,
            t.wal_autocheckpoint == WalCheckpointPolicy::Default,
            t.writer_cache_size.is_none(),
            t.reader_cache_size.is_none(),
    {
        Tuning {
            cadence: match cadence {
                Some(cadence) => CadencePolicy::Every(cadence),
                None => CadencePolicy::Disabled,
            },
            clock,
            wal_autocheckpoint: WalCheckpointPolicy::Default,
            writer_cache_size: None,
            reader_cache_size: None,
        }
    }
}

/// One setting of a connection.
#[derive(Debug)]
pub struct Pragma {
    pub sql: String,
    /// Whether the engine answers it with a row.
    pub answers: bool,
}

/// What a setting is.
pub struct PragmaView {
    pub sql: Seq<char>,
    pub answers: bool,
}

impl View for Pragma {
    type V = PragmaView;

    open spec fn view(&self) -> PragmaView {
        PragmaView { sql: self.sql@, answers: self.answers }
    }
}

/// What a list of settings is.
pub open spec fn pragmas_view(list: Seq<Pragma>) -> Seq<PragmaView> {
    list.map_values(|p: Pragma| p@)
}

/// The page cache of a connection; nothing where the engine's own stands.
pub open spec fn cache_pragma(cache_size: Option<i32>) -> Seq<PragmaView> {
    match cache_size {
        Some(pages) => seq![
            PragmaView { sql: "PRAGMA cache_size = "@ + error::signed(pages as int), answers: false },
        ],
        None => Seq::empty(),
    }
}

/// What every connection is set to, in order. `analysis_limit` is the ledger's
/// own bound on the cost of statistics.
pub open spec fn connection_pragmas(cache_size: Option<i32>, analysis_limit: Seq<char>) -> Seq<PragmaView> {
    seq![
        PragmaView { sql: "PRAGMA journal_mode = WAL"@, answers: true },
        PragmaView { sql: "PRAGMA busy_timeout = 5000"@, answers: true },
        PragmaView { sql: "PRAGMA synchronous = NORMAL"@, answers: false },
        PragmaView { sql: "PRAGMA foreign_keys = ON"@, answers: false },
        PragmaView { sql: "PRAGMA recursive_triggers = OFF"@, answers: false },
        PragmaView { sql: analysis_limit, answers: true },
    ] + cache_pragma(cache_size)
}

/// What keeps a connection from writing.
pub open spec fn read_only() -> PragmaView {
    PragmaView { sql: "PRAGMA query_only = ON"@, answers: false }
}

/// What gives a setting a value.
pub open spec fn setting(name: Seq<char>, value: Seq<char>) -> Seq<char> {
    "PRAGMA "@ + name + " = "@ + value
}

/// Whether a connection is given a setting.
pub open spec fn is_given(list: Seq<PragmaView>, name: Seq<char>, value: Seq<char>) -> bool {
    exists|k: int| 0 <= k < list.len() && (#[trigger] list[k]).sql == setting(name, value)
}

/// Every connection writes ahead, waits five seconds for a lock, keeps foreign keys
/// and lets no trigger fire itself, whatever its cache. One that is to read only is
/// kept from writing.
pub proof fn law_every_connection_is_set_so(cache_size: Option<i32>, analysis_limit: Seq<char>)
    ensures
        is_given(connection_pragmas(cache_size, analysis_limit), "journal_mode"@, "WAL"@),
        is_given(connection_pragmas(cache_size, analysis_limit), "busy_timeout"@, "5000"@),
        is_given(connection_pragmas(cache_size, analysis_limit), "synchronous"@, "NORMAL"@),
        is_given(connection_pragmas(cache_size, analysis_limit), "foreign_keys"@, "ON"@),
        is_given(connection_pragmas(cache_size, analysis_limit), "recursive_triggers"@, "OFF"@),
        read_only().sql == setting("query_only"@, "ON"@),
{
    let list = connection_pragmas(cache_size, analysis_limit);
    reveal_strlit("PRAGMA ");
    reveal_strlit(" = ");
    reveal_strlit("ON");
    assert(list[0].sql =~= setting("journal_mode"@, "WAL"@)) by {
        reveal_strlit("PRAGMA journal_mode = WAL");
        reveal_strlit("journal_mode");
        reveal_strlit("WAL");
    }
    assert(list[1].sql =~= setting("busy_timeout"@, "5000"@)) by {
        reveal_strlit("PRAGMA busy_timeout = 5000");
        reveal_strlit("busy_timeout");
        reveal_strlit("5000");
    }
    assert(list[2].sql =~= setting("synchronous"@, "NORMAL"@)) by {
        reveal_strlit("PRAGMA synchronous = NORMAL");
        reveal_strlit("synchronous");
        reveal_strlit("NORMAL");
    }
    assert(list[3].sql =~= setting("foreign_keys"@, "ON"@)) by {
        reveal_strlit("PRAGMA foreign_keys = ON");
        reveal_strlit("foreign_keys");
    }
    assert(list[4].sql =~= setting("recursive_triggers"@, "OFF"@)) by {
        reveal_strlit("PRAGMA recursive_triggers = OFF");
        reveal_strlit("recursive_triggers");
        reveal_strlit("OFF");
    }
    assert(read_only().sql =~= setting("query_only"@, "ON"@)) by {
        reveal_strlit("PRAGMA query_only = ON");
        reveal_strlit("query_only");
    }
}

fn set(list: &mut Vec<Pragma>, sql: &str, answers: bool)
    ensures
        pragmas_view(final(list)@) == pragmas_view(old(list)@).push(PragmaView { sql: sql@, answers }),
{
    list.push(Pragma { sql: sql.to_owned(), answers });
    proof {
        assert(pragmas_view(list@) =~= pragmas_view(old(list)@).push(PragmaView { sql: sql@, answers }));
    }
}

/// What a connection is set to, in order.
pub fn configure(cache_size: Option<i32>, analysis_limit: &str) -> (list: Vec<Pragma>)
    ensures
        pragmas_view(list@) == connection_pragmas(cache_size, analysis_limit@),
{
    let mut list: Vec<Pragma> = Vec::new();
    set(&mut list, "PRAGMA journal_mode = WAL", true);
    set(&mut list, "PRAGMA busy_timeout = 5000", true);
    set(&mut list, "PRAGMA synchronous = NORMAL", false);
    set(&mut list, "PRAGMA foreign_keys = ON", false);
    set(&mut list, "PRAGMA recursive_triggers = OFF", false);
    set(&mut list, analysis_limit, true);
    if let Some(pages) = cache_size {
        let mut sql = "PRAGMA cache_size = ".to_owned();
        push_signed(&mut sql, pages as i64);
        set(&mut list, sql.as_str(), false);
    }
    proof {
        assert(pragmas_view(list@) =~= connection_pragmas(cache_size, analysis_limit@));
    }
    list
}

/// How a ledger is opened: the settings of its writer, those of its reader,
/// and the cadence with those of the connection that it reads by.
#[derive(Debug)]
pub struct OpenPlan<C> {
    pub writer: Vec<Pragma>,
    pub reader: Vec<Pragma>,
    pub cadence: Option<(C, Vec<Pragma>)>,
}

/// How a ledger with this tuning is opened. The writer alone is told when to
/// checkpoint; every other connection is kept from writing.
pub fn open_plan<C, K>(tuning: Tuning<C, K>, standard: C, analysis_limit: &str) -> (p: OpenPlan<C>)
    ensures
        pragmas_view(p.writer@) == connection_pragmas(tuning.writer_cache_size, analysis_limit@) + (
        match tuning.wal_autocheckpoint.pragma_text() {
            Some(sql) => seq![PragmaView { sql, answers: true }],
            None => Seq::empty(),
        }),
        pragmas_view(p.reader@) == connection_pragmas(tuning.reader_cache_size, analysis_limit@).push(
            read_only(),
        ),
        p.cadence.is_some() == tuning.cadence.resolved(standard).is_some(),
        p.cadence matches Some((cadence, list)) ==> tuning.cadence.resolved(standard) == Some(cadence)
            && pragmas_view(list@) == connection_pragmas(tuning.reader_cache_size, analysis_limit@).push(
            read_only(),
        ),
{
    let mut writer = configure(tuning.writer_cache_size, analysis_limit);
    let ghost before = pragmas_view(writer@);
    if let Some(sql) = tuning.wal_autocheckpoint.pragma() {
        set(&mut writer, sql.as_str(), true);
    }
    proof {
        assert(pragmas_view(writer@) =~= before + (match tuning.wal_autocheckpoint.pragma_text() {
            Some(sql) => seq![PragmaView { sql, answers: true }],
            None => Seq::empty(),
        }));
    }
    let mut reader = configure(tuning.reader_cache_size, analysis_limit);
    set(&mut reader, "PRAGMA query_only = ON", false);
    let cadence = match tuning.cadence.resolve(standard) {
        Some(cadence) => {
            let mut list = configure(tuning.reader_cache_size, analysis_limit);
            set(&mut list, "PRAGMA query_only = ON", false);
            Some((cadence, list))
        },
        None => None,
    };
    OpenPlan { writer, reader, cadence }
}

/// Whether snapshots are anchored anew once a ledger is open: where its schema
/// moved and snapshots are taken at all.
pub fn reanchors(upgraded: bool, cadence_runs: bool) -> (yes: bool)
    ensures
        yes == (upgraded && cadence_runs),
{
    upgraded && cadence_runs
}

/// The name of the directory of snapshots beside a ledger file.
pub open spec fn snapshots_name_of(stem: Seq<char>) -> Seq<char> {
    stem + "_snapshots"@
}

/// The name of the directory of snapshots beside a ledger file of this stem; a
/// file without one goes by the library's own name.
pub fn snapshots_name(stem: Option<&str>) -> (name: String)
    ensures
        name@ == snapshots_name_of(match stem {
            Some(s) => s@,
            None => "macrame"@,
        }),
{
    let mut out = match stem {
        Some(s) => s.to_owned(),
        None => "macrame".to_owned(),
    };
    out.append("_snapshots");
    out
}

/// What becomes of a ledger's file name for its archive.
#[derive(Debug)]
pub enum ArchiveName {
    /// It is replaced by this one.
    Name(String),
    /// It keeps its place and gets this extension.
    Extension(&'static str),
}

/// The file of the archive beside a ledger file of this stem and extension.
pub fn archive_name(stem: Option<&str>, extension: Option<&str>) -> (name: ArchiveName)
    ensures
        match stem {
            Some(s) => name matches ArchiveName::Name(n) && n@ == s@ + "_archive."@ + (match extension {
                Some(e) => e@,
                None => "db"@,
            }),
            None => name matches ArchiveName::Extension(e) && e@ == "archive.db"@,
        },
{
    match stem {
        Some(s) => {
            let mut out = s.to_owned();
            out.append("_archive.");
            out.append(
                match extension {
                    Some(e) => e,
                    None => "db",
                },
            );
            ArchiveName::Name(out)
        },
        None => ArchiveName::Extension("archive.db"),
    }
}

/// Refuses a diagnostic connection to a file that is not there.
pub fn diagnosable(path: &str, exists: bool) -> (checked: Result<()>)
    ensures
        checked.is_ok() == exists,
        checked matches Err(e) ==> (e matches DbError::DiagnosticConn { path: p, reason } && p@ == path@
            && reason@ == "the file does not exist, and a read-only open cannot create it"@),
{
    if exists {
        Ok(())
    } else {
        Err(
            DbError::DiagnosticConn {
                path: path.to_owned(),
                reason: "the file does not exist, and a read-only open cannot create it".to_owned(),
            },
        )
    }
}

/// How the writer ended.
#[derive(Debug)]
pub enum WriterExit {
    /// It came to its end, with this result.
    Ended(Result<()>),
    /// It was lost on the way.
    Lost(String),
}

/// What closing a ledger comes to before its last snapshot is written.
pub fn writer_closed(exit: WriterExit) -> (closed: Result<()>)
    ensures
        match exit {
            WriterExit::Ended(res) => closed == res,
            WriterExit::Lost(why) => closed matches Err(e) && (e matches DbError::WriterStopped(text) && text@
                == "the write actor did not exit cleanly: "@ + why@),
        },
{
    match exit {
        WriterExit::Ended(res) => res,
        WriterExit::Lost(why) => {
            let mut text = "the write actor did not exit cleanly: ".to_owned();
            text.append(why.as_str());
            Err(DbError::WriterStopped(text))
        },
    }
}

/// What a checkpoint moved.
#[derive(Debug, Clone, Copy, PartialEq, Eq, Structural)]
pub struct CheckpointReport {
    /// Whether a reader held part of it back.
    pub busy: bool,
    /// Frames left in the log.
    pub log_frames: u64,
    /// Frames that were moved into the file.
    pub checkpointed_frames: u64,
}

impl CheckpointReport {
    /// Whether nothing is left in the log.
    pub fn is_complete(&self) -> (yes: bool)
        ensures
            yes == (!self.busy && self.log_frames == 0),
    {
        !self.busy && self.log_frames == 0
    }
}

/// Moves what is in the log into the file.
pub const CHECKPOINT_FULL: &'static str = "PRAGMA wal_checkpoint(FULL)";

/// Moves what is left, and empties the log.
pub const CHECKPOINT_TRUNCATE: &'static str = "PRAGMA wal_checkpoint(TRUNCATE)";

/// The answer to one checkpoint pragma: whether it was held back, the frames
/// left, the frames moved. A column that did not come back is none.
#[derive(Debug, Clone, Copy, PartialEq, Eq, Structural)]
pub struct CheckpointRow {
    pub busy: Option<i64>,
    pub log: Option<i64>,
    pub moved: Option<i64>,
}

/// A count that a pragma answered with; what is no count is nought.
pub open spec fn counted(n: Option<i64>) -> u64 {
    match n {
        Some(n) => if n > 0 {
            n as u64
        } else {
            0
        },
        None => 0,
    }
}

fn count(n: Option<i64>) -> (c: u64)
    ensures
        c == counted(n),
{
    match n {
        Some(n) => if n > 0 {
            n as u64
        } else {
            0
        },
        None => 0,
    }
}

/// Whether a pragma answered that it was held back.
pub open spec fn held_back(n: Option<i64>) -> bool {
    n matches Some(b) && b != 0
}

/// What a full checkpoint and the truncation after it come to: held back if
/// either was, with the frames that the first moved and the second left.
pub fn checkpoint_report(full: CheckpointRow, truncate: CheckpointRow) -> (r: CheckpointReport)
    ensures
        r.busy == (held_back(full.busy) || held_back(truncate.busy)),
        r.log_frames == counted(truncate.log),
        r.checkpointed_frames == counted(full.moved),
{
    let full_busy = match full.busy {
        Some(b) => b != 0,
        None => false,
    };
    let truncate_busy = match truncate.busy {
        Some(b) => b != 0,
        None => false,
    };
    CheckpointReport {
        busy: full_busy || truncate_busy,
        log_frames: count(truncate.log),
        checkpointed_frames: count(full.moved),
    }
}

} // verus!
