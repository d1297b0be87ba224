//! Deriving current belief anew beside itself, in chunks, and putting it in
//! place in one step.

use vstd::prelude::*;

use crate::error::{DbError, Result};
use crate::graph::plan;
use crate::integrity;
use crate::integrity::projection_where;
use crate::integrity::rebuild::RebuildReport;
use crate::sql;
use crate::sql::{bind, text_value, SqlValue, SqlView};
use crate::text;
use crate::text::{contains, find, push_decimal};

verus! {

/// The table that is filled beside current belief.
pub const SHADOW_TABLE: &'static str = "links_current_shadow";

/// How many sources one turn fills.
pub const SOURCES_PER_CHUNK: usize = 256;

/// The columns of the shadow.
pub const SHADOW_COLUMNS: &'static str =
    "(source_id, target_id, edge_type, valid_from, valid_to, weight, properties, recorded_at, branch_id)";

/// The stamp before every other, for a ledger without edges.
pub const FIRST_STAMP: &'static str = "0001-01-01T00:00:00.000000Z";

/// Reads the last stamp of the edges.
pub const LAST_STAMP: &'static str = "SELECT MAX(recorded_at) FROM links";

/// Counts current belief.
pub const COUNT_CURRENT: &'static str = "SELECT COUNT(*) FROM links_current";

/// What a shadow rebuild is asked to do next.
#[derive(Debug, Clone, PartialEq, Eq)]
#[non_exhaustive]
pub enum ShadowStep {
    /// Make the shadow.
    Begin,
    /// Fill it with the sources after this one.
    Fill { after: Option<String> },
    /// Put it in the place of current belief.
    Swap { build_start: String, epoch: u64 },
}

/// What a step of a shadow rebuild did.
#[derive(Debug, Clone, PartialEq, Eq)]
#[non_exhaustive]
pub enum ShadowOutcome {
    Started { build_start: String, epoch: u64 },
    /// The last source that was filled; none where none was left.
    Filled { last: Option<String> },
    Swapped { rows: usize },
}

/// Drops the shadow.
pub open spec fn drop_shadow_text() -> Seq<char> {
    "DROP TABLE IF EXISTS "@
        + SHADOW_TABLE@
}

/// Drops the shadow, where there is one.
pub fn drop_shadow() -> (sql: String)
    ensures
        sql@ == drop_shadow_text(),
{
    let mut out = "DROP TABLE IF EXISTS ".to_owned();
    out.append(SHADOW_TABLE);
    out
}

/// Whether `ddl` is what declares current belief, with the shadow named in the
/// first place where current belief is.
pub open spec fn declares_shadow(declared: Seq<char>, ddl: Seq<char>) -> bool {
    if text::occurs_in(declared, "links_current"@) {
        exists|i: int|
            first_name(declared, i) && ddl == declared.take(i) + SHADOW_TABLE@ + declared.skip(
                i + "links_current"@.len(),
            )
    } else {
        ddl == declared
    }
}

/// Whether current belief is named at `i` for the first time.
pub open spec fn first_name(declared: Seq<char>, i: int) -> bool {
    text::stands_at(declared, "links_current"@, i) && forall|j: int|
        0 <= j < i ==> !text::stands_at(declared, "links_current"@, j)
}

/// The declaration of the shadow: that of current belief, columns, keys and
/// checks alike, under another name.
pub fn shadow_ddl(declared: &str) -> (ddl: String)
    ensures
        declares_shadow(declared@, ddl@),
{
    match find(declared, "links_current") {
        Some(i) => {
            let n: usize = text::chars_of(declared).len();
            proof {
                reveal_strlit("links_current");
            }
            let mut out = vstd::string::StrSliceExecFns::substring_char(declared, 0, i).to_owned();
            out.append(SHADOW_TABLE);
            out.append(vstd::string::StrSliceExecFns::substring_char(declared, i + 13, n));
            proof {
                assert(declared@.subrange(0, i as int) =~= declared@.take(i as int));
                assert(declared@.subrange(i + 13, n as int) =~= declared@.skip(i + 13));
                assert(first_name(declared@, i as int));
            }
            out
        },
        None => declared.to_owned(),
    }
}

/// The stamp from which a shadow has to be caught up: the last one before it
/// was made.
pub fn build_start(last: Option<String>) -> (ts: String)
    ensures
        ts@ == (match last {
            Some(t) => t@,
            None => FIRST_STAMP@,
        }),
{
    match last {
        Some(ts) => ts,
        None => FIRST_STAMP.to_owned(),
    }
}

/// Reads the last source of the next chunk.
pub open spec fn chunk_end_text() -> Seq<char> {
    "SELECT MAX(source_id) FROM ( SELECT DISTINCT source_id FROM links WHERE source_id > ?1 ORDER BY source_id LIMIT "@
        + text::decimal(SOURCES_PER_CHUNK as nat)
        + " )"@
}

/// Reads the last source of the chunk after the one in the first slot.
pub fn chunk_end() -> (sql: String)
    ensures
        sql@ == chunk_end_text(),
{
    let mut out = "SELECT MAX(source_id) FROM ( SELECT DISTINCT source_id FROM links WHERE source_id > ?1 ORDER BY source_id LIMIT ".to_owned();
    push_decimal(&mut out, SOURCES_PER_CHUNK as u64);
    out.append(" )");
    out
}

/// Fills the shadow with the latest belief among some assertions.
pub open spec fn fill_shadow_text(clause: Seq<char>) -> Seq<char> {
    "INSERT INTO "@
        + SHADOW_TABLE@
        + " "@
        + SHADOW_COLUMNS@
        + " "@
        + integrity::projection_where_text(clause)
}

/// Fills the shadow with the latest belief among the assertions for which
/// `clause` holds.
pub fn fill_shadow(clause: &str) -> (sql: String)
    ensures
        sql@ == fill_shadow_text(clause@),
{
    let projection = projection_where(clause);
    let mut out = "INSERT INTO ".to_owned();
    out.append(SHADOW_TABLE);
    out.append(" ");
    out.append(SHADOW_COLUMNS);
    out.append(" ");
    out.append(projection.as_str());
    out
}

/// The sources of one chunk.
pub const CHUNK_CLAUSE: &'static str = "source_id > ?1 AND source_id <= ?2";

/// The edges that were asserted again while the shadow was filled.
pub const TOUCHED_CLAUSE: &'static str =
    "(source_id, target_id, edge_type, valid_from) IN ( SELECT source_id, target_id, edge_type, valid_from FROM links WHERE recorded_at >= ?1)";

/// The source after which a chunk begins: before every other at first.
pub open spec fn low_of(after: Option<Seq<char>>) -> Seq<char> {
    match after {
        Some(last) => last,
        None => ""@,
    }
}

/// A statement and what it binds.
#[derive(Debug)]
pub struct Statement {
    pub sql: String,
    pub row: Vec<SqlValue>,
}

/// What a statement is.
pub struct StatementView {
    pub sql: Seq<char>,
    pub row: Seq<SqlView>,
}

impl View for Statement {
    type V = StatementView;

    open spec fn view(&self) -> StatementView {
        StatementView { sql: self.sql@, row: sql::values(self.row@) }
    }
}

/// What a list of statements is.
pub open spec fn statements(list: Seq<Statement>) -> Seq<StatementView> {
    list.map_values(|s: Statement| s@)
}

/// A statement that binds nothing.
pub open spec fn bare(sql: Seq<char>) -> StatementView {
    StatementView { sql, row: Seq::empty() }
}

/// The statement that reads where the chunk after `after` ends.
pub fn fill_bound(after: Option<&str>) -> (s: Statement)
    ensures
        s@.sql == chunk_end_text(),
        s@.row == seq![SqlView::Text(low_of(match after {
            Some(last) => Some(last@),
            None => None,
        }))],
{
    let mut row: Vec<SqlValue> = Vec::new();
    bind(
        &mut row,
        text_value(
            match after {
                Some(last) => last,
                None => "",
            },
        ),
    );
    let s = Statement { sql: chunk_end(), row };
    proof {
        assert(s@.row =~= seq![SqlView::Text(low_of(match after {
            Some(last) => Some(last@),
            None => None,
        }))]);
    }
    s
}

/// The statement that fills the chunk after `after` up to `high`; none where no
/// source is left.
pub fn fill_chunk(after: Option<&str>, high: Option<&str>) -> (s: Option<Statement>)
    ensures
        s.is_some() == high.is_some(),
        s matches Some(st) ==> st@.sql == fill_shadow_text(CHUNK_CLAUSE@) && st@.row == seq![
            SqlView::Text(low_of(match after {
                Some(last) => Some(last@),
                None => None,
            })),
            SqlView::Text(high->0@),
        ],
{
    match high {
        None => None,
        Some(high) => {
            let mut row: Vec<SqlValue> = Vec::new();
            bind(
                &mut row,
                text_value(
                    match after {
                        Some(last) => last,
                        None => "",
                    },
                ),
            );
            bind(&mut row, text_value(high));
            let st = Statement { sql: fill_shadow(CHUNK_CLAUSE), row };
            proof {
                assert(st@.row =~= seq![
                    SqlView::Text(low_of(match after {
                        Some(last) => Some(last@),
                        None => None,
                    })),
                    SqlView::Text(high@),
                ]);
            }
            Some(st)
        },
    }
}

/// Drops from the shadow what was asserted again.
pub open spec fn drop_touched_text() -> Seq<char> {
    "DELETE FROM "@
        + SHADOW_TABLE@
        + " WHERE "@
        + TOUCHED_CLAUSE@
}

/// Drops from the shadow what was asserted again while it was filled.
pub fn drop_touched() -> (sql: String)
    ensures
        sql@ == drop_touched_text(),
{
    let mut out = "DELETE FROM ".to_owned();
    out.append(SHADOW_TABLE);
    out.append(" WHERE ");
    out.append(TOUCHED_CLAUSE);
    out
}

/// Gives the shadow the name of current belief.
pub open spec fn rename_shadow_text() -> Seq<char> {
    "ALTER TABLE "@
        + SHADOW_TABLE@
        + " RENAME TO links_current"@
}

/// Gives the shadow the name of current belief.
pub fn rename_shadow() -> (sql: String)
    ensures
        sql@ == rename_shadow_text(),
{
    let mut out = "ALTER TABLE ".to_owned();
    out.append(SHADOW_TABLE);
    out.append(" RENAME TO links_current");
    out
}

/// The statements among the first `n` of `list` that name one of two things.
pub open spec fn naming(list: Seq<&str>, one: Seq<char>, other: Seq<char>, n: int) -> Seq<StatementView>
    decreases n,
{
    if n <= 0 {
        Seq::empty()
    } else if text::occurs_in(list[n - 1]@, one) || text::occurs_in(list[n - 1]@, other) {
        naming(list, one, other, n - 1).push(bare(list[n - 1]@))
    } else {
        naming(list, one, other, n - 1)
    }
}

/// What brings the shadow up to date.
pub open spec fn catch_up(build_start: Seq<char>) -> Seq<StatementView> {
    seq![
        StatementView { sql: drop_touched_text(), row: seq![SqlView::Text(build_start)] },
        StatementView { sql: fill_shadow_text(TOUCHED_CLAUSE@), row: seq![SqlView::Text(build_start)] },
    ]
}

/// What takes current belief away and puts the shadow in its place.
pub open spec fn exchange() -> Seq<StatementView> {
    seq![
        bare("DROP TRIGGER IF EXISTS trg_links_current_sync"@),
        bare("DROP TRIGGER IF EXISTS trg_links_single_open"@),
        bare("DROP TABLE links_current"@),
        bare(rename_shadow_text()),
    ]
}

/// Everything that a swap does, in order: the shadow is brought up to date,
/// exchanged for current belief, and given back its indices and triggers.
pub open spec fn swap_steps(build_start: Seq<char>, indices: Seq<&str>, triggers: Seq<&str>) -> Seq<StatementView> {
    catch_up(build_start) + exchange() + naming(
        indices,
        "links_current"@,
        "links_current"@,
        indices.len() as int,
    ) + naming(
        triggers,
        "trg_links_current_sync"@,
        "trg_links_single_open"@,
        triggers.len() as int,
    )
}

/// What a swap is to do.
#[derive(Debug)]
pub enum SwapPlan {
    /// Give the shadow up: this statement drops it, and this is why.
    GiveUp { drop: String, error: DbError },
    /// Put it in place: these statements, in one transaction.
    GoOn(Vec<Statement>),
}

/// Why a shadow is given up.
pub open spec fn interruption(sessions: nat) -> Seq<char> {
    text::decimal(sessions)
        + " archive session(s) committed during the shadow build; their deletions are invisible to a catch-up keyed on recorded_at. Re-run rebuild_current_chunked."@
}

fn put(list: &mut Vec<Statement>, sql: &str)
    ensures
        statements(final(list)@) == statements(old(list)@).push(bare(sql@)),
{
    let s = Statement { sql: sql.to_owned(), row: Vec::new() };
    proof {
        assert(s@.row =~= Seq::empty());
    }
    list.push(s);
    proof {
        assert(statements(list@) =~= statements(old(list)@).push(bare(sql@)));
    }
}

fn put_from(list: &mut Vec<Statement>, sql: String, build_start: &str)
    ensures
        statements(final(list)@) == statements(old(list)@).push(
            StatementView { sql: sql@, row: seq![SqlView::Text(build_start@)] },
        ),
{
    let mut row: Vec<SqlValue> = Vec::new();
    bind(&mut row, text_value(build_start));
    proof {
        assert(sql::values(row@) =~= seq![SqlView::Text(build_start@)]);
    }
    list.push(Statement { sql, row });
    proof {
        assert(statements(list@) =~= statements(old(list)@).push(
            StatementView { sql: sql@, row: seq![SqlView::Text(build_start@)] },
        ));
    }
}

fn put_naming(list: &mut Vec<Statement>, from: &[&str], one: &str, other: &str)
    ensures
        statements(final(list)@) == statements(old(list)@) + naming(from@, one@, other@, from@.len() as int),
{
    let n: usize = from.len();
    let mut i: usize = 0;
    let ghost before = statements(list@);
    proof {
        assert(before + naming(from@, one@, other@, 0) =~= before);
    }
    while i < n
        invariant
            n == from@.len(),
            i <= n,
            statements(list@) == before + naming(from@, one@, other@, i as int),
        decreases n - i,
    {
        if contains(from[i], one) || contains(from[i], other) {
            put(list, from[i]);
            proof {
                assert(statements(list@) =~= before + naming(from@, one@, other@, i + 1));
            }
        }
        i = i + 1;
    }
}

/// Whether `p` is what a swap is to do for a shadow that was made in `epoch`. A
/// shadow during whose making the archive took something is given up.
pub open spec fn is_swap(
    p: SwapPlan,
    build_start: Seq<char>,
    epoch: u64,
    epoch_now: u64,
    indices: Seq<&str>,
    triggers: Seq<&str>,
) -> bool {
    match p {
        SwapPlan::GiveUp { drop, error } => {
            &&& epoch != epoch_now
            &&& drop@ == drop_shadow_text()
            &&& error matches DbError::RebuildInterrupted { reason } && reason@ == interruption(
                (epoch_now - epoch) as nat,
            )
        },
        SwapPlan::GoOn(list) => {
            &&& epoch == epoch_now
            &&& statements(list@) == swap_steps(build_start, indices, triggers)
        },
    }
}

/// What a swap is to do for a shadow that was made in `epoch`.
pub fn swap(
    build_start: &str,
    epoch: u64,
    epoch_now: u64,
    indices: &[&str],
    triggers: &[&str],
) -> (p: SwapPlan)
    requires
        epoch <= epoch_now,
    ensures
        is_swap(p, build_start@, epoch, epoch_now, indices@, triggers@),
{
    if epoch != epoch_now {
        let mut reason = String::new();
        push_decimal(&mut reason, epoch_now - epoch);
        reason.append(
            " archive session(s) committed during the shadow build; their deletions are invisible to a catch-up keyed on recorded_at. Re-run rebuild_current_chunked.",
        );
        proof {
            assert(reason@ =~= interruption((epoch_now - epoch) as nat));
        }
        return SwapPlan::GiveUp { drop: drop_shadow(), error: DbError::RebuildInterrupted { reason } };
    }
    let mut list: Vec<Statement> = Vec::new();
    put_from(&mut list, drop_touched(), build_start);
    put_from(&mut list, fill_shadow(TOUCHED_CLAUSE), build_start);
    put(&mut list, "DROP TRIGGER IF EXISTS trg_links_current_sync");
    put(&mut list, "DROP TRIGGER IF EXISTS trg_links_single_open");
    put(&mut list, "DROP TABLE links_current");
    put(&mut list, rename_shadow().as_str());
    proof {
        assert(statements(list@) =~= catch_up(build_start@) + exchange());
    }
    put_naming(&mut list, indices, "links_current", "links_current");
    put_naming(&mut list, triggers, "trg_links_current_sync", "trg_links_single_open");
    SwapPlan::GoOn(list)
}

/// What a chunked rebuild came to, or what it asks for next.
#[derive(Debug)]
pub enum ShadowNext {
    Ask(ShadowStep),
    Done(Result<RebuildReport>),
}

/// A rebuild of current belief in turns, between which other writers may go.
#[derive(Debug)]
pub enum ShadowRun {
    /// The shadow is being made.
    Beginning,
    /// It is being filled, and caught up from this stamp and epoch later.
    Filling { build_start: String, epoch: u64 },
    /// It is being put in place.
    Swapping,
}

impl ShadowRun {
    /// A rebuild, and the step it begins with.
    pub fn new() -> (first: (ShadowRun, ShadowStep))
        ensures
            first.0 is Beginning,
            first.1 is Begin,
    {
        (ShadowRun::Beginning, ShadowStep::Begin)
    }

    /// Where a rebuild stands after a step, and what it asks for then. An
    /// answer to anything but that step ends it.
    pub fn next(self, outcome: ShadowOutcome) -> (n: (ShadowRun, ShadowNext))
        ensures
            match (self, outcome) {
                (ShadowRun::Beginning, ShadowOutcome::Started { build_start: b, epoch: e }) => {
                    &&& n.0 == (ShadowRun::Filling { build_start: b, epoch: e })
                    &&& n.1 matches ShadowNext::Ask(step) && step == (ShadowStep::Fill { after: None })
                },
                (ShadowRun::Filling { build_start, epoch }, ShadowOutcome::Filled { last: Some(source) }) => {
                    &&& n.0 == self
                    &&& n.1 matches ShadowNext::Ask(step) && step == (ShadowStep::Fill {
                        after: Some(source),
                    })
                },
                (ShadowRun::Filling { build_start, epoch }, ShadowOutcome::Filled { last: None }) => {
                    &&& n.0 is Swapping
                    &&& n.1 matches ShadowNext::Ask(step) && step == (ShadowStep::Swap { build_start, epoch })
                },
                (ShadowRun::Swapping, ShadowOutcome::Swapped { rows }) => {
                    &&& n.1 matches ShadowNext::Done(res) && res == Ok::<RebuildReport, DbError>(
                        RebuildReport { rows_rebuilt: rows, drift_after: 0 },
                    )
                },
                _ => n.1 matches ShadowNext::Done(res) && (res matches Err(e) && e is WriterDroppedResponder),
            },
    {
        match (self, outcome) {
            (ShadowRun::Beginning, ShadowOutcome::Started { build_start, epoch }) => (
                ShadowRun::Filling { build_start, epoch },
                ShadowNext::Ask(ShadowStep::Fill { after: None }),
            ),
            (ShadowRun::Filling { build_start, epoch }, ShadowOutcome::Filled { last }) => match last {
                Some(source) => (
                    ShadowRun::Filling { build_start, epoch },
                    ShadowNext::Ask(ShadowStep::Fill { after: Some(source) }),
                ),
                None => (
                    ShadowRun::Swapping,
                    ShadowNext::Ask(ShadowStep::Swap { build_start, epoch }),
                ),
            },
            (ShadowRun::Swapping, ShadowOutcome::Swapped { rows }) => (
                ShadowRun::Swapping,
                ShadowNext::Done(Ok(RebuildReport { rows_rebuilt: rows, drift_after: 0 })),
            ),
            (run, _) => (run, ShadowNext::Done(Err(DbError::WriterDroppedResponder))),
        }
    }
}

} // verus!
