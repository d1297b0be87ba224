//! How an archive run is cut into windows.

use vstd::prelude::*;

use crate::connection::chunk::MAX_NANOS;
use crate::error;
use crate::error::{duration_debug, DbError, Result};
use crate::graph::plan;
use crate::text;
use crate::text::{push_decimal, push_wide, text_order, Order};
use crate::util::instant;
use crate::util::timestamp;

verus! {

/// The most sessions that one run is cut into.
pub const MAX_ARCHIVE_SESSIONS: usize = 4_096;

/// The statement that finds the oldest stamp of `table` before a cutoff.
pub open spec fn oldest_text(table: Seq<char>) -> Seq<char> {
    "SELECT MIN(recorded_at) FROM "@ + table + " WHERE recorded_at < ?1"@
}

/// The statement that finds the oldest stamp of `table` before a cutoff.
pub fn oldest_sql(table: &str) -> (sql: String)
    ensures
        sql@ == oldest_text(table@),
{
    let mut out = "SELECT MIN(recorded_at) FROM ".to_owned();
    out.append(table);
    out.append(" WHERE recorded_at < ?1");
    out
}

/// The earlier of two stamps, where there are two.
pub open spec fn earlier_of(a: Option<Seq<char>>, b: Option<Seq<char>>) -> Option<Seq<char>> {
    match (a, b) {
        (Some(x), Some(y)) => if text::text_lt(y, x) {
            b
        } else {
            a
        },
        (Some(_), None) => a,
        (None, _) => b,
    }
}

/// The oldest stamp still hot: the earlier of what the edges and the log hold.
pub fn oldest_hot_stamp(links: Option<String>, log: Option<String>) -> (oldest: Option<String>)
    ensures
        text::opt_view(oldest) == earlier_of(text::opt_view(links), text::opt_view(log)),
{
    match (links, log) {
        (Some(x), Some(y)) => if text_order(y.as_str(), x.as_str()) == Order::Less {
            Some(y)
        } else {
            Some(x)
        },
        (Some(x), None) => Some(x),
        (None, y) => y,
    }
}

/// How many windows of `window` nanoseconds a span of `span` takes.
pub open spec fn sessions(span: int, window: int) -> int {
    (span + window - 1) / window
}

/// The microsecond at which the window of index `k` ends.
pub open spec fn boundary(start: int, window: int, k: int) -> int {
    start + window * (k + 1) / 1000
}

/// Why a window is refused that would take too many sessions.
pub open spec fn too_many(span: u128, needed: int) -> Seq<char> {
    "a span of "@ + error::duration_shown(span) + " would need "@ + text::decimal(needed as nat)
        + " sessions (limit "@ + text::decimal(MAX_ARCHIVE_SESSIONS as nat) + "); widen the window"@
}

/// Whether `list` holds the ends of the windows from `start` on, and then the
/// cutoff.
pub open spec fn are_boundaries(
    list: Seq<Seq<char>>,
    start: int,
    window: int,
    needed: int,
    cutoff: Seq<char>,
) -> bool {
    &&& list.len() == (if needed < 1 {
        1
    } else {
        needed
    })
    &&& list.last() == cutoff
    &&& forall|k: int|
        0 <= k < list.len() - 1 ==> timestamp::is_canonical(#[trigger] list[k]) && instant::micros_of(list[k])
            == boundary(start, window, k)
}

/// The microsecond that a stamp names.
pub open spec fn micros(stamp: Seq<char>) -> int {
    instant::micros_of(timestamp::widened(stamp)) as int
}

proof fn lemma_window_inside(span: int, window: int, k: int)
    requires
        0 <= span,
        0 < window,
        0 <= k,
        k + 1 < sessions(span, window),
    ensures
        0 < window * (k + 1) < span,
{
    let n = sessions(span, window);
    vstd::arithmetic::div_mod::lemma_fundamental_div_mod(span + window - 1, window);
    vstd::arithmetic::div_mod::lemma_mod_bound(span + window - 1, window);
    assert(window * n <= span + window - 1);
    assert(window * (k + 1) + window <= window * n) by (nonlinear_arith)
        requires
            k + 2 <= n,
            0 < window,
    ;
    assert(0 < window * (k + 1)) by (nonlinear_arith)
        requires
            0 < window,
            0 <= k,
    ;
}

/// The cutoffs at which an archive run up to `cutoff` is taken, one session
/// each, where the oldest hot stamp is `oldest`.
pub fn archive_boundaries(cutoff: &str, window: u128, oldest: Option<String>) -> (list: Result<Vec<String>>)
    requires
        window <= MAX_NANOS,
    ensures
        oldest.is_none() ==> (list matches Ok(l) && plan::texts(l@) == seq![cutoff@]),
        oldest matches Some(first) ==> ({
            let start = micros(first@);
            let end = micros(cutoff@);
            let span = (end - start) * 1000;
            if !timestamp::is_stamp(first@) {
                list matches Err(e) && timestamp::refuses(e, first@)
            } else if !timestamp::is_stamp(cutoff@) {
                list matches Err(e) && timestamp::refuses(e, cutoff@)
            } else if end < start {
                list matches Ok(l) && plan::texts(l@) == seq![cutoff@]
            } else if window == 0 {
                list matches Err(e) && (e matches DbError::ArchiveWindow { window: w, reason } && w == 0 && reason@
                    == "a zero-length window never advances past the first boundary"@)
            } else if sessions(span, window as int) > MAX_ARCHIVE_SESSIONS {
                list matches Err(e) && (e matches DbError::ArchiveWindow { window: w, reason } && w == window
                    && reason@ == too_many(span as u128, sessions(span, window as int)))
            } else {
                list matches Ok(l) && are_boundaries(
                    plan::texts(l@),
                    start,
                    window as int,
                    sessions(span, window as int),
                    cutoff@,
                )
            }
        }),
{
    let oldest = match oldest {
        Some(oldest) => oldest,
        None => {
            let mut only: Vec<String> = Vec::new();
            only.push(cutoff.to_owned());
            proof {
                assert(plan::texts(only@) =~= seq![cutoff@]);
            }
            return Ok(only);
        },
    };
    let start: u64 = match instant::parse(oldest.as_str()) {
        Ok(t) => t,
        Err(e) => {
            return Err(e);
        },
    };
    let end: u64 = match instant::parse(cutoff) {
        Ok(t) => t,
        Err(e) => {
            return Err(e);
        },
    };
    let mut list: Vec<String> = Vec::new();
    if end < start {
        list.push(cutoff.to_owned());
        proof {
            assert(plan::texts(list@) =~= seq![cutoff@]);
        }
        return Ok(list);
    }
    if window == 0 {
        return Err(
            DbError::ArchiveWindow {
                window,
                reason: "a zero-length window never advances past the first boundary".to_owned(),
            },
        );
    }
    let span: u128 = (end - start) as u128 * 1000;
    let needed: u128 = (span + window - 1) / window;
    if needed > MAX_ARCHIVE_SESSIONS as u128 {
        let mut reason = "a span of ".to_owned();
        reason.append(duration_debug(span).as_str());
        reason.append(" would need ");
        push_wide(&mut reason, needed);
        reason.append(" sessions (limit ");
        push_decimal(&mut reason, MAX_ARCHIVE_SESSIONS as u64);
        reason.append("); widen the window");
        return Err(DbError::ArchiveWindow { window, reason });
    }
    let mut k: u128 = 1;
    while k < needed
        invariant
            1 <= k,
            k <= needed || k == 1,
            needed <= MAX_ARCHIVE_SESSIONS,
            0 < window <= MAX_NANOS,
            start <= end < instant::END,
            span == (end - start) * 1000,
            needed == sessions(span as int, window as int),
            list@.len() == k - 1,
            forall|j: int|
                0 <= j < list@.len() ==> timestamp::is_canonical((#[trigger] list@[j])@) && instant::micros_of(
                    list@[j]@,
                ) == boundary(start as int, window as int, j),
        decreases needed - k,
    {
        proof {
            lemma_window_inside(span as int, window as int, k - 1);
        }
        let into: u128 = window * k / 1000;
        list.push(instant::format(start + into as u64));
        k = k + 1;
    }
    list.push(cutoff.to_owned());
    proof {
        let texts = plan::texts(list@);
        assert forall|j: int| 0 <= j < texts.len() - 1 implies timestamp::is_canonical(#[trigger] texts[j])
            && instant::micros_of(texts[j]) == boundary(start as int, window as int, j) by {
            assert(texts[j] == list@[j]@);
        }
    }
    Ok(list)
}

/// The windows of a run follow one another within the span. From one end to the
/// next is at most as long as was asked for, but for the part of a microsecond
/// that a stamp cannot hold, and what is left for the last of them, which the
/// cutoff ends, is no longer than a window.
pub proof fn law_windows_cover_the_span(start: int, end: int, window: int, k: int)
    requires
        start <= end,
        0 < window,
        0 <= k < sessions((end - start) * 1000, window),
    ensures
        k + 1 < sessions((end - start) * 1000, window) ==> start <= boundary(start, window, k) <= end,
        k + 2 < sessions((end - start) * 1000, window) ==> boundary(start, window, k) <= boundary(
            start,
            window,
            k + 1,
        ) && (boundary(start, window, k + 1) - boundary(start, window, k) - 1) * 1000 < window,
        (end - start) * 1000 - window * (sessions((end - start) * 1000, window) - 1) <= window,
{
    let span = (end - start) * 1000;
    let n = sessions(span, window);
    vstd::arithmetic::div_mod::lemma_fundamental_div_mod(span + window - 1, window);
    vstd::arithmetic::div_mod::lemma_mod_bound(span + window - 1, window);
    assert(window * (n - 1) == window * n - window) by (nonlinear_arith);
    assert(window * (k + 1) + window == window * (k + 2)) by (nonlinear_arith);
    if k + 1 < n {
        lemma_window_inside(span, window, k);
    }
    if k + 2 < n {
        lemma_window_inside(span, window, k + 1);
    }
}

} // verus!
