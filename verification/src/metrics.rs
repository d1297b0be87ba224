//! What the writer did with its turns.
//!
//! Durations are nanoseconds.

use vstd::prelude::*;

use crate::connection::chunk::CHUNK_BUDGET;

verus! {

/// What a turn of the writer was for.
#[derive(Debug, Clone, Copy, PartialEq, Eq, Structural, Hash, PartialOrd, Ord)]
pub enum CommandKind {
    AssertEdge,
    RetireEdge,
    UpsertConcept,
    WriteBulkAtomic,
    RebuildCurrent,
    RegisterModel,
    Shutdown,
    BulkImportChunk,
    WriteConceptsChunk,
    WriteAnalyticsChunk,
    UpsertEmbeddingChunk,
    Archive,
    RebuildFts,
    ShadowRebuild,
    Checkpoint,
    Rehydrate,
    Analyze,
}

impl CommandKind {
    /// Every kind, in order.
    pub const ALL: [CommandKind; 17] = [
        CommandKind::AssertEdge,
        CommandKind::RetireEdge,
        CommandKind::UpsertConcept,
        CommandKind::WriteBulkAtomic,
        CommandKind::RebuildCurrent,
        CommandKind::RegisterModel,
        CommandKind::Shutdown,
        CommandKind::BulkImportChunk,
        CommandKind::WriteConceptsChunk,
        CommandKind::WriteAnalyticsChunk,
        CommandKind::UpsertEmbeddingChunk,
        CommandKind::Archive,
        CommandKind::RebuildFts,
        CommandKind::ShadowRebuild,
        CommandKind::Checkpoint,
        CommandKind::Rehydrate,
        CommandKind::Analyze,
    ];

    /// How many kinds there are.
    pub const COUNT: usize = 17;

    /// The place of a kind in the order.
    pub open spec fn place(self) -> int {
        match self {
            CommandKind::AssertEdge => 0,
            CommandKind::RetireEdge => 1,
            CommandKind::UpsertConcept => 2,
            CommandKind::WriteBulkAtomic => 3,
            CommandKind::RebuildCurrent => 4,
            CommandKind::RegisterModel => 5,
            CommandKind::Shutdown => 6,
            CommandKind::BulkImportChunk => 7,
            CommandKind::WriteConceptsChunk => 8,
            CommandKind::WriteAnalyticsChunk => 9,
            CommandKind::UpsertEmbeddingChunk => 10,
            CommandKind::Archive => 11,
            CommandKind::RebuildFts => 12,
            CommandKind::ShadowRebuild => 13,
            CommandKind::Checkpoint => 14,
            CommandKind::Rehydrate => 15,
            CommandKind::Analyze => 16,
        }
    }

    /// The place of a kind in the order.
    pub fn index(self) -> (i: usize)
        ensures
            i == self.place(),
            i < CommandKind::COUNT,
    {
        match self {
            CommandKind::AssertEdge => 0,
            CommandKind::RetireEdge => 1,
            CommandKind::UpsertConcept => 2,
            CommandKind::WriteBulkAtomic => 3,
            CommandKind::RebuildCurrent => 4,
            CommandKind::RegisterModel => 5,
            CommandKind::Shutdown => 6,
            CommandKind::BulkImportChunk => 7,
            CommandKind::WriteConceptsChunk => 8,
            CommandKind::WriteAnalyticsChunk => 9,
            CommandKind::UpsertEmbeddingChunk => 10,
            CommandKind::Archive => 11,
            CommandKind::RebuildFts => 12,
            CommandKind::ShadowRebuild => 13,
            CommandKind::Checkpoint => 14,
            CommandKind::Rehydrate => 15,
            CommandKind::Analyze => 16,
        }
    }

    /// The kind at a place in the order; none past the last.
    pub fn at(i: usize) -> (kind: Option<CommandKind>)
        ensures
            kind.is_some() == (i < CommandKind::COUNT),
            kind matches Some(k) ==> k.place() == i,
    {
        if i < 17 {
            let all = CommandKind::ALL;
            Some(all[i])
        } else {
            None
        }
    }
}

impl CommandKind {
    /// The name of a kind.
    pub open spec fn name(self) -> Seq<char> {
        match self {
            CommandKind::AssertEdge => "assert_edge"@,
            CommandKind::RetireEdge => "retire_edge"@,
            CommandKind::UpsertConcept => "upsert_concept"@,
            CommandKind::WriteBulkAtomic => "write_bulk_atomic"@,
            CommandKind::RebuildCurrent => "rebuild_current"@,
            CommandKind::RegisterModel => "register_model"@,
            CommandKind::Shutdown => "shutdown"@,
            CommandKind::BulkImportChunk => "bulk_import_chunk"@,
            CommandKind::WriteConceptsChunk => "write_concepts_chunk"@,
            CommandKind::WriteAnalyticsChunk => "write_analytics_chunk"@,
            CommandKind::UpsertEmbeddingChunk => "upsert_embedding_chunk"@,
            CommandKind::Archive => "archive"@,
            CommandKind::RebuildFts => "rebuild_fts"@,
            CommandKind::ShadowRebuild => "shadow_rebuild"@,
            CommandKind::Checkpoint => "checkpoint"@,
            CommandKind::Rehydrate => "rehydrate"@,
            CommandKind::Analyze => "analyze"@,
        }
    }

    /// The name of a kind.
    pub fn as_str(self) -> (name: &'static str)
        ensures
            name@ == self.name(),
    {
        match self {
            CommandKind::AssertEdge => "assert_edge",
            CommandKind::RetireEdge => "retire_edge",
            CommandKind::UpsertConcept => "upsert_concept",
            CommandKind::WriteBulkAtomic => "write_bulk_atomic",
            CommandKind::RebuildCurrent => "rebuild_current",
            CommandKind::RegisterModel => "register_model",
            CommandKind::Shutdown => "shutdown",
            CommandKind::BulkImportChunk => "bulk_import_chunk",
            CommandKind::WriteConceptsChunk => "write_concepts_chunk",
            CommandKind::WriteAnalyticsChunk => "write_analytics_chunk",
            CommandKind::UpsertEmbeddingChunk => "upsert_embedding_chunk",
            CommandKind::Archive => "archive",
            CommandKind::RebuildFts => "rebuild_fts",
            CommandKind::ShadowRebuild => "shadow_rebuild",
            CommandKind::Checkpoint => "checkpoint",
            CommandKind::Rehydrate => "rehydrate",
            CommandKind::Analyze => "analyze",
        }
    }

    /// Whether a kind may hold the lock past the budget: its work is one act
    /// that cannot be cut up.
    pub open spec fn is_exempt(self) -> bool {
        ||| self == CommandKind::WriteBulkAtomic
        ||| self == CommandKind::Archive
        ||| self == CommandKind::RebuildCurrent
        ||| self == CommandKind::Rehydrate
        ||| self == CommandKind::Checkpoint
    }

    /// Whether a kind may hold the lock past the budget.
    pub fn exempt_from_budget(self) -> (exempt: bool)
        ensures
            exempt == self.is_exempt(),
    {
        matches!(
            self,
            CommandKind::WriteBulkAtomic | CommandKind::Archive | CommandKind::RebuildCurrent
                | CommandKind::Rehydrate | CommandKind::Checkpoint
        )
    }
}

/// The upper ends of the buckets that holds are counted in, in microseconds.
pub const BUCKET_BOUNDS_MICROS: [u64; 9] = [
    100, 300, 1_000, 3_000, 10_000, 30_000, 100_000, 300_000, 1_000_000,
];

/// How many buckets there are; the last has no upper end.
pub const BUCKET_COUNT: usize = 10;

/// The upper end of a bucket but the last.
pub open spec fn bound_of(b: int) -> int {
    if b <= 0 {
        100
    } else if b == 1 {
        300
    } else if b == 2 {
        1_000
    } else if b == 3 {
        3_000
    } else if b == 4 {
        10_000
    } else if b == 5 {
        30_000
    } else if b == 6 {
        100_000
    } else if b == 7 {
        300_000
    } else {
        1_000_000
    }
}

/// Whether a hold belongs in bucket `b`: at most its upper end, and past that
/// of the bucket before.
pub open spec fn in_bucket(micros: int, b: int) -> bool {
    &&& 0 <= b < BUCKET_COUNT
    &&& b < BUCKET_COUNT - 1 ==> micros <= bound_of(b)
    &&& 0 < b ==> bound_of(b - 1) < micros
}

/// A hold belongs in one bucket alone, and a longer one in none before it.
pub proof fn law_a_hold_belongs_in_one_bucket(m1: int, b1: int, m2: int, b2: int)
    requires
        in_bucket(m1, b1),
        in_bucket(m2, b2),
        m1 <= m2,
    ensures
        b1 <= b2,
        m1 == m2 ==> b1 == b2,
{
}

/// The bucket that a hold belongs in.
pub fn bucket_of(micros: u64) -> (b: usize)
    ensures
        in_bucket(micros as int, b as int),
        b < BUCKET_COUNT,
{
    let bounds = BUCKET_BOUNDS_MICROS;
    let mut b: usize = 0;
    while b < 9
        invariant
            bounds == BUCKET_BOUNDS_MICROS,
            b <= 9,
            0 < b ==> bound_of(b - 1) < micros,
        decreases 9 - b,
    {
        proof {
            assert(bounds@[b as int] == bound_of(b as int));
        }
        if micros <= bounds[b] {
            return b;
        }
        b = b + 1;
    }
    9
}

/// The longest hold that is told apart from longer ones, in microseconds.
pub const MICROS_CEILING: u64 = 72_057_594_037_927_935;

/// A hold in whole microseconds.
pub open spec fn micros_held(held: u128) -> int {
    if held / 1000 > MICROS_CEILING {
        MICROS_CEILING as int
    } else {
        (held / 1000) as int
    }
}

/// A hold and what held it in one number, the hold first.
pub open spec fn packed(micros: int, kind: CommandKind) -> int {
    micros * 256 + kind.place()
}

/// A longer hold outranks a shorter one whatever held either, and neither the
/// hold nor its holder is lost.
pub proof fn law_packing_orders_by_the_hold(m1: int, k1: CommandKind, m2: int, k2: CommandKind)
    requires
        0 <= m1 <= MICROS_CEILING,
        0 <= m2 <= MICROS_CEILING,
    ensures
        m1 < m2 ==> packed(m1, k1) < packed(m2, k2),
        packed(m1, k1) / 256 == m1,
        packed(m1, k1) % 256 == k1.place(),
        0 <= packed(m1, k1) <= u64::MAX,
{
}

/// When a turn began, on a clock that does not go back.
#[derive(Debug, Clone, Copy, PartialEq, Eq, Structural)]
pub struct HoldTimer {
    pub started: u128,
}

impl HoldTimer {
    /// A turn that begins at `now`.
    pub fn start(now: u128) -> (t: HoldTimer)
        ensures
            t.started == now,
    {
        HoldTimer { started: now }
    }

    /// How long the turn has lasted at `now`; nought where the clock says less.
    pub fn elapsed(&self, now: u128) -> (held: u128)
        ensures
            held == (if self.started <= now {
                now - self.started
            } else {
                0
            }),
    {
        if self.started <= now {
            now - self.started
        } else {
            0
        }
    }
}

/// What one kind of command did with its turns.
#[derive(Debug)]
pub struct Kind {
    pub turns: u64,
    pub total_micros: u64,
    pub over_budget: u64,
    pub longest_micros: u64,
    pub buckets: Vec<u64>,
}

/// What one kind of command did with its turns.
pub struct KindView {
    pub turns: u64,
    pub total_micros: u64,
    pub over_budget: u64,
    pub longest_micros: u64,
    pub buckets: Seq<u64>,
}

impl View for Kind {
    type V = KindView;

    open spec fn view(&self) -> KindView {
        KindView {
            turns: self.turns,
            total_micros: self.total_micros,
            over_budget: self.over_budget,
            longest_micros: self.longest_micros,
            buckets: self.buckets@,
        }
    }
}

/// One more of a counter that goes round at its end.
pub open spec fn plus(a: u64, b: int) -> u64 {
    ((a + b) % 0x1_0000_0000_0000_0000) as u64
}

/// The larger of two counts.
pub open spec fn larger(a: u64, b: int) -> u64 {
    if a < b {
        b as u64
    } else {
        a
    }
}

/// A kind after one more hold, which falls into bucket `b`.
pub open spec fn after_hold(k: KindView, held: u128, b: int, exempt: bool) -> KindView {
    KindView {
        turns: plus(k.turns, 1),
        total_micros: plus(k.total_micros, micros_held(held)),
        over_budget: if !exempt && held > CHUNK_BUDGET {
            plus(k.over_budget, 1)
        } else {
            k.over_budget
        },
        longest_micros: larger(k.longest_micros, micros_held(held)),
        buckets: k.buckets.update(b, plus(k.buckets[b], 1)),
    }
}

/// A hold counts once, for as long as it lasted, against the budget where it was
/// longer and its kind is not exempt, and it is the longest where none was longer.
pub proof fn law_a_hold_is_taken_in(k: KindView, held: u128, b: int, exempt: bool)
    requires
        k.turns < u64::MAX,
        k.over_budget < u64::MAX,
        k.total_micros + micros_held(held) <= u64::MAX,
    ensures
        after_hold(k, held, b, exempt).turns == k.turns + 1,
        after_hold(k, held, b, exempt).total_micros == k.total_micros + micros_held(held),
        after_hold(k, held, b, exempt).over_budget > k.over_budget <==> held > 3_000_000 && !exempt,
        after_hold(k, held, b, exempt).over_budget <= k.over_budget + 1,
        after_hold(k, held, b, exempt).over_budget >= k.over_budget,
        after_hold(k, held, b, exempt).longest_micros >= k.longest_micros,
        after_hold(k, held, b, exempt).longest_micros >= micros_held(held),
        after_hold(k, held, b, exempt).longest_micros == k.longest_micros || after_hold(
            k,
            held,
            b,
            exempt,
        ).longest_micros == micros_held(held),
{
}

/// The first `n` counts added up.
pub open spec fn sum_of(counts: Seq<u64>, n: int) -> int
    decreases n,
{
    if n <= 0 {
        0
    } else {
        sum_of(counts, n - 1) + counts[n - 1]
    }
}

proof fn lemma_sum_of(a: Seq<u64>, b: Seq<u64>, at: int, n: int)
    requires
        0 <= n <= a.len(),
        0 <= at < a.len(),
        b == a.update(at, b[at]),
    ensures
        sum_of(b, n) == sum_of(a, n) + (if at < n {
            b[at] - a[at]
        } else {
            0
        }),
        0 <= sum_of(a, n),
        at < n ==> a[at] <= sum_of(a, n),
    decreases n,
{
    if n > 0 {
        lemma_sum_of(a, b, at, n - 1);
    }
}

proof fn lemma_no_sum(counts: Seq<u64>, n: int)
    requires
        0 <= n <= counts.len(),
        forall|i: int| 0 <= i < n ==> #[trigger] counts[i] == 0,
    ensures
        sum_of(counts, n) == 0,
    decreases n,
{
    if n > 0 {
        lemma_no_sum(counts, n - 1);
    }
}

impl KindView {
    /// Whether the counters of a kind agree: every turn is in one bucket, no
    /// more turns broke the budget than were taken, none where the kind is
    /// exempt from it, and no turn was longer than the longest.
    pub open spec fn adds_up(self, exempt: bool) -> bool {
        &&& self.buckets.len() == BUCKET_COUNT
        &&& sum_of(self.buckets, BUCKET_COUNT as int) == self.turns
        &&& self.over_budget <= self.turns
        &&& exempt ==> self.over_budget == 0
        &&& self.total_micros <= self.turns * self.longest_micros
    }

    /// Whether one more hold takes no counter past its end.
    pub open spec fn has_room(self, held: u128) -> bool {
        self.turns < u64::MAX && self.total_micros + micros_held(held) <= u64::MAX
    }
}

proof fn lemma_adds_up(k: KindView, held: u128, b: int, exempt: bool)
    requires
        k.adds_up(exempt),
        k.has_room(held),
        0 <= b < BUCKET_COUNT,
    ensures
        after_hold(k, held, b, exempt).adds_up(exempt),
{
    let after = after_hold(k, held, b, exempt);
    lemma_sum_of(k.buckets, after.buckets, b, BUCKET_COUNT as int);
    let (n, l, m, x, t) = (
        k.turns as int,
        after.longest_micros as int,
        micros_held(held),
        k.longest_micros as int,
        k.total_micros as int,
    );
    assert(t + m <= (n + 1) * l) by (nonlinear_arith)
        requires
            t <= n * x,
            x <= l,
            m <= l,
            0 <= n,
    ;
}

/// The counters of the writer.
#[derive(Debug)]
pub struct ActorMetrics {
    pub kinds: Vec<Kind>,
    /// The longest hold and what held it, packed.
    pub longest: u64,
    pub depth_samples: u64,
    pub high_depth_sum: u64,
    pub high_depth_max: u64,
    pub low_depth_sum: u64,
    pub low_depth_max: u64,
    /// Turns that went to high-priority work while other work waited.
    pub passed_over: u64,
    /// The unbroken run of such turns that is under way.
    pub passed_run: u64,
    /// The longest unbroken run of such turns.
    pub passed_run_max: u64,
}

/// No turns yet.
pub open spec fn idle() -> KindView {
    KindView {
        turns: 0,
        total_micros: 0,
        over_budget: 0,
        longest_micros: 0,
        buckets: Seq::new(BUCKET_COUNT as nat, |i: int| 0u64),
    }
}

fn wrap_add(a: u64, b: u64) -> (c: u64)
    ensures
        c == plus(a, b as int),
{
    let room: u64 = u64::MAX - a;
    if b <= room {
        a + b
    } else {
        b - room - 1
    }
}

fn zeros(n: usize) -> (list: Vec<u64>)
    ensures
        list@ == Seq::new(n as nat, |i: int| 0u64),
{
    let mut list: Vec<u64> = Vec::new();
    let mut i: usize = 0;
    while i < n
        invariant
            i <= n,
            list@ =~= Seq::new(i as nat, |j: int| 0u64),
        decreases n - i,
    {
        list.push(0);
        i = i + 1;
    }
    list
}

/// How many turns all kinds took, added up to the first `n`.
pub open spec fn turns_of(kinds: Seq<Kind>, n: int) -> int
    decreases n,
{
    if n <= 0 {
        0
    } else {
        turns_of(kinds, n - 1) + kinds[n - 1].turns
    }
}

proof fn lemma_turns_grow(kinds: Seq<Kind>, n: int, m: int)
    requires
        0 <= n <= m,
    ensures
        0 <= turns_of(kinds, n) <= turns_of(kinds, m),
    decreases m,
{
    if n < m {
        lemma_turns_grow(kinds, n, m - 1);
    } else if n > 0 {
        lemma_turns_grow(kinds, n - 1, n - 1);
    }
}

proof fn lemma_history(before: ActorMetrics, after: ActorMetrics, kind: CommandKind, held: u128, b: int)
    requires
        before.wf(),
        before.adds_up(),
        before.kinds@[kind.place()]@.has_room(held),
        in_bucket(micros_held(held), b),
        after.kinds@[kind.place()]@ == after_hold(before.kinds@[kind.place()]@, held, b, kind.is_exempt()),
        forall|i: int|
            0 <= i < CommandKind::COUNT && i != kind.place() ==> #[trigger] after.kinds@[i] == before.kinds@[i],
        after.longest == larger(before.longest, packed(micros_held(held), kind)),
    ensures
        after.adds_up(),
{
    let m = micros_held(held);
    lemma_adds_up(before.kinds@[kind.place()]@, held, b, kind.is_exempt());
    let top = choose|k: CommandKind| before.longest == packed(
        (#[trigger] before.kinds@[k.place()]).longest_micros as int,
        k,
    );
    assert forall|k: CommandKind| (#[trigger] after.kinds@[k.place()])@.adds_up(k.is_exempt()) by {
        if k.place() == kind.place() {
            assert(k == kind);
        } else {
            assert(after.kinds@[k.place()] == before.kinds@[k.place()]);
            assert(before.kinds@[k.place()]@.adds_up(k.is_exempt()));
        }
    }
    assert forall|k: CommandKind|
        (#[trigger] after.kinds@[k.place()]).longest_micros <= after.longest as int / 256 by {
        assert(before.kinds@[k.place()].longest_micros <= before.longest as int / 256);
        if k.place() != kind.place() {
            assert(after.kinds@[k.place()] == before.kinds@[k.place()]);
        }
    }
    if before.longest < packed(m, kind) {
        assert(after.longest == packed(m, kind));
        assert(before.kinds@[kind.place()].longest_micros <= before.longest as int / 256);
        assert(after.kinds@[kind.place()].longest_micros == m);
    } else {
        if top != kind {
            assert(after.kinds@[top.place()] == before.kinds@[top.place()]);
        } else {
            assert(after.kinds@[top.place()].longest_micros == before.kinds@[top.place()].longest_micros);
        }
        assert(after.longest == packed(after.kinds@[top.place()].longest_micros as int, top));
    }
}

impl Default for ActorMetrics {
    fn default() -> (m: ActorMetrics)
        ensures
            m.is_idle(),
    {
        ActorMetrics::new()
    }
}

impl ActorMetrics {
    /// One set of counters for each kind, with one counter for each bucket.
    pub open spec fn wf(&self) -> bool {
        &&& self.kinds@.len() == CommandKind::COUNT
        &&& forall|i: int|
            0 <= i < self.kinds@.len() ==> (#[trigger] self.kinds@[i]).buckets@.len() == BUCKET_COUNT
        &&& exists|m: int, k: CommandKind|
            0 <= m <= MICROS_CEILING && self.longest == #[trigger] packed(m, k)
    }

    /// Whether the counters agree with one another: those of each kind among
    /// themselves, and the longest hold of all is the longest of its kind and no
    /// shorter than that of any other. So it is from the first turn on, as long
    /// as no counter comes to its end.
    pub open spec fn adds_up(&self) -> bool {
        &&& forall|kind: CommandKind| (#[trigger] self.kinds@[kind.place()])@.adds_up(kind.is_exempt())
        &&& forall|kind: CommandKind|
            (#[trigger] self.kinds@[kind.place()]).longest_micros <= self.longest as int / 256
        &&& exists|kind: CommandKind| self.longest == packed(
            (#[trigger] self.kinds@[kind.place()]).longest_micros as int,
            kind,
        )
    }

    /// Whether nothing has been counted.
    pub open spec fn is_idle(&self) -> bool {
        &&& self.wf()
        &&& self.adds_up()
        &&& forall|i: int| 0 <= i < CommandKind::COUNT ==> (#[trigger] self.kinds@[i])@ == idle()
        &&& self.longest == 0
        &&& self.depth_samples == 0
        &&& self.high_depth_sum == 0
        &&& self.high_depth_max == 0
        &&& self.low_depth_sum == 0
        &&& self.low_depth_max == 0
        &&& self.passed_over == 0
        &&& self.passed_run == 0
        &&& self.passed_run_max == 0
    }

    /// Counters that have counted nothing.
    pub fn new() -> (m: ActorMetrics)
        ensures
            m.is_idle(),
    {
        let mut kinds: Vec<Kind> = Vec::new();
        while kinds.len() < CommandKind::COUNT
            invariant
                kinds@.len() <= CommandKind::COUNT,
                forall|i: int| 0 <= i < kinds@.len() ==> (#[trigger] kinds@[i])@ == idle(),
            decreases CommandKind::COUNT - kinds@.len(),
        {
            kinds.push(
                Kind {
                    turns: 0,
                    total_micros: 0,
                    over_budget: 0,
                    longest_micros: 0,
                    buckets: zeros(BUCKET_COUNT),
                },
            );
        }
        proof {
            assert(0 == packed(0, CommandKind::AssertEdge));
            assert forall|i: int| 0 <= i < kinds@.len() implies (#[trigger] kinds@[i]).buckets@.len()
                == BUCKET_COUNT by {
                assert(kinds@[i]@ == idle());
            }
            assert forall|kind: CommandKind| (#[trigger] kinds@[kind.place()])@.adds_up(kind.is_exempt()) by {
                assert(kinds@[kind.place()]@ == idle());
                lemma_no_sum(idle().buckets, BUCKET_COUNT as int);
            }
            assert forall|kind: CommandKind| (#[trigger] kinds@[kind.place()]).longest_micros == 0 by {
                assert(kinds@[kind.place()]@ == idle());
            }
            assert(kinds@[CommandKind::AssertEdge.place()].longest_micros == 0);
        }
        ActorMetrics {
            kinds,
            longest: 0,
            depth_samples: 0,
            high_depth_sum: 0,
            high_depth_max: 0,
            low_depth_sum: 0,
            low_depth_max: 0,
            passed_over: 0,
            passed_run: 0,
            passed_run_max: 0,
        }
    }

    /// Counts the backlog that a turn found.
    pub fn record_turn(&mut self, high_depth: usize, low_depth: usize)
        requires
            old(self).wf(),
        ensures
            final(self).wf(),
            *final(self) == (ActorMetrics {
                depth_samples: plus(old(self).depth_samples, 1),
                high_depth_sum: plus(old(self).high_depth_sum, high_depth as int),
                high_depth_max: larger(old(self).high_depth_max, high_depth as int),
                low_depth_sum: plus(old(self).low_depth_sum, low_depth as int),
                low_depth_max: larger(old(self).low_depth_max, low_depth as int),
                ..*old(self)
            }),
            old(self).adds_up() ==> final(self).adds_up(),
    {
        self.depth_samples = wrap_add(self.depth_samples, 1);
        self.high_depth_sum = wrap_add(self.high_depth_sum, high_depth as u64);
        if self.high_depth_max < high_depth as u64 {
            self.high_depth_max = high_depth as u64;
        }
        self.low_depth_sum = wrap_add(self.low_depth_sum, low_depth as u64);
        if self.low_depth_max < low_depth as u64 {
            self.low_depth_max = low_depth as u64;
        }
    }

    /// Counts which queue a turn was taken from, with `low_queued` commands
    /// waiting in the other.
    pub fn record_priority_choice(&mut self, high: bool, low_queued: usize)
        requires
            old(self).wf(),
        ensures
            final(self).wf(),
            *final(self) == (if high && low_queued > 0 {
                ActorMetrics {
                    passed_over: plus(old(self).passed_over, 1),
                    passed_run: plus(old(self).passed_run, 1),
                    passed_run_max: larger(
                        old(self).passed_run_max,
                        plus(old(self).passed_run, 1) as int,
                    ),
                    ..*old(self)
                }
            } else {
                ActorMetrics { passed_run: 0, ..*old(self) }
            }),
            old(self).adds_up() ==> final(self).adds_up(),
    {
        if high && low_queued > 0 {
            self.passed_over = wrap_add(self.passed_over, 1);
            self.passed_run = wrap_add(self.passed_run, 1);
            if self.passed_run_max < self.passed_run {
                self.passed_run_max = self.passed_run;
            }
        } else {
            self.passed_run = 0;
        }
    }

    /// Counts a turn of `kind` that held the lock for `held`.
    pub fn record_hold(&mut self, kind: CommandKind, held: u128)
        requires
            old(self).wf(),
        ensures
            final(self).wf(),
            exists|b: int| #[trigger]
                in_bucket(micros_held(held), b) && final(self).kinds@[kind.place()]@ == after_hold(
                    old(self).kinds@[kind.place()]@,
                    held,
                    b,
                    kind.is_exempt(),
                ),
            forall|i: int|
                0 <= i < CommandKind::COUNT && i != kind.place() ==> #[trigger] final(self).kinds@[i]
                    == old(self).kinds@[i],
            final(self).longest == larger(old(self).longest, packed(micros_held(held), kind)),
            *final(self) == (ActorMetrics {
                kinds: final(self).kinds,
                longest: final(self).longest,
                ..*old(self)
            }),
            old(self).adds_up() && old(self).kinds@[kind.place()]@.has_room(held) ==> final(self).adds_up(),
    {
        let micros: u64 = if held / 1000 > MICROS_CEILING as u128 {
            MICROS_CEILING
        } else {
            (held / 1000) as u64
        };
        let i: usize = kind.index();
        let b: usize = bucket_of(micros);
        let ghost before = *self;
        let over = !kind.exempt_from_budget() && held > CHUNK_BUDGET;
        let k = &mut self.kinds[i];
        k.turns = wrap_add(k.turns, 1);
        k.total_micros = wrap_add(k.total_micros, micros);
        let count: u64 = wrap_add(k.buckets[b], 1);
        k.buckets.set(b, count);
        if k.longest_micros < micros {
            k.longest_micros = micros;
        }
        if over {
            k.over_budget = wrap_add(k.over_budget, 1);
        }
        proof {
            law_packing_orders_by_the_hold(micros as int, kind, micros as int, kind);
        }
        let code: u64 = micros * 256 + i as u64;
        if self.longest < code {
            self.longest = code;
        }
        proof {
            let at = kind.place();
            assert(in_bucket(micros_held(held), b as int));
            assert(self.kinds@[at]@ == after_hold(before.kinds@[at]@, held, b as int, kind.is_exempt()));
            assert forall|j: int| 0 <= j < self.kinds@.len() implies (#[trigger] self.kinds@[j]).buckets@.len()
                == BUCKET_COUNT by {
                if j != at {
                    assert(self.kinds@[j] == before.kinds@[j]);
                }
            }
            assert(code == packed(micros as int, kind));
            if before.adds_up() && before.kinds@[at]@.has_room(held) {
                lemma_history(before, *self, kind, held, b as int);
            }
        }
    }

    /// What the counters say.
    pub fn snapshot(&self) -> (s: MetricsSnapshot)
        requires
            self.wf(),
            turns_of(self.kinds@, CommandKind::COUNT as int) <= u64::MAX,
        ensures
            s.turns == turns_of(self.kinds@, CommandKind::COUNT as int),
            s.depth_samples == self.depth_samples,
            s.high_depth_sum == self.high_depth_sum,
            s.high_depth_max == self.high_depth_max,
            s.low_depth_sum == self.low_depth_sum,
            s.low_depth_max == self.low_depth_max,
            s.passed_over == self.passed_over,
            s.passed_run_max == self.passed_run_max,
            s.longest.is_some() == (self.longest >= 256),
            s.longest matches Some((kind, held)) ==> held % 1000 == 0 && self.longest == packed(
                (held / 1000) as int,
                kind,
            ),
            s.kinds@.len() == CommandKind::COUNT,
            forall|i: int|
                0 <= i < CommandKind::COUNT ==> (#[trigger] s.kinds@[i]).kind.place() == i && s.kinds@[i].says(
                    self.kinds@[i]@,
                ),
            self.adds_up() ==> s.adds_up(),
    {
        let held_micros: u64 = self.longest / 256;
        let longest: Option<(CommandKind, u128)> = if held_micros > 0 {
            match CommandKind::at((self.longest % 256) as usize) {
                Some(kind) => Some((kind, held_micros as u128 * 1000)),
                None => None,
            }
        } else {
            None
        };
        proof {
            let (m, k) = choose|m: int, k: CommandKind|
                0 <= m <= MICROS_CEILING && self.longest == #[trigger] packed(m, k);
            law_packing_orders_by_the_hold(m, k, m, k);
        }
        let mut kinds: Vec<KindSnapshot> = Vec::new();
        let mut turns: u64 = 0;
        let mut i: usize = 0;
        while i < CommandKind::COUNT
            invariant
                self.wf(),
                turns_of(self.kinds@, CommandKind::COUNT as int) <= u64::MAX,
                i <= CommandKind::COUNT,
                turns == turns_of(self.kinds@, i as int),
                kinds@.len() == i,
                forall|j: int|
                    0 <= j < i ==> (#[trigger] kinds@[j]).kind.place() == j && kinds@[j].says(
                        self.kinds@[j]@,
                    ),
            decreases CommandKind::COUNT - i,
        {
            proof {
                lemma_turns_grow(self.kinds@, i + 1, CommandKind::COUNT as int);
            }
            let k = &self.kinds[i];
            if let Some(kind) = CommandKind::at(i) {
                kinds.push(
                    KindSnapshot {
                        kind,
                        turns: k.turns,
                        over_budget: k.over_budget,
                        mean: if k.turns == 0 {
                            0
                        } else {
                            (k.total_micros / k.turns) as u128 * 1000
                        },
                        longest: k.longest_micros as u128 * 1000,
                        buckets: copied(&k.buckets),
                    },
                );
            }
            turns = turns + k.turns;
            i = i + 1;
        }
        let s = MetricsSnapshot {
            turns,
            depth_samples: self.depth_samples,
            high_depth_sum: self.high_depth_sum,
            high_depth_max: self.high_depth_max,
            low_depth_sum: self.low_depth_sum,
            low_depth_max: self.low_depth_max,
            passed_over: self.passed_over,
            passed_run_max: self.passed_run_max,
            longest,
            kinds,
        };
        proof {
            if self.adds_up() {
                lemma_reported(*self, s);
            }
        }
        s
    }
}

proof fn lemma_reported(m: ActorMetrics, s: MetricsSnapshot)
    requires
        m.wf(),
        m.adds_up(),
        s.turns == turns_of(m.kinds@, CommandKind::COUNT as int),
        s.longest.is_some() == (m.longest >= 256),
        s.longest matches Some((kind, held)) ==> held % 1000 == 0 && m.longest == packed(
            (held / 1000) as int,
            kind,
        ),
        s.kinds@.len() == CommandKind::COUNT,
        forall|i: int|
            0 <= i < CommandKind::COUNT ==> (#[trigger] s.kinds@[i]).kind.place() == i && s.kinds@[i].says(
                m.kinds@[i]@,
            ),
    ensures
        s.adds_up(),
{
    lemma_same_turns(m.kinds@, s.kinds@, CommandKind::COUNT as int);
    let top = choose|k: CommandKind| m.longest == packed(
        (#[trigger] m.kinds@[k.place()]).longest_micros as int,
        k,
    );
    assert forall|i: int| 0 <= i < s.kinds@.len() implies (#[trigger] s.kinds@[i]).adds_up()
        && s.kinds@[i].longest <= (m.longest as int / 256) * 1000 by {
        let k = s.kinds@[i].kind;
        assert(m.kinds@[k.place()]@.adds_up(k.is_exempt()));
        assert(m.kinds@[k.place()].longest_micros <= m.longest as int / 256);
        let (t, n, l) = (m.kinds@[i].total_micros as int, m.kinds@[i].turns as int, m.kinds@[i].longest_micros as int);
        if n > 0 {
            assert(t / n <= l) by (nonlinear_arith)
                requires
                    t <= n * l,
                    0 < n,
            ;
        }
    }
    assert(s.kinds@[top.place()].says(m.kinds@[top.place()]@));
    match s.longest {
        Some((kind, held)) => {
            assert(kind.place() == top.place());
            assert(kind == top);
            assert(s.kinds@[kind.place()].longest == held);
        },
        None => {},
    }
}

proof fn lemma_same_turns(kinds: Seq<Kind>, reports: Seq<KindSnapshot>, n: int)
    requires
        0 <= n <= kinds.len(),
        0 <= n <= reports.len(),
        forall|i: int| 0 <= i < n ==> (#[trigger] reports[i]).turns == kinds[i].turns,
    ensures
        turns_of(kinds, n) == turns_reported(reports, n),
    decreases n,
{
    if n > 0 {
        lemma_same_turns(kinds, reports, n - 1);
    }
}

/// The turns that the first `n` reports speak of, added up.
pub open spec fn turns_reported(kinds: Seq<KindSnapshot>, n: int) -> int
    decreases n,
{
    if n <= 0 {
        0
    } else {
        turns_reported(kinds, n - 1) + kinds[n - 1].turns
    }
}

fn copied(list: &Vec<u64>) -> (copy: Vec<u64>)
    ensures
        copy@ == list@,
{
    let mut copy: Vec<u64> = Vec::new();
    let mut i: usize = 0;
    while i < list.len()
        invariant
            i <= list@.len(),
            copy@ =~= list@.take(i as int),
        decreases list@.len() - i,
    {
        copy.push(list[i]);
        i = i + 1;
    }
    copy
}

/// What one kind of command did, as it is reported.
#[derive(Debug, Clone, PartialEq, Eq)]
pub struct KindSnapshot {
    pub kind: CommandKind,
    pub turns: u64,
    /// Turns past the budget; none for a kind that is exempt from it.
    pub over_budget: u64,
    pub mean: u128,
    pub longest: u128,
    pub buckets: Vec<u64>,
}

impl KindSnapshot {
    /// Whether a report says what the counters do.
    pub open spec fn says(&self, k: KindView) -> bool {
        &&& self.turns == k.turns
        &&& self.over_budget == k.over_budget
        &&& self.mean == (if k.turns == 0 {
            0
        } else {
            (k.total_micros / k.turns) * 1000
        })
        &&& self.longest == k.longest_micros * 1000
        &&& self.buckets@ == k.buckets
    }

    /// Whether a report agrees with itself: every turn is in one bucket, no more
    /// turns broke the budget than were taken, none where the kind is exempt from
    /// it, the mean is no longer than the longest, and without turns it is nought.
    pub open spec fn adds_up(&self) -> bool {
        &&& sum_of(self.buckets@, BUCKET_COUNT as int) == self.turns
        &&& self.over_budget <= self.turns
        &&& self.kind.is_exempt() ==> self.over_budget == 0
        &&& self.mean <= self.longest
        &&& self.turns == 0 ==> self.mean == 0
    }
}

/// What the writer did with its turns. A mean depth is its sum over the number
/// of samples.
#[derive(Debug, Clone, PartialEq)]
pub struct MetricsSnapshot {
    pub turns: u64,
    pub depth_samples: u64,
    pub high_depth_sum: u64,
    pub high_depth_max: u64,
    pub low_depth_sum: u64,
    pub low_depth_max: u64,
    pub passed_over: u64,
    pub passed_run_max: u64,
    pub longest: Option<(CommandKind, u128)>,
    pub kinds: Vec<KindSnapshot>,
}

/// Whether the kind at `a` is reported before the one at `b`: it broke the
/// budget more often, or as often and stands before it.
pub open spec fn worse(kinds: Seq<KindSnapshot>, a: int, b: int) -> bool {
    kinds[a].over_budget > kinds[b].over_budget || (kinds[a].over_budget == kinds[b].over_budget && a < b)
}

/// Whether `order` lists the kinds among the first `n` that broke the budget,
/// each once, the worst first.
pub open spec fn ranks(kinds: Seq<KindSnapshot>, n: int, order: Seq<usize>) -> bool {
    &&& forall|p: int|
        0 <= p < order.len() ==> (#[trigger] order[p]) < n && kinds[order[p] as int].over_budget > 0
    &&& forall|p: int, q: int|
        0 <= p < q < order.len() ==> worse(kinds, (#[trigger] order[p]) as int, (#[trigger] order[q]) as int)
    &&& forall|i: int|
        0 <= i < n && (#[trigger] kinds[i]).over_budget > 0 ==> order.contains(i as usize)
}

impl MetricsSnapshot {
    /// Whether a report agrees with itself: every kind is there, in order, and
    /// agrees with itself, their turns are all turns, and the longest hold is
    /// that of its kind and no shorter than any other's. There is none exactly
    /// where no kind held for as long as can be told.
    pub open spec fn adds_up(&self) -> bool {
        &&& self.kinds@.len() == CommandKind::COUNT
        &&& forall|i: int|
            0 <= i < self.kinds@.len() ==> (#[trigger] self.kinds@[i]).kind.place() == i
                && self.kinds@[i].adds_up()
        &&& self.turns == turns_reported(self.kinds@, CommandKind::COUNT as int)
        &&& self.longest.is_none() <==> forall|i: int|
            0 <= i < self.kinds@.len() ==> (#[trigger] self.kinds@[i]).longest == 0
        &&& self.longest matches Some((kind, held)) ==> {
            &&& self.kinds@[kind.place()].longest == held
            &&& forall|i: int| 0 <= i < self.kinds@.len() ==> (#[trigger] self.kinds@[i]).longest <= held
        }
    }

    /// The kinds that broke the budget, the worst first.
    pub fn budget_violations(&self) -> (v: Vec<&KindSnapshot>)
        ensures
            exists|order: Seq<usize>| #[trigger]
                ranks(self.kinds@, self.kinds@.len() as int, order) && v@.len() == order.len() && forall|p: int|
                    0 <= p < v@.len() ==> *(#[trigger] v@[p]) == self.kinds@[order[p] as int],
    {
        let n: usize = self.kinds.len();
        let mut order: Vec<usize> = Vec::new();
        let mut i: usize = 0;
        while i < n
            invariant
                n == self.kinds@.len(),
                i <= n,
                ranks(self.kinds@, i as int, order@),
            decreases n - i,
        {
            if self.kinds[i].over_budget > 0 {
                let mut p: usize = 0;
                while p < order.len() && self.kinds[order[p]].over_budget >= self.kinds[i].over_budget
                    invariant
                        n == self.kinds@.len(),
                        i < n,
                        ranks(self.kinds@, i as int, order@),
                        p <= order@.len(),
                        forall|q: int|
                            0 <= q < p ==> self.kinds@[(#[trigger] order@[q]) as int].over_budget
                                >= self.kinds@[i as int].over_budget,
                    decreases order@.len() - p,
                {
                    p = p + 1;
                }
                let ghost before = order@;
                order.insert(p, i);
                proof {
                    let after = order@;
                    assert forall|a: int, b: int| 0 <= a < b < after.len() implies worse(
                        self.kinds@,
                        (#[trigger] after[a]) as int,
                        (#[trigger] after[b]) as int,
                    ) by {
                        let a0 = if a < p { a } else { a - 1 };
                        let b0 = if b < p { b } else { b - 1 };
                        if a != p && b != p {
                            assert(worse(self.kinds@, before[a0] as int, before[b0] as int));
                        } else if b == p {
                            assert(after[a] == before[a]);
                        } else {
                            assert(after[b] == before[b - 1]);
                            if b - 1 > p {
                                assert(worse(self.kinds@, before[p as int] as int, before[b - 1] as int));
                            }
                        }
                    }
                    assert forall|a: int| 0 <= a < after.len() implies (#[trigger] after[a]) < i + 1
                        && self.kinds@[after[a] as int].over_budget > 0 by {
                        if a != p {
                            assert(after[a] == before[if a < p { a } else { a - 1 }]);
                        }
                    }
                    assert forall|j: int| 0 <= j < i + 1 && (#[trigger] self.kinds@[j]).over_budget
                        > 0 implies after.contains(j as usize) by {
                        if j == i {
                            assert(after[p as int] == i);
                        } else {
                            assert(before.contains(j as usize));
                            let q = choose|q: int| 0 <= q < before.len() && before[q] == j as usize;
                            assert(after[if q < p { q } else { q + 1 }] == j as usize);
                        }
                    }
                }
            }
            i = i + 1;
        }
        let mut v: Vec<&KindSnapshot> = Vec::new();
        let mut p: usize = 0;
        while p < order.len()
            invariant
                n == self.kinds@.len(),
                ranks(self.kinds@, n as int, order@),
                p <= order@.len(),
                v@.len() == p,
                forall|q: int| 0 <= q < p ==> *(#[trigger] v@[q]) == self.kinds@[order@[q] as int],
            decreases order@.len() - p,
        {
            v.push(&self.kinds[order[p]]);
            p = p + 1;
        }
        v
    }
}

} // verus!
