//! The chunk-size law.
//!
//! Durations are nanoseconds.

use vstd::prelude::*;

use crate::error::{BulkInterrupted, DbError};

verus! {

/// The longest a chunk should hold the write lock: 3 ms.
pub const CHUNK_BUDGET: u128 = 3_000_000;

/// The estimated hold from which an atomic batch is worth a warning: 250 ms.
pub const BULK_ATOMIC_WARN_HOLD: u128 = 250_000_000;

/// The smallest chunk the law falls back to, in rows.
pub const CHUNK_FLOOR: usize = 35;

/// The longest duration there is: `u64::MAX` seconds and 999,999,999 ns.
pub const MAX_NANOS: u128 = 18_446_744_073_709_551_615_999_999_999;

/// What one chunk cost.
#[derive(Debug, Clone, Copy, PartialEq, Eq, Structural)]
pub struct ChunkOutcome {
    /// Rows written.
    pub rows: usize,
    /// How long the lock was held.
    pub held: u128,
}

/// At least one.
pub open spec fn at_least_one(n: int) -> int {
    if n < 1 {
        1
    } else {
        n
    }
}

/// The size proposed after `current` rows held the lock for `held`, before the
/// limits of the path apply: nine tenths of the proportional size over budget, a
/// quarter more under half of it, the same in between.
pub open spec fn proposed_size(current: int, held: int, budget: int) -> int {
    if held > budget {
        at_least_one(current * budget * 9 / (held * 10))
    } else if held * 2 < budget {
        if current + at_least_one(current / 4) > usize::MAX {
            usize::MAX as int
        } else {
            current + at_least_one(current / 4)
        }
    } else {
        current
    }
}

/// `n` brought into `floor..=ceiling`; a reversed pair yields the ceiling.
pub open spec fn limited(n: int, floor: int, ceiling: int) -> int {
    let low = if floor < ceiling {
        floor
    } else {
        ceiling
    };
    if n < low {
        low
    } else if n > ceiling {
        ceiling
    } else {
        n
    }
}

/// The size of the next chunk.
pub open spec fn next_size(current: int, held: int, budget: int, floor: int, ceiling: int) -> int {
    at_least_one(
        limited(
            proposed_size(at_least_one(current), at_least_one(held), at_least_one(budget)),
            floor,
            ceiling,
        ),
    )
}

/// Quotient and remainder of `a * b` by `c`, without the product overflowing.
fn mul_div(a: usize, b: u128, c: u128) -> (parts: (usize, u128))
    requires
        b < c,
        c < 0x1000_0000_0000_0000_0000_0000_0000_0000,
    ensures
        parts.0 as int * c as int + parts.1 as int == a as int * b as int,
        parts.0 <= a,
        parts.1 < c,
    decreases a,
{
    if a == 0 {
        proof {
            assert(0 * c as int + 0 == 0 * b as int) by (nonlinear_arith);
        }
        return (0, 0);
    }
    let half = mul_div(a / 2, b, c);
    let bit: usize = a % 2;
    let mut q: usize = 2 * half.0;
    let mut r: u128 = 2 * half.1;
    if bit == 1 {
        r = r + b;
    }
    if r >= c {
        r = r - c;
        q = q + 1;
    }
    if r >= c {
        proof {
            let (h, q0, r0) = ((a / 2) as int, half.0 as int, half.1 as int);
            let (x, y) = (b as int, c as int);
            assert((2 * h + bit as int) * x == 2 * (h * x) + bit as int * x) by (nonlinear_arith);
            assert(2 * (q0 * y + r0) == (2 * q0) * y + 2 * r0) by (nonlinear_arith);
            assert((2 * q0 + 1) * y == (2 * q0) * y + y) by (nonlinear_arith);
            assert((2 * q0 + 2) * y == (2 * q0) * y + 2 * y) by (nonlinear_arith);
            assert(0 * x == 0 && 1 * x == x) by (nonlinear_arith);
            lemma_quotient_bound(q + 1, r - c, a as int, x, y);
        }
        r = r - c;
        q = q + 1;
    }
    proof {
        let (h, q0, r0) = ((a / 2) as int, half.0 as int, half.1 as int);
        let (x, y) = (b as int, c as int);
        assert((2 * h + bit as int) * x == 2 * (h * x) + bit as int * x) by (nonlinear_arith);
        assert(2 * (q0 * y + r0) == (2 * q0) * y + 2 * r0) by (nonlinear_arith);
        assert((2 * q0 + 1) * y == (2 * q0) * y + y) by (nonlinear_arith);
        assert((2 * q0 + 2) * y == (2 * q0) * y + 2 * y) by (nonlinear_arith);
        assert(0 * x == 0 && 1 * x == x) by (nonlinear_arith);
        lemma_quotient_bound(q as int, r as int, a as int, x, y);
    }
    (q, r)
}

proof fn lemma_quotient_bound(q: int, r: int, a: int, b: int, c: int)
    requires
        0 <= r < c,
        0 <= b < c,
        0 <= a,
        q * c + r == a * b,
    ensures
        q <= a,
{
    assert(q <= a) by (nonlinear_arith)
        requires
            0 <= r,
            0 <= b < c,
            0 <= a,
            q * c + r == a * b,
    ;
}

/// The size of the next chunk, from what the last one cost.
///
/// Over budget it shrinks in proportion and a tenth below; under half the budget
/// it grows by a quarter; in between it stays. It is never zero.
pub fn next_chunk_size(current: usize, held: u128, budget: u128, floor: usize, ceiling: usize) -> (n: usize)
    requires
        held <= MAX_NANOS,
        budget <= MAX_NANOS,
    ensures
        n == next_size(current as int, held as int, budget as int, floor as int, ceiling as int),
        n > 0,
{
    let held: u128 = if held < 1 { 1 } else { held };
    let budget: u128 = if budget < 1 { 1 } else { budget };
    let current: usize = if current < 1 { 1 } else { current };
    let next: usize = if held > budget {
        let parts = mul_div(current, budget * 9, held * 10);
        let scaled: usize = parts.0;
        proof {
            let (c, b) = (current as int, budget as int);
            assert(c * (b * 9) == c * b * 9) by (nonlinear_arith);
            vstd::arithmetic::div_mod::lemma_fundamental_div_mod_converse(
                c * b * 9,
                held as int * 10,
                scaled as int,
                parts.1 as int,
            );
        }
        if scaled < 1 {
            1
        } else {
            scaled
        }
    } else if held * 2 < budget {
        let quarter: usize = current / 4;
        current.saturating_add(
            if quarter < 1 {
                1
            } else {
                quarter
            },
        )
    } else {
        current
    };
    let low: usize = if floor < ceiling { floor } else { ceiling };
    let clamped: usize = if next < low {
        low
    } else if next > ceiling {
        ceiling
    } else {
        next
    };
    if clamped < 1 {
        1
    } else {
        clamped
    }
}

/// A chunk that held the lock for half the budget or more, and not over it, is
/// left as it is.
pub proof fn law_a_chunk_inside_the_band_is_kept(current: int, held: int, budget: int, floor: int, ceiling: int)
    requires
        1 <= current,
        0 <= held <= budget,
        budget <= 2 * held,
        floor <= current <= ceiling,
    ensures
        next_size(current, held, budget, floor, ceiling) == current,
{
}

/// Whatever a chunk cost, the next stays between the floor and the ceiling.
pub proof fn law_the_limits_hold(current: int, held: int, budget: int, floor: int, ceiling: int)
    requires
        1 <= floor <= ceiling,
    ensures
        floor <= next_size(current, held, budget, floor, ceiling) <= ceiling,
{
}

/// A chunk grows by at most a quarter of itself, or by one row, or up to the
/// floor.
pub proof fn law_growth_is_slow(current: int, held: int, budget: int, floor: int, ceiling: int)
    requires
        1 <= current <= usize::MAX,
        1 <= held,
        1 <= budget,
        1 <= floor <= ceiling,
    ensures
        next_size(current, held, budget, floor, ceiling) <= floor || next_size(
            current,
            held,
            budget,
            floor,
            ceiling,
        ) <= current + at_least_one(current / 4),
{
    if held > budget {
        law_over_budget_shrinks_in_proportion(current, held, budget, floor, ceiling);
    }
}

/// A chunk that held the lock for less than half the budget grows, by a quarter of
/// itself or by one row, unless it reaches the ceiling.
pub proof fn law_a_chunk_with_room_grows(current: int, held: int, budget: int, floor: int, ceiling: int)
    requires
        1 <= current,
        1 <= held,
        2 * held < budget,
        1 <= floor <= ceiling <= usize::MAX,
    ensures
        next_size(current, held, budget, floor, ceiling) == ceiling || {
            &&& next_size(current, held, budget, floor, ceiling) > current
            &&& 4 * next_size(current, held, budget, floor, ceiling) >= 5 * current - 3
        },
{
}

/// A chunk over budget shrinks no further than it has to: one row more would have
/// been over nine tenths of what the budget would have carried, unless the ceiling
/// holds it down.
pub proof fn law_over_budget_shrinks_no_further(current: int, held: int, budget: int, floor: int, ceiling: int)
    requires
        1 <= current,
        1 <= budget < held,
        1 <= floor <= ceiling,
    ensures
        next_size(current, held, budget, floor, ceiling) == ceiling || (next_size(
            current,
            held,
            budget,
            floor,
            ceiling,
        ) + 1) * (held * 10) > current * budget * 9,
{
    let whole = current * budget * 9;
    let share = whole / (held * 10);
    let next = next_size(current, held, budget, floor, ceiling);
    assert(whole < (share + 1) * (held * 10)) by (nonlinear_arith)
        requires
            share == whole / (held * 10),
            1 <= held,
    ;
    if next != ceiling {
        assert(share <= next);
        assert((share + 1) * (held * 10) <= (next + 1) * (held * 10)) by (nonlinear_arith)
            requires
                share <= next,
                1 <= held,
        ;
    }
}

/// A chunk over budget shrinks at once to nine tenths of the size that the
/// budget would have carried at the same cost for each row, or to the floor.
pub proof fn law_over_budget_shrinks_in_proportion(
    current: int,
    held: int,
    budget: int,
    floor: int,
    ceiling: int,
)
    requires
        1 <= current,
        1 <= budget < held,
        1 <= floor <= ceiling,
    ensures
        next_size(current, held, budget, floor, ceiling) <= floor || next_size(
            current,
            held,
            budget,
            floor,
            ceiling,
        ) * held * 10 <= current * budget * 9,
        next_size(current, held, budget, floor, ceiling) <= floor || next_size(
            current,
            held,
            budget,
            floor,
            ceiling,
        ) < current,
{
    let whole = current * budget * 9;
    let share = whole / (held * 10);
    let next = next_size(current, held, budget, floor, ceiling);
    vstd::arithmetic::div_mod::lemma_fundamental_div_mod(whole, held * 10);
    vstd::arithmetic::div_mod::lemma_mod_bound(whole, held * 10);
    assert(share * (held * 10) <= whole) by (nonlinear_arith)
        requires
            whole == (held * 10) * share + whole % (held * 10),
            whole % (held * 10) >= 0,
    ;
    if next > floor {
        assert(next <= share);
        assert(next * held * 10 <= share * (held * 10)) by (nonlinear_arith)
            requires
                next <= share,
                held >= 1,
        ;
        assert(next < current) by (nonlinear_arith)
            requires
                next * held * 10 <= current * budget * 9,
                1 <= budget < held,
                1 <= current,
                1 <= next,
        ;
    }
}

/// Bulk work on its way through the low-priority queue: cut into chunks whose
/// size follows what the last one cost.
#[derive(Debug)]
pub struct BulkLoop {
    total: usize,
    taken: usize,
    size: usize,
    ceiling: usize,
    written: usize,
}

impl BulkLoop {
    /// How many items there are.
    pub closed spec fn total(&self) -> nat {
        self.total as nat
    }

    /// How many have been handed out.
    pub closed spec fn taken(&self) -> nat {
        self.taken as nat
    }

    /// How many the next chunk may have.
    pub closed spec fn size(&self) -> nat {
        self.size as nat
    }

    /// The largest chunk of the path.
    pub closed spec fn ceiling(&self) -> nat {
        self.ceiling as nat
    }

    /// How many rows the chunks so far have written.
    pub closed spec fn rows(&self) -> nat {
        self.written as nat
    }

    /// No more is handed out than there is, and no chunk is empty.
    pub closed spec fn wf(&self) -> bool {
        self.taken <= self.total && 1 <= self.size
    }

    /// The loop over `total` items, in chunks of at most `ceiling`.
    pub fn new(total: usize, ceiling: usize) -> (l: BulkLoop)
        ensures
            l.wf(),
            l.total() == total,
            l.taken() == 0,
            l.size() == at_least_one(ceiling as int),
            l.ceiling() == ceiling,
            l.rows() == 0,
    {
        BulkLoop {
            total,
            taken: 0,
            size: if ceiling < 1 {
                1
            } else {
                ceiling
            },
            ceiling,
            written: 0,
        }
    }

    /// The items of the next chunk, as the first and the one after the last;
    /// none where all have been handed out.
    pub fn next(&mut self) -> (chunk: Option<(usize, usize)>)
        requires
            old(self).wf(),
        ensures
            final(self).wf(),
            final(self).total() == old(self).total(),
            final(self).size() == old(self).size(),
            final(self).ceiling() == old(self).ceiling(),
            final(self).rows() == old(self).rows(),
            chunk.is_none() == (old(self).taken() == old(self).total()),
            chunk.is_none() ==> final(self).taken() == old(self).taken(),
            chunk matches Some((from, to)) ==> from == old(self).taken() && to == final(self).taken() && to
                == (if old(self).taken() + old(self).size() <= old(self).total() {
                old(self).taken() + old(self).size()
            } else {
                old(self).total()
            }),
    {
        if self.taken == self.total {
            return None;
        }
        let from: usize = self.taken;
        let to: usize = if self.size <= self.total - from {
            from + self.size
        } else {
            self.total
        };
        self.taken = to;
        Some((from, to))
    }

    /// Takes in what a chunk cost.
    pub fn landed(&mut self, outcome: ChunkOutcome)
        requires
            old(self).wf(),
            outcome.held <= MAX_NANOS,
            old(self).rows() + outcome.rows <= usize::MAX,
        ensures
            final(self).wf(),
            final(self).total() == old(self).total(),
            final(self).taken() == old(self).taken(),
            final(self).ceiling() == old(self).ceiling(),
            final(self).rows() == old(self).rows() + outcome.rows,
            final(self).size() == next_size(
                old(self).size() as int,
                outcome.held as int,
                CHUNK_BUDGET as int,
                CHUNK_FLOOR as int,
                old(self).ceiling() as int,
            ),
    {
        self.written = self.written + outcome.rows;
        self.size = next_chunk_size(self.size, outcome.held, CHUNK_BUDGET, CHUNK_FLOOR, self.ceiling);
    }

    /// How many rows have been written.
    pub fn written(&self) -> (rows: usize)
        ensures
            rows == self.rows(),
    {
        self.written
    }

    /// What a chunk that failed makes of the whole: what landed before it stays
    /// and is counted.
    pub fn interrupted(&self, cause: DbError) -> (b: BulkInterrupted)
        ensures
            b.written == self.rows(),
            b.cause == cause,
    {
        BulkInterrupted { written: self.written, cause }
    }
}

} // verus!
