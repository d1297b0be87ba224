//! Binary64 values by their bit patterns.
//!
//! What is decided about a value is decided on its pattern; what is computed
//! from values is left to functions that the caller supplies.

use vstd::prelude::*;

verus! {

/// The pattern of the sign bit alone, which is negative zero.
pub const SIGN: u64 = 0x8000_0000_0000_0000;

/// The pattern of positive infinity.
pub const INFINITY: u64 = 0x7ff0_0000_0000_0000;

/// Where a value stands in the total order of all patterns: negative before
/// positive, not-a-number at either end.
pub open spec fn rank(bits: u64) -> u64 {
    if bits < SIGN {
        (bits + SIGN) as u64
    } else {
        (u64::MAX - bits) as u64
    }
}

/// Whether a value is not a number.
pub open spec fn is_nan(bits: u64) -> bool {
    INFINITY < bits < SIGN || INFINITY + SIGN < bits
}

/// Whether a value is zero, of either sign.
pub open spec fn is_zero(bits: u64) -> bool {
    bits == 0 || bits == SIGN
}

/// Whether `a` is numerically less than `b`.
pub open spec fn lt(a: u64, b: u64) -> bool {
    !is_nan(a) && !is_nan(b) && !(is_zero(a) && is_zero(b)) && rank(a) < rank(b)
}

/// The value that stands at `r` in the total order.
pub open spec fn unrank(r: u64) -> u64 {
    if r < SIGN {
        (u64::MAX - r) as u64
    } else {
        (r - SIGN) as u64
    }
}

/// Where a value stands in the total order.
pub fn rank_of(bits: u64) -> (r: u64)
    ensures
        r == rank(bits),
{
    if bits < SIGN {
        bits + SIGN
    } else {
        u64::MAX - bits
    }
}

/// The value that stands at `r` in the total order.
pub fn at_rank(r: u64) -> (bits: u64)
    ensures
        bits == unrank(r),
        rank(bits) == r,
{
    if r < SIGN {
        u64::MAX - r
    } else {
        r - SIGN
    }
}

/// Whether a value is zero, of either sign.
pub fn zero(bits: u64) -> (yes: bool)
    ensures
        yes == is_zero(bits),
{
    bits == 0 || bits == SIGN
}

fn nan(bits: u64) -> (yes: bool)
    ensures
        yes == is_nan(bits),
{
    (INFINITY < bits && bits < SIGN) || bits > 0xfff0_0000_0000_0000
}

/// Whether `a` is numerically less than `b`.
pub fn less(a: u64, b: u64) -> (yes: bool)
    ensures
        yes == lt(a, b),
{
    !nan(a) && !nan(b) && !(zero(a) && zero(b)) && rank_of(a) < rank_of(b)
}

/// Whether `f` can be called on any two values and always answers them alike.
pub open spec fn is_function<F: Fn(u64, u64) -> u64>(f: F) -> bool {
    &&& forall|a: u64, b: u64| #[trigger] call_requires(f, (a, b))
    &&& forall|a: u64, b: u64, x: u64, y: u64| #[trigger]
        call_ensures(f, (a, b), x) && #[trigger] call_ensures(f, (a, b), y) ==> x == y
}

/// What `f` answers.
pub open spec fn value<F: Fn(u64, u64) -> u64>(f: F, a: u64, b: u64) -> u64 {
    choose|x: u64| call_ensures(f, (a, b), x)
}

/// Calls a function of two values.
pub fn call<F: Fn(u64, u64) -> u64>(f: &F, a: u64, b: u64) -> (x: u64)
    requires
        is_function(*f),
    ensures
        x == value(*f, a, b),
        call_ensures(*f, (a, b), x),
{
    (*f)(a, b)
}

} // verus!
