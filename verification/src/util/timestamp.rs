//! Timestamps in canonical form: `YYYY-MM-DDTHH:MM:SS.ffffffZ`.

use vstd::prelude::*;

use crate::error::{DbError, Result};
use crate::text;
use crate::text::chars_of;

verus! {

/// Whether `c` is a decimal digit.
pub open spec fn is_digit(c: char) -> bool {
    '0' <= c <= '9'
}

/// Whether the `n` characters from `i` on are digits.
pub open spec fn digits_at(s: Seq<char>, i: int, n: int) -> bool {
    forall|k: int| i <= k < i + n ==> is_digit(#[trigger] s[k])
}

/// The number that the `n` digits from `i` on spell.
pub open spec fn number_at(s: Seq<char>, i: int, n: nat) -> nat
    decreases n,
{
    if n == 0 {
        0
    } else {
        number_at(s, i, (n - 1) as nat) * 10 + (s[i + n - 1] as u32 - '0' as u32) as nat
    }
}

/// Whether `s` has the shape of a timestamp, with up to six fractional digits.
pub open spec fn has_shape(s: Seq<char>) -> bool {
    &&& 20 <= s.len() <= 27
    &&& digits_at(s, 0, 4)
    &&& s[4] == '-'
    &&& digits_at(s, 5, 2)
    &&& s[7] == '-'
    &&& digits_at(s, 8, 2)
    &&& s[10] == 'T'
    &&& digits_at(s, 11, 2)
    &&& s[13] == ':'
    &&& digits_at(s, 14, 2)
    &&& s[16] == ':'
    &&& digits_at(s, 17, 2)
    &&& s[s.len() - 1] == 'Z'
    &&& s.len() > 20 ==> s.len() > 21 && s[19] == '.' && digits_at(s, 20, s.len() - 21)
}

/// Whether `y` is a leap year.
pub open spec fn is_leap(y: nat) -> bool {
    y % 4 == 0 && (y % 100 != 0 || y % 400 == 0)
}

/// How many days month `m` of year `y` has.
pub open spec fn days_in_month(y: nat, m: nat) -> nat {
    if m == 2 {
        if is_leap(y) {
            29
        } else {
            28
        }
    } else if m == 4 || m == 6 || m == 9 || m == 11 {
        30
    } else {
        31
    }
}

/// Whether the fields of `s` name a moment of the calendar.
pub open spec fn on_calendar(s: Seq<char>) -> bool {
    &&& 1 <= number_at(s, 0, 4)
    &&& 1 <= number_at(s, 5, 2) <= 12
    &&& 1 <= number_at(s, 8, 2) <= days_in_month(number_at(s, 0, 4), number_at(s, 5, 2))
    &&& number_at(s, 11, 2) < 24
    &&& number_at(s, 14, 2) < 60
    &&& number_at(s, 17, 2) < 60
}

/// Whether `s` is a timestamp.
pub open spec fn is_stamp(s: Seq<char>) -> bool {
    has_shape(s) && on_calendar(s)
}

/// Whether `s` is a timestamp in canonical form.
pub open spec fn is_canonical(s: Seq<char>) -> bool {
    is_stamp(s) && s.len() == 27
}

/// The fractional digits of a timestamp.
pub open spec fn fraction(s: Seq<char>) -> Seq<char> {
    if s.len() > 20 {
        s.subrange(20, s.len() - 1)
    } else {
        Seq::empty()
    }
}

/// `s` with zeros after it, to `n` characters.
pub open spec fn padded(s: Seq<char>, n: nat) -> Seq<char> {
    Seq::new(n, |i: int| if i < s.len() { s[i] } else { '0' })
}

/// The canonical form of a timestamp.
pub open spec fn widened(s: Seq<char>) -> Seq<char> {
    s.take(19) + "."@ + padded(fraction(s), 6) + "Z"@
}

fn is_digit_char(c: char) -> (yes: bool)
    ensures
        yes == is_digit(c),
{
    '0' <= c && c <= '9'
}

fn digits_in(s: &Vec<char>, from: usize, to: usize) -> (yes: bool)
    requires
        from <= to <= s@.len(),
    ensures
        yes == digits_at(s@, from as int, to - from),
{
    let mut i: usize = from;
    while i < to
        invariant
            from <= i <= to <= s@.len(),
            digits_at(s@, from as int, i - from),
        decreases to - i,
    {
        if !is_digit_char(s[i]) {
            return false;
        }
        i = i + 1;
    }
    true
}

pub(crate) fn number_in(s: &Vec<char>, from: usize, n: usize) -> (v: u64)
    requires
        from + n <= s@.len(),
        n <= 6,
        digits_at(s@, from as int, n as int),
    ensures
        v == number_at(s@, from as int, n as nat),
{
    let len: usize = s.len();
    let mut v: u64 = 0;
    let mut i: usize = 0;
    let ghost mut bound: nat = 1;
    while i < n
        invariant
            len == s@.len(),
            from + n <= s@.len(),
            n <= 6,
            digits_at(s@, from as int, n as int),
            i <= n,
            v == number_at(s@, from as int, i as nat),
            v < bound,
            bound == ten_to(i as nat),
            bound <= 1_000_000,
        decreases n - i,
    {
        let c = s[from + i];
        assert(is_digit(s@[from + i]));
        proof {
            reveal_with_fuel(ten_to, 8);
            bound = bound * 10;
        }
        v = v * 10 + (c as u32 - '0' as u32) as u64;
        i = i + 1;
    }
    v
}

/// `10` to the power of `n`.
pub open spec fn ten_to(n: nat) -> nat
    decreases n,
{
    if n == 0 {
        1
    } else {
        ten_to((n - 1) as nat) * 10
    }
}

fn leap(y: u64) -> (yes: bool)
    ensures
        yes == is_leap(y as nat),
{
    y % 4 == 0 && (y % 100 != 0 || y % 400 == 0)
}

pub(crate) fn month_length(y: u64, m: u64) -> (n: u64)
    ensures
        n == days_in_month(y as nat, m as nat),
{
    if m == 2 {
        if leap(y) {
            29
        } else {
            28
        }
    } else if m == 4 || m == 6 || m == 9 || m == 11 {
        30
    } else {
        31
    }
}

fn stamp_chars(s: &Vec<char>) -> (yes: bool)
    ensures
        yes == is_stamp(s@),
{
    let n: usize = s.len();
    if n < 20 || n > 27 {
        return false;
    }
    if !(digits_in(s, 0, 4) && s[4] == '-' && digits_in(s, 5, 7) && s[7] == '-' && digits_in(s, 8, 10)
        && s[10] == 'T' && digits_in(s, 11, 13) && s[13] == ':' && digits_in(s, 14, 16) && s[16] == ':'
        && digits_in(s, 17, 19) && s[n - 1] == 'Z') {
        return false;
    }
    if n > 20 {
        if n == 21 || s[19] != '.' {
            return false;
        }
        if !digits_in(s, 20, n - 1) {
            return false;
        }
    }
    let y: u64 = number_in(s, 0, 4);
    let m: u64 = number_in(s, 5, 2);
    let d: u64 = number_in(s, 8, 2);
    1 <= y && 1 <= m && m <= 12 && 1 <= d && d <= month_length(y, m) && number_in(s, 11, 2) < 24
        && number_in(s, 14, 2) < 60 && number_in(s, 17, 2) < 60
}

/// Why a timestamp is refused.
pub open spec fn stamp_refusal() -> Seq<char> {
    "expected YYYY-MM-DDTHH:MM:SS[.ffffff]Z"@
}

/// Whether `e` refuses the timestamp `s`.
pub open spec fn refuses(e: DbError, s: Seq<char>) -> bool {
    e matches DbError::InvalidTimestamp { value, reason } && value@ == s && reason@ == stamp_refusal()
}

fn rejected(value: &str) -> (e: DbError)
    ensures
        refuses(e, value@),
{
    DbError::InvalidTimestamp {
        value: value.to_owned(),
        reason: "expected YYYY-MM-DDTHH:MM:SS[.ffffff]Z".to_owned(),
    }
}

fn push_char(out: &mut String, c: char)
    requires
        is_digit(c),
    ensures
        final(out)@ == old(out)@.push(c),
{
    proof {
        assert(text::decimal((c as u32 - '0' as u32) as nat) =~= seq![c]);
    }
    crate::text::push_decimal(out, (c as u32 - '0' as u32) as u64);
    proof {
        assert(out@ =~= old(out)@.push(c));
    }
}

/// Puts a timestamp in canonical form, or refuses it.
pub fn normalize(s: &str) -> (canonical: Result<String>)
    ensures
        canonical.is_ok() == is_stamp(s@),
        canonical matches Ok(t) ==> t@ == widened(s@),
        canonical matches Err(e) ==> refuses(e, s@),
{
    let chars = chars_of(s);
    if !stamp_chars(&chars) {
        return Err(rejected(s));
    }
    let mut out = vstd::string::StrSliceExecFns::substring_char(s, 0, 19).to_owned();
    proof {
        assert(s@.subrange(0, 19) =~= s@.take(19));
    }
    out.append(".");
    let ghost head = out@;
    let end: usize = chars.len() - 1;
    let mut i: usize = 0;
    while i < 6
        invariant
            chars@ == s@,
            is_stamp(s@),
            end == s@.len() - 1,
            i <= 6,
            out@ == head + padded(fraction(s@), 6).take(i as int),
        decreases 6 - i,
    {
        let ghost before = out@;
        if 20 + i < end {
            assert(is_digit(s@[20 + i]));
            push_char(&mut out, chars[20 + i]);
        } else {
            push_char(&mut out, '0');
        }
        proof {
            let p = padded(fraction(s@), 6);
            assert(p.take(i + 1) =~= p.take(i as int).push(p[i as int]));
            assert(out@ =~= head + p.take(i + 1));
        }
        i = i + 1;
    }
    proof {
        let p = padded(fraction(s@), 6);
        assert(p.take(6) =~= p);
    }
    out.append("Z");
    Ok(out)
}

} // verus!
