//! Timestamps as numbers: microseconds since the start of year 1.

use vstd::prelude::*;
use vstd::utf8::*;

use super::timestamp;
use super::timestamp::{month_length, normalize, number_in};
use crate::error::Result;
use crate::error::DbError;
use crate::text;
use crate::text::chars_of;

verus! {

/// The days before the first of year `y`.
pub open spec fn days_before_year(y: nat) -> nat
    recommends
        y >= 1,
{
    (365 * (y - 1) + (y - 1) / 4 - (y - 1) / 100 + (y - 1) / 400) as nat
}

/// The days of year `y` before the first of month `m`.
pub open spec fn days_before_month(y: nat, m: nat) -> nat
    decreases m,
{
    if m <= 1 {
        0
    } else {
        days_before_month(y, (m - 1) as nat) + timestamp::days_in_month(y, (m - 1) as nat)
    }
}

/// The days before the day that the fields name.
pub open spec fn day_number(y: nat, m: nat, d: nat) -> nat {
    (days_before_year(y) + days_before_month(y, m) + d - 1) as nat
}

/// The microseconds before the moment that the fields name.
pub open spec fn moment(y: nat, m: nat, d: nat, h: nat, mi: nat, sec: nat, us: nat) -> nat {
    (((day_number(y, m, d) * 24 + h) * 60 + mi) * 60 + sec) * 1_000_000 + us
}

/// The microseconds before the moment that a canonical timestamp names.
pub open spec fn micros_of(s: Seq<char>) -> nat {
    moment(
        timestamp::number_at(s, 0, 4),
        timestamp::number_at(s, 5, 2),
        timestamp::number_at(s, 8, 2),
        timestamp::number_at(s, 11, 2),
        timestamp::number_at(s, 14, 2),
        timestamp::number_at(s, 17, 2),
        timestamp::number_at(s, 20, 6),
    )
}

/// The first microsecond past the last canonical timestamp.
pub const END: u64 = 315_537_897_600_000_000;

proof fn lemma_year_length(y: nat)
    requires
        y >= 1,
    ensures
        days_before_year(y + 1) == days_before_year(y) + if timestamp::is_leap(y) {
            366nat
        } else {
            365nat
        },
{
}

proof fn lemma_years_ascend(a: nat, b: nat)
    requires
        1 <= a <= b,
    ensures
        days_before_year(a) + 365 * (b - a) <= days_before_year(b),
    decreases b - a,
{
    if a < b {
        lemma_years_ascend(a, (b - 1) as nat);
        lemma_year_length((b - 1) as nat);
    }
}

proof fn lemma_months_ascend(y: nat, a: nat, b: nat)
    requires
        1 <= a <= b,
    ensures
        days_before_month(y, a) <= days_before_month(y, b),
        a < b ==> days_before_month(y, a) + timestamp::days_in_month(y, a) <= days_before_month(y, b),
    decreases b - a,
{
    if a < b {
        lemma_months_ascend(y, a, (b - 1) as nat);
    }
}

proof fn lemma_months_of_year(y: nat)
    ensures
        days_before_month(y, 13) == if timestamp::is_leap(y) {
            366nat
        } else {
            365nat
        },
{
    reveal_with_fuel(days_before_month, 14);
}

/// An earlier day of the calendar has a smaller number.
proof fn lemma_days_ascend(y1: nat, m1: nat, d1: nat, y2: nat, m2: nat, d2: nat)
    requires
        1 <= y1,
        1 <= y2,
        1 <= m1 <= 12,
        1 <= m2 <= 12,
        1 <= d1 <= timestamp::days_in_month(y1, m1),
        1 <= d2,
        y1 < y2 || (y1 == y2 && (m1 < m2 || (m1 == m2 && d1 < d2))),
    ensures
        day_number(y1, m1, d1) < day_number(y2, m2, d2),
{
    if y1 < y2 {
        lemma_months_ascend(y1, m1, 13);
        lemma_months_of_year(y1);
        lemma_year_length(y1);
        lemma_years_ascend(y1 + 1, y2);
    } else if m1 < m2 {
        lemma_months_ascend(y1, m1, m2);
    }
}

/// Digits before, the same; this digit smaller: the number is smaller.
proof fn lemma_number_below(a: Seq<char>, b: Seq<char>, i: int, n: nat, k: int)
    requires
        i <= k < i + n,
        timestamp::digits_at(a, i, n as int),
        timestamp::digits_at(b, i, n as int),
        forall|j: int| i <= j < k ==> a[j] == b[j],
        (a[k] as u32) < (b[k] as u32),
    ensures
        timestamp::number_at(a, i, n) < timestamp::number_at(b, i, n),
    decreases n,
{
    let m = (n - 1) as nat;
    assert(timestamp::is_digit(a[i + n - 1]));
    assert(timestamp::is_digit(b[i + n - 1]));
    if k == i + n - 1 {
        lemma_number_same(a, b, i, m);
    } else {
        lemma_number_below(a, b, i, m, k);
    }
}

proof fn lemma_number_same(a: Seq<char>, b: Seq<char>, i: int, n: nat)
    requires
        forall|j: int| i <= j < i + n ==> a[j] == b[j],
    ensures
        timestamp::number_at(a, i, n) == timestamp::number_at(b, i, n),
    decreases n,
{
    if n > 0 {
        lemma_number_same(a, b, i, (n - 1) as nat);
    }
}

proof fn lemma_number_bound(a: Seq<char>, i: int, n: nat)
    requires
        timestamp::digits_at(a, i, n as int),
    ensures
        timestamp::number_at(a, i, n) < timestamp::ten_to(n),
    decreases n,
{
    if n > 0 {
        lemma_number_bound(a, i, (n - 1) as nat);
        assert(timestamp::is_digit(a[i + n - 1]));
    }
}

/// A canonical timestamp is ASCII, byte for character.
proof fn lemma_stamp_bytes(s: Seq<char>)
    requires
        timestamp::is_canonical(s),
    ensures
        encode_utf8(s).len() == 27,
        forall|i: int| 0 <= i < 27 ==> #[trigger] encode_utf8(s)[i] == s[i] as u8 && (s[i] as u32) < 128,
{
    assert forall|i: int| 0 <= i < s.len() implies (#[trigger] s[i] as u32) < 128 by {
        assert(timestamp::digits_at(s, 0, 4) && timestamp::digits_at(s, 5, 2) && timestamp::digits_at(s, 8, 2)
            && timestamp::digits_at(s, 11, 2) && timestamp::digits_at(s, 14, 2) && timestamp::digits_at(
            s,
            17,
            2,
        ) && timestamp::digits_at(s, 20, 6));
        assert(i == 4 || i == 7 || i == 10 || i == 13 || i == 16 || i == 19 || i == 26 || timestamp::is_digit(
            s[i],
        ));
    }
    assert(is_ascii_chars(s));
    is_ascii_chars_encode_utf8(s);
}

/// Where canonical timestamps first differ, both have a digit.
proof fn lemma_earlier_text(a: Seq<char>, b: Seq<char>)
    requires
        timestamp::is_canonical(a),
        timestamp::is_canonical(b),
        text::text_lt(a, b),
    ensures
        micros_of(a) < micros_of(b),
{
    lemma_stamp_bytes(a);
    lemma_stamp_bytes(b);
    let (x, y) = (encode_utf8(a), encode_utf8(b));
    let k = choose|k: int| text::falls_below_at(x, y, k);
    assert(k < 27);
    assert(x[k] < y[k]);
    assert((a[k] as u32) < (b[k] as u32));
    assert forall|j: int| 0 <= j < k implies a[j] == b[j] by {
        assert(x[j] == y[j]);
        assert(x[j] == a[j] as u8 && y[j] == b[j] as u8);
    }
    lemma_fields_bounded(a);
    lemma_fields_bounded(b);
    lemma_first_difference(a, b, k);
}

proof fn lemma_fields_bounded(s: Seq<char>)
    requires
        timestamp::is_canonical(s),
    ensures
        timestamp::number_at(s, 0, 4) < 10000,
        timestamp::number_at(s, 20, 6) < 1_000_000,
        timestamp::digits_at(s, 0, 4),
        timestamp::digits_at(s, 5, 2),
        timestamp::digits_at(s, 8, 2),
        timestamp::digits_at(s, 11, 2),
        timestamp::digits_at(s, 14, 2),
        timestamp::digits_at(s, 17, 2),
        timestamp::digits_at(s, 20, 6),
{
    lemma_number_bound(s, 0, 4);
    lemma_number_bound(s, 20, 6);
    reveal_with_fuel(timestamp::ten_to, 8);
}

proof fn lemma_first_difference(a: Seq<char>, b: Seq<char>, k: int)
    requires
        timestamp::is_canonical(a),
        timestamp::is_canonical(b),
        timestamp::number_at(a, 20, 6) < 1_000_000,
        timestamp::number_at(b, 20, 6) < 1_000_000,
        timestamp::digits_at(a, 20, 6),
        timestamp::digits_at(b, 20, 6),
        0 <= k < 27,
        (a[k] as u32) < (b[k] as u32),
        forall|j: int| 0 <= j < k ==> a[j] == b[j],
    ensures
        micros_of(a) < micros_of(b),
{
    let day_a = day_number(
        timestamp::number_at(a, 0, 4),
        timestamp::number_at(a, 5, 2),
        timestamp::number_at(a, 8, 2),
    );
    let day_b = day_number(
        timestamp::number_at(b, 0, 4),
        timestamp::number_at(b, 5, 2),
        timestamp::number_at(b, 8, 2),
    );
    if k < 10 {
        if k < 4 {
            lemma_number_below(a, b, 0, 4, k);
        } else {
            lemma_number_same(a, b, 0, 4);
            if k < 7 {
                lemma_number_below(a, b, 5, 2, k);
            } else {
                lemma_number_same(a, b, 5, 2);
                lemma_number_below(a, b, 8, 2, k);
            }
        }
        lemma_days_ascend(
            timestamp::number_at(a, 0, 4),
            timestamp::number_at(a, 5, 2),
            timestamp::number_at(a, 8, 2),
            timestamp::number_at(b, 0, 4),
            timestamp::number_at(b, 5, 2),
            timestamp::number_at(b, 8, 2),
        );
        assert(day_a < day_b);
    } else {
        lemma_number_same(a, b, 0, 4);
        lemma_number_same(a, b, 5, 2);
        lemma_number_same(a, b, 8, 2);
        if k < 13 {
            lemma_number_below(a, b, 11, 2, k);
        } else {
            lemma_number_same(a, b, 11, 2);
            if k < 16 {
                lemma_number_below(a, b, 14, 2, k);
            } else {
                lemma_number_same(a, b, 14, 2);
                if k < 19 {
                    lemma_number_below(a, b, 17, 2, k);
                } else {
                    lemma_number_same(a, b, 17, 2);
                    lemma_number_below(a, b, 20, 6, k);
                }
            }
        }
    }
}

/// The order of canonical timestamps as text is their order in time.
pub proof fn law_text_order_is_time_order(a: Seq<char>, b: Seq<char>)
    requires
        timestamp::is_canonical(a),
        timestamp::is_canonical(b),
    ensures
        text::text_lt(a, b) <==> micros_of(a) < micros_of(b),
        a == b <==> micros_of(a) == micros_of(b),
{
    text::lemma_text_lt_total(a, b);
    if text::text_lt(a, b) {
        lemma_earlier_text(a, b);
    } else if text::text_lt(b, a) {
        lemma_earlier_text(b, a);
    }
}

/// The canonical form of a timestamp has everything that the timestamp has before
/// its last character, in its place, and noughts after it.
pub proof fn law_normalizing_keeps_every_digit(s: Seq<char>)
    requires
        timestamp::is_stamp(s),
    ensures
        timestamp::widened(s).len() == 27,
        forall|i: int| 0 <= i < s.len() - 1 ==> #[trigger] timestamp::widened(s)[i] == s[i],
        forall|i: int|
            20 <= i < 26 && s.len() - 1 <= i ==> #[trigger] timestamp::widened(s)[i] == '0',
        timestamp::widened(s)[19] == '.',
        timestamp::widened(s)[26] == 'Z',
{
    reveal_strlit(".");
    reveal_strlit("Z");
    let w = timestamp::widened(s);
    let p = timestamp::padded(timestamp::fraction(s), 6);
    assert forall|i: int| 20 <= i < 26 implies #[trigger] w[i] == p[i - 20] by {}
    assert forall|i: int| 0 <= i < s.len() - 1 implies #[trigger] w[i] == s[i] by {
        if 20 <= i {
            assert(timestamp::fraction(s)[i - 20] == s[i]);
        }
    }
}

/// What puts a timestamp in canonical form yields a canonical one, and leaves a
/// canonical one alone.
pub proof fn law_normalizing_is_idempotent(s: Seq<char>)
    requires
        timestamp::is_stamp(s),
    ensures
        timestamp::is_canonical(timestamp::widened(s)),
        timestamp::is_canonical(s) ==> timestamp::widened(s) == s,
        timestamp::widened(timestamp::widened(s)) == timestamp::widened(s),
{
    lemma_widened(s);
    lemma_widened(timestamp::widened(s));
}

proof fn lemma_widened(s: Seq<char>)
    requires
        timestamp::is_stamp(s),
    ensures
        timestamp::is_canonical(timestamp::widened(s)),
        timestamp::is_canonical(s) ==> timestamp::widened(s) == s,
{
    reveal_strlit(".");
    reveal_strlit("Z");
    let w = timestamp::widened(s);
    assert(w.len() == 27);
    assert forall|i: int| 0 <= i < 19 implies #[trigger] w[i] == s[i] by {}
    assert(w[19] == '.');
    assert(w[26] == 'Z');
    let p = timestamp::padded(timestamp::fraction(s), 6);
    assert forall|i: int| 20 <= i < 26 implies #[trigger] w[i] == p[i - 20] by {}
    assert forall|i: int| 20 <= i < 26 implies timestamp::is_digit(#[trigger] w[i]) by {
        if i < s.len() - 1 {
            assert(timestamp::is_digit(s[i]));
            assert(timestamp::fraction(s)[i - 20] == s[i]);
        }
    }
    assert(timestamp::digits_at(w, 20, 6));
    assert forall|k: int| 0 <= k < 19 && timestamp::is_digit(s[k]) implies timestamp::is_digit(#[trigger] w[k]) by {}
    lemma_number_same(w, s, 0, 4);
    lemma_number_same(w, s, 5, 2);
    lemma_number_same(w, s, 8, 2);
    lemma_number_same(w, s, 11, 2);
    lemma_number_same(w, s, 14, 2);
    lemma_number_same(w, s, 17, 2);
    if s.len() == 27 {
        assert(w =~= s) by {
            assert forall|i: int| 20 <= i < 26 implies w[i] == s[i] by {
                assert(timestamp::fraction(s)[i - 20] == s[i]);
            }
        }
    }
}

fn year_start(y: u64) -> (n: u64)
    requires
        1 <= y <= 10000,
    ensures
        n == days_before_year(y as nat),
{
    365 * (y - 1) + (y - 1) / 4 - (y - 1) / 100 + (y - 1) / 400
}

fn month_start(y: u64, m: u64) -> (n: u64)
    requires
        1 <= m <= 13,
    ensures
        n == days_before_month(y as nat, m as nat),
        n <= 31 * (m - 1),
{
    let mut n: u64 = 0;
    let mut i: u64 = 1;
    while i < m
        invariant
            1 <= i <= m <= 13,
            n == days_before_month(y as nat, i as nat),
            n <= 31 * (i - 1),
        decreases m - i,
    {
        n = n + month_length(y, i);
        i = i + 1;
    }
    n
}

/// The moment a timestamp names, or a refusal.
pub fn parse(s: &str) -> (instant: Result<u64>)
    ensures
        instant.is_ok() == timestamp::is_stamp(s@),
        instant matches Ok(t) ==> t == micros_of(timestamp::widened(s@)) && t < END,
        instant matches Err(e) ==> timestamp::refuses(e, s@),
{
    let canonical = match normalize(s) {
        Ok(canonical) => canonical,
        Err(e) => {
            return Err(e);
        },
    };
    let chars = chars_of(canonical.as_str());
    proof {
        lemma_widened(s@);
        lemma_fields_bounded(chars@);
    }
    let y: u64 = number_in(&chars, 0, 4);
    let m: u64 = number_in(&chars, 5, 2);
    let d: u64 = number_in(&chars, 8, 2);
    let h: u64 = number_in(&chars, 11, 2);
    let mi: u64 = number_in(&chars, 14, 2);
    let sec: u64 = number_in(&chars, 17, 2);
    let us: u64 = number_in(&chars, 20, 6);
    proof {
        lemma_years_ascend(y as nat, 9999);
        lemma_months_ascend(y as nat, m as nat, 13);
        lemma_months_of_year(y as nat);
        lemma_year_length(y as nat);
        lemma_years_ascend((y + 1) as nat, 10000);
        assert(days_before_year(10000) == 3652059);
    }
    let day: u64 = year_start(y) + month_start(y, m) + (d - 1);
    Ok((((day * 24 + h) * 60 + mi) * 60 + sec) * 1_000_000 + us)
}

/// `n` in `w` decimal digits.
pub open spec fn in_digits(n: nat, w: nat) -> Seq<char>
    decreases w,
{
    if w == 0 {
        Seq::empty()
    } else {
        in_digits(n / 10, (w - 1) as nat).push(text::digit(n % 10))
    }
}

proof fn lemma_in_digits(n: nat, w: nat)
    ensures
        in_digits(n, w).len() == w,
        forall|i: int| 0 <= i < w ==> timestamp::is_digit(#[trigger] in_digits(n, w)[i]),
        n < timestamp::ten_to(w) ==> timestamp::number_at(in_digits(n, w), 0, w) == n,
    decreases w,
{
    if w > 0 {
        let m = (w - 1) as nat;
        lemma_in_digits(n / 10, m);
        assert forall|i: int| 0 <= i < w implies timestamp::is_digit(#[trigger] in_digits(n, w)[i]) by {
            if i < m {
                assert(in_digits(n, w)[i] == in_digits(n / 10, m)[i]);
            }
        }
        lemma_number_same(in_digits(n, w), in_digits(n / 10, m), 0, m);
    }
}

fn push_digits(out: &mut String, n: u64, w: u64)
    ensures
        final(out)@ == old(out)@ + in_digits(n as nat, w as nat),
    decreases w,
{
    if w > 0 {
        push_digits(out, n / 10, w - 1);
        let ghost before = out@;
        crate::text::push_decimal(out, n % 10);
        proof {
            assert(text::decimal((n % 10) as nat) =~= seq![text::digit((n % 10) as nat)]);
            assert(out@ =~= old(out)@ + in_digits(n as nat, w as nat));
        }
    } else {
        proof {
            assert(out@ =~= old(out)@ + in_digits(n as nat, 0));
        }
    }
}

proof fn lemma_shifted(s: Seq<char>, part: Seq<char>, i: int, n: nat)
    requires
        0 <= i,
        i + n <= s.len(),
        part.len() == n,
        s.subrange(i, i + n) == part,
    ensures
        timestamp::number_at(s, i, n) == timestamp::number_at(part, 0, n),
    decreases n,
{
    lemma_shifted_prefix(s, part, i, n, n);
}

proof fn lemma_shifted_prefix(s: Seq<char>, part: Seq<char>, i: int, n: nat, k: nat)
    requires
        0 <= i,
        i + n <= s.len(),
        part.len() == n,
        s.subrange(i, i + n) == part,
        k <= n,
    ensures
        timestamp::number_at(s, i, k) == timestamp::number_at(part, 0, k),
    decreases k,
{
    if k > 0 {
        lemma_shifted_prefix(s, part, i, n, (k - 1) as nat);
        assert(s.subrange(i, i + n)[k - 1] == part[k - 1]);
    }
}

/// The date of a day, as year, month and day of the month.
fn date_of(days: u64) -> (date: (u64, u64, u64))
    requires
        days < 3652059,
    ensures
        1 <= date.0 < 10000,
        1 <= date.1 <= 12,
        1 <= date.2 <= timestamp::days_in_month(date.0 as nat, date.1 as nat),
        day_number(date.0 as nat, date.1 as nat, date.2 as nat) == days,
{
    assert(days_before_year(10000) == 3652059);
    assert(days_before_year(1) == 0);
    let mut y: u64 = 1;
    while y < 9999 && year_start(y + 1) <= days
        invariant
            1 <= y <= 9999,
            days_before_year(y as nat) <= days,
        decreases 9999 - y,
    {
        y = y + 1;
    }
    assert(days < days_before_year((y + 1) as nat));
    let mut rest: u64 = days - year_start(y);
    let mut m: u64 = 1;
    proof {
        lemma_year_length(y as nat);
        lemma_months_of_year(y as nat);
    }
    while rest >= month_length(y, m)
        invariant
            1 <= y <= 9999,
            1 <= m <= 12,
            days_before_year(y as nat) + days_before_month(y as nat, m as nat) + rest == days,
            days < days_before_year(y as nat) + days_before_month(y as nat, 13),
        decreases 13 - m,
    {
        assert(days_before_month(y as nat, (m + 1) as nat) == days_before_month(y as nat, m as nat)
            + timestamp::days_in_month(y as nat, m as nat));
        rest = rest - month_length(y, m);
        m = m + 1;
    }
    (y, m, rest + 1)
}

/// The canonical timestamp that the fields make.
fn assemble(y: u64, m: u64, d: u64, h: u64, mi: u64, sec: u64, us: u64) -> (s: String)
    requires
        1 <= y < 10000,
        1 <= m <= 12,
        1 <= d <= timestamp::days_in_month(y as nat, m as nat),
        h < 24,
        mi < 60,
        sec < 60,
        us < 1_000_000,
    ensures
        timestamp::is_canonical(s@),
        micros_of(s@) == moment(y as nat, m as nat, d as nat, h as nat, mi as nat, sec as nat, us as nat),
{
    let mut out = String::new();
    push_digits(&mut out, y, 4);
    out.append("-");
    push_digits(&mut out, m, 2);
    out.append("-");
    push_digits(&mut out, d, 2);
    out.append("T");
    push_digits(&mut out, h, 2);
    out.append(":");
    push_digits(&mut out, mi, 2);
    out.append(":");
    push_digits(&mut out, sec, 2);
    out.append(".");
    push_digits(&mut out, us, 6);
    out.append("Z");
    proof {
        lemma_assembled(out@, y as nat, m as nat, d as nat, h as nat, mi as nat, sec as nat, us as nat);
    }
    out
}

proof fn lemma_clock(secs: int)
    requires
        0 <= secs,
    ensures
        ((secs / 86400 * 24 + (secs / 3600) % 24) * 60 + (secs / 60) % 60) * 60 + secs % 60 == secs,
{
    let r = secs % 86400;
    let days = secs / 86400;
    assert(secs / 3600 == days * 24 + r / 3600);
    assert(secs / 60 == days * 1440 + r / 60);
    assert((secs / 3600) % 24 == r / 3600);
    assert((secs / 60) % 60 == (r / 60) % 60);
}

/// The canonical timestamp of a moment.
pub fn format(t: u64) -> (s: String)
    requires
        t < END,
    ensures
        timestamp::is_canonical(s@),
        micros_of(s@) == t,
{
    let secs: u64 = t / 1_000_000;
    let date = date_of(secs / 86400);
    proof {
        lemma_clock(secs as int);
    }
    assemble(
        date.0,
        date.1,
        date.2,
        (secs / 3600) % 24,
        (secs / 60) % 60,
        secs % 60,
        t % 1_000_000,
    )
}

proof fn lemma_assembled(s: Seq<char>, y: nat, m: nat, d: nat, h: nat, mi: nat, sec: nat, us: nat)
    requires
        1 <= y < 10000,
        1 <= m <= 12,
        1 <= d <= timestamp::days_in_month(y, m),
        h < 24,
        mi < 60,
        sec < 60,
        us < 1_000_000,
        s == Seq::<char>::empty() + in_digits(y, 4) + "-"@ + in_digits(m, 2) + "-"@ + in_digits(d, 2) + "T"@
            + in_digits(h, 2) + ":"@ + in_digits(mi, 2) + ":"@ + in_digits(sec, 2) + "."@ + in_digits(us, 6)
            + "Z"@,
    ensures
        timestamp::is_canonical(s),
        micros_of(s) == moment(y, m, d, h, mi, sec, us),
{
    reveal_strlit("-");
    reveal_strlit("T");
    reveal_strlit(":");
    reveal_strlit(".");
    reveal_strlit("Z");
    reveal_with_fuel(timestamp::ten_to, 8);
    lemma_in_digits(y, 4);
    lemma_in_digits(m, 2);
    lemma_in_digits(d, 2);
    lemma_in_digits(h, 2);
    lemma_in_digits(mi, 2);
    lemma_in_digits(sec, 2);
    lemma_in_digits(us, 6);
    assert(s.len() == 27);
    assert(s.subrange(0, 4) =~= in_digits(y, 4));
    assert(s.subrange(5, 7) =~= in_digits(m, 2));
    assert(s.subrange(8, 10) =~= in_digits(d, 2));
    assert(s.subrange(11, 13) =~= in_digits(h, 2));
    assert(s.subrange(14, 16) =~= in_digits(mi, 2));
    assert(s.subrange(17, 19) =~= in_digits(sec, 2));
    assert(s.subrange(20, 26) =~= in_digits(us, 6));
    lemma_shifted(s, in_digits(y, 4), 0, 4);
    lemma_shifted(s, in_digits(m, 2), 5, 2);
    lemma_shifted(s, in_digits(d, 2), 8, 2);
    lemma_shifted(s, in_digits(h, 2), 11, 2);
    lemma_shifted(s, in_digits(mi, 2), 14, 2);
    lemma_shifted(s, in_digits(sec, 2), 17, 2);
    lemma_shifted(s, in_digits(us, 6), 20, 6);
    lemma_digits_within(s, 0, 4);
    lemma_digits_within(s, 5, 2);
    lemma_digits_within(s, 8, 2);
    lemma_digits_within(s, 11, 2);
    lemma_digits_within(s, 14, 2);
    lemma_digits_within(s, 17, 2);
    lemma_digits_within(s, 20, 6);
}

proof fn lemma_digits_within(s: Seq<char>, i: int, n: int)
    requires
        0 <= i,
        0 <= n,
        i + n <= s.len(),
        forall|k: int| 0 <= k < n ==> timestamp::is_digit(#[trigger] s.subrange(i, i + n)[k]),
    ensures
        timestamp::digits_at(s, i, n),
{
    assert forall|k: int| i <= k < i + n implies timestamp::is_digit(#[trigger] s[k]) by {
        assert(s.subrange(i, i + n)[k - i] == s[k]);
    }
}

/// Formatting the moment of a timestamp gives its canonical form back.
pub proof fn law_format_undoes_parse(s: Seq<char>, formatted: Seq<char>)
    requires
        timestamp::is_stamp(s),
        timestamp::is_canonical(formatted),
        micros_of(formatted) == micros_of(timestamp::widened(s)),
    ensures
        formatted == timestamp::widened(s),
{
    lemma_widened(s);
    law_text_order_is_time_order(formatted, timestamp::widened(s));
}

} // verus!
