//! Bound parameters and the small pieces statements are put together from.

use vstd::prelude::*;

use crate::text;
use crate::text::push_decimal;

verus! {

/// A value bound to a placeholder.
#[derive(Debug)]
pub enum SqlValue {
    Null,
    Integer(i64),
    /// A binary64 value, as its bit pattern.
    Real(u64),
    Text(String),
    Blob(Vec<u8>),
}

/// What a bound value is.
pub enum SqlView {
    Null,
    Integer(i64),
    Real(u64),
    Text(Seq<char>),
    Blob(Seq<u8>),
}

impl View for SqlValue {
    type V = SqlView;

    open spec fn view(&self) -> SqlView {
        match self {
            SqlValue::Null => SqlView::Null,
            SqlValue::Integer(i) => SqlView::Integer(*i),
            SqlValue::Real(r) => SqlView::Real(*r),
            SqlValue::Text(t) => SqlView::Text(t@),
            SqlValue::Blob(b) => SqlView::Blob(b@),
        }
    }
}

/// What a row of bound values is.
pub open spec fn values(row: Seq<SqlValue>) -> Seq<SqlView> {
    row.map_values(|v: SqlValue| v@)
}

/// A text value.
pub fn text_value(s: &str) -> (v: SqlValue)
    ensures
        v@ == SqlView::Text(s@),
{
    SqlValue::Text(s.to_owned())
}

/// An optional text as a value: `NULL` where there is none.
pub open spec fn nullable(s: Option<Seq<char>>) -> SqlView {
    match s {
        Some(t) => SqlView::Text(t),
        None => SqlView::Null,
    }
}

/// An optional text as a value.
pub fn nullable_value(s: &Option<String>) -> (v: SqlValue)
    ensures
        v@ == nullable(text::opt_view(*s)),
{
    match s {
        Some(t) => SqlValue::Text(t.clone()),
        None => SqlValue::Null,
    }
}

/// Adds a value to a row.
pub fn bind(row: &mut Vec<SqlValue>, v: SqlValue)
    ensures
        values(final(row)@) == values(old(row)@).push(v@),
        final(row)@.len() == old(row)@.len() + 1,
{
    row.push(v);
    proof {
        assert(values(row@) =~= values(old(row)@).push(v@));
    }
}

/// The placeholder of slot `n`.
pub open spec fn slot(n: nat) -> Seq<char> {
    "?"@ + text::decimal(n)
}

/// Appends the placeholder of slot `n`.
pub fn push_slot(out: &mut String, n: usize)
    ensures
        final(out)@ == old(out)@ + slot(n as nat),
{
    out.append("?");
    push_decimal(out, n as u64);
    proof {
        assert(out@ =~= old(out)@ + slot(n as nat));
    }
}

/// The placeholders of slots `first` to `first + n - 1`, separated by `, `.
pub open spec fn slot_list(first: nat, n: nat) -> Seq<char>
    decreases n,
{
    if n == 0 {
        Seq::empty()
    } else if n == 1 {
        slot(first)
    } else {
        slot_list(first, (n - 1) as nat) + ", "@ + slot((first + n - 1) as nat)
    }
}

/// The placeholders of `n` slots from `first` on, separated by `, `.
pub fn slots(first: usize, n: usize) -> (list: String)
    requires
        first + n <= usize::MAX,
    ensures
        list@ == slot_list(first as nat, n as nat),
{
    let mut out = String::new();
    let mut i: usize = 0;
    while i < n
        invariant
            i <= n,
            first + n <= usize::MAX,
            out@ == slot_list(first as nat, i as nat),
        decreases n - i,
    {
        if i > 0 {
            out.append(", ");
        }
        push_slot(&mut out, first + i);
        proof {
            assert(out@ =~= slot_list(first as nat, (i + 1) as nat));
        }
        i = i + 1;
    }
    out
}

/// Whether `cuts` are the runs of `size` that `total` is taken in, each as the
/// first and the one after the last.
pub open spec fn are_cuts(cuts: Seq<(usize, usize)>, total: int, size: int) -> bool {
    &&& forall|i: int|
        0 <= i < cuts.len() ==> (#[trigger] cuts[i]).0 == i * size && cuts[i].1 == (if (i + 1) * size < total {
            (i + 1) * size
        } else {
            total
        }) && cuts[i].0 < cuts[i].1
    &&& total <= cuts.len() * size < total + size
}

/// The runs of `size` that `total` is taken in, each as the first and the one
/// after the last.
pub fn cuts_of(total: usize, size: usize) -> (cuts: Vec<(usize, usize)>)
    requires
        size > 0,
    ensures
        are_cuts(cuts@, total as int, size as int),
{
    let mut cuts: Vec<(usize, usize)> = Vec::new();
    let mut from: usize = 0;
    proof {
        assert(0 * size == 0);
    }
    while from < total
        invariant
            size > 0,
            from <= total,
            from == total || from == cuts@.len() * size,
            from == total ==> total <= cuts@.len() * size < total + size,
            forall|i: int|
                0 <= i < cuts@.len() ==> (#[trigger] cuts@[i]).0 == i * size && cuts@[i].1 == (if (i + 1) * size
                    < total {
                    (i + 1) * size
                } else {
                    total as int
                }) && cuts@[i].0 < cuts@[i].1,
        decreases total - from,
    {
        let to: usize = if total - from <= size {
            total
        } else {
            from + size
        };
        proof {
            let n = cuts@.len() as int;
            assert((n + 1) * size == n * size + size) by (nonlinear_arith);
        }
        cuts.push((from, to));
        from = to;
    }
    cuts
}

} // verus!
