//! Text: byte order, decimal numerals, and the few searches the crate needs.

use vstd::prelude::*;
use vstd::utf8::*;

verus! {

/// Whether `a` and `b` agree before position `i` and `a` falls below `b` there.
pub open spec fn falls_below_at(a: Seq<u8>, b: Seq<u8>, i: int) -> bool {
    &&& 0 <= i <= a.len()
    &&& i < b.len()
    &&& forall|j: int| 0 <= j < i ==> a[j] == b[j]
    &&& i < a.len() ==> a[i] < b[i]
}

/// Lexicographic order on bytes.
pub open spec fn bytes_lt(a: Seq<u8>, b: Seq<u8>) -> bool {
    exists|i: int| falls_below_at(a, b, i)
}

/// The order of strings: lexicographic on their UTF-8 bytes.
pub open spec fn text_lt(a: Seq<char>, b: Seq<char>) -> bool {
    bytes_lt(encode_utf8(a), encode_utf8(b))
}

/// `text_lt` or equal.
pub open spec fn text_le(a: Seq<char>, b: Seq<char>) -> bool {
    a == b || text_lt(a, b)
}

/// Two strings with the same bytes are the same string.
pub proof fn lemma_encoding_is_injective(a: Seq<char>, b: Seq<char>)
    requires
        encode_utf8(a) == encode_utf8(b),
    ensures
        a == b,
{
    encode_utf8_decode_utf8(a);
    encode_utf8_decode_utf8(b);
}

/// Nothing precedes itself, and of two strings at most one precedes the other.
pub proof fn lemma_text_lt_asymmetric(a: Seq<char>, b: Seq<char>)
    ensures
        text_lt(a, b) ==> !text_lt(b, a),
        !text_lt(a, a),
{
    let (x, y) = (encode_utf8(a), encode_utf8(b));
    if bytes_lt(x, y) && bytes_lt(y, x) {
        let i = choose|i: int| falls_below_at(x, y, i);
        let j = choose|j: int| falls_below_at(y, x, j);
        if i < j {
            assert(y[i] == x[i]);
        } else if j < i {
            assert(x[j] == y[j]);
        }
    }
    if bytes_lt(x, x) {
        let i = choose|i: int| falls_below_at(x, x, i);
        assert(false);
    }
}

/// The order of strings is transitive.
pub proof fn lemma_text_lt_transitive(a: Seq<char>, b: Seq<char>, c: Seq<char>)
    requires
        text_lt(a, b),
        text_lt(b, c),
    ensures
        text_lt(a, c),
{
    let (x, y, z) = (encode_utf8(a), encode_utf8(b), encode_utf8(c));
    let i = choose|i: int| falls_below_at(x, y, i);
    let j = choose|j: int| falls_below_at(y, z, j);
    let k = if i < j { i } else { j };
    assert(falls_below_at(x, z, k));
}

/// What a three-way comparison of two strings found.
#[derive(Debug, Clone, Copy, PartialEq, Eq, Structural)]
pub enum Order {
    Less,
    Equal,
    Greater,
}

/// Compares two strings byte by byte.
pub fn text_order(a: &str, b: &str) -> (order: Order)
    ensures
        (order == Order::Less) == text_lt(a@, b@),
        (order == Order::Equal) == (a@ == b@),
        (order == Order::Greater) == text_lt(b@, a@),
{
    let x = a.as_bytes();
    let y = b.as_bytes();
    let n: usize = if x.len() < y.len() { x.len() } else { y.len() };
    let mut i: usize = 0;
    while i < n
        invariant
            i <= n,
            n <= x@.len(),
            n <= y@.len(),
            n == x@.len() || n == y@.len(),
            x@ == encode_utf8(a@),
            y@ == encode_utf8(b@),
            forall|j: int| 0 <= j < i ==> x@[j] == y@[j],
        decreases n - i,
    {
        if x[i] < y[i] {
            proof {
                assert(falls_below_at(x@, y@, i as int));
                lemma_text_lt_asymmetric(a@, b@);
                lemma_text_lt_asymmetric(b@, a@);
            }
            return Order::Less;
        }
        if y[i] < x[i] {
            proof {
                assert(falls_below_at(y@, x@, i as int));
                lemma_text_lt_asymmetric(a@, b@);
                lemma_text_lt_asymmetric(b@, a@);
            }
            return Order::Greater;
        }
        i = i + 1;
    }
    proof {
        lemma_text_lt_asymmetric(a@, b@);
        lemma_text_lt_asymmetric(b@, a@);
    }
    if x.len() < y.len() {
        proof {
            assert(falls_below_at(x@, y@, i as int));
        }
        Order::Less
    } else if y.len() < x.len() {
        proof {
            assert(falls_below_at(y@, x@, i as int));
        }
        Order::Greater
    } else {
        proof {
            assert(x@ =~= y@);
            lemma_encoding_is_injective(a@, b@);
        }
        Order::Equal
    }
}

/// The order of strings is total.
pub proof fn lemma_text_lt_total(a: Seq<char>, b: Seq<char>)
    ensures
        a == b || text_lt(a, b) || text_lt(b, a),
{
    let (x, y) = (encode_utf8(a), encode_utf8(b));
    lemma_first_difference(x, y, 0);
    if x == y {
        lemma_encoding_is_injective(a, b);
    }
}

proof fn lemma_first_difference(x: Seq<u8>, y: Seq<u8>, i: int)
    requires
        0 <= i <= x.len(),
        i <= y.len(),
        forall|j: int| 0 <= j < i ==> x[j] == y[j],
    ensures
        x == y || bytes_lt(x, y) || bytes_lt(y, x),
    decreases x.len() - i,
{
    if i == x.len() && i == y.len() {
        assert(x =~= y);
    } else if i == x.len() {
        assert(falls_below_at(x, y, i));
    } else if i == y.len() {
        assert(falls_below_at(y, x, i));
    } else if x[i] < y[i] {
        assert(falls_below_at(x, y, i));
    } else if y[i] < x[i] {
        assert(falls_below_at(y, x, i));
    } else {
        lemma_first_difference(x, y, i + 1);
    }
}

/// The decimal digit for `d`.
pub open spec fn digit(d: nat) -> char {
    ('0' as u32 + d) as char
}

/// `n` in decimal, without leading zeros.
pub open spec fn decimal(n: nat) -> Seq<char>
    decreases n,
{
    if n < 10 {
        seq![digit(n)]
    } else {
        decimal(n / 10).push(digit(n % 10))
    }
}

fn digit_text(d: u64) -> (text: &'static str)
    requires
        d < 10,
    ensures
        text@ == seq![digit(d as nat)],
{
    proof {
        reveal_strlit("0");
        reveal_strlit("1");
        reveal_strlit("2");
        reveal_strlit("3");
        reveal_strlit("4");
        reveal_strlit("5");
        reveal_strlit("6");
        reveal_strlit("7");
        reveal_strlit("8");
        reveal_strlit("9");
    }
    match d {
        0 => "0",
        1 => "1",
        2 => "2",
        3 => "3",
        4 => "4",
        5 => "5",
        6 => "6",
        7 => "7",
        8 => "8",
        _ => "9",
    }
}

/// Appends `n` in decimal.
pub fn push_decimal(out: &mut String, n: u64)
    ensures
        final(out)@ == old(out)@ + decimal(n as nat),
    decreases n,
{
    if n < 10 {
        out.append(digit_text(n));
    } else {
        push_decimal(out, n / 10);
        let ghost before = out@;
        out.append(digit_text(n % 10));
        proof {
            assert(out@ =~= old(out)@ + decimal((n / 10) as nat).push(digit((n % 10) as nat)));
        }
    }
}

/// Appends the decimal digits of a wide number.
pub fn push_wide(out: &mut String, n: u128)
    ensures
        final(out)@ == old(out)@ + decimal(n as nat),
    decreases n,
{
    if n < 10 {
        out.append(digit_text(n as u64));
    } else {
        push_wide(out, n / 10);
        out.append(digit_text((n % 10) as u64));
        proof {
            assert(out@ =~= old(out)@ + decimal((n / 10) as nat).push(digit((n % 10) as nat)));
        }
    }
}

/// The characters of `s`, one by one.
pub fn chars_of(s: &str) -> (chars: Vec<char>)
    ensures
        chars@ == s@,
{
    let mut chars: Vec<char> = Vec::new();
    for c in it: s.chars()
        invariant
            chars@ == it.seq().take(it.index() as int),
            it.seq() == s@,
    {
        proof {
            assert(it.seq().take(it.index() as int + 1) =~= it.seq().take(it.index() as int).push(c));
        }
        chars.push(c);
    }
    proof {
        assert(s@.take(s@.len() as int) =~= s@);
    }
    chars
}

/// Whether `needle` stands in `hay` at position `i`.
pub open spec fn stands_at(hay: Seq<char>, needle: Seq<char>, i: int) -> bool {
    &&& 0 <= i
    &&& i + needle.len() <= hay.len()
    &&& hay.subrange(i, i + needle.len()) == needle
}

/// Whether `needle` occurs anywhere in `hay`.
pub open spec fn occurs_in(hay: Seq<char>, needle: Seq<char>) -> bool {
    exists|i: int| stands_at(hay, needle, i)
}

fn matches_at(hay: &Vec<char>, needle: &Vec<char>, at: usize) -> (found: bool)
    requires
        at + needle@.len() <= hay@.len(),
    ensures
        found == stands_at(hay@, needle@, at as int),
{
    let end: usize = hay.len();
    let mut j: usize = 0;
    while j < needle.len()
        invariant
            end == hay@.len(),
            at + needle@.len() <= hay@.len(),
            j <= needle@.len(),
            forall|k: int| 0 <= k < j ==> hay@[at + k] == needle@[k],
        decreases needle@.len() - j,
    {
        if hay[at + j] != needle[j] {
            proof {
                if stands_at(hay@, needle@, at as int) {
                    assert(hay@.subrange(at as int, at + needle@.len())[j as int] == needle@[j as int]);
                }
            }
            return false;
        }
        j = j + 1;
    }
    proof {
        assert(hay@.subrange(at as int, at + needle@.len()) =~= needle@);
    }
    true
}

/// The first position at which `needle` stands in `hay`.
pub fn find(hay: &str, needle: &str) -> (at: Option<usize>)
    ensures
        at.is_some() == occurs_in(hay@, needle@),
        at.is_some() ==> stands_at(hay@, needle@, at.unwrap() as int),
        at.is_some() ==> forall|j: int| 0 <= j < at.unwrap() ==> !stands_at(hay@, needle@, j),
{
    let hay_chars = chars_of(hay);
    let needle_chars = chars_of(needle);
    if needle_chars.len() > hay_chars.len() {
        return None;
    }
    let last: usize = hay_chars.len() - needle_chars.len();
    let mut i: usize = 0;
    while i <= last
        invariant
            hay_chars@ == hay@,
            needle_chars@ == needle@,
            last == hay@.len() - needle@.len(),
            i <= last + 1,
            hay@.len() <= usize::MAX,
            forall|j: int| 0 <= j < i ==> !stands_at(hay@, needle@, j),
        decreases last + 1 - i,
    {
        if matches_at(&hay_chars, &needle_chars, i) {
            return Some(i);
        }
        if i == last {
            return None;
        }
        i = i + 1;
    }
    None
}

/// Whether `needle` occurs in `hay`.
pub fn contains(hay: &str, needle: &str) -> (found: bool)
    ensures
        found == occurs_in(hay@, needle@),
{
    find(hay, needle).is_some()
}

/// The control characters of ASCII.
pub open spec fn is_control_char(c: char) -> bool {
    c as u32 <= 0x1f || c as u32 == 0x7f
}

/// The characters with Unicode's `White_Space` property.
pub open spec fn is_space_char(c: char) -> bool {
    let u = c as u32;
    ||| 0x09 <= u <= 0x0d
    ||| u == 0x20
    ||| u == 0x85
    ||| u == 0xa0
    ||| u == 0x1680
    ||| 0x2000 <= u <= 0x200a
    ||| u == 0x2028
    ||| u == 0x2029
    ||| u == 0x202f
    ||| u == 0x205f
    ||| u == 0x3000
}

/// Whether `c` is a control character of ASCII.
pub fn is_control(c: char) -> (yes: bool)
    ensures
        yes == is_control_char(c),
{
    let u: u32 = c as u32;
    u <= 0x1f || u == 0x7f
}

/// Whether `c` is white space.
pub fn is_space(c: char) -> (yes: bool)
    ensures
        yes == is_space_char(c),
{
    let u: u32 = c as u32;
    (0x09 <= u && u <= 0x0d) || u == 0x20 || u == 0x85 || u == 0xa0 || u == 0x1680 || (0x2000 <= u
        && u <= 0x200a) || u == 0x2028 || u == 0x2029 || u == 0x202f || u == 0x205f || u == 0x3000
}

/// The text of an optional string.
pub open spec fn opt_view(s: Option<String>) -> Option<Seq<char>> {
    match s {
        Some(text) => Some(text@),
        None => None,
    }
}

/// A copy of an optional string.
pub fn opt_clone(s: &Option<String>) -> (copy: Option<String>)
    ensures
        opt_view(copy) == opt_view(*s),
{
    match s {
        Some(text) => Some(text.clone()),
        None => None,
    }
}

/// An optional string as a borrowed one.
pub fn opt_str(s: &Option<String>) -> (borrowed: Option<&str>)
    ensures
        borrowed.is_some() == s.is_some(),
        borrowed.is_some() ==> borrowed.unwrap()@ == s.unwrap()@,
{
    match s {
        Some(text) => Some(text.as_str()),
        None => None,
    }
}

/// Whether two strings are the same.
pub fn same(a: &str, b: &str) -> (yes: bool)
    ensures
        yes == (a@ == b@),
{
    text_order(a, b) == Order::Equal
}

} // verus!
