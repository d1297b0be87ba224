//! The key-value store beside the ledger.

use vstd::prelude::*;
use vstd::utf8::*;

use crate::error::{DbError, Result};
use crate::sql;
use crate::sql::{bind, text_value, SqlValue, SqlView};
use crate::text;
use crate::text::chars_of;

verus! {

/// The longest key, in characters.
pub const MAX_KV_KEY: usize = 256;

/// Whether `c` may stand in a key.
pub open spec fn is_key_char(c: char) -> bool {
    ||| 'a' <= c <= 'z'
    ||| 'A' <= c <= 'Z'
    ||| '0' <= c <= '9'
    ||| c == '_'
    ||| c == ':'
    ||| c == '.'
    ||| c == '/'
    ||| c == '-'
}

/// Whether `s` may begin a key: letters, digits and `_ : . / -`, at most 256
/// characters, and possibly none.
pub open spec fn is_kv_prefix(s: Seq<char>) -> bool {
    &&& s.len() <= MAX_KV_KEY
    &&& forall|i: int| 0 <= i < s.len() ==> is_key_char(#[trigger] s[i])
}

/// Whether `s` is a key: what may begin one, and not empty.
pub open spec fn is_kv_key(s: Seq<char>) -> bool {
    0 < s.len() && is_kv_prefix(s)
}

/// Refuses what may not begin a key.
pub fn validate_kv_prefix(prefix: &str) -> (checked: Result<()>)
    ensures
        checked.is_ok() == is_kv_prefix(prefix@),
        checked matches Err(e) ==> (e matches DbError::InvalidKvKey(named) && named@ == prefix@),
{
    let chars = chars_of(prefix);
    let n: usize = chars.len();
    if n > MAX_KV_KEY {
        return Err(DbError::InvalidKvKey(prefix.to_owned()));
    }
    let mut i: usize = 0;
    while i < n
        invariant
            n == chars@.len(),
            chars@ == prefix@,
            i <= n,
            forall|j: int| 0 <= j < i ==> is_key_char(#[trigger] chars@[j]),
        decreases n - i,
    {
        let c = chars[i];
        if !(('a' <= c && c <= 'z') || ('A' <= c && c <= 'Z') || ('0' <= c && c <= '9') || c == '_' || c == ':'
            || c == '.' || c == '/' || c == '-') {
            proof {
                assert(!is_key_char(prefix@[i as int]));
            }
            return Err(DbError::InvalidKvKey(prefix.to_owned()));
        }
        i = i + 1;
    }
    Ok(())
}

/// Refuses what is no key.
pub fn validate_kv_key(key: &str) -> (checked: Result<()>)
    ensures
        checked.is_ok() == is_kv_key(key@),
        checked matches Err(e) ==> (e matches DbError::InvalidKvKey(named) && named@ == key@),
{
    if chars_of(key).len() == 0 {
        return Err(DbError::InvalidKvKey(key.to_owned()));
    }
    validate_kv_prefix(key)
}

/// The characters from the one after the first that may stand in a key to the
/// one after the last, in order.
const SUCCESSORS: &'static str =
    "./0123456789:;<=>?@ABCDEFGHIJKLMNOPQRSTUVWXYZ[\\]^_`abcdefghijklmnopqrstuvwxyz{";

proof fn lemma_successors(i: int)
    requires
        0 <= i < 78,
    ensures
        SUCCESSORS@.len() == 78,
        SUCCESSORS@[i] as int == 0x2E + i,
{
    reveal_strlit("./0123456789:;<=>?@ABCDEFGHIJKLMNOPQRSTUVWXYZ[\\]^_`abcdefghijklmnopqrstuvwxyz{");
}

/// The character after `c`.
pub open spec fn successor(c: char) -> char {
    (c as u32 + 1) as char
}

/// The first text past every one that begins with `prefix`: `prefix` with the
/// next character at its end.
pub open spec fn past(prefix: Seq<char>) -> Seq<char> {
    prefix.drop_last().push(successor(prefix.last()))
}

/// The first text past every one that begins with `prefix`; none where `prefix`
/// is empty, which no text is past.
pub fn prefix_end(prefix: &str) -> (end: Option<String>)
    requires
        is_kv_prefix(prefix@),
    ensures
        end.is_some() == (prefix@.len() > 0),
        end matches Some(e) ==> e@ == past(prefix@),
{
    let chars = chars_of(prefix);
    let n: usize = chars.len();
    if n == 0 {
        return None;
    }
    let last = chars[n - 1];
    let at: usize = last as usize - 0x2D;
    proof {
        assert(is_key_char(prefix@[n - 1]));
        lemma_successors(at as int);
    }
    let mut end = vstd::string::StrSliceExecFns::substring_char(prefix, 0, n - 1).to_owned();
    end.append(vstd::string::StrSliceExecFns::substring_char(SUCCESSORS, at, at + 1));
    proof {
        assert(SUCCESSORS@.subrange(at as int, at + 1) =~= seq![SUCCESSORS@[at as int]]);
        assert(SUCCESSORS@[at as int] == successor(last));
        assert(end@ =~= past(prefix@));
    }
    Some(end)
}

/// Whether `s` begins with `prefix`.
pub open spec fn begins_with(s: Seq<char>, prefix: Seq<char>) -> bool {
    prefix.len() <= s.len() && s.take(prefix.len() as int) == prefix
}

proof fn lemma_ascii_prefix(s: Seq<char>, prefix: Seq<char>)
    requires
        is_ascii_chars(prefix),
    ensures
        begins_with(s, prefix) <==> (encode_utf8(prefix).len() <= encode_utf8(s).len() && encode_utf8(s).take(
            encode_utf8(prefix).len() as int,
        ) == encode_utf8(prefix)),
    decreases prefix.len(),
{
    let (p, k) = (encode_utf8(prefix), encode_utf8(s));
    is_ascii_chars_encode_utf8(prefix);
    if prefix.len() == 0 {
        assert(s.take(0) =~= prefix);
        assert(k.take(0) =~= p);
    } else {
        let c = prefix[0];
        let rest = prefix.drop_first();
        is_ascii_chars_encode_utf8(rest);
        assert(is_ascii_chars(rest)) by {
            assert forall|i: int| 0 <= i < rest.len() implies '\0' <= #[trigger] rest[i] <= '\u{7f}' by {
                assert(rest[i] == prefix[i + 1]);
            }
        }
        is_ascii_chars_encode_utf8(rest);
        let head = encode_scalar(c as u32);
        assert(p == head + encode_utf8(rest));
        assert(head.len() == 1);
        if s.len() > 0 {
            let tail = s.drop_first();
            lemma_ascii_prefix(tail, rest);
            if s[0] == c {
                assert(k == head + encode_utf8(tail));
                if begins_with(s, prefix) {
                    assert(tail.take(rest.len() as int) =~= rest) by {
                        assert forall|i: int| 0 <= i < rest.len() implies tail[i] == rest[i] by {
                            assert(s.take(prefix.len() as int)[i + 1] == prefix[i + 1]);
                        }
                    }
                    assert(k.take(p.len() as int) =~= p) by {
                        assert forall|i: int| 0 <= i < p.len() implies k[i] == p[i] by {
                            if i > 0 {
                                assert(encode_utf8(tail).take(encode_utf8(rest).len() as int)[i - 1]
                                    == encode_utf8(rest)[i - 1]);
                            }
                        }
                    }
                }
                if p.len() <= k.len() && k.take(p.len() as int) == p {
                    assert(encode_utf8(tail).take(encode_utf8(rest).len() as int) =~= encode_utf8(rest)) by {
                        assert forall|i: int| 0 <= i < encode_utf8(rest).len() implies encode_utf8(tail)[i]
                            == encode_utf8(rest)[i] by {
                            assert(k.take(p.len() as int)[i + 1] == p[i + 1]);
                        }
                    }
                    assert(s.take(prefix.len() as int) =~= prefix) by {
                        assert forall|i: int| 0 <= i < prefix.len() implies s[i] == prefix[i] by {
                            if i > 0 {
                                assert(tail.take(rest.len() as int)[i - 1] == rest[i - 1]);
                            }
                        }
                    }
                }
            } else {
                if begins_with(s, prefix) {
                    assert(s.take(prefix.len() as int)[0] == prefix[0]);
                }
                if p.len() <= k.len() && k.take(p.len() as int) == p {
                    assert(k.take(p.len() as int)[0] == p[0]);
                    assert(p[0] == c as u8);
                    encode_utf8_first_scalar(s);
                    let b = k[0];
                    assert((b & 0x7F) == b) by (bit_vector)
                        requires
                            b <= 0x7F,
                    ;
                    assert(s[0] as u32 == c as u32);
                    char_u32_cast(s[0], c as u32);
                    char_u32_cast(c, c as u32);
                }
            }
        } else {
            assert(k.len() == 0);
        }
    }
}

/// The keys that begin with a prefix are exactly those from the prefix up to,
/// and not including, the first text past it. So a scan of that range finds
/// every one of them and nothing else.
pub proof fn law_prefix_range_is_exact(prefix: Seq<char>, key: Seq<char>)
    requires
        is_kv_key(prefix),
    ensures
        begins_with(key, prefix) <==> text::text_le(prefix, key) && text::text_lt(key, past(prefix)),
{
    let n = prefix.len() as int;
    let end = past(prefix);
    assert(is_ascii_chars(prefix)) by {
        assert forall|i: int| 0 <= i < prefix.len() implies '\0' <= #[trigger] prefix[i] <= '\u{7f}' by {
            assert(is_key_char(prefix[i]));
        }
    }
    assert(is_key_char(prefix[n - 1]));
    assert(is_ascii_chars(end)) by {
        assert forall|i: int| 0 <= i < end.len() implies '\0' <= #[trigger] end[i] <= '\u{7f}' by {
            if i < n - 1 {
                assert(end[i] == prefix[i]);
            }
        }
    }
    is_ascii_chars_encode_utf8(prefix);
    is_ascii_chars_encode_utf8(end);
    lemma_ascii_prefix(key, prefix);
    let (p, e, k) = (encode_utf8(prefix), encode_utf8(end), encode_utf8(key));
    assert forall|j: int| 0 <= j < n - 1 implies e[j] == p[j] by {
        assert(end[j] == prefix[j]);
    }
    assert(e[n - 1] == p[n - 1] + 1) by {
        assert(end[n - 1] == successor(prefix[n - 1]));
    }
    if begins_with(key, prefix) {
        assert forall|j: int| 0 <= j < n implies k[j] == p[j] by {
            assert(k.take(n)[j] == p[j]);
        }
        if key != prefix {
            if k.len() == n {
                assert(k =~= p);
                text::lemma_encoding_is_injective(key, prefix);
            }
            assert(text::falls_below_at(p, k, n));
        }
        assert(text::falls_below_at(k, e, n - 1));
    }
    if text::text_le(prefix, key) && text::text_lt(key, end) {
        text::lemma_text_lt_asymmetric(prefix, key);
        if key != prefix {
            let i = choose|i: int| text::falls_below_at(k, e, i);
            if i < n - 1 {
                assert(text::falls_below_at(k, p, i));
                assert(false);
            }
            assert(i == n - 1);
            if k.len() == n - 1 || k[n - 1] < p[n - 1] {
                assert(text::falls_below_at(k, p, n - 1));
                assert(false);
            }
            assert(k[n - 1] == p[n - 1]);
            assert(k.take(n) =~= p);
        } else {
            assert(key.take(n) =~= prefix);
        }
    }
}

/// Writes a key, over what it held.
pub const PUT: &'static str =
    "INSERT INTO kv_store (key, value, updated_at) VALUES (?1, ?2, ?3) ON CONFLICT(key) DO UPDATE SET value = excluded.value, updated_at = excluded.updated_at";

/// Reads a key.
pub const GET: &'static str = "SELECT value FROM kv_store WHERE key = ?1";

/// Removes a key.
pub const DELETE: &'static str = "DELETE FROM kv_store WHERE key = ?1";

/// Reads the keys of a range in order, at most so many.
pub const SCAN: &'static str =
    "SELECT key, value FROM kv_store WHERE key >= ?1 AND (?2 IS NULL OR key < ?2) ORDER BY key LIMIT ?3";

/// Binds what writing a key asks for.
pub fn put(key: &str, value: &str, stamp: &str) -> (row: Vec<SqlValue>)
    ensures
        sql::values(row@) == seq![SqlView::Text(key@), SqlView::Text(value@), SqlView::Text(stamp@)],
{
    let mut row: Vec<SqlValue> = Vec::new();
    bind(&mut row, text_value(key));
    bind(&mut row, text_value(value));
    bind(&mut row, text_value(stamp));
    proof {
        assert(sql::values(row@) =~= seq![
            SqlView::Text(key@),
            SqlView::Text(value@),
            SqlView::Text(stamp@),
        ]);
    }
    row
}

/// Whether a removal that touched `rows` rows removed a key.
pub fn deleted(rows: u64) -> (yes: bool)
    ensures
        yes == (rows > 0),
{
    rows > 0
}

/// What a scan binds: the prefix, the first text past it, the ceiling.
pub open spec fn scan_row(prefix: Seq<char>, limit: usize) -> Seq<SqlView> {
    seq![
        SqlView::Text(prefix),
        if prefix.len() > 0 {
            SqlView::Text(past(prefix))
        } else {
            SqlView::Null
        },
        SqlView::Integer(limit as i64),
    ]
}

/// Binds what a scan of the keys under `prefix` asks for, at most `limit` of
/// them. What may not begin a key is refused.
pub fn scan(prefix: &str, limit: usize) -> (row: Result<Vec<SqlValue>>)
    ensures
        row.is_ok() == is_kv_prefix(prefix@),
        row matches Ok(r) ==> sql::values(r@) == scan_row(prefix@, limit),
        row matches Err(e) ==> (e matches DbError::InvalidKvKey(named) && named@ == prefix@),
{
    if let Err(e) = validate_kv_prefix(prefix) {
        return Err(e);
    }
    let mut row: Vec<SqlValue> = Vec::new();
    bind(&mut row, text_value(prefix));
    bind(
        &mut row,
        match prefix_end(prefix) {
            Some(end) => SqlValue::Text(end),
            None => SqlValue::Null,
        },
    );
    bind(&mut row, SqlValue::Integer(limit as i64));
    proof {
        assert(sql::values(row@) =~= scan_row(prefix@, limit));
    }
    Ok(row)
}

} // verus!
