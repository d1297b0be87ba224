//! Identifiers.

use vstd::prelude::*;

use crate::error::{DbError, Result};
use crate::text::chars_of;

verus! {

/// Whether an identifier can be part of a log key, whose parts `|` separates.
pub open spec fn is_valid_id(id: Seq<char>) -> bool {
    !id.contains('|')
}

/// Why an identifier is refused.
pub open spec fn id_refusal() -> Seq<char> {
    "the log key separates its parts with '|'"@
}

/// Whether `e` refuses `id`.
pub open spec fn refuses(e: DbError, id: Seq<char>) -> bool {
    e matches DbError::InvalidId { id: named, reason } && named@ == id && reason@ == id_refusal()
}

/// Checks that `id` can be part of a log key.
pub fn validate_id(id: &str) -> (checked: Result<()>)
    ensures
        checked.is_ok() == is_valid_id(id@),
        checked matches Err(e) ==> refuses(e, id@),
{
    let chars = chars_of(id);
    let mut i: usize = 0;
    while i < chars.len()
        invariant
            chars@ == id@,
            i <= chars@.len(),
            forall|j: int| 0 <= j < i ==> chars@[j] != '|',
        decreases chars@.len() - i,
    {
        if chars[i] == '|' {
            assert(id@[i as int] == '|');
            return Err(
                DbError::InvalidId {
                    id: id.to_owned(),
                    reason: "the log key separates its parts with '|'".to_owned(),
                },
            );
        }
        i = i + 1;
    }
    Ok(())
}

} // verus!
