//! The names of embedding models.

use vstd::prelude::*;

use crate::error::{DbError, Result};
use crate::text::chars_of;

verus! {

/// The longest model name, in characters.
pub const MAX_MODEL_NAME: usize = 48;

/// Whether `c` may begin a model name.
pub open spec fn is_small_letter(c: char) -> bool {
    'a' <= c <= 'z'
}

/// Whether `c` may stand in a model name.
pub open spec fn is_name_char(c: char) -> bool {
    is_small_letter(c) || '0' <= c <= '9' || c == '_'
}

/// Whether `name` may name a model: a small letter, then small letters, digits
/// and underscores, at most 48 characters in all. It is spliced into the name
/// of a table.
pub open spec fn is_model_name(name: Seq<char>) -> bool {
    &&& 0 < name.len() <= MAX_MODEL_NAME
    &&& is_small_letter(name[0])
    &&& forall|i: int| 0 <= i < name.len() ==> is_name_char(#[trigger] name[i])
}

/// The name of an embedding model.
#[derive(Debug, Clone)]
pub struct ModelName {
    name: String,
}

impl View for ModelName {
    type V = Seq<char>;

    closed spec fn view(&self) -> Seq<char> {
        self.name@
    }
}

impl ModelName {
    /// A model name that keeps the rule, or the refusal of one that does not.
    pub fn new(raw: &str) -> (m: Result<ModelName>)
        ensures
            m.is_ok() == is_model_name(raw@),
            m matches Ok(n) ==> n@ == raw@,
            m matches Err(e) ==> (e matches DbError::InvalidModelName(named) && named@ == raw@),
    {
        let chars = chars_of(raw);
        let n: usize = chars.len();
        if n == 0 || n > MAX_MODEL_NAME || !('a' <= chars[0] && chars[0] <= 'z') {
            return Err(DbError::InvalidModelName(raw.to_owned()));
        }
        let mut i: usize = 0;
        while i < n
            invariant
                n == chars@.len(),
                chars@ == raw@,
                i <= n,
                forall|j: int| 0 <= j < i ==> is_name_char(#[trigger] chars@[j]),
            decreases n - i,
        {
            let c = chars[i];
            if !(('a' <= c && c <= 'z') || ('0' <= c && c <= '9') || c == '_') {
                proof {
                    assert(!is_name_char(raw@[i as int]));
                }
                return Err(DbError::InvalidModelName(raw.to_owned()));
            }
            i = i + 1;
        }
        Ok(ModelName { name: raw.to_owned() })
    }

    /// The name.
    pub fn as_str(&self) -> (s: &str)
        ensures
            s@ == self@,
    {
        self.name.as_str()
    }
}

/// What a search found: an embedded concept and how far it lies from the query.
#[derive(Debug, Clone)]
pub struct VectorSearchResult {
    pub concept_id: String,
    /// The distance as a number that grows with it.
    pub score: u64,
}

/// What a search found.
pub struct HitView {
    pub concept_id: Seq<char>,
    pub score: u64,
}

impl View for VectorSearchResult {
    type V = HitView;

    open spec fn view(&self) -> HitView {
        HitView { concept_id: self.concept_id@, score: self.score }
    }
}

/// What a list of results is.
pub open spec fn hits_view(list: Seq<VectorSearchResult>) -> Seq<HitView> {
    list.map_values(|h: VectorSearchResult| h@)
}

} // verus!
