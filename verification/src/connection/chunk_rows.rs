//! The largest chunk each bulk path asks for, in rows.

use vstd::prelude::*;

verus! {

/// Edges per chunk.
pub const EDGES: usize = 90;

/// Concepts per chunk.
pub const CONCEPTS: usize = 70;

/// Annotations per chunk.
pub const ANNOTATIONS: usize = 600;

/// Embeddings per chunk.
pub const EMBEDDINGS: usize = 30;

} // verus!
