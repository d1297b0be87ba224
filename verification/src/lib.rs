//! The decision core of a bitemporal edge ledger.
//!
//! Everything that computes lives here and is verified: names and their rules,
//! lineages and how a read resolves them, the statements a read or a write
//! lowers to, the chunk-size law, the overlap guard, the in-memory graph and
//! the algorithms over it, and the write actor's counters. Talking to a
//! database file is left to the caller.

use vstd::prelude::*;

pub mod branch;
pub mod connection;
pub mod error;
pub mod forks;
pub mod graph;
pub mod integrity;
pub mod kv;
pub mod metrics;
pub mod plan;
pub mod prelude;
pub mod relation;
pub mod schema;
pub mod sql;
pub mod store;
pub mod table;
pub mod temporal;
pub mod text;
pub mod util;
pub mod vector;

pub use branch::{Branch, BranchId, BranchView};
pub use connection::{
    Annotation, CadencePolicy, CheckpointReport, ConceptUpsert, Tuning, WalCheckpointPolicy,
    CHUNK_BUDGET,
};
pub use error::{BulkInterrupted, BulkResult, DbError, Overlap, Result, StatedInstants};
pub use plan::ReadPlan;

verus! {

} // verus!
