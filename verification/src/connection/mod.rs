//! Writing: how bulk work is cut up, guarded, and put into statements.

pub mod archive;
pub mod batch;
pub mod chunk;
pub mod chunk_rows;
pub mod command;
pub mod concepts;
pub mod estimate;
pub mod guard;
pub mod lookups;
pub mod rows;
pub mod tuning;
pub mod writing;

pub use chunk::{
    next_chunk_size, ChunkOutcome, BULK_ATOMIC_WARN_HOLD, CHUNK_BUDGET,
    CHUNK_FLOOR,
};
pub use estimate::estimated_bulk_hold;
pub use rows::{Annotation, ConceptUpsert};
pub use archive::MAX_ARCHIVE_SESSIONS;
pub use tuning::{CadencePolicy, CheckpointReport, Tuning, WalCheckpointPolicy};
