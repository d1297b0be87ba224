//! The names that most callers need.

pub use crate::branch::{Branch, BranchId, BranchView};
pub use crate::connection::{
    estimated_bulk_hold, Annotation, CadencePolicy, CheckpointReport, ConceptUpsert, Tuning,
    WalCheckpointPolicy, BULK_ATOMIC_WARN_HOLD, CHUNK_BUDGET, MAX_ARCHIVE_SESSIONS,
};
pub use crate::error::{BulkInterrupted, BulkResult, DbError, Overlap, Result, StatedInstants};
pub use crate::graph::{
    AttributeMode, CandidateCount, CostEstimate, CostEstimator, EdgeAssertion,
    FilteredVectorSearch, TraversalBuilder, VectorFilterStrategy,
};
pub use crate::integrity::{audit_current, RebuildReport};
pub use crate::metrics::{CommandKind, KindSnapshot, MetricsSnapshot};
pub use crate::plan::ReadPlan;
pub use crate::temporal::Interval;
pub use crate::vector::{ModelName, VectorSearchResult};
