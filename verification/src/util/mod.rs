//! Timestamps and identifiers.

pub mod ids;
pub mod instant;
pub mod timestamp;
