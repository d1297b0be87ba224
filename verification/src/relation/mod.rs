//! What a statement says of the tables it reads.
//!
//! Each piece of SQL stands here with what it is written as and what it means:
//! a term has a value, a condition holds or not or is unknown, a query gives back
//! rows. A statement put together from pieces is written as they are, and means
//! what they do, over every content of the tables.

pub mod change;
pub mod extreme;
pub mod names;
pub mod query;
pub mod ranked;
pub mod term;
