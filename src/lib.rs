//! Constraint synthesis for choosing one distinct entity per option slot.
//!
//! Entities are addressed by dense variable indices (`u32`). Candidate sets
//! are vectors without duplicates, viewed as `Set<u32>`.
pub mod sets;
pub mod partition;
pub mod combinations;
pub mod index;
pub mod clauses;
pub mod formula;
pub mod edges;
