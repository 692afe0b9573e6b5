//! Verified persistence and retrieval core for a continuous screen/audio
//! capture pipeline.
//!
//! The crate models the embedded relational store as an in-memory value of
//! plain tables and verifies the logic that the store's transactions and
//! queries implement: identifier and offset allocation, referential
//! integrity, the ingest writers, the speaker registry, position-level
//! match extraction, and the repair protocol's decision. The surrounding
//! process (connection pool, SQL execution, async scheduling) lives
//! outside the library and drives it with plain values.

pub mod ingest;
pub mod laws;
pub mod num;
pub mod order;
pub mod positions;
pub mod repair;
pub mod search;
pub mod speakers;
pub mod store;
pub mod text;
pub mod types;
