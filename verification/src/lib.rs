//! An embeddable single-process tabular data store: named tables with fixed
//! ordered schemas, append-only row storage, a per-table secondary index
//! maintained on write, equality-predicate projection, and a snapshot codec
//! whose round trip is proved exact.
//!
//! The store itself is synchronous and single-owner; a caller serializes
//! access (one exclusive critical section around every operation) and performs
//! the actual file and network transfers, handing this crate plain values.

pub mod table;
pub mod index;
pub mod store;
pub mod codec;
pub mod command;
pub mod laws;
