//! Spatio: an embedded key-value and spatial database.
//!
//! This crate holds the verified core of the database: the byte-key ordered
//! store with expiration, the append-only-file record format and its replay,
//! atomic batches, the in-memory storage backend, namespaced keys, the keys of
//! spatial and trajectory data, trajectory queries, clustering over a
//! neighbour relation, statistics over stored keys, and the reading of
//! benchmark output and naming helpers of the benchmark report.

pub mod aof;
pub mod batch;
pub mod bench;
pub mod buffer;
pub mod cluster;
pub mod error;
pub mod expiry;
pub mod keys;
pub mod namespace;
pub mod order;
pub mod ordered;
pub mod report;
pub mod stats;
pub mod storage;
pub mod store;
pub mod trajectory;
pub mod types;
