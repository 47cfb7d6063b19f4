//! Session indexing and retrieval engine for coding-assistant transcripts.
//!
//! The crate normalizes transcript sessions into a uniform model, derives
//! short request/work summaries from the raw conversation text, keeps the
//! sessions in a relational store with two full-text indexes, and answers
//! filtered listing, search and aggregation queries over that store.

use vstd::prelude::*;

pub mod config;
pub mod extract;
pub mod indexer;
pub mod model;
pub mod paths;
pub mod store;
pub mod summary;
pub mod text;

verus! {

/// The error taxonomy of the engine.
///
/// `StorageUnavailable` is reserved for a backing file that cannot be
/// opened or created; the in-memory engine itself never produces it.
/// `QueryFailed` reports a malformed operation, such as inserting a
/// session whose id is already present. `SessionNotFound` reports an
/// id-based mutation on an id that is not in the store.
#[derive(Debug, Clone, Copy, PartialEq, Eq, Structural)]
pub enum StoreError {
    StorageUnavailable,
    QueryFailed,
    SessionNotFound,
}

} // verus!
