//! Resumable, crash-safe block indexer core.
//!
//! The library tracks which block ranges of a chain have been indexed
//! (spans), reconciles live progress against ranges persisted in an
//! ordered key-value store, schedules backward batch indexing around
//! already-covered ranges, extracts tagged remark records from block
//! extrinsics, and answers read-only queries over the persisted data.

use vstd::prelude::*;

pub mod codec;
pub mod span;
pub mod reconciler;
pub mod query;
pub mod remark;
pub mod scheduler;
pub mod store;

verus! {

/// Errors this crate can return.
#[derive(Debug)]
pub enum IndexError {
    /// The ordered store failed; fatal to the affected operation.
    Sled(sled::Error),
    /// Transport or chain-format failure while talking to the node;
    /// the affected operation is dropped.
    ConnectionError,
    /// Malformed persisted bytes or record payload.
    ParseError,
    /// The chain does not know a block by that number.
    BlockNotFound(u32),
}

} // verus!
