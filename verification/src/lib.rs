//! Core of a write-ahead log for a time-series storage engine.
//!
//! The crate holds the byte formats of log and meta records, the per-region
//! bookkeeping of an append-only log kept in an ordered key-value store, and
//! the per-table registry of a log kept in a message queue. Everything here is
//! synchronous and free of I/O: callers perform the reads and writes that the
//! functions of this crate plan, and hand back what the store answered.

use vstd::prelude::*;

pub mod byte_order;
pub mod kv_encoder;
pub mod log_batch;
pub mod manager;
pub mod payload;
pub mod recovery;
pub mod region;
pub mod region_meta;
pub mod table_options;

verus! {

/// Names a log stream.
pub type RegionId = u64;

/// Names a logical table inside a region.
pub type TableId = u64;

/// Position of a record in the log of a region.
pub type SequenceNumber = u64;

/// Smallest sequence number.
pub const MIN_SEQUENCE_NUMBER: u64 = 0;

/// Largest sequence number; kept as a sentinel.
pub const MAX_SEQUENCE_NUMBER: u64 = 0xffff_ffff_ffff_ffff;

} // verus!
