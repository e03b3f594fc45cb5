//! The key-value store: a sorted in-memory table backed by a write-ahead
//! log, and immutable sorted tables written out when it grows.

pub mod bytes;
pub mod wal;
pub mod sstable;
pub mod memtable;
pub mod engine;
pub mod files;
pub mod history;

use vstd::prelude::*;

verus! {

/// What a malformed file holds.
#[derive(Debug, Clone, Copy, PartialEq, Eq, Structural)]
pub enum DataFault {
    /// A sorted table shorter than its 8-byte footer.
    TableTooSmall,
    /// A key in a sorted table's index runs past the index block.
    CorruptedIndex,
    /// A write-ahead log record starts with an unknown operation code.
    InvalidWalOpCode,
}

/// Why a store operation failed.
#[derive(Debug, Clone, Copy, PartialEq, Eq, Structural)]
pub enum StoreError {
    /// A file ended in the middle of a record.
    UnexpectedEof,
    /// A file holds what its format does not allow.
    InvalidData(DataFault),
}

} // verus!
