//! An embeddable, single-node, ordered key-value storage engine following the
//! Log-Structured Merge-Tree pattern.
//!
//! Writes flow through a write-ahead log and an in-memory sorted table (the
//! memtable); once the memtable exceeds a byte threshold it is flushed as an
//! immutable sorted run (an SSTable) laid out as a sequence of fixed-size
//! blocks.  A sparse in-memory index locates keys within SSTables, and a basic
//! size-triggered compaction merges accumulated SSTables into a single run.
//!
//! The storage layer operates on in-memory images of the on-disk files: every
//! SSTable and the write-ahead log are byte vectors in the exact on-disk block
//! format.  A thin unverified shell is expected to move those images between
//! memory and the file system.

pub mod dharma;
pub mod errors;
pub mod memtable;
pub mod options;
pub mod persistence;
pub mod skip_list;
pub mod sparse_index;
pub mod storage;
pub mod traits;
