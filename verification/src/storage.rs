//! The storage layer: the on-disk record and block format, the SSTable writer
//! and reader, the write-ahead log, and compaction.

pub mod block;
pub mod compaction;
pub mod format;
pub mod sorted_string_table_reader;
pub mod sorted_string_table_writer;
pub mod write_ahead_log;
