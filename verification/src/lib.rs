//! An embedded, single-writer key-value storage engine organised as a
//! log-structured merge tree.
//!
//! The crate holds the engine's logic as verified functions on plain values:
//! the record and page formats, the memtable, the write-ahead log's framing,
//! the manifest, the compaction planner and merge, the page cache and the
//! recovery rules. Reading and writing files is left to the caller, who hands
//! the library bytes and takes bytes back.

pub mod error;
pub mod keys;
pub mod codec;
pub mod storage;
pub mod cache;
pub mod engine;
pub mod lsm;
pub mod meta;
