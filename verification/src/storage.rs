//! What the engine keeps: records, pages, the memtable and the write-ahead log.

pub mod fields;
pub mod record;
pub mod page;
pub mod versions;
pub mod memtable;
pub mod wal;
pub mod flush;
