//! The log-structured store: in-memory table, write-ahead log, sorted
//! tables, compaction and the storage they live on.

pub mod compaction;
pub mod io;
pub mod memtable;
pub mod sst;
pub mod wal;
