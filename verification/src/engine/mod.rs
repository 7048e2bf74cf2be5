//! The storage engine: its key encoding, memtable, and write-ahead log.

pub mod checksum;
pub mod clock;
pub mod compaction;
pub mod internal_key;
pub mod memtable;
pub mod read;
pub mod skiplist;
pub mod snapshot_registry;
pub mod store;
pub mod torn;
pub mod wal;
