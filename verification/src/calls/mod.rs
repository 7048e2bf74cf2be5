//! What calls promise each other.
//!
//! The laws here speak of what callers see: the arguments they hand in, the
//! answers they get back, and what one call's answer says of another's.

pub mod batches;
pub mod codec;
pub mod compaction;
pub mod cursors;
pub mod durability;
pub mod families;
pub mod filters;
pub mod limits;
pub mod lists;
pub mod logs;
pub mod memtables;
pub mod merges;
pub mod order;
pub mod owned;
pub mod pins;
pub mod reads;
pub mod reports;
pub mod scans;
pub mod settings;
pub mod snapshots;
pub mod streams;
pub mod tables;
pub mod tailing;
pub mod transactions;
pub mod writes;
