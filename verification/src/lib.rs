//! An embedded, log-structured key-value store.

pub mod batch;
pub mod bytes;
pub mod calls;
pub mod column_family;
pub mod db;
pub mod engine;
pub mod env;
pub mod error;
pub mod event_listener;
pub mod history;
pub mod iter;
pub mod mvcc;
pub mod options;
pub mod slice;
pub mod staged;
pub mod text;

pub use batch::{WriteBatch, WriteBatchOp, WriteTally};
pub use column_family::{ColumnFamilyHandle, DEFAULT_CF_NAME};
pub use db::ingest::ExternalFile;
pub use db::snapshot::Snapshot;
pub use db::stream::{Entries, EntryCursor, OwnedSnapshotIter, ScanStream};
pub use db::tailing::TailingIter;
pub use db::{Db, MemTableStats, Range, ScanPage};
pub use engine::store::levels::CompactionOutcome;
pub use engine::store::Stored;
pub use env::{Capabilities, Env};
pub use error::{Error, ErrorKind, IoError, Result};
pub use event_listener::{
    BackgroundErrorReason, CompactionJobInfo, EventListener, ExternalFileIngestionInfo,
    FlushJobInfo, TableFileCreationInfo, TableFileCreationReason, TableFileDeletionInfo,
    WalFullInfo,
};
pub use iter::CfIter;
pub use mvcc::{IsolationLevel, MvccTransactions, MvccTxn, TransactionError, TxResult};
pub use options::{
    ArenaProfile, CompactionDecision, CompactionFilter, CompactionStyle, CompressionType,
    DurabilityMode, FifoCompactionOptions, FixedLengthPrefix, MergeOperator, Options,
    PrefixExtractor, UniversalCompactionOptions, WriteOptions, DEFAULT_MAX_BACKGROUND_COMPACTIONS,
    DEFAULT_MAX_KEY_SIZE, DEFAULT_MAX_VALUE_SIZE, DEFAULT_TRANSACTION_KEYS_INLINE,
    MAX_BLOCK_CACHE_SHARD_BITS, MAX_BLOOM_BITS_PER_KEY,
};
pub use slice::DbSlice;
