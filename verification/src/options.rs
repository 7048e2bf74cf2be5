//! Configuration: what a database may be told, and which combinations make
//! sense.

use std::sync::Arc;

use vstd::prelude::*;
use vstd::slice::slice_subrange;

use crate::bytes;
use crate::bytes::{opt_slice_view, opt_view, slice_views};
use crate::env::{is_mem_env, is_std_env, mem_env, std_env, Env};
use crate::error::{Error, Result};
use crate::event_listener::EventListener;
use crate::text::{decimal, decimal_text, join2, join3, quoted, quoted_text};

verus! {

/// Default maximum user-key length accepted by write calls: 8 MiB.
pub const DEFAULT_MAX_KEY_SIZE: usize = 8 * 1024 * 1024;

/// Default [`Options::transaction_keys_inline`].
pub const DEFAULT_TRANSACTION_KEYS_INLINE: usize = 32;

/// Default maximum value and merge-operand length accepted by write calls:
/// 64 MiB.
pub const DEFAULT_MAX_VALUE_SIZE: usize = 64 * 1024 * 1024;

/// Highest supported block-cache shard exponent.
pub const MAX_BLOCK_CACHE_SHARD_BITS: u32 = 8;

/// Highest supported Bloom-filter density.
pub const MAX_BLOOM_BITS_PER_KEY: usize = 64;

/// Default number of background compaction workers.
pub const DEFAULT_MAX_BACKGROUND_COMPACTIONS: usize = 1;

/// Longest key a memtable entry can carry: its internal key, nine bytes
/// longer, must have a length below 2^32.
pub const MAX_ENCODABLE_KEY: usize = 0xFFFF_FFF6;

/// Longest value a memtable entry can carry.
pub const MAX_ENCODABLE_VALUE: usize = 0xFFFF_FFFF;

/// Decision returned by a [`CompactionFilter`] for each entry it sees.
#[derive(Debug, Clone, PartialEq, Eq)]
pub enum CompactionDecision {
    /// Leave the entry untouched.
    Keep,
    /// Drop the entry.
    Remove,
    /// Replace the entry's value; key and sequence number stay.
    Change(Vec<u8>),
}

/// A decision, as contracts speak of it.
pub ghost enum Decision {
    Keep,
    Remove,
    Change(Seq<u8>),
}

impl View for CompactionDecision {
    type V = Decision;

    open spec fn view(&self) -> Decision {
        match self {
            CompactionDecision::Keep => Decision::Keep,
            CompactionDecision::Remove => Decision::Remove,
            CompactionDecision::Change(value) => Decision::Change(value@),
        }
    }
}

/// A user-supplied hook that runs during compaction and can drop or rewrite
/// entries in place.
///
/// Implementations must be deterministic functions of `(level, key, value)`
/// and must not read from the database. What one decides is its `verdict`; of
/// an implementation that does not define it, nothing is known.
pub trait CompactionFilter: Send + Sync + 'static {
    /// What the filter decides of an entry.
    open spec fn verdict(&self, level: usize, key: Seq<u8>, value: Seq<u8>) -> Decision {
        vstd::pervasive::arbitrary()
    }

    /// The filter's name.
    open spec fn label(&self) -> Seq<char> {
        vstd::pervasive::arbitrary()
    }

    /// Inspect a point entry.
    fn filter(&self, level: usize, key: &[u8], value: &[u8]) -> (r: CompactionDecision)
        ensures
            r@ == self.verdict(level, key@, value@),
    ;

    /// Whether the filter may drop the range tombstone on `[start, end)`.
    open spec fn prunes(&self, level: usize, start: Seq<u8>, end: Seq<u8>) -> bool {
        vstd::pervasive::arbitrary()
    }

    /// Inspect a range tombstone. Every one is kept unless the filter says
    /// otherwise; there is no value to change.
    fn filter_range_delete(&self, level: usize, start: &[u8], end: &[u8]) -> (r: CompactionDecision)
        ensures
            r is Remove ==> self.prunes(level, start@, end@),
        default_ensures
            r is Keep,
    {
        CompactionDecision::Keep
    }

    /// A stable, human-readable identifier.
    fn name(&self) -> (r: &'static str)
        ensures
            r@ == self.label(),
    ;
}

/// A user-supplied associative merge operator.
///
/// A merge operator lets callers write operands cheaply instead of doing a
/// read-modify-write. Readers collapse a chain of operands by calling
/// [`MergeOperator::full_merge`].
///
/// Implementations must be deterministic functions of their inputs and must
/// not read from the database. `None` signals a merge failure. What one makes
/// of its inputs is `merged`; of an implementation that does not define it,
/// nothing is known.
pub trait MergeOperator: Send + Sync + 'static {
    /// What the operator makes of a base and its operands, oldest first.
    open spec fn merged(
        &self,
        key: Seq<u8>,
        base: Option<Seq<u8>>,
        operands: Seq<Seq<u8>>,
    ) -> Option<Seq<u8>> {
        vstd::pervasive::arbitrary()
    }

    /// The operator's name.
    open spec fn label(&self) -> Seq<char> {
        vstd::pervasive::arbitrary()
    }

    /// Combine a `base` value, if the key had one, with the operands
    /// written since, oldest first.
    fn full_merge(&self, key: &[u8], base: Option<&[u8]>, operands: &[&[u8]]) -> (r: Option<
        Vec<u8>,
    >)
        ensures
            opt_view(r) == self.merged(key@, opt_slice_view(base), slice_views(operands@)),
    ;

    /// Fold two adjacent operands, `left` the older, into one. `None`
    /// disables the fold.
    fn partial_merge(&self, key: &[u8], left: &[u8], right: &[u8]) -> (r: Option<Vec<u8>>)
        default_ensures
            r is None,
    {
        None
    }

    /// A stable, human-readable identifier.
    fn name(&self) -> (r: &'static str)
        ensures
            r@ == self.label(),
    ;
}

/// Per-call knobs for point and batch writes. All default to `false`.
#[derive(Debug, Clone, Copy, PartialEq, Eq, Structural)]
pub struct WriteOptions {
    /// Sync the log before returning, whatever the database default.
    pub sync: bool,
    /// Skip the log. A crash before the next memtable flush loses the
    /// write.
    pub disable_wal: bool,
    /// Accepted and ignored.
    pub low_pri: bool,
    /// Fail the write instead of waiting when the engine is stalling.
    pub no_slowdown: bool,
}

impl Default for WriteOptions {
    fn default() -> (r: Self)
        ensures
            r == (WriteOptions {
                sync: false,
                disable_wal: false,
                low_pri: false,
                no_slowdown: false,
            }),
    {
        WriteOptions { sync: false, disable_wal: false, low_pri: false, no_slowdown: false }
    }
}

impl WriteOptions {
    /// The defaults: every field `false`.
    pub fn new() -> (r: Self)
        ensures
            r == (WriteOptions {
                sync: false,
                disable_wal: false,
                low_pri: false,
                no_slowdown: false,
            }),
    {
        WriteOptions::default()
    }

    /// Only `sync` set.
    pub fn sync() -> (r: Self)
        ensures
            r == (WriteOptions {
                sync: true,
                disable_wal: false,
                low_pri: false,
                no_slowdown: false,
            }),
    {
        WriteOptions { sync: true, ..WriteOptions::default() }
    }

    /// Only `disable_wal` set.
    pub fn disable_wal() -> (r: Self)
        ensures
            r == (WriteOptions {
                sync: false,
                disable_wal: true,
                low_pri: false,
                no_slowdown: false,
            }),
    {
        WriteOptions { disable_wal: true, ..WriteOptions::default() }
    }
}

/// Carves a prefix out of a user key, for prefix-keyed filters. The prefix is
/// `prefix_of`; of an implementation that does not define it, nothing is
/// known.
pub trait PrefixExtractor: Send + Sync + 'static {
    /// The prefix of a key, where it has one.
    open spec fn prefix_of(&self, key: Seq<u8>) -> Option<Seq<u8>> {
        vstd::pervasive::arbitrary()
    }

    /// The extractor's name.
    open spec fn label(&self) -> Seq<char> {
        vstd::pervasive::arbitrary()
    }

    /// The portion of `key` that a prefix filter should index, or `None` if
    /// `key` cannot produce a prefix.
    fn extract<'a>(&self, key: &'a [u8]) -> (r: Option<&'a [u8]>)
        ensures
            opt_slice_view(r) == self.prefix_of(key@),
    ;

    /// The filter key that is safe to probe for a prefix-bounded scan.
    /// Unless the extractor says otherwise, only a prefix that extracts to
    /// itself is.
    fn extract_query<'a>(&self, prefix: &'a [u8]) -> (r: Option<&'a [u8]>)
        default_ensures
            opt_slice_view(r) == (if self.prefix_of(prefix@) == Some(prefix@) {
                Some(prefix@)
            } else {
                None
            }),
    {
        match self.extract(prefix) {
            Some(extracted) => if bytes::same(extracted, prefix) {
                Some(extracted)
            } else {
                None
            },
            None => None,
        }
    }

    /// A stable, human-readable identifier.
    fn name(&self) -> (r: &'static str)
        ensures
            r@ == self.label(),
    ;
}

/// A [`PrefixExtractor`] that takes the first `N` bytes of every key. Keys
/// shorter than `N` contribute no prefix.
#[derive(Debug, Clone, Copy)]
pub struct FixedLengthPrefix(pub usize);

impl PrefixExtractor for FixedLengthPrefix {
    open spec fn prefix_of(&self, key: Seq<u8>) -> Option<Seq<u8>> {
        if key.len() >= self.0 {
            Some(key.take(self.0 as int))
        } else {
            None
        }
    }

    open spec fn label(&self) -> Seq<char> {
        "FixedLengthPrefix"@
    }

    fn extract<'a>(&self, key: &'a [u8]) -> (r: Option<&'a [u8]>) {
        if key.len() >= self.0 {
            let prefix = slice_subrange(key, 0, self.0);
            assert(prefix@ =~= key@.take(self.0 as int));
            Some(prefix)
        } else {
            None
        }
    }

    fn extract_query<'a>(&self, prefix: &'a [u8]) -> (r: Option<&'a [u8]>)
        ensures
            opt_slice_view(r) == self.prefix_of(prefix@),
    {
        self.extract(prefix)
    }

    fn name(&self) -> (r: &'static str) {
        "FixedLengthPrefix"
    }
}

/// Compaction strategy.
#[derive(Debug, Clone, Copy, PartialEq, Eq, Structural)]
pub enum CompactionStyle {
    /// Leveled: L0 collects flushes, which are pushed down through levels
    /// each larger than the one above. The default.
    Level,
    /// Files are never merged; past a total size the oldest is dropped.
    Fifo,
    /// Size-tiered: files are merged into progressively larger runs.
    Universal,
}

impl Default for CompactionStyle {
    fn default() -> (r: Self)
        ensures
            r == CompactionStyle::Level,
    {
        CompactionStyle::Level
    }
}

/// Tunables for [`CompactionStyle::Fifo`].
#[derive(Debug, Clone, Copy, PartialEq, Eq, Structural)]
pub struct FifoCompactionOptions {
    /// Soft cap on the total bytes held by table files. Must be greater
    /// than zero when FIFO compaction is selected.
    pub max_table_files_size: u64,
}

impl Default for FifoCompactionOptions {
    fn default() -> (r: Self)
        ensures
            r.max_table_files_size == 1024 * 1024 * 1024,
    {
        FifoCompactionOptions { max_table_files_size: 1024 * 1024 * 1024 }
    }
}

/// Tunables for [`CompactionStyle::Universal`].
#[derive(Debug, Clone, Copy, PartialEq, Eq, Structural)]
pub struct UniversalCompactionOptions {
    /// Percent tolerance of the size-ratio merge rule. Must be greater than
    /// zero.
    pub size_ratio: u32,
    /// Smallest number of files a size-ratio merge takes. Must be at least
    /// two.
    pub min_merge_width: u32,
    /// Largest number of files a size-ratio merge takes. Must be at least
    /// the smallest.
    pub max_merge_width: u32,
    /// Size-amplification trigger, as a percent. Must be greater than zero.
    pub max_size_amplification_percent: u32,
}

impl Default for UniversalCompactionOptions {
    fn default() -> (r: Self)
        ensures
            r == (UniversalCompactionOptions {
                size_ratio: 1,
                min_merge_width: 2,
                max_merge_width: u32::MAX,
                max_size_amplification_percent: 200,
            }),
    {
        UniversalCompactionOptions {
            size_ratio: 1,
            min_merge_width: 2,
            max_merge_width: u32::MAX,
            max_size_amplification_percent: 200,
        }
    }
}

/// When data is made durable after a write.
#[derive(Debug, Clone, Copy, PartialEq, Eq, Structural)]
pub enum DurabilityMode {
    /// On every write.
    Immediate,
    /// When the host gets to it. The default.
    Eventual,
}

impl Default for DurabilityMode {
    fn default() -> (r: Self)
        ensures
            r == DurabilityMode::Eventual,
    {
        DurabilityMode::Eventual
    }
}

/// Block compression codec applied to table data blocks.
#[derive(Debug, Clone, Copy, PartialEq, Eq, Structural)]
pub enum CompressionType {
    /// No compression.
    Uncompressed,
    /// Snappy.
    Snappy,
    /// LZ4. The default.
    Lz4,
}

impl Default for CompressionType {
    fn default() -> (r: Self)
        ensures
            r == CompressionType::Lz4,
    {
        CompressionType::Lz4
    }
}

/// Whether `n` is a power of two.
pub open spec fn power_of_two(n: nat) -> bool
    decreases n,
{
    n == 1 || (n > 1 && n % 2 == 0 && power_of_two(n / 2))
}

fn is_power_of_two(n: usize) -> (r: bool)
    ensures
        r == power_of_two(n as nat),
{
    let mut left: usize = n;
    while left > 1 && left % 2 == 0
        invariant
            power_of_two(n as nat) == power_of_two(left as nat),
        decreases left,
    {
        left = left / 2;
    }
    left == 1
}

/// Chunk sizes of a memtable arena.
#[derive(Debug, Clone, Copy, PartialEq, Eq, Structural)]
pub struct ArenaProfile {
    /// Size of the first chunk.
    pub initial_chunk_size: usize,
    /// Size that chunks grow to.
    pub max_chunk_size: usize,
}

impl ArenaProfile {
    /// Chunks for a server.
    pub open spec fn server_sizes() -> ArenaProfile {
        ArenaProfile { initial_chunk_size: 0x10000, max_chunk_size: 0x100000 }
    }

    /// Chunks for a small footprint.
    pub open spec fn embedded_sizes() -> ArenaProfile {
        ArenaProfile { initial_chunk_size: 0x1000, max_chunk_size: 0x10000 }
    }

    /// Chunks for a server.
    pub fn server() -> (r: Self)
        ensures
            r == ArenaProfile::server_sizes(),
    {
        ArenaProfile { initial_chunk_size: 0x10000, max_chunk_size: 0x100000 }
    }

    /// Chunks for a small footprint.
    pub fn embedded() -> (r: Self)
        ensures
            r == ArenaProfile::embedded_sizes(),
    {
        ArenaProfile { initial_chunk_size: 0x1000, max_chunk_size: 0x10000 }
    }

    /// Both sizes are powers of two, and the first is at most the second.
    pub open spec fn sound(self) -> bool {
        &&& power_of_two(self.initial_chunk_size as nat)
        &&& power_of_two(self.max_chunk_size as nat)
        &&& self.initial_chunk_size <= self.max_chunk_size
    }

    /// Whether the sizes make sense together.
    pub fn is_valid(&self) -> (r: bool)
        ensures
            r == self.sound(),
    {
        is_power_of_two(self.initial_chunk_size) && is_power_of_two(self.max_chunk_size)
            && self.initial_chunk_size <= self.max_chunk_size
    }
}

impl Default for ArenaProfile {
    fn default() -> (r: Self)
        ensures
            r == ArenaProfile::server_sizes(),
    {
        ArenaProfile::server()
    }
}

/// Configuration of a database.
#[derive(Clone)]
pub struct Options {
    /// Write buffer (memtable) size before flush, in bytes. Must be greater
    /// than zero.
    pub write_buffer_size: usize,
    /// Chunk sizing policy for the memtable arena.
    pub arena_profile: ArenaProfile,
    /// Data block size in table files. Must be greater than zero.
    pub block_size: usize,
    /// Block cache size in bytes; `0` disables the cache.
    pub block_cache_size: usize,
    /// Base-2 log of the block cache shard count. Must be at most
    /// [`MAX_BLOCK_CACHE_SHARD_BITS`].
    pub block_cache_num_shard_bits: u32,
    /// Whether the block cache refuses an entry larger than one shard.
    pub strict_capacity_limit: bool,
    /// Bloom filter bits per key. Must be in
    /// `1..=MAX_BLOOM_BITS_PER_KEY`.
    pub bloom_bits_per_key: usize,
    /// Default block compression codec.
    pub compression: CompressionType,
    /// Per-level compression override: entry `i` selects the codec for level
    /// `i`; deeper levels fall back to [`Options::compression`].
    pub compression_per_level: Option<Vec<CompressionType>>,
    /// Number of L0 tables before triggering compaction. Must be greater than
    /// zero.
    pub l0_compaction_trigger: usize,
    /// Target size for level 1. Must be greater than zero.
    pub level_base_bytes: u64,
    /// Size multiplier between levels. Must be greater than zero.
    pub level_size_multiplier: u64,
    /// Target table file size during compaction. Must be greater than zero.
    pub target_file_size: u64,
    /// Durability mode.
    pub durability: DurabilityMode,
    /// Optional hook consulted during compaction.
    pub compaction_filter: Option<Arc<dyn CompactionFilter>>,
    /// Optional prefix extractor.
    pub prefix_extractor: Option<Arc<dyn PrefixExtractor>>,
    /// Optional associative merge operator. Readers collapse merge chains
    /// through it at visibility time.
    pub merge_operator: Option<Arc<dyn MergeOperator>>,
    /// Accepted for parity with engines that need a switch for atomic
    /// multi-family flushes. Every column family shares one memtable and one
    /// log here, so a batch is always atomic across them.
    pub atomic_flush: bool,
    /// Listeners subscribed to engine lifecycle events.
    pub listeners: Vec<Arc<dyn EventListener>>,
    /// Start slowing writes when the number of L0 tables reaches this
    /// threshold. `0` disables the trigger. If both L0 triggers are enabled,
    /// this must be at most [`Options::level0_stop_writes_trigger`].
    pub level0_slowdown_writes_trigger: usize,
    /// Stop writes when the number of L0 tables reaches this threshold. `0`
    /// disables the trigger.
    ///
    /// Only [`CompactionStyle::Level`] goes by the number of L0 tables. Under
    /// the other styles the threshold can be reached with no compaction due,
    /// and writes then fail with [`crate::Error::Busy`], which names the style
    /// and this field.
    pub level0_stop_writes_trigger: usize,
    /// Start slowing writes when total bytes in L0 reach this limit. `0`
    /// disables the trigger. If both limits are enabled, this must be at most
    /// [`Options::hard_pending_compaction_bytes_limit`].
    pub soft_pending_compaction_bytes_limit: u64,
    /// Stop writes when total bytes in L0 reach this limit. `0` disables the
    /// trigger.
    pub hard_pending_compaction_bytes_limit: u64,
    /// Soft cap on the number of memtables, active and frozen. Reaching it
    /// slows writes; reaching twice this stops them. `0` disables the trigger.
    pub max_write_buffer_number: usize,
    /// Compaction strategy.
    pub compaction_style: CompactionStyle,
    /// Tunables for [`CompactionStyle::Fifo`].
    pub fifo_compaction_options: FifoCompactionOptions,
    /// Tunables for [`CompactionStyle::Universal`].
    pub universal_compaction_options: UniversalCompactionOptions,
    /// Hint the host to drop cached pages of tables that compaction reads or
    /// writes.
    pub evict_compaction_data_from_page_cache: bool,
    /// Number of background threads available for compaction. `0` starts
    /// none, and compaction runs on whichever thread asks for it.
    pub max_background_compactions: usize,
    /// Accepted for compatibility; changes nothing.
    pub max_subcompactions: usize,
    /// Split the table index into leaf blocks and keep only its top level
    /// resident.
    pub partitioned_index: bool,
    /// Charge index and filter blocks to the block cache.
    pub cache_index_and_filter_blocks: bool,
    /// Target size for each index leaf block. Must be greater than zero.
    pub metadata_block_size: usize,
    /// Open without writing; mutating calls return `Error::ReadOnly`.
    pub read_only: bool,
    /// Maximum user-key length accepted by write calls.
    pub max_key_size: usize,
    /// Maximum value and merge-operand length accepted by write calls.
    pub max_value_size: usize,
    /// Keys one transaction buffers before it indexes them.
    pub transaction_keys_inline: usize,
    /// The host platform this database runs on.
    pub env: Env,
}

/// The options the engine itself consumes: [`Options`] less what only the
/// database handle reads.
pub struct EngineOptions {
    pub write_buffer_size: usize,
    pub arena_profile: ArenaProfile,
    pub block_size: usize,
    pub block_cache_size: usize,
    pub block_cache_num_shard_bits: u32,
    pub strict_capacity_limit: bool,
    pub bloom_bits_per_key: usize,
    pub compression: CompressionType,
    pub compression_per_level: Option<Vec<CompressionType>>,
    pub l0_compaction_trigger: usize,
    pub level_base_bytes: u64,
    pub level_size_multiplier: u64,
    pub target_file_size: u64,
    pub compaction_filter: Option<Arc<dyn CompactionFilter>>,
    pub prefix_extractor: Option<Arc<dyn PrefixExtractor>>,
    pub merge_operator: Option<Arc<dyn MergeOperator>>,
    pub listeners: Vec<Arc<dyn EventListener>>,
    pub level0_slowdown_writes_trigger: usize,
    pub level0_stop_writes_trigger: usize,
    pub soft_pending_compaction_bytes_limit: u64,
    pub hard_pending_compaction_bytes_limit: u64,
    pub max_write_buffer_number: usize,
    pub compaction_style: CompactionStyle,
    pub fifo_compaction_options: FifoCompactionOptions,
    pub universal_compaction_options: UniversalCompactionOptions,
    pub evict_compaction_data_from_page_cache: bool,
    pub max_background_compactions: usize,
    pub partitioned_index: bool,
    pub cache_index_and_filter_blocks: bool,
    pub metadata_block_size: usize,
    pub read_only: bool,
    pub max_key_size: usize,
    pub max_value_size: usize,
    pub env: Env,
}

/// What [`Options::default`] sets.
pub open spec fn default_profile(o: Options) -> bool {
    &&& o.write_buffer_size == 64 * 1024 * 1024
    &&& o.arena_profile == ArenaProfile::server_sizes()
    &&& o.block_size == 16 * 1024
    &&& o.block_cache_size == 512 * 1024 * 1024
    &&& o.block_cache_num_shard_bits == 6
    &&& o.strict_capacity_limit == false
    &&& o.bloom_bits_per_key == 10
    &&& o.compression == CompressionType::Lz4
    &&& o.compression_per_level is None
    &&& o.l0_compaction_trigger == 4
    &&& o.level_base_bytes == 256 * 1024 * 1024
    &&& o.level_size_multiplier == 10
    &&& o.target_file_size == 64 * 1024 * 1024
    &&& o.durability == DurabilityMode::Eventual
    &&& o.compaction_filter is None
    &&& o.prefix_extractor is None
    &&& o.merge_operator is None
    &&& o.atomic_flush == false
    &&& o.listeners@.len() == 0
    &&& o.level0_slowdown_writes_trigger == 20
    &&& o.level0_stop_writes_trigger == 36
    &&& o.soft_pending_compaction_bytes_limit == 64 * 1024 * 1024 * 1024
    &&& o.hard_pending_compaction_bytes_limit == 256 * 1024 * 1024 * 1024
    &&& o.max_write_buffer_number == 2
    &&& o.compaction_style == CompactionStyle::Level
    &&& o.fifo_compaction_options.max_table_files_size == 1024 * 1024 * 1024
    &&& o.universal_compaction_options == (UniversalCompactionOptions {
            size_ratio: 1,
            min_merge_width: 2,
            max_merge_width: u32::MAX,
            max_size_amplification_percent: 200,
        })
    &&& o.evict_compaction_data_from_page_cache == false
    &&& o.max_background_compactions == DEFAULT_MAX_BACKGROUND_COMPACTIONS
    &&& o.max_subcompactions == 1
    &&& o.partitioned_index == false
    &&& o.cache_index_and_filter_blocks == false
    &&& o.metadata_block_size == 4096
    &&& o.read_only == false
    &&& o.max_key_size == DEFAULT_MAX_KEY_SIZE
    &&& o.max_value_size == DEFAULT_MAX_VALUE_SIZE
    &&& o.transaction_keys_inline == DEFAULT_TRANSACTION_KEYS_INLINE
}

/// What [`Options::embedded`] sets.
pub open spec fn embedded_profile(o: Options) -> bool {
    &&& o.write_buffer_size == 256 * 1024
    &&& o.arena_profile == ArenaProfile::embedded_sizes()
    &&& o.block_size == 4 * 1024
    &&& o.block_cache_size == 0
    &&& o.block_cache_num_shard_bits == 0
    &&& o.strict_capacity_limit == false
    &&& o.bloom_bits_per_key == 10
    &&& o.compression == CompressionType::Lz4
    &&& o.compression_per_level is None
    &&& o.l0_compaction_trigger == 2
    &&& o.level_base_bytes == 1024 * 1024
    &&& o.level_size_multiplier == 10
    &&& o.target_file_size == 256 * 1024
    &&& o.durability == DurabilityMode::Eventual
    &&& o.compaction_filter is None
    &&& o.prefix_extractor is None
    &&& o.merge_operator is None
    &&& o.atomic_flush == false
    &&& o.listeners@.len() == 0
    &&& o.level0_slowdown_writes_trigger == 4
    &&& o.level0_stop_writes_trigger == 8
    &&& o.soft_pending_compaction_bytes_limit == 4 * 1024 * 1024
    &&& o.hard_pending_compaction_bytes_limit == 16 * 1024 * 1024
    &&& o.max_write_buffer_number == 2
    &&& o.compaction_style == CompactionStyle::Level
    &&& o.fifo_compaction_options.max_table_files_size == 1024 * 1024 * 1024
    &&& o.universal_compaction_options == (UniversalCompactionOptions {
            size_ratio: 1,
            min_merge_width: 2,
            max_merge_width: u32::MAX,
            max_size_amplification_percent: 200,
        })
    &&& o.evict_compaction_data_from_page_cache == true
    &&& o.max_background_compactions == 0
    &&& o.max_subcompactions == 1
    &&& o.partitioned_index == false
    &&& o.cache_index_and_filter_blocks == false
    &&& o.metadata_block_size == 1024
    &&& o.read_only == false
    &&& o.max_key_size == 16 * 1024
    &&& o.max_value_size == 256 * 1024
    &&& o.transaction_keys_inline == 16
}

/// What [`Options::wasm`] sets.
pub open spec fn wasm_profile(o: Options) -> bool {
    &&& o.write_buffer_size == 1024 * 1024
    &&& o.arena_profile == ArenaProfile::embedded_sizes()
    &&& o.block_size == 4 * 1024
    &&& o.block_cache_size == 1024 * 1024
    &&& o.block_cache_num_shard_bits == 0
    &&& o.strict_capacity_limit == false
    &&& o.bloom_bits_per_key == 10
    &&& o.compression == CompressionType::Lz4
    &&& o.compression_per_level is None
    &&& o.l0_compaction_trigger == 4
    &&& o.level_base_bytes == 8 * 1024 * 1024
    &&& o.level_size_multiplier == 10
    &&& o.target_file_size == 1024 * 1024
    &&& o.durability == DurabilityMode::Eventual
    &&& o.compaction_filter is None
    &&& o.prefix_extractor is None
    &&& o.merge_operator is None
    &&& o.atomic_flush == false
    &&& o.listeners@.len() == 0
    &&& o.level0_slowdown_writes_trigger == 8
    &&& o.level0_stop_writes_trigger == 12
    &&& o.soft_pending_compaction_bytes_limit == 32 * 1024 * 1024
    &&& o.hard_pending_compaction_bytes_limit == 128 * 1024 * 1024
    &&& o.max_write_buffer_number == 2
    &&& o.compaction_style == CompactionStyle::Level
    &&& o.fifo_compaction_options.max_table_files_size == 1024 * 1024 * 1024
    &&& o.universal_compaction_options == (UniversalCompactionOptions {
            size_ratio: 1,
            min_merge_width: 2,
            max_merge_width: u32::MAX,
            max_size_amplification_percent: 200,
        })
    &&& o.evict_compaction_data_from_page_cache == false
    &&& o.max_background_compactions == 0
    &&& o.max_subcompactions == 1
    &&& o.partitioned_index == false
    &&& o.cache_index_and_filter_blocks == false
    &&& o.metadata_block_size == 1024
    &&& o.read_only == false
    &&& o.max_key_size == 16 * 1024
    &&& o.max_value_size == 1024 * 1024
    &&& o.transaction_keys_inline == 16
}

/// Memory and block sizing.
pub open spec fn memory_fields(o: Options, s: Seq<(Seq<char>, Seq<char>)>) -> Seq<(Seq<char>, Seq<char>)> {
    s
        .push(("write_buffer_size"@, decimal_text(o.write_buffer_size as nat)))
        .push(("arena_profile"@, arena_text(o.arena_profile)))
        .push(("block_size"@, decimal_text(o.block_size as nat)))
        .push(("block_cache_size"@, decimal_text(o.block_cache_size as nat)))
        .push(("block_cache_num_shard_bits"@, decimal_text(o.block_cache_num_shard_bits as nat)))
        .push(("strict_capacity_limit"@, bool_text(o.strict_capacity_limit)))
        .push(("bloom_bits_per_key"@, decimal_text(o.bloom_bits_per_key as nat)))
}

/// Compression and level sizing.
pub open spec fn level_fields(o: Options, s: Seq<(Seq<char>, Seq<char>)>) -> Seq<(Seq<char>, Seq<char>)> {
    s
        .push(("compression"@, codec_text(o.compression)))
        .push(("compression_per_level"@, codecs_text(o.compression_per_level)))
        .push(("l0_compaction_trigger"@, decimal_text(o.l0_compaction_trigger as nat)))
        .push(("level_base_bytes"@, decimal_text(o.level_base_bytes as nat)))
        .push(("level_size_multiplier"@, decimal_text(o.level_size_multiplier as nat)))
        .push(("target_file_size"@, decimal_text(o.target_file_size as nat)))
}

/// Durability and hooks.
pub open spec fn hook_fields(o: Options, s: Seq<(Seq<char>, Seq<char>)>) -> Seq<(Seq<char>, Seq<char>)> {
    s
        .push(("durability"@, durability_text(o.durability)))
        .push(("compaction_filter"@, name_text(match o.compaction_filter {
            Some(f) => Some(f.label()),
            None => None,
        })))
        .push(("prefix_extractor"@, name_text(match o.prefix_extractor {
            Some(p) => Some(p.label()),
            None => None,
        })))
        .push(("merge_operator"@, name_text(match o.merge_operator {
            Some(m) => Some(m.label()),
            None => None,
        })))
        .push(("atomic_flush"@, bool_text(o.atomic_flush)))
        .push(("listeners"@, decimal_text(o.listeners@.len())))
        .push(("statistics"@, bool_text(false)))
        .push(("rate_limiter"@, bool_text(false)))
}

/// Write stalls and compaction strategy.
pub open spec fn stall_fields(o: Options, s: Seq<(Seq<char>, Seq<char>)>) -> Seq<(Seq<char>, Seq<char>)> {
    s
        .push(("level0_slowdown_writes_trigger"@, decimal_text(o.level0_slowdown_writes_trigger as nat)))
        .push(("level0_stop_writes_trigger"@, decimal_text(o.level0_stop_writes_trigger as nat)))
        .push(("soft_pending_compaction_bytes_limit"@, decimal_text(o.soft_pending_compaction_bytes_limit as nat)))
        .push(("hard_pending_compaction_bytes_limit"@, decimal_text(o.hard_pending_compaction_bytes_limit as nat)))
        .push(("max_write_buffer_number"@, decimal_text(o.max_write_buffer_number as nat)))
        .push(("compaction_style"@, style_text(o.compaction_style)))
        .push(("fifo_compaction_options"@, fifo_text(o.fifo_compaction_options)))
        .push(("universal_compaction_options"@, universal_text(o.universal_compaction_options)))
}

/// Background work, table layout and limits.
pub open spec fn table_fields(o: Options, s: Seq<(Seq<char>, Seq<char>)>) -> Seq<(Seq<char>, Seq<char>)> {
    s
        .push(("evict_compaction_data_from_page_cache"@, bool_text(o.evict_compaction_data_from_page_cache)))
        .push(("max_background_compactions"@, decimal_text(o.max_background_compactions as nat)))
        .push(("max_subcompactions"@, decimal_text(o.max_subcompactions as nat)))
        .push(("partitioned_index"@, bool_text(o.partitioned_index)))
        .push(("cache_index_and_filter_blocks"@, bool_text(o.cache_index_and_filter_blocks)))
        .push(("metadata_block_size"@, decimal_text(o.metadata_block_size as nat)))
        .push(("read_only"@, bool_text(o.read_only)))
        .push(("max_key_size"@, decimal_text(o.max_key_size as nat)))
        .push(("max_value_size"@, decimal_text(o.max_value_size as nat)))
        .push(("env"@, o.env.name@))
}

/// The fields of the text form of a set of options: each name with its
/// value.
pub open spec fn option_fields(o: Options) -> Seq<(Seq<char>, Seq<char>)> {
    let s = memory_fields(o, Seq::empty());
    let s = level_fields(o, s);
    let s = hook_fields(o, s);
    let s = stall_fields(o, s);
    table_fields(o, s)
}

impl Options {
    fn push_memory_fields(&self, out: &mut StructText)
        requires
            old(out).wf(),
        ensures
            final(out).wf(),
            final(out).name == old(out).name,
            final(out).fields@ == memory_fields(*self, old(out).fields@),
    {
        out.field("write_buffer_size", decimal(self.write_buffer_size as u64).as_str());
        out.field("arena_profile", self.arena_profile.to_text().as_str());
        out.field("block_size", decimal(self.block_size as u64).as_str());
        out.field("block_cache_size", decimal(self.block_cache_size as u64).as_str());
        out.field("block_cache_num_shard_bits", decimal(self.block_cache_num_shard_bits as u64).as_str());
        out.field("strict_capacity_limit", bool_word(self.strict_capacity_limit));
        out.field("bloom_bits_per_key", decimal(self.bloom_bits_per_key as u64).as_str());
    }

    fn push_level_fields(&self, out: &mut StructText)
        requires
            old(out).wf(),
        ensures
            final(out).wf(),
            final(out).name == old(out).name,
            final(out).fields@ == level_fields(*self, old(out).fields@),
    {
        out.field("compression", codec_word(self.compression));
        out.field("compression_per_level", codecs_words(&self.compression_per_level).as_str());
        out.field("l0_compaction_trigger", decimal(self.l0_compaction_trigger as u64).as_str());
        out.field("level_base_bytes", decimal(self.level_base_bytes as u64).as_str());
        out.field("level_size_multiplier", decimal(self.level_size_multiplier as u64).as_str());
        out.field("target_file_size", decimal(self.target_file_size as u64).as_str());
    }

    fn push_hook_fields(&self, out: &mut StructText)
        requires
            old(out).wf(),
        ensures
            final(out).wf(),
            final(out).name == old(out).name,
            final(out).fields@ == hook_fields(*self, old(out).fields@),
    {
        out.field("durability", durability_word(self.durability));
        let filter_name: String = match &self.compaction_filter {
            Some(hook) => some_name(hook.name()),
            None => no_name(),
        };
        out.field("compaction_filter", filter_name.as_str());
        let prefix_name: String = match &self.prefix_extractor {
            Some(hook) => some_name(hook.name()),
            None => no_name(),
        };
        out.field("prefix_extractor", prefix_name.as_str());
        let merge_name: String = match &self.merge_operator {
            Some(hook) => some_name(hook.name()),
            None => no_name(),
        };
        out.field("merge_operator", merge_name.as_str());
        out.field("atomic_flush", bool_word(self.atomic_flush));
        out.field("listeners", decimal(self.listeners.len() as u64).as_str());
        out.field("statistics", bool_word(false));
        out.field("rate_limiter", bool_word(false));
    }

    fn push_stall_fields(&self, out: &mut StructText)
        requires
            old(out).wf(),
        ensures
            final(out).wf(),
            final(out).name == old(out).name,
            final(out).fields@ == stall_fields(*self, old(out).fields@),
    {
        out.field("level0_slowdown_writes_trigger", decimal(self.level0_slowdown_writes_trigger as u64).as_str());
        out.field("level0_stop_writes_trigger", decimal(self.level0_stop_writes_trigger as u64).as_str());
        out.field("soft_pending_compaction_bytes_limit", decimal(self.soft_pending_compaction_bytes_limit as u64).as_str());
        out.field("hard_pending_compaction_bytes_limit", decimal(self.hard_pending_compaction_bytes_limit as u64).as_str());
        out.field("max_write_buffer_number", decimal(self.max_write_buffer_number as u64).as_str());
        out.field("compaction_style", style_word(self.compaction_style));
        out.field("fifo_compaction_options", self.fifo_compaction_options.to_text().as_str());
        out.field("universal_compaction_options", self.universal_compaction_options.to_text().as_str());
    }

    fn push_table_fields(&self, out: &mut StructText)
        requires
            old(out).wf(),
        ensures
            final(out).wf(),
            final(out).name == old(out).name,
            final(out).fields@ == table_fields(*self, old(out).fields@),
    {
        out.field("evict_compaction_data_from_page_cache", bool_word(self.evict_compaction_data_from_page_cache));
        out.field("max_background_compactions", decimal(self.max_background_compactions as u64).as_str());
        out.field("max_subcompactions", decimal(self.max_subcompactions as u64).as_str());
        out.field("partitioned_index", bool_word(self.partitioned_index));
        out.field("cache_index_and_filter_blocks", bool_word(self.cache_index_and_filter_blocks));
        out.field("metadata_block_size", decimal(self.metadata_block_size as u64).as_str());
        out.field("read_only", bool_word(self.read_only));
        out.field("max_key_size", decimal(self.max_key_size as u64).as_str());
        out.field("max_value_size", decimal(self.max_value_size as u64).as_str());
        out.field("env", self.env.name);
    }

    /// The options in words: every field by name, with its value. Hooks show
    /// by their names, listeners by their number.
    pub fn to_text(&self) -> (r: String)
        ensures
            r@ == struct_text("Options"@, option_fields(*self)),
    {
        let mut out: StructText = StructText::new("Options");
        self.push_memory_fields(&mut out);
        self.push_level_fields(&mut out);
        self.push_hook_fields(&mut out);
        self.push_stall_fields(&mut out);
        self.push_table_fields(&mut out);
        out.finish()
    }

    /// The engine's options are these options, field by field.
    pub open spec fn passes_on(self, r: EngineOptions) -> bool {
        &&& r.write_buffer_size == self.write_buffer_size
        &&& r.arena_profile == self.arena_profile
        &&& r.block_size == self.block_size
        &&& r.block_cache_size == self.block_cache_size
        &&& r.block_cache_num_shard_bits == self.block_cache_num_shard_bits
        &&& r.strict_capacity_limit == self.strict_capacity_limit
        &&& r.bloom_bits_per_key == self.bloom_bits_per_key
        &&& r.compression == self.compression
        &&& r.compression_per_level is Some <==> self.compression_per_level is Some
        &&& r.compression_per_level matches Some(v) ==> v@ == self.compression_per_level->0@
        &&& r.l0_compaction_trigger == self.l0_compaction_trigger
        &&& r.level_base_bytes == self.level_base_bytes
        &&& r.level_size_multiplier == self.level_size_multiplier
        &&& r.target_file_size == self.target_file_size
        &&& r.compaction_filter == self.compaction_filter
        &&& r.prefix_extractor == self.prefix_extractor
        &&& r.merge_operator == self.merge_operator
        &&& r.listeners@ == self.listeners@
        &&& r.level0_slowdown_writes_trigger == self.level0_slowdown_writes_trigger
        &&& r.level0_stop_writes_trigger == self.level0_stop_writes_trigger
        &&& r.soft_pending_compaction_bytes_limit == self.soft_pending_compaction_bytes_limit
        &&& r.hard_pending_compaction_bytes_limit == self.hard_pending_compaction_bytes_limit
        &&& r.max_write_buffer_number == self.max_write_buffer_number
        &&& r.compaction_style == self.compaction_style
        &&& r.fifo_compaction_options == self.fifo_compaction_options
        &&& r.universal_compaction_options == self.universal_compaction_options
        &&& r.evict_compaction_data_from_page_cache == self.evict_compaction_data_from_page_cache
        &&& r.max_background_compactions == self.max_background_compactions
        &&& r.partitioned_index == self.partitioned_index
        &&& r.cache_index_and_filter_blocks == self.cache_index_and_filter_blocks
        &&& r.metadata_block_size == self.metadata_block_size
        &&& r.read_only == self.read_only
        &&& r.max_key_size == self.max_key_size
        &&& r.max_value_size == self.max_value_size
        &&& r.env == self.env
    }

    /// The options the engine consumes.
    pub fn to_engine_options(&self) -> (r: EngineOptions)
        ensures
            self.passes_on(r),
    {
        EngineOptions {
            write_buffer_size: self.write_buffer_size,
            arena_profile: self.arena_profile,
            block_size: self.block_size,
            block_cache_size: self.block_cache_size,
            block_cache_num_shard_bits: self.block_cache_num_shard_bits,
            strict_capacity_limit: self.strict_capacity_limit,
            bloom_bits_per_key: self.bloom_bits_per_key,
            compression: self.compression,
            compression_per_level: match &self.compression_per_level {
                Some(codecs) => Some(copy_codecs(codecs)),
                None => None,
            },
            l0_compaction_trigger: self.l0_compaction_trigger,
            level_base_bytes: self.level_base_bytes,
            level_size_multiplier: self.level_size_multiplier,
            target_file_size: self.target_file_size,
            compaction_filter: share(&self.compaction_filter),
            prefix_extractor: share(&self.prefix_extractor),
            merge_operator: share(&self.merge_operator),
            listeners: share_all(&self.listeners),
            level0_slowdown_writes_trigger: self.level0_slowdown_writes_trigger,
            level0_stop_writes_trigger: self.level0_stop_writes_trigger,
            soft_pending_compaction_bytes_limit: self.soft_pending_compaction_bytes_limit,
            hard_pending_compaction_bytes_limit: self.hard_pending_compaction_bytes_limit,
            max_write_buffer_number: self.max_write_buffer_number,
            compaction_style: self.compaction_style,
            fifo_compaction_options: self.fifo_compaction_options,
            universal_compaction_options: self.universal_compaction_options,
            evict_compaction_data_from_page_cache: self.evict_compaction_data_from_page_cache,
            max_background_compactions: self.max_background_compactions,
            partitioned_index: self.partitioned_index,
            cache_index_and_filter_blocks: self.cache_index_and_filter_blocks,
            metadata_block_size: self.metadata_block_size,
            read_only: self.read_only,
            max_key_size: self.max_key_size,
            max_value_size: self.max_value_size,
            env: self.env,
        }
    }

    /// A footprint of a few megabytes: small buffers, no block cache, no
    /// background threads.
    pub fn embedded() -> (r: Self)
        ensures
            embedded_profile(r),
            is_std_env(r.env),
    {
        Options {
            write_buffer_size: 256 * 1024,
            arena_profile: ArenaProfile::embedded(),
            block_size: 4 * 1024,
            block_cache_size: 0,
            block_cache_num_shard_bits: 0,
            l0_compaction_trigger: 2,
            level_base_bytes: 1024 * 1024,
            target_file_size: 256 * 1024,
            level0_slowdown_writes_trigger: 4,
            level0_stop_writes_trigger: 8,
            soft_pending_compaction_bytes_limit: 4 * 1024 * 1024,
            hard_pending_compaction_bytes_limit: 16 * 1024 * 1024,
            max_write_buffer_number: 2,
            max_background_compactions: 0,
            evict_compaction_data_from_page_cache: true,
            metadata_block_size: 1024,
            max_key_size: 16 * 1024,
            max_value_size: 256 * 1024,
            transaction_keys_inline: 16,
            ..Options::default()
        }
    }

    /// A profile for a single-threaded browser host: roomier than
    /// [`Options::embedded`], far below the default.
    pub fn wasm() -> (r: Self)
        ensures
            wasm_profile(r),
            is_std_env(r.env),
    {
        Options {
            write_buffer_size: 1024 * 1024,
            arena_profile: ArenaProfile::embedded(),
            block_size: 4 * 1024,
            block_cache_size: 1024 * 1024,
            block_cache_num_shard_bits: 0,
            l0_compaction_trigger: 4,
            level_base_bytes: 8 * 1024 * 1024,
            target_file_size: 1024 * 1024,
            level0_slowdown_writes_trigger: 8,
            level0_stop_writes_trigger: 12,
            soft_pending_compaction_bytes_limit: 32 * 1024 * 1024,
            hard_pending_compaction_bytes_limit: 128 * 1024 * 1024,
            max_write_buffer_number: 2,
            max_background_compactions: 0,
            evict_compaction_data_from_page_cache: false,
            metadata_block_size: 1024,
            max_key_size: 16 * 1024,
            max_value_size: 1024 * 1024,
            transaction_keys_inline: 16,
            ..Options::default()
        }
    }

    /// A database that lives only in memory: [`Options::embedded`] on an
    /// environment that starts no threads and makes nothing durable.
    pub fn memory() -> (r: Self)
        ensures
            embedded_profile(r),
            is_mem_env(r.env),
    {
        Options {
            env: mem_env(),
            max_background_compactions: 0,
            durability: DurabilityMode::Eventual,
            ..Options::embedded()
        }
    }
}

impl Default for Options {
    fn default() -> (r: Self)
        ensures
            default_profile(r),
            is_std_env(r.env),
    {
        Options {
            write_buffer_size: 64 * 1024 * 1024,
            arena_profile: ArenaProfile::server(),
            block_size: 16 * 1024,
            block_cache_size: 512 * 1024 * 1024,
            block_cache_num_shard_bits: 6,
            strict_capacity_limit: false,
            bloom_bits_per_key: 10,
            compression: CompressionType::Lz4,
            compression_per_level: None,
            l0_compaction_trigger: 4,
            level_base_bytes: 256 * 1024 * 1024,
            level_size_multiplier: 10,
            target_file_size: 64 * 1024 * 1024,
            durability: DurabilityMode::Eventual,
            compaction_filter: None,
            prefix_extractor: None,
            merge_operator: None,
            atomic_flush: false,
            listeners: Vec::new(),
            level0_slowdown_writes_trigger: 20,
            level0_stop_writes_trigger: 36,
            soft_pending_compaction_bytes_limit: 64 * 1024 * 1024 * 1024,
            hard_pending_compaction_bytes_limit: 256 * 1024 * 1024 * 1024,
            max_write_buffer_number: 2,
            compaction_style: CompactionStyle::Level,
            fifo_compaction_options: FifoCompactionOptions::default(),
            universal_compaction_options: UniversalCompactionOptions::default(),
            evict_compaction_data_from_page_cache: false,
            max_background_compactions: DEFAULT_MAX_BACKGROUND_COMPACTIONS,
            max_subcompactions: 1,
            partitioned_index: false,
            cache_index_and_filter_blocks: false,
            metadata_block_size: 4096,
            read_only: false,
            max_key_size: DEFAULT_MAX_KEY_SIZE,
            max_value_size: DEFAULT_MAX_VALUE_SIZE,
            transaction_keys_inline: DEFAULT_TRANSACTION_KEYS_INLINE,
            env: std_env(),
        }
    }
}

/// The fields of a structure in words, each after the one before.
pub open spec fn fields_text(fields: Seq<(Seq<char>, Seq<char>)>) -> Seq<char>
    decreases fields.len(),
{
    if fields.len() == 0 {
        Seq::empty()
    } else if fields.len() == 1 {
        fields[0].0 + ": "@ + fields[0].1
    } else {
        fields_text(fields.drop_last()) + ", "@ + (fields.last().0 + ": "@ + fields.last().1)
    }
}

/// A structure in words.
pub open spec fn struct_text(name: Seq<char>, fields: Seq<(Seq<char>, Seq<char>)>) -> Seq<char> {
    name + " { "@ + fields_text(fields) + " }"@
}

/// A structure being put in words.
struct StructText {
    name: &'static str,
    body: String,
    first: bool,
    fields: Ghost<Seq<(Seq<char>, Seq<char>)>>,
}

impl StructText {
    #[verifier::opaque]
    spec fn wf(self) -> bool {
        &&& self.first == (self.fields@.len() == 0)
        &&& self.body@ == fields_text(self.fields@)
    }

    fn new(name: &'static str) -> (r: Self)
        ensures
            r.wf(),
            r.name@ == name@,
            r.fields@ == Seq::<(Seq<char>, Seq<char>)>::empty(),
    {
        let body: String = "".to_owned();
        proof {
            reveal_strlit("");
            assert(body@ =~= Seq::<char>::empty());
            reveal(StructText::wf);
        }
        let ghost none = Seq::<(Seq<char>, Seq<char>)>::empty();
        StructText { name, body, first: true, fields: Ghost(none) }
    }

    fn field(&mut self, name: &str, value: &str)
        requires
            old(self).wf(),
        ensures
            final(self).wf(),
            final(self).name == old(self).name,
            final(self).fields@ == old(self).fields@.push((name@, value@)),
    {
        proof {
            reveal(StructText::wf);
        }
        let ghost grown = self.fields@.push((name@, value@));
        assert(grown.drop_last() =~= self.fields@);
        let item: String = join3(name, ": ", value);
        self.body = if self.first {
            item
        } else {
            join3(self.body.as_str(), ", ", item.as_str())
        };
        self.first = false;
        self.fields = Ghost(grown);
    }

    fn finish(self) -> (r: String)
        requires
            self.wf(),
        ensures
            r@ == struct_text(self.name@, self.fields@),
    {
        proof {
            reveal(StructText::wf);
        }
        join2(join3(self.name, " { ", self.body.as_str()).as_str(), " }")
    }
}

/// `true` or `false`.
pub open spec fn bool_text(b: bool) -> Seq<char> {
    if b {
        "true"@
    } else {
        "false"@
    }
}

/// `true` or `false`.
pub fn bool_word(b: bool) -> (r: &'static str)
    ensures
        r@ == bool_text(b),
{
    if b {
        "true"
    } else {
        "false"
    }
}

/// A codec by name.
pub open spec fn codec_text(c: CompressionType) -> Seq<char> {
    match c {
        CompressionType::Uncompressed => "None"@,
        CompressionType::Snappy => "Snappy"@,
        CompressionType::Lz4 => "Lz4"@,
    }
}

fn codec_word(c: CompressionType) -> (r: &'static str)
    ensures
        r@ == codec_text(c),
{
    match c {
        CompressionType::Uncompressed => "None",
        CompressionType::Snappy => "Snappy",
        CompressionType::Lz4 => "Lz4",
    }
}

/// Codecs by name, in order.
pub open spec fn codec_items(s: Seq<CompressionType>) -> Seq<char>
    decreases s.len(),
{
    if s.len() == 0 {
        Seq::empty()
    } else if s.len() == 1 {
        codec_text(s[0])
    } else {
        codec_items(s.drop_last()) + ", "@ + codec_text(s.last())
    }
}

/// The codecs set per level, if any, in words.
pub open spec fn codecs_text(s: Option<Vec<CompressionType>>) -> Seq<char> {
    match s {
        None => "None"@,
        Some(v) => "Some(["@ + codec_items(v@) + "])"@,
    }
}

fn codecs_words(s: &Option<Vec<CompressionType>>) -> (r: String)
    ensures
        r@ == codecs_text(*s),
{
    match s {
        None => "None".to_owned(),
        Some(v) => {
            let mut body: String = "".to_owned();
            let mut i: usize = 0;
            proof {
                reveal_strlit("");
                assert(body@ =~= codec_items(v@.take(0)));
            }
            while i < v.len()
                invariant
                    i <= v@.len(),
                    body@ == codec_items(v@.take(i as int)),
                decreases v@.len() - i,
            {
                proof {
                    assert(v@.take(i + 1).drop_last() =~= v@.take(i as int));
                    assert(v@.take(i + 1).last() == v@[i as int]);
                }
                body = if i == 0 {
                    codec_word(v[i]).to_owned()
                } else {
                    join3(body.as_str(), ", ", codec_word(v[i]))
                };
                i += 1;
            }
            assert(v@.take(i as int) =~= v@);
            join3("Some([", body.as_str(), "])")
        },
    }
}

/// A durability mode by name.
pub open spec fn durability_text(d: DurabilityMode) -> Seq<char> {
    match d {
        DurabilityMode::Immediate => "Immediate"@,
        DurabilityMode::Eventual => "Eventual"@,
    }
}

pub fn durability_word(d: DurabilityMode) -> (r: &'static str)
    ensures
        r@ == durability_text(d),
{
    match d {
        DurabilityMode::Immediate => "Immediate",
        DurabilityMode::Eventual => "Eventual",
    }
}

/// A compaction style by name.
pub open spec fn style_text(s: CompactionStyle) -> Seq<char> {
    match s {
        CompactionStyle::Level => "Level"@,
        CompactionStyle::Fifo => "Fifo"@,
        CompactionStyle::Universal => "Universal"@,
    }
}

fn style_word(s: CompactionStyle) -> (r: &'static str)
    ensures
        r@ == style_text(s),
{
    match s {
        CompactionStyle::Level => "Level",
        CompactionStyle::Fifo => "Fifo",
        CompactionStyle::Universal => "Universal",
    }
}

/// A hook's name in words, if there is a hook.
pub open spec fn name_text(name: Option<Seq<char>>) -> Seq<char> {
    match name {
        None => "None"@,
        Some(text) => "Some("@ + quoted_text(text) + ")"@,
    }
}

fn some_name(name: &str) -> (r: String)
    ensures
        r@ == name_text(Some(name@)),
{
    join3("Some(", quoted(name).as_str(), ")")
}

fn no_name() -> (r: String)
    ensures
        r@ == name_text(None),
{
    "None".to_owned()
}

/// An arena profile in words.
pub open spec fn arena_text(p: ArenaProfile) -> Seq<char> {
    struct_text(
        "ArenaProfile"@,
        Seq::empty()
            .push(("initial_chunk_size"@, decimal_text(p.initial_chunk_size as nat)))
            .push(("max_chunk_size"@, decimal_text(p.max_chunk_size as nat))),
    )
}

impl ArenaProfile {
    fn to_text(&self) -> (r: String)
        ensures
            r@ == arena_text(*self),
    {
        let mut out: StructText = StructText::new("ArenaProfile");
        out.field("initial_chunk_size", decimal(self.initial_chunk_size as u64).as_str());
        out.field("max_chunk_size", decimal(self.max_chunk_size as u64).as_str());
        out.finish()
    }
}

/// FIFO tunables in words.
pub open spec fn fifo_text(o: FifoCompactionOptions) -> Seq<char> {
    struct_text(
        "FifoCompactionOptions"@,
        Seq::empty().push(("max_table_files_size"@, decimal_text(o.max_table_files_size as nat))),
    )
}

impl FifoCompactionOptions {
    fn to_text(&self) -> (r: String)
        ensures
            r@ == fifo_text(*self),
    {
        let mut out: StructText = StructText::new("FifoCompactionOptions");
        out.field("max_table_files_size", decimal(self.max_table_files_size).as_str());
        out.finish()
    }
}

/// Size-tier tunables in words.
pub open spec fn universal_text(o: UniversalCompactionOptions) -> Seq<char> {
    struct_text(
        "UniversalCompactionOptions"@,
        Seq::empty()
            .push(("size_ratio"@, decimal_text(o.size_ratio as nat)))
            .push(("min_merge_width"@, decimal_text(o.min_merge_width as nat)))
            .push(("max_merge_width"@, decimal_text(o.max_merge_width as nat)))
            .push(
            (
                "max_size_amplification_percent"@,
                decimal_text(o.max_size_amplification_percent as nat),
            ),
        ),
    )
}

impl UniversalCompactionOptions {
    fn to_text(&self) -> (r: String)
        ensures
            r@ == universal_text(*self),
    {
        let mut out: StructText = StructText::new("UniversalCompactionOptions");
        out.field("size_ratio", decimal(self.size_ratio as u64).as_str());
        out.field("min_merge_width", decimal(self.min_merge_width as u64).as_str());
        out.field("max_merge_width", decimal(self.max_merge_width as u64).as_str());
        out.field(
            "max_size_amplification_percent",
            decimal(self.max_size_amplification_percent as u64).as_str(),
        );
        out.finish()
    }
}

fn copy_codecs(v: &Vec<CompressionType>) -> (r: Vec<CompressionType>)
    ensures
        r@ == v@,
{
    let mut out: Vec<CompressionType> = Vec::new();
    let mut i: usize = 0;
    while i < v.len()
        invariant
            i <= v@.len(),
            out@ == v@.take(i as int),
        decreases v@.len() - i,
    {
        out.push(v[i]);
        assert(out@ =~= v@.take(i + 1));
        i += 1;
    }
    assert(out@ =~= v@);
    out
}

fn share<T: ?Sized>(hook: &Option<Arc<T>>) -> (r: Option<Arc<T>>)
    ensures
        r == *hook,
{
    match hook {
        Some(h) => Some(h.clone()),
        None => None,
    }
}

fn share_all<T: ?Sized>(v: &Vec<Arc<T>>) -> (r: Vec<Arc<T>>)
    ensures
        r@ == v@,
{
    let mut out: Vec<Arc<T>> = Vec::new();
    let mut i: usize = 0;
    while i < v.len()
        invariant
            i <= v@.len(),
            out@ == v@.take(i as int),
        decreases v@.len() - i,
    {
        out.push(v[i].clone());
        assert(out@ =~= v@.take(i + 1));
        i += 1;
    }
    assert(out@ =~= v@);
    out
}

/// What is wrong with a set of options: the option to blame, and what it
/// must be.
pub ghost struct Complaint {
    pub option: Seq<char>,
    pub requirement: Seq<char>,
}

/// How a complaint reads.
pub open spec fn complaint_text(c: Complaint) -> Seq<char> {
    "invalid option `"@ + c.option + "`: "@ + c.requirement
}

/// What the selected compaction style requires of its tunables.
pub open spec fn style_complaint(o: Options) -> Option<Complaint> {
    let u = o.universal_compaction_options;
    match o.compaction_style {
        CompactionStyle::Level => None,
        CompactionStyle::Fifo => if o.fifo_compaction_options.max_table_files_size == 0 {
            Some(
                Complaint {
                    option: "fifo_compaction_options.max_table_files_size"@,
                    requirement: "must be greater than 0"@,
                },
            )
        } else {
            None
        },
        CompactionStyle::Universal => if u.size_ratio == 0 {
            Some(
                Complaint {
                    option: "universal_compaction_options.size_ratio"@,
                    requirement: "must be greater than 0"@,
                },
            )
        } else if u.min_merge_width < 2 {
            Some(
                Complaint {
                    option: "universal_compaction_options.min_merge_width"@,
                    requirement: "must be at least 2"@,
                },
            )
        } else if u.max_merge_width < u.min_merge_width {
            Some(
                Complaint {
                    option: "universal_compaction_options.max_merge_width"@,
                    requirement: "must be >= universal_compaction_options.min_merge_width"@,
                },
            )
        } else if u.max_size_amplification_percent == 0 {
            Some(
                Complaint {
                    option: "universal_compaction_options.max_size_amplification_percent"@,
                    requirement: "must be greater than 0"@,
                },
            )
        } else {
            None
        },
    }
}

/// The first option that must not be zero and is.
pub open spec fn zero_complaint(o: Options) -> Option<Complaint> {
    let zero = |option: Seq<char>| Some(
        Complaint { option, requirement: "must be greater than 0"@ },
    );
    if o.write_buffer_size == 0 {
        zero("write_buffer_size"@)
    } else if o.block_size == 0 {
        zero("block_size"@)
    } else if o.l0_compaction_trigger == 0 {
        zero("l0_compaction_trigger"@)
    } else if o.level_base_bytes == 0 {
        zero("level_base_bytes"@)
    } else if o.level_size_multiplier == 0 {
        zero("level_size_multiplier"@)
    } else if o.target_file_size == 0 {
        zero("target_file_size"@)
    } else if o.metadata_block_size == 0 {
        zero("metadata_block_size"@)
    } else {
        None
    }
}

/// The first option that conflicts with the environment, the formats, or
/// another option.
pub open spec fn range_complaint(o: Options) -> Option<Complaint> {
    if o.max_background_compactions > 0 && !o.env.capabilities.threads {
        Some(
            Complaint {
                option: "max_background_compactions"@,
                requirement: "must be 0 for an environment that cannot spawn threads, such as MemEnv or wasm; compaction then runs on the calling thread. Options::memory() and Options::wasm() set this along with the rest of their profile"@,
            },
        )
    } else if !o.arena_profile.sound() {
        Some(
            Complaint {
                option: "arena_profile"@,
                requirement: "initial_chunk_size and max_chunk_size must be powers of two with initial <= max"@,
            },
        )
    } else if o.max_key_size > MAX_ENCODABLE_KEY {
        Some(
            Complaint {
                option: "max_key_size"@,
                requirement: "must be <= u32::MAX minus the 9-byte internal-key suffix"@,
            },
        )
    } else if o.max_value_size > MAX_ENCODABLE_VALUE {
        Some(Complaint { option: "max_value_size"@, requirement: "must be <= u32::MAX"@ })
    } else if o.block_cache_num_shard_bits > MAX_BLOCK_CACHE_SHARD_BITS {
        Some(
            Complaint {
                option: "block_cache_num_shard_bits"@,
                requirement: "must be <= "@ + decimal_text(MAX_BLOCK_CACHE_SHARD_BITS as nat),
            },
        )
    } else if !(1 <= o.bloom_bits_per_key <= MAX_BLOOM_BITS_PER_KEY) {
        Some(
            Complaint {
                option: "bloom_bits_per_key"@,
                requirement: "must be in 1..="@ + decimal_text(MAX_BLOOM_BITS_PER_KEY as nat),
            },
        )
    } else if o.level0_stop_writes_trigger > 0 && o.level0_slowdown_writes_trigger
        > o.level0_stop_writes_trigger {
        Some(
            Complaint {
                option: "level0_slowdown_writes_trigger"@,
                requirement: "must be <= level0_stop_writes_trigger when both triggers are nonzero"@,
            },
        )
    } else if o.hard_pending_compaction_bytes_limit > 0 && o.soft_pending_compaction_bytes_limit
        > o.hard_pending_compaction_bytes_limit {
        Some(
            Complaint {
                option: "soft_pending_compaction_bytes_limit"@,
                requirement: "must be <= hard_pending_compaction_bytes_limit when both limits are nonzero"@,
            },
        )
    } else if o.durability == DurabilityMode::Immediate && !o.env.capabilities.durable_sync {
        Some(
            Complaint {
                option: "durability"@,
                requirement: "DurabilityMode::Immediate needs an Env whose Capabilities::durable_sync is true; this one reports false, so a synced write would not be durable"@,
            },
        )
    } else {
        None
    }
}

/// The first complaint about a set of options.
pub open spec fn complaint(o: Options) -> Option<Complaint> {
    match zero_complaint(o) {
        Some(c) => Some(c),
        None => match range_complaint(o) {
            Some(c) => Some(c),
            None => style_complaint(o),
        },
    }
}

/// The options make sense together.
pub open spec fn consistent(o: Options) -> bool {
    let u = o.universal_compaction_options;
    &&& o.write_buffer_size > 0 && o.block_size > 0 && o.l0_compaction_trigger > 0
    &&& o.level_base_bytes > 0 && o.level_size_multiplier > 0 && o.target_file_size > 0
    &&& o.metadata_block_size > 0
    &&& o.max_background_compactions > 0 ==> o.env.capabilities.threads
    &&& o.arena_profile.sound()
    &&& o.max_key_size <= MAX_ENCODABLE_KEY && o.max_value_size <= MAX_ENCODABLE_VALUE
    &&& o.block_cache_num_shard_bits <= MAX_BLOCK_CACHE_SHARD_BITS
    &&& 1 <= o.bloom_bits_per_key <= MAX_BLOOM_BITS_PER_KEY
    &&& o.level0_stop_writes_trigger > 0 ==> o.level0_slowdown_writes_trigger
        <= o.level0_stop_writes_trigger
    &&& o.hard_pending_compaction_bytes_limit > 0 ==> o.soft_pending_compaction_bytes_limit
        <= o.hard_pending_compaction_bytes_limit
    &&& o.durability == DurabilityMode::Immediate ==> o.env.capabilities.durable_sync
    &&& o.compaction_style == CompactionStyle::Fifo
        ==> o.fifo_compaction_options.max_table_files_size > 0
    &&& o.compaction_style == CompactionStyle::Universal ==> u.size_ratio > 0 && 2
        <= u.min_merge_width <= u.max_merge_width && u.max_size_amplification_percent > 0
}

/// There is something to complain about exactly when the options are not
/// consistent.
pub proof fn lemma_complaint_iff_inconsistent(o: Options)
    ensures
        complaint(o) is None <==> consistent(o),
{
}

/// The shipped profiles are consistent.
pub proof fn lemma_profiles_consistent(o: Options)
    requires
        (default_profile(o) || embedded_profile(o) || wasm_profile(o)) && is_std_env(o.env) || (
        embedded_profile(o) && is_mem_env(o.env)),
    ensures
        consistent(o),
{
    reveal_with_fuel(power_of_two, 22);
}

fn require_nonzero(name: &'static str, value: u64) -> (r: Result<()>)
    ensures
        value > 0 ==> r is Ok,
        value == 0 ==> (r matches Err(Error::InvalidArgument(m)) && m@ == complaint_text(
            Complaint { option: name@, requirement: "must be greater than 0"@ },
        )),
{
    if value == 0 {
        invalid_option(name, "must be greater than 0")
    } else {
        Ok(())
    }
}

fn invalid_option(name: &'static str, requirement: &str) -> (r: Result<()>)
    ensures
        r matches Err(Error::InvalidArgument(m)) && m@ == complaint_text(
            Complaint { option: name@, requirement: requirement@ },
        ),
{
    let message: String = join2(join3("invalid option `", name, "`: ").as_str(), requirement);
    Err(Error::invalid_argument(message.as_str()))
}

impl Options {
    /// Check the options before a database uses them: the first thing wrong
    /// with them, if anything is.
    pub fn validate(&self) -> (r: Result<()>)
        ensures
            match complaint(*self) {
                None => r is Ok,
                Some(c) => r matches Err(Error::InvalidArgument(m)) && m@ == complaint_text(c),
            },
            r is Ok <==> consistent(*self),
    {
        proof {
            lemma_complaint_iff_inconsistent(*self);
        }
        require_nonzero("write_buffer_size", self.write_buffer_size as u64)?;
        require_nonzero("block_size", self.block_size as u64)?;
        require_nonzero("l0_compaction_trigger", self.l0_compaction_trigger as u64)?;
        require_nonzero("level_base_bytes", self.level_base_bytes)?;
        require_nonzero("level_size_multiplier", self.level_size_multiplier)?;
        require_nonzero("target_file_size", self.target_file_size)?;
        require_nonzero("metadata_block_size", self.metadata_block_size as u64)?;

        // A background worker needs a thread, and not every environment has
        // one: the reason arrives here with the option that caused it.
        if self.max_background_compactions > 0 && !self.env.capabilities().threads {
            return invalid_option(
                "max_background_compactions",
                "must be 0 for an environment that cannot spawn threads, such as MemEnv or wasm; compaction then runs on the calling thread. Options::memory() and Options::wasm() set this along with the rest of their profile",
            );
        }
        if !self.arena_profile.is_valid() {
            return invalid_option(
                "arena_profile",
                "initial_chunk_size and max_chunk_size must be powers of two with initial <= max",
            );
        }
        // What a memtable entry holds is the internal key, so the key
        // ceiling is that much lower.
        if self.max_key_size > MAX_ENCODABLE_KEY {
            return invalid_option(
                "max_key_size",
                "must be <= u32::MAX minus the 9-byte internal-key suffix",
            );
        }
        if self.max_value_size > MAX_ENCODABLE_VALUE {
            return invalid_option("max_value_size", "must be <= u32::MAX");
        }
        if self.block_cache_num_shard_bits > MAX_BLOCK_CACHE_SHARD_BITS {
            let bound: String = decimal(MAX_BLOCK_CACHE_SHARD_BITS as u64);
            return invalid_option(
                "block_cache_num_shard_bits",
                join2("must be <= ", bound.as_str()).as_str(),
            );
        }
        if !(1 <= self.bloom_bits_per_key && self.bloom_bits_per_key <= MAX_BLOOM_BITS_PER_KEY) {
            let bound: String = decimal(MAX_BLOOM_BITS_PER_KEY as u64);
            return invalid_option(
                "bloom_bits_per_key",
                join2("must be in 1..=", bound.as_str()).as_str(),
            );
        }
        if self.level0_slowdown_writes_trigger > 0 && self.level0_stop_writes_trigger > 0
            && self.level0_slowdown_writes_trigger > self.level0_stop_writes_trigger {
            return invalid_option(
                "level0_slowdown_writes_trigger",
                "must be <= level0_stop_writes_trigger when both triggers are nonzero",
            );
        }
        if self.soft_pending_compaction_bytes_limit > 0 && self.hard_pending_compaction_bytes_limit
            > 0 && self.soft_pending_compaction_bytes_limit
            > self.hard_pending_compaction_bytes_limit {
            return invalid_option(
                "soft_pending_compaction_bytes_limit",
                "must be <= hard_pending_compaction_bytes_limit when both limits are nonzero",
            );
        }
        // An environment without durable sync reports success without
        // making anything durable, so `Immediate` there would promise what
        // nothing keeps.
        if matches!(self.durability, DurabilityMode::Immediate)
            && !self.env.capabilities().durable_sync {
            return invalid_option(
                "durability",
                "DurabilityMode::Immediate needs an Env whose Capabilities::durable_sync is true; this one reports false, so a synced write would not be durable",
            );
        }
        match self.compaction_style {
            CompactionStyle::Level => {},
            CompactionStyle::Fifo => {
                require_nonzero(
                    "fifo_compaction_options.max_table_files_size",
                    self.fifo_compaction_options.max_table_files_size,
                )?;
            },
            CompactionStyle::Universal => {
                let universal = self.universal_compaction_options;
                if universal.size_ratio == 0 {
                    return invalid_option(
                        "universal_compaction_options.size_ratio",
                        "must be greater than 0",
                    );
                }
                if universal.min_merge_width < 2 {
                    return invalid_option(
                        "universal_compaction_options.min_merge_width",
                        "must be at least 2",
                    );
                }
                if universal.max_merge_width < universal.min_merge_width {
                    return invalid_option(
                        "universal_compaction_options.max_merge_width",
                        "must be >= universal_compaction_options.min_merge_width",
                    );
                }
                if universal.max_size_amplification_percent == 0 {
                    return invalid_option(
                        "universal_compaction_options.max_size_amplification_percent",
                        "must be greater than 0",
                    );
                }
            },
        }
        Ok(())
    }
}

} // verus!
