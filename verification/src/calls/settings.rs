//! Options: which are refused, and that those given are those in force.

use vstd::arithmetic::power2::pow2;
use vstd::prelude::*;

use crate::column_family::{ColumnFamilyHandle, DEFAULT_CF_ID, DEFAULT_CF_NAME};
use crate::db::families::opened;
use crate::db::laws::law_fresh_database;
use crate::db::Db;
use crate::engine::store::Stored;
use crate::error::{Error, Result};
use crate::history::Logged;
use crate::options::{
    lemma_complaint_iff_inconsistent, lemma_profiles_consistent, power_of_two, ArenaProfile,
    CompactionStyle, DurabilityMode, EngineOptions, FixedLengthPrefix, Options, PrefixExtractor,
};

verus! {

/// A power of two is two times itself some number of times.
pub proof fn law_power_of_two(n: nat)
    ensures
        power_of_two(n) <==> exists|e: nat| n == #[trigger] pow2(e),
    decreases n,
{
    vstd::arithmetic::power2::lemma2_to64();
    if n == 0 {
        assert forall|e: nat| n != #[trigger] pow2(e) by {
            vstd::arithmetic::power2::lemma_pow2_pos(e);
        }
    } else if n == 1 {
        assert(n == pow2(0));
    } else {
        law_power_of_two(n / 2);
        if power_of_two(n) {
            let e = choose|e: nat| n / 2 == #[trigger] pow2(e);
            vstd::arithmetic::power2::lemma_pow2_unfold(e + 1);
            assert(n == pow2(e + 1));
        }
        if exists|e: nat| n == #[trigger] pow2(e) {
            let e = choose|e: nat| n == #[trigger] pow2(e);
            assert(e > 0);
            vstd::arithmetic::power2::lemma_pow2_unfold(e);
            assert(n / 2 == pow2((e - 1) as nat));
        }
    }
}

/// An arena profile is valid if both sizes are powers of two and the first
/// chunk is no larger than the largest.
pub proof fn law_arena_profile(profile: &ArenaProfile, r: bool)
    requires
        call_ensures(ArenaProfile::is_valid, (profile,), r),
    ensures
        r <==> (exists|e: nat| profile.initial_chunk_size == #[trigger] pow2(e)) && (exists|e: nat|
            profile.max_chunk_size == #[trigger] pow2(e)) && profile.initial_chunk_size
            <= profile.max_chunk_size,
{
    law_power_of_two(profile.initial_chunk_size as nat);
    law_power_of_two(profile.max_chunk_size as nat);
}

/// Options are valid if no size that must be there is zero, no limit is over
/// what can be stored, no threshold that stops comes before the one that
/// slows, and nothing is asked of the environment that it cannot do; else
/// they are refused as an argument.
pub proof fn law_validate(o: &Options, profile: bool, r: Result<()>)
    requires
        call_ensures(ArenaProfile::is_valid, (&o.arena_profile,), profile),
        call_ensures(Options::validate, (o,), r),
    ensures
        r is Err ==> r matches Err(Error::InvalidArgument(_)),
        r is Ok <==> {
            let u = o.universal_compaction_options;
            &&& o.write_buffer_size > 0
            &&& o.block_size > 0
            &&& o.l0_compaction_trigger > 0
            &&& o.level_base_bytes > 0
            &&& o.level_size_multiplier > 0
            &&& o.target_file_size > 0
            &&& o.metadata_block_size > 0
            &&& (o.max_background_compactions == 0 || o.env.capabilities.threads)
            &&& profile
            &&& o.max_key_size <= 0xFFFF_FFF6
            &&& o.max_value_size <= 0xFFFF_FFFF
            &&& o.block_cache_num_shard_bits <= 8
            &&& 1 <= o.bloom_bits_per_key
            &&& o.bloom_bits_per_key <= 64
            &&& (o.level0_stop_writes_trigger == 0 || o.level0_slowdown_writes_trigger
                <= o.level0_stop_writes_trigger)
            &&& (o.hard_pending_compaction_bytes_limit == 0
                || o.soft_pending_compaction_bytes_limit
                <= o.hard_pending_compaction_bytes_limit)
            &&& (o.durability != DurabilityMode::Immediate || o.env.capabilities.durable_sync)
            &&& (o.compaction_style != CompactionStyle::Fifo
                || o.fifo_compaction_options.max_table_files_size > 0)
            &&& (o.compaction_style != CompactionStyle::Universal || (u.size_ratio > 0
                && u.min_merge_width >= 2 && u.min_merge_width <= u.max_merge_width
                && u.max_size_amplification_percent > 0))
        },
{
}

/// The options that come ready made are valid.
pub proof fn law_profiles_valid(o: Options, r: Result<()>)
    requires
        call_ensures(Options::embedded, (), o) || call_ensures(Options::wasm, (), o)
            || call_ensures(Options::memory, (), o) || call_ensures(Options::default, (), o),
        call_ensures(Options::validate, (&o,), r),
    ensures
        r is Ok,
        o.max_key_size > 0 && o.max_value_size > 0 && !o.read_only,
        o.merge_operator is None && o.compaction_filter is None && o.prefix_extractor is None,
{
    lemma_profiles_consistent(o);
}

/// The options that open a database are those the engine runs under, field by
/// field.
pub proof fn law_engine_options(o: &Options, r: EngineOptions)
    requires
        call_ensures(Options::to_engine_options, (o,), r),
    ensures
        r.write_buffer_size == o.write_buffer_size,
        r.arena_profile == o.arena_profile,
        r.block_size == o.block_size,
        r.block_cache_size == o.block_cache_size,
        r.block_cache_num_shard_bits == o.block_cache_num_shard_bits,
        r.strict_capacity_limit == o.strict_capacity_limit,
        r.bloom_bits_per_key == o.bloom_bits_per_key,
        r.compression == o.compression,
        r.compression_per_level is Some <==> o.compression_per_level is Some,
        r.compression_per_level matches Some(v) ==> v@ == (o.compression_per_level->0)@,
        r.l0_compaction_trigger == o.l0_compaction_trigger,
        r.level_base_bytes == o.level_base_bytes,
        r.level_size_multiplier == o.level_size_multiplier,
        r.target_file_size == o.target_file_size,
        r.compaction_filter == o.compaction_filter,
        r.prefix_extractor == o.prefix_extractor,
        r.merge_operator == o.merge_operator,
        r.listeners@ == o.listeners@,
        r.level0_slowdown_writes_trigger == o.level0_slowdown_writes_trigger,
        r.level0_stop_writes_trigger == o.level0_stop_writes_trigger,
        r.soft_pending_compaction_bytes_limit == o.soft_pending_compaction_bytes_limit,
        r.hard_pending_compaction_bytes_limit == o.hard_pending_compaction_bytes_limit,
        r.max_write_buffer_number == o.max_write_buffer_number,
        r.compaction_style == o.compaction_style,
        r.fifo_compaction_options == o.fifo_compaction_options,
        r.universal_compaction_options == o.universal_compaction_options,
        r.evict_compaction_data_from_page_cache == o.evict_compaction_data_from_page_cache,
        r.max_background_compactions == o.max_background_compactions,
        r.partitioned_index == o.partitioned_index,
        r.cache_index_and_filter_blocks == o.cache_index_and_filter_blocks,
        r.metadata_block_size == o.metadata_block_size,
        r.read_only == o.read_only,
        r.max_key_size == o.max_key_size,
        r.max_value_size == o.max_value_size,
        r.env == o.env,
{
}

/// A database that was opened is open, and runs under the options it was
/// opened with.
pub proof fn law_open_under_options(
    name: &str,
    stored: Stored,
    opts: Options,
    valid: Result<()>,
    r: Result<Db>,
)
    requires
        stored.wf(),
        call_ensures(Options::validate, (&opts,), valid),
        call_ensures(Db::open, (name, stored, opts), r),
    ensures
        valid is Err ==> r matches Err(Error::InvalidArgument(_)),
        r matches Ok(db) ==> {
            &&& valid is Ok
            &&& db.wf()
            &&& !db.is_closed()
            &&& db.mode() == opts.durability
            &&& db.is_read_only() == opts.read_only
            &&& db.key_limit() == opts.max_key_size
            &&& db.value_limit() == opts.max_value_size
            &&& db.operator() == opts.merge_operator
            &&& db.store().log_name() == name@
            &&& db.durable() == db.history()
        },
{
    lemma_complaint_iff_inconsistent(opts);
}

/// A database opened for reading alone refuses every write, and there must be
/// one to open.
pub proof fn law_open_read_only(
    name: &str,
    stored: Stored,
    opts: Options,
    r: Result<Db>,
    db: &mut Db,
    key: &[u8],
    value: &[u8],
    w: Result<()>,
)
    requires
        stored.wf(),
        call_ensures(Db::open_read_only, (name, stored, opts), r),
        r is Ok ==> *old(db) == r->Ok_0 && call_ensures(Db::put, (db, key, value), w),
    ensures
        r is Ok ==> (w matches Err(Error::ReadOnly)) && *final(db) == *old(db),
        !stored.was_opened() ==> r is Err,
{
}

/// A database that was never opened before opens under any valid options,
/// holds nothing, and has the default family alone.
pub proof fn law_open_new(
    name: &str,
    stored: Stored,
    opts: Options,
    valid: Result<()>,
    r: Result<Db>,
    db: Db,
    key: &[u8],
    g: Result<Option<Vec<u8>>>,
    other: &str,
    found: Option<ColumnFamilyHandle>,
    latest: u64,
)
    requires
        stored.wf(),
        stored.finished() == Seq::<Logged>::empty(),
        stored.log() == Seq::<u8>::empty(),
        stored.mark() == 0,
        !opts.read_only,
        call_ensures(Options::validate, (&opts,), valid),
        valid is Ok,
        call_ensures(Db::open, (name, stored, opts), r),
        r matches Ok(o) ==> o == db,
        r is Ok ==> call_ensures(Db::get, (&db, key), g),
        r is Ok ==> call_ensures(Db::column_family, (&db, other), found),
        r is Ok ==> call_ensures(Db::latest_sequence, (&db,), latest),
    ensures
        r is Ok,
        g matches Ok(None),
        found is Some <==> other@ == DEFAULT_CF_NAME@,
        latest == 0,
{
    law_fresh_database(name@, stored, opts);
    assert(opened(name@, stored, opts) == Ok::<Seq<Logged>, crate::error::Fault>(Seq::empty()));
    assert(db.reads(DEFAULT_CF_ID, key@, db.horizon()) == crate::engine::read::Read::Value(None));
}

/// The prefix of a key under a fixed length is its first bytes, as many as
/// the length says, where the key is long enough, and none where it is not.
pub proof fn law_fixed_prefix(p: &FixedLengthPrefix, key: &[u8], r: Option<&[u8]>, q: Option<&[u8]>)
    requires
        call_ensures(FixedLengthPrefix::extract, (p, key), r),
        call_ensures(FixedLengthPrefix::extract_query, (p, key), q),
    ensures
        r is Some <==> key@.len() >= p.0,
        r matches Some(x) ==> x@.len() == p.0 && x@.is_prefix_of(key@),
        q is Some <==> r is Some,
        (q, r) matches (Some(x), Some(y)) ==> x@ == y@,
{
}

} // verus!
