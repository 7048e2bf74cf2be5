use std::sync::Arc;

use regolith::db::Db;
use regolith::engine::store::Stored;
use regolith::error::Error;
use regolith::options::{
    ArenaProfile, CompactionDecision, CompactionStyle, FifoCompactionOptions, FixedLengthPrefix,
    Options, PrefixExtractor, UniversalCompactionOptions, WriteOptions,
    MAX_BLOCK_CACHE_SHARD_BITS, MAX_BLOOM_BITS_PER_KEY,
};

fn assert_invalid_option(opts: Options, expected: &str) {
    match opts.validate().unwrap_err() {
        Error::InvalidArgument(message) => {
            assert!(
                message.contains(expected),
                "expected invalid option message to contain {expected:?}, got {message:?}"
            );
        }
        other => panic!("expected invalid argument, got {other:?}"),
    }
}

#[test]
fn fixed_length_prefix_extract() {
    let ex = FixedLengthPrefix(4);
    assert_eq!(ex.extract(b"tenant_001"), Some(&b"tena"[..]));
    assert_eq!(ex.extract(b"abcd"), Some(&b"abcd"[..]));
    assert_eq!(ex.extract(b"abc"), None);
    assert_eq!(ex.extract(b""), None);
    assert_eq!(ex.name(), "FixedLengthPrefix");
}

#[test]
fn fixed_length_prefix_zero_accepts_any_key() {
    let ex = FixedLengthPrefix(0);
    assert_eq!(ex.extract(b"anything"), Some(&b""[..]));
    assert_eq!(ex.extract(b""), Some(&b""[..]));
}

#[test]
fn compaction_decision_equality_and_clone() {
    assert_eq!(CompactionDecision::Keep, CompactionDecision::Keep);
    assert_ne!(CompactionDecision::Keep, CompactionDecision::Remove);
    let c = CompactionDecision::Change(b"new".to_vec());
    assert_eq!(c.clone(), c);
    assert_ne!(c, CompactionDecision::Change(b"other".to_vec()));
}

#[test]
fn write_options_defaults_are_all_false() {
    let wo = WriteOptions::new();
    assert!(!wo.sync);
    assert!(!wo.disable_wal);
    assert!(!wo.low_pri);
    assert!(!wo.no_slowdown);
    assert_eq!(wo, WriteOptions::default());
}

#[test]
fn write_options_sync_constructor_sets_only_sync() {
    let wo = WriteOptions::sync();
    assert!(wo.sync);
    assert!(!wo.disable_wal);
}

#[test]
fn write_options_disable_wal_constructor_sets_only_disable_wal() {
    let wo = WriteOptions::disable_wal();
    assert!(wo.disable_wal);
    assert!(!wo.sync);
}

#[test]
fn compaction_style_default_is_level() {
    assert_eq!(CompactionStyle::default(), CompactionStyle::Level);
}

#[test]
fn fifo_compaction_options_default_is_one_gib() {
    let f = FifoCompactionOptions::default();
    assert_eq!(f.max_table_files_size, 1024 * 1024 * 1024);
}

#[test]
fn options_validate_accepts_defaults_and_disabled_stall_triggers() {
    Options::default().validate().unwrap();

    let opts = Options {
        level0_slowdown_writes_trigger: 0,
        level0_stop_writes_trigger: 0,
        soft_pending_compaction_bytes_limit: 0,
        hard_pending_compaction_bytes_limit: 0,
        max_write_buffer_number: 0,
        ..Options::default()
    };
    opts.validate().unwrap();
}

#[test]
fn options_validate_accepts_zero_block_cache_size() {
    Options {
        block_cache_size: 0,
        ..Options::default()
    }
    .validate()
    .unwrap();
}

#[test]
fn zero_block_cache_db_opens_and_reads_correctly() {
    let mut db = Db::open(
        "wal_000001.log",
        Stored::empty(),
        Options {
            block_cache_size: 0,
            write_buffer_size: 4 * 1024,
            ..Options::default()
        },
    )
    .unwrap();
    for i in 0..500u32 {
        db.put(
            format!("key{i:04}").as_bytes(),
            format!("value{i}").as_bytes(),
        )
        .unwrap();
    }
    // Small write buffer forces flushes, so most of these reads
    // come from finished tables.
    for i in 0..500u32 {
        assert_eq!(
            db.get(format!("key{i:04}").as_bytes()).unwrap(),
            Some(format!("value{i}").into_bytes())
        );
    }
    assert!(db.get(b"absent").unwrap().is_none());
}

#[test]
fn options_validate_rejects_zero_core_sizes() {
    assert_invalid_option(
        Options {
            write_buffer_size: 0,
            ..Options::default()
        },
        "write_buffer_size",
    );
    assert_invalid_option(
        Options {
            block_size: 0,
            ..Options::default()
        },
        "block_size",
    );
    assert_invalid_option(
        Options {
            l0_compaction_trigger: 0,
            ..Options::default()
        },
        "l0_compaction_trigger",
    );
    assert_invalid_option(
        Options {
            level_base_bytes: 0,
            ..Options::default()
        },
        "level_base_bytes",
    );
    assert_invalid_option(
        Options {
            level_size_multiplier: 0,
            ..Options::default()
        },
        "level_size_multiplier",
    );
    assert_invalid_option(
        Options {
            target_file_size: 0,
            ..Options::default()
        },
        "target_file_size",
    );
    assert_invalid_option(
        Options {
            metadata_block_size: 0,
            ..Options::default()
        },
        "metadata_block_size",
    );
}

#[test]
fn options_validate_rejects_unsupported_ranges() {
    assert_invalid_option(
        Options {
            block_cache_num_shard_bits: MAX_BLOCK_CACHE_SHARD_BITS + 1,
            ..Options::default()
        },
        "block_cache_num_shard_bits",
    );
    assert_invalid_option(
        Options {
            bloom_bits_per_key: 0,
            ..Options::default()
        },
        "bloom_bits_per_key",
    );
    assert_invalid_option(
        Options {
            bloom_bits_per_key: MAX_BLOOM_BITS_PER_KEY + 1,
            ..Options::default()
        },
        "bloom_bits_per_key",
    );
}

#[test]
fn zero_background_compactions_is_a_supported_configuration() {
    Options {
        max_background_compactions: 0,
        ..Options::default()
    }
    .validate()
    .expect("zero background workers selects foreground compaction, not an error");
}

#[test]
fn embedded_profile_validates() {
    Options::embedded()
        .validate()
        .expect("the shipped embedded profile must satisfy its own invariants");
}

#[test]
fn embedded_profile_bounds_every_resident_term() {
    let o = Options::embedded();

    // Entry bytes held in memory at once: two write buffers.
    assert_eq!(o.write_buffer_size, 256 * 1024);
    assert_eq!(o.max_write_buffer_number, 2);

    // The cache must allocate nothing at all, not merely a little.
    assert_eq!(o.block_cache_size, 0);
    assert_eq!(o.block_cache_num_shard_bits, 0);

    // Per-file metadata and transient buffers.
    assert_eq!(o.block_size, 4 * 1024);
    assert_eq!(o.target_file_size, 256 * 1024);
    assert_eq!(o.metadata_block_size, 1024);

    // A single accepted write must not exceed one write buffer,
    // or the memtable cannot hold what the API just admitted.
    assert!(o.max_value_size <= o.write_buffer_size);
    assert!(o.max_key_size < o.write_buffer_size);

    // Compaction runs on the calling thread.
    assert_eq!(o.max_background_compactions, 0);
}

#[test]
fn wasm_profile_validates() {
    Options::wasm()
        .validate()
        .expect("the shipped wasm profile must satisfy its own invariants");
}

#[test]
fn wasm_profile_bounds_every_resident_term() {
    let o = Options::wasm();

    // Entry bytes held in memory at once: two write buffers.
    assert_eq!(o.write_buffer_size, 1024 * 1024);
    assert_eq!(o.max_write_buffer_number, 2);

    // A chunk is exactly one wasm page, so a chunk never straddles
    // more pages than its contents need.
    assert_eq!(o.arena_profile.max_chunk_size, 64 * 1024);

    // Unlike `embedded`, the cache is real: wasm has no OS page
    // cache behind it. One shard, because nothing contends.
    assert_eq!(o.block_cache_size, 1024 * 1024);
    assert_eq!(o.block_cache_num_shard_bits, 0);

    // The same admission rule `embedded` holds: a write the API
    // accepts must fit in a memtable that can hold it.
    assert!(o.max_value_size <= o.write_buffer_size);
    assert!(o.max_key_size < o.write_buffer_size);

    // Compaction runs on the calling thread. This is not a tuning
    // choice on wasm; `validate` rejects anything else there.
    assert_eq!(o.max_background_compactions, 0);

    // The page-cache hint is a no-op on wasm, so the profile does
    // not ask for an effect the target cannot deliver.
    assert!(!o.evict_compaction_data_from_page_cache);

    // Already set for the `partitioned_index` switch the doc
    // points at, so flipping it later needs no further retuning.
    assert_eq!(o.metadata_block_size, 1024);
}

#[test]
fn wasm_profile_is_smaller_than_the_default_but_roomier_than_embedded() {
    let d = Options::default();
    let w = Options::wasm();
    let e = Options::embedded();

    assert!(w.write_buffer_size < d.write_buffer_size);
    assert!(w.block_cache_size < d.block_cache_size);
    assert!(w.max_value_size < d.max_value_size);
    assert!(w.hard_pending_compaction_bytes_limit < d.hard_pending_compaction_bytes_limit);

    // Roomier than `embedded` everywhere it differs, because a
    // browser tab or a wasi host is not an ESP32.
    assert!(w.write_buffer_size > e.write_buffer_size);
    assert!(w.target_file_size > e.target_file_size);
    assert!(w.level_base_bytes > e.level_base_bytes);
    assert!(w.max_value_size > e.max_value_size);

    // The one term that goes the other way, and the reason this is
    // a separate profile rather than an alias for `embedded`.
    assert_eq!(e.block_cache_size, 0);
    assert!(w.block_cache_size > e.block_cache_size);
}

#[test]
fn default_profile_opens_on_every_target_it_is_compiled_for() {
    // `Db::open` validates, so a default that a target rejects
    // would make the zero-configuration path unopenable there.
    Options::default()
        .validate()
        .expect("Options::default must be valid on the target it was built for");
}

#[test]
fn embedded_profile_is_strictly_smaller_than_the_default() {
    let d = Options::default();
    let e = Options::embedded();
    assert!(e.write_buffer_size < d.write_buffer_size);
    assert!(e.block_cache_size < d.block_cache_size);
    assert!(e.block_size < d.block_size);
    assert!(e.target_file_size < d.target_file_size);
    assert!(e.level_base_bytes < d.level_base_bytes);
    assert!(e.max_key_size < d.max_key_size);
    assert!(e.max_value_size < d.max_value_size);
    assert!(e.level0_stop_writes_trigger < d.level0_stop_writes_trigger);
    assert!(e.hard_pending_compaction_bytes_limit < d.hard_pending_compaction_bytes_limit);
}

#[test]
fn options_validate_rejects_inconsistent_stall_thresholds() {
    assert_invalid_option(
        Options {
            level0_slowdown_writes_trigger: 10,
            level0_stop_writes_trigger: 5,
            ..Options::default()
        },
        "level0_slowdown_writes_trigger",
    );
    assert_invalid_option(
        Options {
            soft_pending_compaction_bytes_limit: 10,
            hard_pending_compaction_bytes_limit: 5,
            ..Options::default()
        },
        "soft_pending_compaction_bytes_limit",
    );
}

#[test]
fn options_validate_checks_selected_compaction_style_options() {
    Options {
        fifo_compaction_options: FifoCompactionOptions {
            max_table_files_size: 0,
        },
        ..Options::default()
    }
    .validate()
    .unwrap();

    assert_invalid_option(
        Options {
            compaction_style: CompactionStyle::Fifo,
            fifo_compaction_options: FifoCompactionOptions {
                max_table_files_size: 0,
            },
            ..Options::default()
        },
        "fifo_compaction_options.max_table_files_size",
    );
    assert_invalid_option(
        Options {
            compaction_style: CompactionStyle::Universal,
            universal_compaction_options: UniversalCompactionOptions {
                size_ratio: 0,
                ..UniversalCompactionOptions::default()
            },
            ..Options::default()
        },
        "universal_compaction_options.size_ratio",
    );
    assert_invalid_option(
        Options {
            compaction_style: CompactionStyle::Universal,
            universal_compaction_options: UniversalCompactionOptions {
                min_merge_width: 1,
                ..UniversalCompactionOptions::default()
            },
            ..Options::default()
        },
        "universal_compaction_options.min_merge_width",
    );
    assert_invalid_option(
        Options {
            compaction_style: CompactionStyle::Universal,
            universal_compaction_options: UniversalCompactionOptions {
                min_merge_width: 4,
                max_merge_width: 3,
                ..UniversalCompactionOptions::default()
            },
            ..Options::default()
        },
        "universal_compaction_options.max_merge_width",
    );
    assert_invalid_option(
        Options {
            compaction_style: CompactionStyle::Universal,
            universal_compaction_options: UniversalCompactionOptions {
                max_size_amplification_percent: 0,
                ..UniversalCompactionOptions::default()
            },
            ..Options::default()
        },
        "universal_compaction_options.max_size_amplification_percent",
    );
}

#[test]
fn embedded_preset_is_valid_and_small() {
    let opts = Options::embedded();
    opts.validate()
        .expect("the preset must be a valid option set");
    assert_eq!(opts.arena_profile, ArenaProfile::embedded());
    assert_eq!(
        opts.to_engine_options().arena_profile,
        ArenaProfile::embedded()
    );
    // The documented bound: 2 * M * (W + c) + M * W.
    let w = opts.write_buffer_size;
    let c = opts.arena_profile.max_chunk_size;
    let m = opts.max_write_buffer_number;
    assert_eq!(2 * m * (w + c) + m * w, 1792 * 1024);
}

#[test]
fn arena_profile_validation_rejects_bad_shapes() {
    let bad = [
        ArenaProfile {
            initial_chunk_size: 3000,
            max_chunk_size: 64 * 1024,
        },
        ArenaProfile {
            initial_chunk_size: 4096,
            max_chunk_size: 3000,
        },
        ArenaProfile {
            initial_chunk_size: 128 * 1024,
            max_chunk_size: 64 * 1024,
        },
        ArenaProfile {
            initial_chunk_size: 0,
            max_chunk_size: 64 * 1024,
        },
    ];
    for profile in bad {
        assert!(!profile.is_valid(), "{profile:?} must be rejected");
        let opts = Options {
            arena_profile: profile,
            ..Options::default()
        };
        match opts.validate() {
            Err(Error::InvalidArgument(message)) => {
                assert!(message.contains("arena_profile"), "{message}")
            }
            other => panic!("expected an arena_profile error, got {other:?}"),
        }
    }
    assert!(ArenaProfile::server().is_valid());
    assert!(ArenaProfile::embedded().is_valid());
    assert_eq!(ArenaProfile::default(), ArenaProfile::server());
}

#[test]
fn key_and_value_size_caps_are_encodable() {
    // The memtable stores both lengths in a `u32` inside its arena
    // node, so an unencodable limit has to fail at the boundary.
    for (name, opts) in [
        (
            "max_key_size",
            Options {
                max_key_size: u32::MAX as usize + 1,
                ..Options::default()
            },
        ),
        (
            "max_value_size",
            Options {
                max_value_size: u32::MAX as usize + 1,
                ..Options::default()
            },
        ),
    ] {
        match opts.validate() {
            Err(Error::InvalidArgument(message)) => {
                assert!(message.contains(name), "{message}")
            }
            other => panic!("expected a {name} error, got {other:?}"),
        }
    }
}

#[test]
fn options_to_engine_options_preserves_engine_fields() {
    // Defaults consumed by the engine must survive the translation
    // unchanged; compatibility-only public knobs are intentionally
    // not present in EngineOptions.
    let opts = Options::default();
    let eo = opts.to_engine_options();
    assert_eq!(eo.write_buffer_size, opts.write_buffer_size);
    assert_eq!(eo.block_size, opts.block_size);
    assert_eq!(eo.block_cache_size, opts.block_cache_size);
    assert_eq!(eo.bloom_bits_per_key, opts.bloom_bits_per_key);
    assert_eq!(eo.l0_compaction_trigger, opts.l0_compaction_trigger);
    assert_eq!(eo.level_base_bytes, opts.level_base_bytes);
    assert_eq!(eo.level_size_multiplier, opts.level_size_multiplier);
    assert_eq!(eo.target_file_size, opts.target_file_size);
    assert_eq!(eo.compaction_style, opts.compaction_style);
    assert_eq!(eo.read_only, opts.read_only);
    assert_eq!(eo.max_key_size, opts.max_key_size);
    assert_eq!(eo.max_value_size, opts.max_value_size);
    assert_eq!(
        eo.max_background_compactions,
        opts.max_background_compactions
    );
    assert_eq!(
        eo.evict_compaction_data_from_page_cache,
        opts.evict_compaction_data_from_page_cache
    );
    assert_eq!(eo.partitioned_index, opts.partitioned_index);
    assert_eq!(
        eo.cache_index_and_filter_blocks,
        opts.cache_index_and_filter_blocks
    );
}

/// Custom `PrefixExtractor` that returns everything before the
/// first `:` - proves the trait is user-implementable.
#[test]
fn custom_prefix_extractor_can_be_plugged_in() {
    struct UntilColon;
    impl PrefixExtractor for UntilColon {
        fn extract<'a>(&self, key: &'a [u8]) -> Option<&'a [u8]> {
            key.iter().position(|&b| b == b':').map(|i| &key[..i])
        }
        fn name(&self) -> &'static str {
            "UntilColon"
        }
    }
    let ex: Arc<dyn PrefixExtractor> = Arc::new(UntilColon);
    assert_eq!(ex.extract(b"tenant:key"), Some(&b"tenant"[..]));
    assert_eq!(ex.extract(b"nocolon"), None);
    assert_eq!(ex.name(), "UntilColon");
}


#[test]
fn options_text_names_every_field_in_order() {
    let text = Options::default().to_text();
    assert!(text.contains("listeners: 0, statistics: false, rate_limiter: false, level0_slowdown_writes_trigger: 20"));
}
