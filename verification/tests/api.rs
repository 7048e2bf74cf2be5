//! What the other test files leave out: slices, sizes, streams, sequence
//! numbers, checkpoints, stalls, reports.

use std::sync::Arc;
use std::time::Duration;

use regolith::column_family::{
    cf_lower_bound, cf_upper_bound, name_from_key, name_key, prefix_key, CfRegistry, DEFAULT_CF_ID,
    META_CF_ID,
};
use regolith::db::properties::format_key_for_display;
use regolith::db::{
    map_point_read_error, map_point_read_error_for, prefixed_cf_id, strip_cf_prefix_entries,
    strip_cf_prefix_key,
};
use regolith::engine::store::levels::job_info;
use regolith::engine::store::universal::is_universal_due;
use regolith::engine::wal::{Wal, WAL_STAMP_LEN};
use regolith::{
    CompactionJobInfo, CompactionOutcome, CompactionStyle, Db, DurabilityMode, Error, ErrorKind,
    EventListener, ExternalFile, ExternalFileIngestionInfo, FlushJobInfo, IoError, MergeOperator,
    Options, Stored, TableFileCreationInfo, TableFileCreationReason, UniversalCompactionOptions,
    WriteBatch, WriteBatchOp, WriteOptions, WriteTally,
};

const LOG: &str = "wal_000001.log";

fn open_with(opts: Options) -> Db {
    Db::open(LOG, Stored::empty(), opts).unwrap()
}

fn open() -> Db {
    open_with(Options::default())
}

struct Concat;

impl MergeOperator for Concat {
    fn full_merge(&self, _key: &[u8], base: Option<&[u8]>, operands: &[&[u8]]) -> Option<Vec<u8>> {
        let mut out = base.unwrap_or_default().to_vec();
        for operand in operands {
            out.extend_from_slice(operand);
        }
        Some(out)
    }

    fn name(&self) -> &'static str {
        "Concat"
    }
}

#[test]
fn slices_sizes_and_presence_agree_with_get() {
    let mut db = open();
    let cf = db.create_column_family("side").unwrap();
    db.put(b"k", b"value").unwrap();
    db.put_cf(&cf, b"k", b"other").unwrap();
    assert_eq!(db.get_slice(b"k").unwrap().unwrap().as_slice(), b"value");
    assert!(db.get_slice(b"q").unwrap().is_none());
    assert_eq!(db.get_slice_cf(&cf, b"k").unwrap().unwrap().into_vec(), b"other");
    assert_eq!(db.get_size(b"k").unwrap(), Some(5));
    assert_eq!(db.get_size(b"q").unwrap(), None);
    assert_eq!(db.get_size_cf(&cf, b"k").unwrap(), Some(5));
    assert!(db.has(b"k").unwrap());
    assert!(!db.has(b"q").unwrap());
    assert!(db.has_cf(&cf, b"k").unwrap());

    let snap = db.snapshot();
    db.delete(b"k").unwrap();
    db.delete_cf(&cf, b"k").unwrap();
    assert_eq!(snap.get_slice(&db, b"k").unwrap().unwrap().len(), 5);
    assert_eq!(snap.get_slice_cf(&db, &cf, b"k").unwrap().unwrap().as_slice(), b"other");
    assert_eq!(snap.get_size(&db, b"k").unwrap(), Some(5));
    assert_eq!(snap.get_size_cf(&db, &cf, b"k").unwrap(), Some(5));
    assert!(snap.has(&db, b"k").unwrap());
    assert!(snap.has_cf(&db, &cf, b"k").unwrap());
    assert!(!db.has(b"k").unwrap());
    db.release(snap);
}

#[test]
fn a_stream_yields_the_scan_it_bounds() {
    let mut db = open();
    for c in b'a'..=b'f' {
        db.put(&[c], &[c, c]).unwrap();
    }
    let mut stream = db.scan_stream(Some(b"b"), Some(b"e")).unwrap();
    assert_eq!(stream.to_text(), "ScanStream { done: false, .. }");
    db.put(b"bb", b"later").unwrap();
    let mut got = Vec::new();
    while let Some((key, value)) = stream.next() {
        got.push((key, value.into_vec()));
    }
    let want: Vec<(Vec<u8>, Vec<u8>)> = (b'b'..b'e').map(|c| (vec![c], vec![c, c])).collect();
    assert_eq!(got, want);
    stream.status().unwrap();
    assert_eq!(stream.to_text(), "ScanStream { done: true, .. }");
    assert!(stream.next().is_none());
    db.release(stream.into_snapshot());
    assert_eq!(db.wait_for_snapshots(false), Some(0));

    let snap = db.snapshot();
    let mut stream = snap.scan_stream(&mut db, Some(b"f"), None);
    assert_eq!(stream.next().unwrap().0, b"f");
    assert!(stream.next().is_none());
    db.release(stream.into_snapshot());
    let mut stream = snap.into_scan_stream(&db, None, Some(b"b"));
    assert_eq!(stream.next().unwrap().0, b"a");
    assert!(stream.next().is_none());
    db.release(stream.into_snapshot());
    assert_eq!(db.wait_for_snapshots(false), Some(0));
}

#[test]
fn entries_drain_a_cursor_either_way() {
    let mut db = open();
    for c in b'a'..=b'd' {
        db.put(&[c], &[c]).unwrap();
    }
    let snap = db.snapshot();
    let mut forward = snap.owned_iter(&mut db).entries();
    let mut keys = Vec::new();
    while let Some((key, _)) = forward.next() {
        keys.push(key);
    }
    forward.status().unwrap();
    assert_eq!(keys, vec![b"a".to_vec(), b"b".to_vec(), b"c".to_vec(), b"d".to_vec()]);
    db.release(forward.into_cursor().into_snapshot());

    let mut backward = snap.into_owned_iter(&db).entries_rev();
    let mut keys = Vec::new();
    while let Some((key, value)) = backward.next() {
        assert_eq!(key, value.into_vec());
        keys.push(key);
    }
    assert_eq!(keys, vec![b"d".to_vec(), b"c".to_vec(), b"b".to_vec(), b"a".to_vec()]);
    db.release(backward.into_cursor().into_snapshot());

    let mut from_b = db.iter();
    from_b.seek(b"b");
    assert_eq!(from_b.value_slice().unwrap().as_slice(), b"b");
    let mut rest = from_b.entries();
    assert_eq!(rest.next().unwrap().0, b"b");
    assert_eq!(rest.next().unwrap().0, b"c");
}

#[test]
fn sequence_numbers_count_operations() {
    let mut db = open();
    assert_eq!(db.latest_sequence(), 0);
    let mut batch = WriteBatch::new();
    batch.put(b"a", b"1");
    batch.put(b"b", b"2");
    batch.delete(b"a");
    assert_eq!(db.write_sequenced(batch).unwrap(), 3);
    assert_eq!(db.write_sequenced(WriteBatch::new()).unwrap(), 3);
    let mut batch = WriteBatch::new();
    batch.put(b"c", b"3");
    let sync = WriteOptions { sync: true, ..WriteOptions::default() };
    assert_eq!(db.write_sequenced_opt(&sync, batch).unwrap(), 4);
    assert!(db.sync_due());
    db.report_synced();
    assert!(!db.sync_due());
    let mut batch = WriteBatch::new();
    batch.put(b"d", b"4");
    db.write_with_durability(batch, DurabilityMode::Immediate).unwrap();
    assert!(db.sync_due());
    assert_eq!(db.latest_sequence(), 5);
    let snap = db.snapshot();
    assert_eq!(snap.sequence(), 5);
    assert_eq!(snap.to_text(), "Snapshot { seq: 5, .. }");
    db.release(snap);
}

#[test]
fn a_cloned_pin_outlives_the_first() {
    let mut db = open();
    db.put(b"k", b"v1").unwrap();
    let first = db.snapshot();
    let second = db.clone_pin(&first);
    db.release(first);
    assert_eq!(db.wait_for_snapshots(false), None);
    assert_eq!(db.wait_for_snapshots(true), Some(1));
    db.put(b"k", b"v2").unwrap();
    db.compact_range(None, None).unwrap();
    assert_eq!(second.get(&db, b"k").unwrap(), Some(b"v1".to_vec()));
    db.release(second);
    assert_eq!(db.wait_for_snapshots(false), Some(0));
}

#[test]
fn a_checkpoint_is_a_database_of_its_own() {
    let mut db = open();
    db.put(b"k", b"v1").unwrap();
    let copy = db.checkpoint().unwrap();
    db.put(b"k", b"v2").unwrap();
    let other = Db::open(LOG, copy, Options::default()).unwrap();
    assert_eq!(other.get(b"k").unwrap(), Some(b"v1".to_vec()));
    assert_eq!(db.get(b"k").unwrap(), Some(b"v2".to_vec()));
}

#[test]
fn a_read_only_handle_reads_and_refuses_writes() {
    let mut db = open();
    db.put(b"wal_only", b"value").unwrap();
    let mut ro = Db::open_read_only(LOG, db.into_stored(), Options::default()).unwrap();
    assert_eq!(ro.get(b"wal_only").unwrap(), Some(b"value".to_vec()));
    assert!(matches!(ro.put(b"blocked", b"write"), Err(Error::ReadOnly)));
    assert!(matches!(ro.compact_step(), Err(Error::ReadOnly)));
    assert_eq!(ro.to_text(), "Db { durability: Eventual, read_only: true, .. }");
    ro.close().unwrap();
}

#[test]
fn a_stall_is_told_and_ends_with_compaction() {
    let mut db = open_with(Options {
        write_buffer_size: 4 * 1024,
        l0_compaction_trigger: 1000,
        level0_slowdown_writes_trigger: 0,
        level0_stop_writes_trigger: 2,
        max_write_buffer_number: 0,
        ..Options::default()
    });
    assert!(db.write_stall().is_none());
    db.put(b"a", b"1").unwrap();
    db.flush().unwrap();
    db.put(b"b", b"2").unwrap();
    db.flush().unwrap();
    assert!(db.write_stall().is_some());
    let fail = WriteOptions { no_slowdown: true, ..WriteOptions::default() };
    assert!(matches!(db.put_opt(&fail, b"c", b"3"), Err(Error::Busy(_))));
    db.compact_range(None, None).unwrap();
    assert!(db.write_stall().is_none());
    db.put_opt(&fail, b"c", b"3").unwrap();
    assert_eq!(db.get(b"c").unwrap(), Some(b"3".to_vec()));
}

#[test]
fn compaction_runs_dry() {
    let mut db = open_with(Options {
        write_buffer_size: 4 * 1024,
        l0_compaction_trigger: 2,
        ..Options::default()
    });
    assert_eq!(db.compact_step().unwrap(), CompactionOutcome::Idle);
    for i in 0..4u8 {
        db.put(&[i], &[i]).unwrap();
        db.flush().unwrap();
    }
    assert_eq!(db.compact_step().unwrap(), CompactionOutcome::DidWork);
    assert_eq!(db.compact_step().unwrap(), CompactionOutcome::Idle);
    for i in 0..4u8 {
        assert_eq!(db.get(&[i]).unwrap(), Some(vec![i]));
    }
}

#[test]
fn merges_take_options_too() {
    let mut db = open_with(Options { merge_operator: Some(Arc::new(Concat)), ..Options::default() });
    db.merge_opt(&WriteOptions::default(), b"k", b"a").unwrap();
    db.merge_opt(&WriteOptions::default(), b"k", b"b").unwrap();
    assert_eq!(db.get(b"k").unwrap(), Some(b"ab".to_vec()));
}

#[test]
fn a_batch_counts_what_it_holds() {
    let mut batch = WriteBatch::new();
    assert_eq!(batch.buffered_bytes(), 0);
    batch.put_owned(b"a", b"12".to_vec());
    batch.delete_range(b"x", b"z");
    batch.merge(b"m", b"1");
    batch.insert_raw_delete(prefix_key(DEFAULT_CF_ID, b"gone"));
    batch.insert_raw_merge(prefix_key(DEFAULT_CF_ID, b"m"), b"2".to_vec());
    // Point writes alone.
    assert_eq!(batch.len(), 2);
    assert_eq!(batch.entries().len(), 5);
    assert_eq!(batch.range_delete_count(), 1);
    assert_eq!(batch.merge_count(), 2);
    assert!(batch.buffered_bytes() > 0);
    match &batch.entries()[3] {
        WriteBatchOp::Delete { key } => assert_eq!(key, &prefix_key(DEFAULT_CF_ID, b"gone")),
        other => panic!("got {other:?}"),
    }
}

#[test]
fn keys_carry_their_family_in_front() {
    assert_eq!(prefix_key(0x0102, b"k"), vec![0, 0, 1, 2, b'k']);
    assert_eq!(cf_lower_bound(7), vec![0, 0, 0, 7]);
    assert_eq!(cf_upper_bound(7), vec![0, 0, 0, 8]);
    assert_eq!(prefixed_cf_id(&[0, 0, 1, 2, 9]).unwrap(), 0x0102);
    assert_eq!(prefixed_cf_id(&[0, 0, 1]).unwrap_err().kind, ErrorKind::InvalidInput);
    assert_eq!(strip_cf_prefix_key(&[0, 0, 0, 1, b'k']).unwrap(), b"k");
    assert!(matches!(strip_cf_prefix_key(&[0]), Err(Error::Corruption(_))));
    let stripped = strip_cf_prefix_entries(vec![(vec![0, 0, 0, 1, b'k'], b"v".to_vec())]).unwrap();
    assert_eq!(stripped, vec![(b"k".to_vec(), b"v".to_vec())]);
}

#[test]
fn family_names_round_trip_through_their_keys() {
    for name in ["default", "", "caf\u{e9}", "\u{1f600}"] {
        assert_eq!(name_from_key(&name_key(name)).as_deref(), Some(name));
    }
    assert!(name_from_key(&prefix_key(META_CF_ID, b"next_id")).is_none());
    assert!(name_from_key(&prefix_key(META_CF_ID, b"name:\xff")).is_none());
}

#[test]
fn a_registry_knows_handles_and_ids() {
    let mut registry = CfRegistry::new();
    let (handle, next) = registry.allocate("side").unwrap();
    assert!(registry.contains_id(handle.id()));
    assert!(!registry.contains_id(next));
    assert!(registry.is_live_handle(&handle));
    registry.remove("side");
    assert!(!registry.is_live_handle(&handle));
}

#[test]
fn merge_failures_are_told_by_their_message() {
    let failed = || IoError::invalid_data("merge operator Concat could not combine the operands");
    match map_point_read_error_for(failed(), b"k") {
        Error::MergeFailed(key) => assert_eq!(key, b"k"),
        other => panic!("got {other:?}"),
    }
    match map_point_read_error(failed(), &prefix_key(DEFAULT_CF_ID, b"k")) {
        Error::MergeFailed(key) => assert_eq!(key, b"k"),
        other => panic!("got {other:?}"),
    }
    let damaged = IoError::invalid_data("bad block");
    assert!(matches!(map_point_read_error_for(damaged, b"k"), Error::Corruption(_)));
}

#[test]
fn reports_show_keys_as_text_or_hex() {
    assert_eq!(format_key_for_display(&prefix_key(DEFAULT_CF_ID, b"abc")), "\"abc\"");
    assert_eq!(format_key_for_display(&prefix_key(DEFAULT_CF_ID, &[0xff, 0x01])), "0xff01");
    assert_eq!(format_key_for_display(b"abc"), "0x616263");
    assert_eq!(format_key_for_display(b"abcd"), "0x61626364");
    assert_eq!(format_key_for_display(b""), "0x");
}

#[test]
fn capabilities_come_from_the_environment() {
    let db = open_with(Options { env: regolith::env::std_env(), ..Options::default() });
    assert!(db.capabilities().threads);
    let db = open_with(Options {
        env: regolith::env::mem_env(),
        max_background_compactions: 0,
        ..Options::default()
    });
    assert!(!db.capabilities().threads);
}

#[test]
fn listeners_are_told_what_a_table_is() {
    let mut db = open();
    db.put(b"b", b"22").unwrap();
    db.put(b"a", b"1").unwrap();
    db.flush().unwrap();
    let table = &db.engine().tables()[0];
    let flushed = table.flush_info(Duration::from_millis(5));
    assert_eq!(flushed.file_id, 1);
    assert_eq!(flushed.file_path, "000001.sst");
    assert_eq!(flushed.num_entries, 2);
    assert_eq!(flushed.smallest_key, prefix_key(DEFAULT_CF_ID, b"a"));
    assert_eq!(flushed.largest_key, prefix_key(DEFAULT_CF_ID, b"b"));
    assert_eq!(flushed.duration, Duration::from_millis(5));
    let created = table.creation_info(TableFileCreationReason::Flush);
    assert_eq!(created.level, 0);
    assert_eq!(created.file_size, flushed.file_size);
    assert_eq!(table.deletion_info().file_path, "000001.sst");
    let ingested = table.ingestion_info("outside.sst", 2);
    assert_eq!(ingested.external_file_path, "outside.sst");
    assert_eq!(ingested.internal_file_id, 1);
    let job = job_info(db.engine().tables(), 1, vec![2], Duration::from_millis(7));
    assert_eq!(job.duration, Duration::from_millis(7));
    assert_eq!(job.input_level, 0);
    assert_eq!(job.output_level, 1);
    assert_eq!(job.input_files_input_level, vec![1]);
    assert!(job.input_files_output_level.is_empty());
    assert_eq!(job.output_files, vec![2]);
}

#[test]
fn a_log_can_be_rolled_back_to_a_record() {
    let mut wal = Wal::create("log");
    assert_eq!(wal.offset(), WAL_STAMP_LEN as u64);
    wal.append_put(b"keep", b"v", 1);
    let mark = wal.offset();
    let ops = [WriteBatchOp::Delete { key: b"gone".to_vec() }];
    wal.append_ops(&ops, 2);
    wal.rollback_to(mark);
    let image = wal.into_image();
    assert_eq!(image.len() as u64, mark);
    let again = Wal::resume("log", image);
    assert_eq!(again.offset(), mark);
}

struct Counter;

impl MergeOperator for Counter {
    fn full_merge(&self, _key: &[u8], base: Option<&[u8]>, operands: &[&[u8]]) -> Option<Vec<u8>> {
        let mut sum = match base {
            Some(bytes) => i64::from_le_bytes(bytes.try_into().ok()?),
            None => 0,
        };
        for operand in operands {
            sum += i64::from_le_bytes((*operand).try_into().ok()?);
        }
        Some(sum.to_le_bytes().to_vec())
    }

    fn name(&self) -> &'static str {
        "Counter"
    }
}

#[test]
fn every_reader_tells_a_failed_merge_by_its_key() {
    let mut db =
        open_with(Options { merge_operator: Some(Arc::new(Counter)), ..Options::default() });
    db.put(b"a", b"1").unwrap();
    db.merge(b"counter", b"not an i64").unwrap();
    db.merge(b"later", b"nor this").unwrap();
    let failed = |e: Error| matches!(e, Error::MergeFailed(key) if key == b"counter");
    assert!(failed(db.get(b"counter").unwrap_err()));
    assert!(failed(db.multi_get(&[b"a", b"counter", b"later"]).unwrap_err()));
    assert_eq!(db.multi_get(&[b"a"]).unwrap(), vec![Some(b"1".to_vec())]);
    assert!(failed(db.scan(None, None).unwrap_err()));
    assert!(failed(db.scan_page(None, None, 1).unwrap_err()));
    assert_eq!(db.scan(None, Some(b"b")).unwrap().len(), 1);
    let mut it = db.iter();
    it.seek_to_first();
    assert_eq!(it.key(), Some(&b"a"[..]));
    it.next();
    assert!(!it.valid());
    assert!(failed(it.status().unwrap_err()));
    let mut stream = db.scan_stream(None, None).unwrap();
    assert_eq!(stream.next().unwrap().0, b"a");
    assert!(stream.next().is_none());
    assert!(failed(stream.status().unwrap_err()));
}

#[test]
fn an_explicit_durability_overrides_the_database() {
    let mut db = open_with(Options { durability: DurabilityMode::Immediate, ..Options::default() });
    assert!(!db.sync_due());
    let mut batch = WriteBatch::new();
    batch.put(b"k", b"v");
    db.write_with_durability(batch, DurabilityMode::Eventual).unwrap();
    assert!(!db.sync_due());
    assert_eq!(db.get(b"k").unwrap(), Some(b"v".to_vec()));
    db.put(b"k", b"w").unwrap();
    assert!(db.sync_due());
}

#[test]
fn a_closed_handle_gives_no_stream() {
    let mut db = open();
    db.put(b"k", b"v").unwrap();
    db.close().unwrap();
    assert!(matches!(db.scan_stream(None, None), Err(Error::Closed)));
    assert_eq!(db.get_int_property("regolith.num-snapshots"), Some(0));
}

#[test]
fn a_new_database_counts_nothing() {
    let db = open();
    for name in ["regolith.num-files-at-level0", "regolith.num-files-at-level99"] {
        assert_eq!(db.get_int_property(name), Some(0));
    }
    assert_eq!(db.get_int_property("regolith.num-snapshots"), Some(0));
    assert_eq!(db.get_int_property("regolith.oldest-snapshot-time"), None);
    assert_eq!(db.get_int_property("regolith.background-errors"), Some(0));
    assert_eq!(db.get_int_property("not.a.real.property"), None);
}

#[test]
fn waiting_for_snapshots_ends_with_the_last() {
    let mut db = open();
    db.put(b"k", b"v").unwrap();
    let snapshot = db.snapshot();
    assert_eq!(db.wait_for_snapshots(false), None);
    assert_eq!(db.wait_for_snapshots(true), Some(1));
    db.release(snapshot);
    assert_eq!(db.wait_for_snapshots(false), Some(0));
}

#[test]
fn a_family_created_anew_is_empty() {
    let mut db = open();
    let first = db.create_column_family("cf").unwrap();
    db.put_cf(&first, b"k", b"v").unwrap();
    db.drop_column_family(first).unwrap();
    db.flush().unwrap();
    let mut db = Db::open(LOG, db.into_stored(), Options::default()).unwrap();
    let again = db.create_column_family("cf").unwrap();
    assert_eq!(db.scan_cf(&again, None, None).unwrap(), Vec::new());
    let other = db.create_column_family("other").unwrap();
    assert_eq!(db.get_cf(&other, b"k").unwrap(), None);
}

#[test]
fn pages_and_streams_of_a_snapshot_are_its_scan() {
    let mut db = open();
    for i in 0..23u8 {
        db.put(&[b'k', i], &[i]).unwrap();
    }
    let snapshot = db.snapshot();
    let whole = snapshot.scan(&db, Some(b"k\x03"), Some(b"k\x13")).unwrap();
    assert_eq!(whole.len(), 16);
    for limit in [1usize, 3, 8, 16, 100] {
        let mut start: Option<Vec<u8>> = Some(b"k\x03".to_vec());
        let mut all = Vec::new();
        loop {
            let page = snapshot.scan_page(&db, start.as_deref(), Some(b"k\x13"), limit).unwrap();
            assert!(page.entries.len() <= limit);
            all.extend(page.entries);
            db.put(&[b'k', 5, limit as u8], b"meanwhile").unwrap();
            db.delete(&[b'k', 7]).unwrap();
            match page.next_start {
                Some(next) => start = Some(next),
                None => break,
            }
        }
        assert_eq!(all, whole);
    }
    let mut stream = snapshot.scan_stream(&mut db, Some(b"k\x03"), Some(b"k\x13"));
    let mut drawn = Vec::new();
    while let Some((key, value)) = stream.next() {
        drawn.push((key, value.into_vec()));
    }
    assert!(stream.next().is_none());
    assert_eq!(drawn, whole);
}

#[test]
fn bytes_and_memtables_stall_writes_too() {
    let fail = WriteOptions { no_slowdown: true, ..WriteOptions::default() };
    let quiet = || Options {
        l0_compaction_trigger: 1000,
        level0_slowdown_writes_trigger: 0,
        level0_stop_writes_trigger: 0,
        soft_pending_compaction_bytes_limit: 0,
        hard_pending_compaction_bytes_limit: 0,
        max_write_buffer_number: 0,
        ..Options::default()
    };
    let cases = [
        (Options { hard_pending_compaction_bytes_limit: 100, ..quiet() }, "level-0 bytes reached the hard pending-compaction limit"),
        (Options { soft_pending_compaction_bytes_limit: 100, ..quiet() }, "level-0 bytes reached the soft pending-compaction limit"),
    ];
    for (opts, reason) in cases {
        let mut db = open_with(opts);
        db.put_opt(&fail, b"k", &[7; 200]).unwrap();
        db.flush().unwrap();
        match db.put_opt(&fail, b"l", b"v").unwrap_err() {
            Error::Busy(told) => assert_eq!(told, reason),
            other => panic!("got {other:?}"),
        }
        db.put(b"l", b"v").unwrap();
    }
    let mut db = open_with(Options { max_write_buffer_number: 1, ..quiet() });
    assert!(matches!(db.put_opt(&fail, b"l", b"v"), Err(Error::Busy(_))));
    let mut db = open_with(quiet());
    db.put_opt(&fail, b"l", b"v").unwrap();
}

#[test]
fn a_stop_that_no_compaction_relieves_is_an_error() {
    for style in [CompactionStyle::Fifo, CompactionStyle::Universal] {
        let mut db = open_with(Options {
            compaction_style: style,
            universal_compaction_options: UniversalCompactionOptions {
                min_merge_width: 10,
                ..UniversalCompactionOptions::default()
            },
            level0_slowdown_writes_trigger: 0,
            level0_stop_writes_trigger: 2,
            ..Options::default()
        });
        for key in [b"a", b"b"] {
            db.put(key, b"v").unwrap();
            db.flush().unwrap();
        }
        match db.put(b"c", b"v").unwrap_err() {
            Error::Busy(told) => {
                assert!(told.contains("level0_stop_writes_trigger"));
                assert!(told.contains(if style == CompactionStyle::Fifo { "Fifo" } else { "Universal" }));
            }
            other => panic!("got {other:?}"),
        }
        assert_eq!(db.get(b"c").unwrap(), None);
        assert_eq!(db.get(b"b").unwrap(), Some(b"v".to_vec()));
    }
}

#[test]
fn a_failed_merge_past_the_range_is_none_of_its_trouble() {
    let mut db =
        open_with(Options { merge_operator: Some(Arc::new(Counter)), ..Options::default() });
    db.put(b"a1", b"1").unwrap();
    db.merge(b"b", b"not an i64").unwrap();
    let mut stream = db.scan_stream(None, Some(b"b")).unwrap();
    assert_eq!(stream.next().unwrap().0, b"a1");
    assert!(stream.next().is_none());
    assert!(stream.status().is_ok());
    let mut it = db.iter();
    it.seek_prefix(b"a");
    assert!(it.valid());
    it.next();
    assert!(!it.valid());
    assert!(it.status().is_ok());
    it.seek(b"b");
    assert!(!it.valid());
    assert!(matches!(it.status(), Err(Error::MergeFailed(key)) if key == b"b"));
}

#[test]
fn a_closed_database_says_so_before_anything_else() {
    let mut db = open();
    let cf = db.create_column_family("cf").unwrap();
    let dead = db.column_family("cf").unwrap();
    db.drop_column_family(cf).unwrap();
    assert!(matches!(db.get_cf(&dead, b"k"), Err(Error::InvalidColumnFamily(_))));
    let snapshot = db.snapshot();
    db.close().unwrap();
    assert!(matches!(db.get_cf(&dead, b"k"), Err(Error::Closed)));
    assert!(matches!(db.multi_get_cf(&dead, &[b"k"]), Err(Error::Closed)));
    assert!(matches!(db.scan_cf(&dead, None, None), Err(Error::Closed)));
    assert!(matches!(db.scan_page_cf(&dead, None, None, 0), Err(Error::Closed)));
    assert!(matches!(snapshot.get_cf(&db, &dead, b"k"), Err(Error::Closed)));
    assert!(matches!(snapshot.scan_cf(&db, &dead, None, None), Err(Error::Closed)));
    assert!(matches!(db.scan_page(None, None, 0), Err(Error::Closed)));
    assert!(matches!(db.put(b"k", b"v"), Err(Error::Closed)));
    db.release(snapshot);
}

#[test]
fn a_read_only_handle_needs_a_database() {
    match Db::open_read_only(LOG, Stored::empty(), Options::default()) {
        Err(Error::Io(io)) => assert_eq!(io.kind, ErrorKind::NotFound),
        Err(other) => panic!("got {other:?}"),
        Ok(_) => panic!("there is no database"),
    }
    assert!(!Stored::empty().is_opened());
    let left = open().into_stored();
    assert!(left.is_opened());
    let ro = Db::open_read_only(LOG, left, Options::default()).unwrap();
    assert_eq!(ro.get(b"k").unwrap(), None);
}

#[test]
fn a_drained_stream_tells_how_it_ended() {
    let mut db =
        open_with(Options { merge_operator: Some(Arc::new(Counter)), ..Options::default() });
    db.put(b"a", b"1").unwrap();
    db.merge(b"b", b"not an i64").unwrap();
    db.put(b"c", b"1").unwrap();
    let mut whole = db.scan_stream(None, None).unwrap();
    assert_eq!(whole.next().unwrap().0, b"a");
    assert!(whole.status().is_ok());
    assert!(whole.next().is_none());
    assert!(matches!(whole.status(), Err(Error::MergeFailed(key)) if key == b"b"));
    assert!(whole.next().is_none());
    assert!(whole.status().is_err());
    let mut rest = db.scan_stream(Some(b"c"), None).unwrap();
    assert_eq!(rest.next().unwrap().0, b"c");
    assert!(rest.next().is_none());
    assert!(rest.status().is_ok());
}

#[test]
fn a_created_family_is_new_empty_and_lasting() {
    let mut db = open_with(Options { durability: DurabilityMode::Immediate, ..Options::default() });
    let first = db.create_column_family("first").unwrap();
    db.put_cf(&first, b"k", b"v").unwrap();
    let old = first.id();
    db.drop_column_family(first).unwrap();
    let side = db.create_column_family("side").unwrap();
    assert!(side.id() > old);
    assert_eq!(db.get_cf(&side, b"k").unwrap(), None);
    assert_eq!(db.column_family("side").unwrap().id(), side.id());
    let again = Db::open(LOG, db.into_stored(), Options::default()).unwrap();
    let found = again.column_family("side").unwrap();
    assert_eq!(found.id(), side.id());
    assert_eq!(again.get_cf(&found, b"k").unwrap(), None);
    assert!(again.column_family("first").is_none());
}

#[test]
fn universal_compaction_goes_by_size() {
    let picky = UniversalCompactionOptions {
        size_ratio: 10,
        min_merge_width: 3,
        max_merge_width: 5,
        max_size_amplification_percent: 200,
    };
    assert!(!is_universal_due(&vec![], picky));
    assert!(!is_universal_due(&vec![100], picky));
    // Two tables of one size are too narrow a run.
    assert!(!is_universal_due(&vec![100, 100], picky));
    // Three of like size are not; the last to join is 10 percent larger.
    assert!(is_universal_due(&vec![220, 110, 100], picky));
    assert!(!is_universal_due(&vec![222, 110, 100], picky));
    assert!(!is_universal_due(&vec![500, 111, 100], picky));
    // A tier of growing tables is left alone until it outweighs the oldest.
    assert!(!is_universal_due(&vec![1000, 300, 100, 10], picky));
    assert!(!is_universal_due(&vec![100, 200], picky));
    assert!(!is_universal_due(&vec![200, 401, 0], picky));
    assert!(is_universal_due(&vec![200, 402, 0], picky));
    assert!(is_universal_due(&vec![100, 201], picky));
    assert!(is_universal_due(&vec![0, 1], picky));
    assert!(is_universal_due(&vec![u64::MAX, u64::MAX, u64::MAX], picky));
}

#[test]
fn universal_compaction_does_not_go_by_count() {
    let mut db = open_with(Options {
        compaction_style: CompactionStyle::Universal,
        l0_compaction_trigger: 1,
        universal_compaction_options: UniversalCompactionOptions {
            min_merge_width: 3,
            ..UniversalCompactionOptions::default()
        },
        ..Options::default()
    });
    for key in [b"a", b"b"] {
        db.put(key, b"v").unwrap();
        db.flush().unwrap();
    }
    assert_eq!(db.compact_step().unwrap(), CompactionOutcome::Idle);
    db.put(b"c", b"v").unwrap();
    db.flush().unwrap();
    assert_eq!(db.compact_step().unwrap(), CompactionOutcome::DidWork);
    assert_eq!(db.get_int_property("regolith.num-files-at-level0"), Some(1));
    assert_eq!(db.compact_step().unwrap(), CompactionOutcome::Idle);
    assert_eq!(db.get(b"a").unwrap(), Some(b"v".to_vec()));
}

#[test]
fn universal_compaction_merges_the_run_alone() {
    let opts = |max_merge_width: u32| Options {
        compaction_style: CompactionStyle::Universal,
        universal_compaction_options: UniversalCompactionOptions {
            max_merge_width,
            ..UniversalCompactionOptions::default()
        },
        ..Options::default()
    };
    let mut db = open_with(opts(u32::MAX));
    db.put(b"a", &[1; 5000]).unwrap();
    db.flush().unwrap();
    db.delete(b"a").unwrap();
    db.flush().unwrap();
    let snapshot = db.snapshot();
    for key in [b"b", b"c"] {
        db.put(key, b"v").unwrap();
        db.flush().unwrap();
    }
    assert_eq!(db.compact_step().unwrap(), CompactionOutcome::DidWork);
    assert_eq!(db.get_int_property("regolith.num-files-at-level0"), Some(2));
    assert_eq!(db.engine().tables()[0].file_id(), 1);
    assert_eq!(db.compact_step().unwrap(), CompactionOutcome::Idle);
    // The deletion still hides what the older table holds.
    assert_eq!(db.get(b"a").unwrap(), None);
    assert_eq!(db.get(b"b").unwrap(), Some(b"v".to_vec()));
    assert_eq!(snapshot.get(&db, b"b").unwrap(), None);
    db.release(snapshot);

    let mut db = open_with(opts(2));
    for key in [b"a", b"b", b"c"] {
        db.put(key, b"v").unwrap();
        db.flush().unwrap();
    }
    // The newer two hold twice what the oldest does, and no more.
    assert_eq!(db.compact_step().unwrap(), CompactionOutcome::DidWork);
    assert_eq!(db.get_int_property("regolith.num-files-at-level0"), Some(2));
    assert_eq!(db.compact_step().unwrap(), CompactionOutcome::DidWork);
    assert_eq!(db.get_int_property("regolith.num-files-at-level0"), Some(1));
    for key in [b"a", b"b", b"c"] {
        assert_eq!(db.get(key).unwrap(), Some(b"v".to_vec()));
    }
}

#[test]
fn a_batch_is_tallied_by_kind() {
    let mut batch = WriteBatch::new();
    assert_eq!(
        batch.tally(),
        WriteTally { puts: 0, deletes: 0, range_deletes: 0, merges: 0, bytes: 0 }
    );
    batch.insert_raw_put(b"12345".to_vec(), b"678".to_vec());
    batch.insert_raw_put(b"12345".to_vec(), b"".to_vec());
    batch.insert_raw_delete(b"1234567".to_vec());
    batch.insert_raw_range_delete(b"a".to_vec(), b"b".to_vec());
    batch.insert_raw_merge(b"k".to_vec(), b"operand".to_vec());
    assert_eq!(
        batch.tally(),
        WriteTally { puts: 2, deletes: 1, range_deletes: 1, merges: 1, bytes: 20 }
    );
}

#[test]
fn the_cache_holds_no_more_than_it_can() {
    let mut db = open_with(Options { block_cache_size: 100, ..Options::default() });
    db.put(b"k", b"v").unwrap();
    // Nothing is in a table yet.
    assert_eq!(db.get_int_property("regolith.block-cache-usage"), Some(0));
    for value in [b"v".to_vec(), vec![7; 200]] {
        db.put(b"l", &value).unwrap();
        db.flush().unwrap();
        let held = db.get_int_property("regolith.total-sst-files-size").unwrap();
        let used = db.get_int_property("regolith.block-cache-usage").unwrap();
        assert!(used <= 100 && used <= held);
        let told = db.get_property("regolith.block-cache-usage").unwrap();
        assert_eq!(told, used.to_string());
    }
    assert!(db.get_property("regolith.pinned-metadata-bytes").is_some());
}

struct Quoted;

impl MergeOperator for Quoted {
    fn full_merge(&self, _key: &[u8], _base: Option<&[u8]>, _ops: &[&[u8]]) -> Option<Vec<u8>> {
        None
    }

    fn name(&self) -> &'static str {
        "a \"b\"\\\n\u{1}"
    }
}

#[test]
fn names_are_quoted_as_text() {
    let opts = Options { merge_operator: Some(Arc::new(Quoted)), ..Options::default() };
    let expected = format!("merge_operator: {:?}", Some("a \"b\"\\\n\u{1}"));
    assert!(expected.contains("\\u{1}"));
    assert!(opts.to_text().contains(&expected), "got {}", opts.to_text());
}

struct Timed(std::sync::Mutex<Vec<(Duration, Duration)>>);

impl EventListener for Timed {
    fn on_compaction_begin(&self, info: &CompactionJobInfo) {
        assert_eq!(info.duration, Duration::ZERO);
    }

    fn on_flush_completed(&self, info: &FlushJobInfo) {
        self.0.lock().unwrap().push((info.duration, Duration::ZERO));
    }

    fn on_compaction_completed(&self, info: &CompactionJobInfo) {
        self.0.lock().unwrap().push((Duration::ZERO, info.duration));
    }
}

#[test]
fn listeners_are_told_how_long_it_took() {
    let listener = Arc::new(Timed(std::sync::Mutex::new(Vec::new())));
    let mut opts = Options::default();
    opts.listeners.push(listener.clone());
    let mut db = open_with(opts);
    for i in 0..2000u32 {
        db.put(&i.to_be_bytes(), &[1; 64]).unwrap();
    }
    let begun = std::time::Instant::now();
    db.compact_range(None, None).unwrap();
    let whole = begun.elapsed();
    let told = listener.0.lock().unwrap();
    assert_eq!(told.len(), 2);
    assert!(told[0].0 <= whole);
    assert!(told[1].1 > Duration::ZERO && told[1].1 <= whole);
}

#[derive(Default)]
struct Seen(std::sync::Mutex<Vec<String>>);

impl EventListener for Seen {
    fn on_flush_completed(&self, info: &FlushJobInfo) {
        self.0.lock().unwrap().push(format!("flushed {} {:?}", info.file_id, info.duration));
    }

    fn on_compaction_completed(&self, info: &CompactionJobInfo) {
        self.0.lock().unwrap().push(format!("compacted {:?}", info.duration));
    }

    fn on_table_file_created(&self, info: &TableFileCreationInfo) {
        self.0.lock().unwrap().push(format!("created {} {:?}", info.file_id, info.reason));
    }

    fn on_external_file_ingested(&self, info: &ExternalFileIngestionInfo) {
        self.0
            .lock()
            .unwrap()
            .push(format!("ingested {} {}", info.internal_file_id, info.num_entries));
    }
}

#[test]
fn an_ingested_file_is_a_table_of_its_own() {
    let seen = Arc::new(Seen::default());
    let mut opts = Options { env: regolith::env::mem_env(), ..Options::default() };
    opts.max_background_compactions = 0;
    opts.listeners.push(seen.clone());
    let mut db = open_with(opts);
    db.put(b"a", b"old").unwrap();
    let put = |key: &[u8]| WriteBatchOp::Put {
        key: prefix_key(DEFAULT_CF_ID, key),
        value: b"new".to_vec(),
    };
    db.ingest_external_files(vec![ExternalFile {
        path: "one.sst".to_string(),
        ops: vec![put(b"a"), put(b"b")],
    }])
    .unwrap();
    // The memtable was finished first. This host has no clock.
    assert_eq!(
        *seen.0.lock().unwrap(),
        vec!["created 1 Flush", "flushed 1 0ns", "created 2 Recovery", "ingested 2 2"]
    );
    assert_eq!(db.get_int_property("regolith.num-files-at-level0"), Some(2));
    assert_eq!(db.get(b"a").unwrap(), Some(b"new".to_vec()));
    assert_eq!(db.get(b"b").unwrap(), Some(b"new".to_vec()));
    seen.0.lock().unwrap().clear();
    db.compact_range(None, None).unwrap();
    assert_eq!(*seen.0.lock().unwrap(), vec!["created 3 Compaction", "compacted 0ns"]);
    // A file of a dead family changes nothing.
    let dead = WriteBatchOp::Delete { key: prefix_key(77, b"k") };
    assert!(db
        .ingest_external_files(vec![ExternalFile { path: "two.sst".to_string(), ops: vec![dead] }])
        .is_err());
    assert_eq!(db.latest_sequence(), 3);
}

#[test]
fn deleting_everything_keeps_the_families() {
    let mut db = open();
    let gone = db.create_column_family("gone").unwrap();
    let kept = db.create_column_family("kept").unwrap();
    db.put(b"k", b"v").unwrap();
    db.put_cf(&kept, b"k", b"v").unwrap();
    db.drop_column_family(gone).unwrap();
    db.drop_all().unwrap();
    assert_eq!(db.get(b"k").unwrap(), None);
    assert_eq!(db.get_cf(&kept, b"k").unwrap(), None);
    db.put_cf(&kept, b"again", b"v").unwrap();
    let mut db = Db::open(LOG, db.into_stored(), Options::default()).unwrap();
    assert_eq!(db.list_column_families(), vec!["default", "kept"]);
    let found = db.column_family("kept").unwrap();
    assert_eq!(found.id(), kept.id());
    assert_eq!(db.get_cf(&found, b"again").unwrap(), Some(b"v".to_vec()));
    assert_eq!(db.get_cf(&found, b"k").unwrap(), None);
    // A new family gets a number of its own, and holds nothing.
    let fresh = db.create_column_family("fresh").unwrap();
    assert!(fresh.id() > kept.id());
    assert_eq!(db.get_cf(&fresh, b"again").unwrap(), None);
}

#[test]
fn deleting_everything_of_a_plain_database_leaves_nothing() {
    let mut db = open();
    db.put(b"k", b"v").unwrap();
    let seq = db.latest_sequence();
    db.drop_all().unwrap();
    assert_eq!(db.latest_sequence(), seq);
    assert_eq!(db.get_int_property("regolith.cur-size-active-mem-table"), Some(0));
    assert_eq!(db.get_int_property("regolith.total-sst-files-size"), Some(0));
}

#[test]
fn reports_of_the_host_change_no_data() {
    let mut db = open_with(Options { durability: DurabilityMode::Immediate, ..Options::default() });
    db.put(b"k", b"v").unwrap();
    db.flush().unwrap();
    db.put(b"l", b"w").unwrap();
    let before = db.get_int_property("regolith.cur-size-active-mem-table");
    assert!(db.sync_due());
    db.report_time(7);
    db.report_synced();
    assert!(!db.sync_due());
    assert_eq!(db.engine().tables().len(), 1);
    assert_eq!(db.get_int_property("regolith.cur-size-active-mem-table"), before);
}
