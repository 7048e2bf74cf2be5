use regolith::batch::WriteBatchOp;
use regolith::engine::checksum;
use regolith::engine::wal::{
    check_record_len, check_write_len, encode_ops_batch_record, encode_ops_record,
    encode_put_record, encode_wal_stamp, frame_at, ops_record_len, parse_delete_range_record,
    parse_delete_record, parse_merge_record, parse_put_record, put_record_len, replay,
    validate_wal_stamp, wal_filename, RecordLen, Wal, WalEntry, MAX_RECORD_LEN, RECORD_BATCH,
    RECORD_DELETE, RECORD_PUT, WAL_FORMAT_V1, WAL_STAMP_LEN,
};
use regolith::error::{ErrorKind, IoError};

// ── helpers ──────────────────────────────────────────────────

fn entries_of(log: &[u8]) -> Vec<WalEntry> {
    match replay("test.wal", log) {
        Ok(done) => done.entries,
        Err(e) => panic!("{}", e.to_text()),
    }
}

fn flip_byte(bytes: &mut Vec<u8>, offset: usize) {
    bytes[offset] ^= 0xFF;
}

/// Build the *data* payload (everything between record-type and
/// checksum) for a put record, matching [`Wal::append_put`].
fn put_data(key: &[u8], value: &[u8], seq: u64) -> Vec<u8> {
    let mut d = Vec::with_capacity(4 + key.len() + 4 + value.len() + 8);
    d.extend_from_slice(&(key.len() as u32).to_le_bytes());
    d.extend_from_slice(key);
    d.extend_from_slice(&(value.len() as u32).to_le_bytes());
    d.extend_from_slice(value);
    d.extend_from_slice(&seq.to_le_bytes());
    d
}

/// Append a raw record. Used to craft corruption scenarios the public API
/// can't express - unknown record types, bad-length headers, etc.
fn append_raw_record(
    out: &mut Vec<u8>,
    record_type: u8,
    data: &[u8],
    checksum_override: Option<u32>,
) {
    let len = data.len() as u32;
    let checksum =
        checksum_override.unwrap_or_else(|| checksum::wal_record(len, record_type, data));
    out.extend_from_slice(&len.to_le_bytes());
    out.push(record_type);
    out.extend_from_slice(data);
    out.extend_from_slice(&checksum.to_le_bytes());
}

// ── existing sanity tests ───────────────────────────────────

#[test]
fn test_wal_write_and_replay() {
    let mut wal = Wal::create("test.wal");
    wal.append_put(b"key1", b"value1", 1);
    wal.append_delete(b"key2", 2);
    wal.append_put(b"key3", b"value3", 3);

    let entries = entries_of(wal.image());
    assert_eq!(entries.len(), 3);

    match &entries[0] {
        WalEntry::Put { key, value, seq } => {
            assert_eq!(key, b"key1");
            assert_eq!(value, b"value1");
            assert_eq!(*seq, 1);
        }
        _ => panic!("expected put"),
    }

    match &entries[1] {
        WalEntry::Delete { key, seq } => {
            assert_eq!(key, b"key2");
            assert_eq!(*seq, 2);
        }
        _ => panic!("expected delete"),
    }
}

#[test]
fn test_wal_filename() {
    assert_eq!(wal_filename(1), "wal_000001.log");
    assert_eq!(wal_filename(42), "wal_000042.log");
}

// ── round-trip coverage for every record type ──────────────

#[test]
fn put_record_round_trips() {
    let mut wal = Wal::create("test.wal");
    wal.append_put(b"k", b"v", 7);
    let entries = entries_of(wal.image());
    match entries.as_slice() {
        [WalEntry::Put { key, value, seq: 7 }] => {
            assert_eq!(key, b"k");
            assert_eq!(value, b"v");
        }
        _ => panic!("expected a single put at seq=7, got {}", entries.len()),
    }
}

#[test]
fn delete_record_round_trips() {
    let mut wal = Wal::create("test.wal");
    wal.append_delete(b"gone", 11);
    let entries = entries_of(wal.image());
    match entries.as_slice() {
        [WalEntry::Delete { key, seq: 11 }] => assert_eq!(key, b"gone"),
        _ => panic!("expected a single delete"),
    }
}

#[test]
fn delete_range_record_round_trips() {
    let mut wal = Wal::create("test.wal");
    wal.append_delete_range(b"aaa", b"zzz", 5);
    let entries = entries_of(wal.image());
    match entries.as_slice() {
        [WalEntry::DeleteRange { start, end, seq: 5 }] => {
            assert_eq!(start, b"aaa");
            assert_eq!(end, b"zzz");
        }
        _ => panic!("expected a single delete_range"),
    }
}

#[test]
fn merge_record_round_trips() {
    let mut wal = Wal::create("test.wal");
    wal.append_merge(b"counter", b"+3", 99);
    let entries = entries_of(wal.image());
    match entries.as_slice() {
        [
            WalEntry::Merge {
                key,
                operand,
                seq: 99,
            },
        ] => {
            assert_eq!(key, b"counter");
            assert_eq!(operand, b"+3");
        }
        _ => panic!("expected a single merge"),
    }
}

#[test]
fn all_record_types_replay_in_order() {
    let mut wal = Wal::create("test.wal");
    wal.append_put(b"p", b"1", 1);
    wal.append_delete(b"d", 2);
    wal.append_delete_range(b"ra", b"rb", 3);
    wal.append_merge(b"m", b"op", 4);
    let entries = entries_of(wal.image());
    assert_eq!(entries.len(), 4);
    assert!(matches!(entries[0], WalEntry::Put { seq: 1, .. }));
    assert!(matches!(entries[1], WalEntry::Delete { seq: 2, .. }));
    assert!(matches!(entries[2], WalEntry::DeleteRange { seq: 3, .. }));
    assert!(matches!(entries[3], WalEntry::Merge { seq: 4, .. }));
}

#[test]
fn batch_record_replays_all_entries_in_order() {
    let mut wal = Wal::create("test.wal");
    let ops = vec![
        WriteBatchOp::Put {
            key: b"p".to_vec(),
            value: b"1".to_vec(),
        },
        WriteBatchOp::Delete { key: b"d".to_vec() },
        WriteBatchOp::DeleteRange {
            start: b"ra".to_vec(),
            end: b"rb".to_vec(),
        },
        WriteBatchOp::Merge {
            key: b"m".to_vec(),
            operand: b"op".to_vec(),
        },
    ];
    let mut record = Vec::new();
    encode_ops_batch_record(&mut record, &ops, 10);
    wal.append_group(&record);
    assert_eq!(
        entries_of(wal.image()),
        vec![
            WalEntry::Put {
                key: b"p".to_vec(),
                value: b"1".to_vec(),
                seq: 10,
            },
            WalEntry::Delete {
                key: b"d".to_vec(),
                seq: 11,
            },
            WalEntry::DeleteRange {
                start: b"ra".to_vec(),
                end: b"rb".to_vec(),
                seq: 12,
            },
            WalEntry::Merge {
                key: b"m".to_vec(),
                operand: b"op".to_vec(),
                seq: 13,
            },
        ]
    );
}

#[test]
fn empty_ops_encodes_and_appends_nothing() {
    let mut wal = Wal::create("test.wal");
    let mut record = Vec::new();
    encode_ops_record(&mut record, &[], 1);
    assert!(record.is_empty());
    wal.append_group(&record);
    assert_eq!(
        wal.offset(),
        WAL_STAMP_LEN as u64,
        "an empty group appends nothing past the stamp"
    );
    assert!(entries_of(wal.image()).is_empty());
}

// ── edge cases ───────────────────────────────────────────────

#[test]
fn replay_empty_file_returns_no_entries() {
    let wal = Wal::create("test.wal");
    assert!(entries_of(wal.image()).is_empty());
}

#[test]
fn round_trip_empty_key_and_value() {
    let mut wal = Wal::create("test.wal");
    wal.append_put(b"", b"", 0);
    match entries_of(wal.image()).as_slice() {
        [WalEntry::Put { key, value, seq: 0 }] => {
            assert!(key.is_empty());
            assert!(value.is_empty());
        }
        other => panic!("expected empty-key/value put, got {} entries", other.len()),
    }
}

#[test]
fn round_trip_large_value() {
    let mut wal = Wal::create("test.wal");
    // 1 MiB value - larger than BufWriter's default 8 KiB buffer,
    // forcing multiple writes to the underlying file.
    let big = vec![0xAB; 1 << 20];
    wal.append_put(b"k", &big, 1);
    match entries_of(wal.image()).as_slice() {
        [WalEntry::Put { key, value, seq: 1 }] => {
            assert_eq!(key, b"k");
            assert_eq!(value.len(), 1 << 20);
            assert!(value.iter().all(|&b| b == 0xAB));
        }
        _ => panic!("expected single large put"),
    }
}

#[test]
fn round_trip_boundary_seq_numbers() {
    let mut wal = Wal::create("test.wal");
    wal.append_put(b"a", b"1", 0);
    wal.append_put(b"b", b"2", u64::MAX);
    let entries = entries_of(wal.image());
    assert_eq!(entries.len(), 2);
    let seqs: Vec<u64> = entries
        .iter()
        .map(|e| match e {
            WalEntry::Put { seq, .. } => *seq,
            _ => panic!("expected put"),
        })
        .collect();
    assert_eq!(seqs, vec![0, u64::MAX]);
}

#[test]
fn replay_many_records() {
    let mut wal = Wal::create("test.wal");
    for i in 0..1000u64 {
        wal.append_put(format!("k{:06}", i).as_bytes(), b"v", i);
    }
    let entries = entries_of(wal.image());
    assert_eq!(entries.len(), 1000);
    for (i, entry) in entries.iter().enumerate() {
        match entry {
            WalEntry::Put { key, seq, .. } => {
                assert_eq!(key, format!("k{:06}", i).as_bytes());
                assert_eq!(*seq, i as u64);
            }
            _ => panic!("expected put at index {}", i),
        }
    }
}

// ── durability ───────────────────────────────────────────────

#[test]
fn sync_persists_records_across_drop() {
    let mut wal = Wal::create("test.wal");
    wal.append_put(b"k", b"v", 1);
    wal.sync_with_parent_sync(Ok(()), Ok(())).unwrap();
    let entries = entries_of(wal.image());
    assert_eq!(entries.len(), 1);
}

#[test]
fn sync_syncs_parent_dir_once() {
    let mut wal = Wal::create("test.wal");
    wal.append_put(b"k", b"v", 1);

    let mut sync_count = 0;
    if wal.needs_parent_sync() {
        assert_eq!(wal.path(), "test.wal");
        sync_count += 1;
    }
    wal.sync_with_parent_sync(Ok(()), Ok(())).unwrap();
    if wal.needs_parent_sync() {
        sync_count += 1;
    }
    wal.sync_with_parent_sync(Ok(()), Ok(())).unwrap();

    assert_eq!(sync_count, 1);
}

#[test]
fn sync_retries_parent_dir_sync_after_error() {
    let mut wal = Wal::create("test.wal");
    wal.append_put(b"k", b"v", 1);
    let mut sync_count = 0;

    if wal.needs_parent_sync() {
        sync_count += 1;
    }
    let err = match wal.sync_with_parent_sync(
        Ok(()),
        Err(IoError::other("injected parent sync failure")),
    ) {
        Ok(_) => panic!("expected parent sync failure"),
        Err(err) => err,
    };

    assert_eq!(err.kind(), ErrorKind::Other);
    assert_eq!(err.to_text(), "injected parent sync failure");

    if wal.needs_parent_sync() {
        sync_count += 1;
    }
    wal.sync_with_parent_sync(Ok(()), Ok(())).unwrap();

    assert_eq!(sync_count, 2);
}

#[test]
fn a_failed_data_sync_leaves_the_parent_sync_due() {
    let mut wal = Wal::create("test.wal");
    let err = wal
        .sync_with_parent_sync(Err(IoError::other("disk")), Ok(()))
        .unwrap_err();
    assert_eq!(err.to_text(), "disk");
    assert!(wal.needs_parent_sync());
}

#[test]
fn create_truncates_prior_contents() {
    let mut wal = Wal::create("test.wal");
    wal.append_put(b"old", b"v", 1);
    let mut wal = Wal::create("test.wal");
    wal.append_put(b"new", b"v", 2);

    match entries_of(wal.image()).as_slice() {
        [WalEntry::Put { key, seq: 2, .. }] => assert_eq!(key, b"new"),
        other => panic!("old contents leaked: got {} entries", other.len()),
    }
}

#[test]
fn path_returns_creation_path() {
    let wal = Wal::create("test.wal");
    assert_eq!(wal.path(), "test.wal");
}

// ── group append and rollback ───────────────────────────────

// ── the REGO stamp ──────────────────────────────────────────

#[test]
fn a_fresh_log_begins_with_the_rego_stamp() {
    let mut wal = Wal::create("test.wal");
    wal.append_put(b"k", b"v", 1);
    let bytes = wal.image().to_vec();
    assert_eq!(&bytes[0..4], b"REGO", "the log is not stamped");
    assert_eq!(
        u16::from_le_bytes([bytes[4], bytes[5]]),
        WAL_FORMAT_V1,
        "the stamp names the format this build writes"
    );
    assert_eq!(
        validate_wal_stamp(&bytes).unwrap(),
        Some(WAL_STAMP_LEN),
        "the stamp validates against its own checksum"
    );
}

#[test]
fn the_stamp_cannot_be_confused_with_a_record_length() {
    // `REGO` read as a little-endian record length is far above the
    // largest record the writer will emit, so no stamp can be read
    // as a record header.
    let as_len = u32::from_le_bytes(*b"REGO");
    assert!(
        as_len > MAX_RECORD_LEN,
        "REGO as a length ({as_len}) must exceed MAX_RECORD_LEN ({MAX_RECORD_LEN})"
    );
}

#[test]
fn a_log_from_a_newer_format_is_refused_rather_than_guessed_at() {
    let mut stamp = encode_wal_stamp();
    let future = WAL_FORMAT_V1 + 1;
    stamp[4..6].copy_from_slice(&future.to_le_bytes());
    let checksum = checksum::wal_stamp(b"REGO", future, 0);
    stamp[8..12].copy_from_slice(&checksum.to_le_bytes());

    let err = validate_wal_stamp(&stamp).expect_err("a newer format must not be parsed");
    assert_eq!(err.kind(), ErrorKind::InvalidData);
    assert!(
        err.to_text().contains("newer regolith"),
        "the error must say why: {err:?}"
    );
}

#[test]
fn a_corrupt_stamp_is_damage_not_a_record_stream() {
    let mut stamp = encode_wal_stamp();
    stamp[8] ^= 0xFF;
    let err = validate_wal_stamp(&stamp).expect_err("a bad checksum must not pass");
    assert_eq!(err.kind(), ErrorKind::InvalidData);
}

/// Bytes that are not a stamped log yield no records rather than an
/// error, and the difference matters.
///
/// An `fsync` that makes a record durable flushes everything written
/// before it, and the stamp is written when the log is created. So a
/// log holding an acknowledged write has a durable stamp behind it,
/// and damage to the stamp proves nothing in the file was ever
/// acknowledged. Refusing would turn that into an unopenable
/// database; discarding reaches "everything before this log", which
/// is a valid prefix of the write history.
///
/// The discard is not silent, and it is not unconditional: the
/// caller reports it and `reject_tail_discard_before_live_wal`
/// refuses the open when a later log still yielded records, because
/// then the missing bytes are a hole rather than the end. That case
/// is covered by `a_torn_tail_in_an_earlier_wal_file_is_not_the_end_of_the_log`.
#[test]
fn a_file_that_is_not_a_stamped_log_yields_no_records() {
    for bytes in [
        &b"this is not a write-ahead log at all"[..],
        &[0xFFu8; 64][..],
        &[0x00u8; 64][..],
    ] {
        assert_eq!(
            validate_wal_stamp(bytes).expect("an unstamped log is discardable, not an error"),
            None,
            "unstamped bytes must report no stamp so the caller can record the discard",
        );
    }
}

/// A stamp that parses but is damaged is still refused. The
/// checksum and the version field are the parts a later build
/// relies on to know what framing it is holding, so a wrong value
/// there is not a crash artifact and must not be guessed at.
#[test]
fn a_damaged_but_present_stamp_is_still_refused() {
    let mut stamp = encode_wal_stamp();
    stamp[8] ^= 0xFF;
    let err = validate_wal_stamp(&stamp).expect_err("a corrupt checksum must not pass");
    assert_eq!(err.kind(), ErrorKind::InvalidData);
}

#[test]
fn a_crash_before_the_stamp_reached_disk_reads_as_an_empty_log() {
    // Every prefix of a stamp is too short to hold a record, so there
    // is nothing in it to lose and nothing to misread.
    for cut in 0..WAL_STAMP_LEN {
        assert!(
            entries_of(&encode_wal_stamp()[..cut]).is_empty(),
            "a stamp torn at {cut} must read as an empty log"
        );
    }
}

#[test]
fn offset_tracks_every_appended_byte() {
    let mut wal = Wal::create("test.wal");
    assert_eq!(
        wal.offset(),
        WAL_STAMP_LEN as u64,
        "a fresh log holds its stamp"
    );

    wal.append_put(b"k", b"v", 1);
    let after_one = wal.offset();
    assert_eq!(
        after_one as usize,
        WAL_STAMP_LEN + put_record_len(b"k", b"v")
    );

    wal.append_put(b"k2", b"v2", 2);
    assert_eq!(
        wal.offset() as usize,
        after_one as usize + put_record_len(b"k2", b"v2")
    );

    assert_eq!(wal.image().len() as u64, wal.offset());
}

#[test]
fn a_group_of_records_replays_exactly_like_individual_appends() {
    let ops = vec![
        WriteBatchOp::Put {
            key: b"a".to_vec(),
            value: b"1".to_vec(),
        },
        WriteBatchOp::Delete { key: b"b".to_vec() },
    ];

    let mut grouped = Wal::create("grouped.wal");
    let mut group = Vec::new();
    encode_put_record(&mut group, b"solo", b"v", 1);
    encode_ops_record(&mut group, &ops, 2);
    grouped.append_group(&group);

    let mut individual = Wal::create("individual.wal");
    individual.append_put(b"solo", b"v", 1);
    let mut record = Vec::new();
    encode_ops_batch_record(&mut record, &ops, 2);
    individual.append_group(&record);

    assert_eq!(
        grouped.image(),
        individual.image(),
        "grouping must not change a single on-disk byte"
    );
    assert_eq!(entries_of(grouped.image()), entries_of(individual.image()));
    assert_eq!(entries_of(grouped.image()).len(), 3);
}

#[test]
fn rollback_discards_a_group_and_leaves_the_log_replayable() {
    let mut wal = Wal::create("test.wal");
    wal.append_put(b"keep", b"v", 1);
    let good = wal.offset();

    let mut group = Vec::new();
    encode_put_record(&mut group, b"discard", b"v", 2);
    wal.append_group(&group);
    assert!(wal.offset() > good);

    wal.rollback_to(good);
    assert_eq!(wal.offset(), good);

    // The cursor moved back with the length, so the next append lands
    // at the boundary rather than past a hole.
    wal.append_put(b"after", b"v", 3);
    assert_eq!(wal.image().len() as u64, wal.offset());

    let entries = entries_of(wal.image());
    assert_eq!(
        entries,
        vec![
            WalEntry::Put {
                key: b"keep".to_vec(),
                value: b"v".to_vec(),
                seq: 1,
            },
            WalEntry::Put {
                key: b"after".to_vec(),
                value: b"v".to_vec(),
                seq: 3,
            },
        ]
    );
}

#[test]
fn rollback_of_a_torn_partial_group_leaves_no_record_behind() {
    let mut wal = Wal::create("test.wal");
    let good = wal.offset();

    // Simulate a group whose write reached the file only partially.
    let mut group = Vec::new();
    encode_put_record(&mut group, b"torn", b"value", 7);
    wal.append_group(&group[..group.len() - 3]);
    // The partial record is a torn tail, so it is discarded rather
    // than replayed: what must never happen is the half-written
    // entry surfacing as a committed one.
    assert!(
        entries_of(wal.image()).is_empty(),
        "a torn tail must not replay as an entry"
    );

    wal.rollback_to(good);
    assert!(entries_of(wal.image()).is_empty());
}

#[test]
fn record_len_matches_the_bytes_each_encoder_emits() {
    let mut out = Vec::new();
    encode_put_record(&mut out, b"key", b"value", 4);
    assert_eq!(out.len(), put_record_len(b"key", b"value"));

    let ops = vec![
        WriteBatchOp::Merge {
            key: b"m".to_vec(),
            operand: b"o".to_vec(),
        },
        WriteBatchOp::DeleteRange {
            start: b"s".to_vec(),
            end: b"e".to_vec(),
        },
    ];
    let mut out = Vec::new();
    encode_ops_record(&mut out, &ops, 9);
    assert_eq!(out.len(), ops_record_len(&ops));

    let single = vec![WriteBatchOp::Merge {
        key: b"m".to_vec(),
        operand: b"o".to_vec(),
    }];
    let mut out = Vec::new();
    encode_ops_record(&mut out, &single, 9);
    assert_eq!(out.len(), ops_record_len(&single));
}

// -- the record limit ------------------------------------------

#[test]
fn a_record_is_refused_one_byte_past_the_limit_and_accepted_at_it() {
    fn check(accounted: usize, limit: usize) {
        assert!(check_record_len(accounted, limit).is_ok());
        let err = check_record_len(accounted, limit - 1).unwrap_err();
        assert_eq!(err.kind(), ErrorKind::InvalidInput);
        assert_eq!(
            err.to_text(),
            format!(
                "write is too large: it would log {limit} bytes and one write can \
                 log at most {}; split it into smaller writes",
                limit - 1
            )
        );
    }

    // A put via `put_record_len`.
    let mut out = Vec::new();
    encode_put_record(&mut out, b"key", b"value", 1);
    check(put_record_len(b"key", b"value"), out.len());

    // A single `Merge` op via `ops_record_len`.
    let single = vec![WriteBatchOp::Merge {
        key: b"k".to_vec(),
        operand: b"v".to_vec(),
    }];
    let mut out = Vec::new();
    encode_ops_record(&mut out, &single, 1);
    check(ops_record_len(&single), out.len());

    // A four-op batch with one of each kind.
    let batch = vec![
        WriteBatchOp::Put {
            key: b"a".to_vec(),
            value: b"1".to_vec(),
        },
        WriteBatchOp::Delete { key: b"b".to_vec() },
        WriteBatchOp::DeleteRange {
            start: b"c".to_vec(),
            end: b"d".to_vec(),
        },
        WriteBatchOp::Merge {
            key: b"e".to_vec(),
            operand: b"2".to_vec(),
        },
    ];
    let mut out = Vec::new();
    encode_ops_record(&mut out, &batch, 1);
    check(ops_record_len(&batch), out.len());

    assert!(check_write_len(MAX_RECORD_LEN as usize).is_ok());
    assert!(check_write_len(MAX_RECORD_LEN as usize + 1).is_err());
}

#[test]
fn record_len_saturates_instead_of_wrapping() {
    let mut len = RecordLen::default();
    len.push(usize::MAX / 2);
    len.push(usize::MAX / 2);
    assert_eq!(len.framed(), usize::MAX);
    assert!(check_record_len(len.framed(), MAX_RECORD_LEN as usize).is_err());
}

// ── corruption / torn tail ──────────────────────────────────

#[test]
fn replay_errors_on_trailing_checksum_flip() {
    let mut wal = Wal::create("test.wal");
    wal.append_put(b"good", b"v", 1);
    wal.append_put(b"torn", b"v", 2);
    let mut bytes = wal.image().to_vec();

    // Last byte of the file is the high byte of the trailing
    // record's checksum. Replay must fail closed rather than
    // silently keeping only the prefix.
    let len = bytes.len();
    flip_byte(&mut bytes, len - 1);

    let kind = match replay("test.wal", &bytes) {
        Err(e) => e.kind(),
        Ok(v) => panic!("expected checksum error, got {} entries", v.entries.len()),
    };
    assert_eq!(kind, ErrorKind::InvalidData);
}

#[test]
fn replay_errors_on_trailing_data_byte_flip() {
    let mut wal = Wal::create("test.wal");
    wal.append_put(b"good", b"v", 1);
    wal.append_put(b"torn", b"v", 2);
    let mut bytes = wal.image().to_vec();

    // Flip a byte deep inside the second record's data (6 bytes
    // before EOF puts us squarely inside the seq-number field).
    let len = bytes.len();
    flip_byte(&mut bytes, len - 6);

    let kind = match replay("test.wal", &bytes) {
        Err(e) => e.kind(),
        Ok(v) => panic!("expected checksum error, got {} entries", v.entries.len()),
    };
    assert_eq!(kind, ErrorKind::InvalidData);
}

#[test]
fn record_checksum_covers_header_fields() {
    let data = put_data(b"k", b"v", 1);
    let len = data.len() as u32;
    let baseline = checksum::wal_record(len, RECORD_PUT, &data);
    assert_ne!(baseline, checksum::wal_record(len + 1, RECORD_PUT, &data));
    assert_ne!(baseline, checksum::wal_record(len, RECORD_DELETE, &data));
}

#[test]
fn replay_errors_on_record_type_header_flip() {
    let mut wal = Wal::create("test.wal");
    wal.append_put(b"k", b"v", 1);
    let mut bytes = wal.image().to_vec();
    flip_byte(&mut bytes, 4);

    let kind = match replay("test.wal", &bytes) {
        Err(e) => e.kind(),
        Ok(v) => panic!("expected checksum error, got {} entries", v.entries.len()),
    };
    assert_eq!(kind, ErrorKind::InvalidData);
}

#[test]
fn replay_stops_at_a_truncated_trailing_header() {
    let mut wal = Wal::create("test.wal");
    wal.append_put(b"good", b"v", 1);
    // Simulate a crash in the middle of writing the next record's
    // 5-byte header by appending 2 stray bytes. Nothing acknowledged
    // them, so they are the end of the log and the whole record
    // before them must survive.
    let mut bytes = wal.image().to_vec();
    bytes.extend_from_slice(&[0xFF, 0xFF]);

    assert_eq!(
        entries_of(&bytes),
        vec![WalEntry::Put {
            key: b"good".to_vec(),
            value: b"v".to_vec(),
            seq: 1,
        }]
    );
}

#[test]
fn replay_treats_a_length_beyond_the_file_as_a_torn_tail() {
    // A single record whose header claims 1000 bytes of payload that
    // the file does not hold, and nothing after it: the signature of
    // a write torn by a crash. Replay yields the records before it,
    // of which there are none, rather than refusing the whole log.
    let mut bytes = Vec::new();
    bytes.extend_from_slice(&1000u32.to_le_bytes()); // len
    bytes.push(RECORD_PUT); // type

    assert!(entries_of(&bytes).is_empty());

    // The same behind a stamp, where the torn record is looked at.
    let mut stamped = encode_wal_stamp();
    stamped.extend_from_slice(&bytes);
    assert!(entries_of(&stamped).is_empty());
}

#[test]
fn replay_rejects_a_length_beyond_the_file_when_whole_records_follow() {
    // A mangled length field in the middle of the log is not a torn
    // tail: the records after it are real and stopping there would
    // discard them. Replay must refuse and name where it stopped.
    let mut wal = Wal::create("test.wal");
    for i in 0..4u64 {
        wal.append_put(format!("k{i}").as_bytes(), b"v", i);
    }
    let mut bytes = wal.image().to_vec();
    let second = frame_at(&bytes, WAL_STAMP_LEN).unwrap().end;
    bytes[second..second + 4].copy_from_slice(&u32::MAX.to_le_bytes());

    let err = match replay("test.wal", &bytes) {
        Err(e) => e,
        Ok(v) => panic!("expected corruption, got {} entries", v.entries.len()),
    };
    assert_eq!(err.kind(), ErrorKind::InvalidData);
    let message = err.to_text();
    assert!(message.contains("test.wal"), "{message}");
    assert!(message.contains(&second.to_string()), "{message}");
}

#[test]
fn replay_of_a_self_similar_torn_tail_stays_linear() {
    // Every fifth offset of this tail frames as a record claiming a
    // 1 MiB payload that fits, so checking each candidate on its own
    // would put ~600 GiB through the checksum for a 4 MiB tail, and
    // a real 64 MiB write buffer would wedge recovery for hours on a
    // value a caller is free to write. Requiring the remainder to
    // tile collapses it to one pass. The bound is wall clock because
    // the defect is asymptotic; the margin over the ~50 ms this takes
    // is wide enough that a loaded machine cannot trip it.
    const TAIL: usize = 4 << 20;
    let mut wal = Wal::create("test.wal");
    wal.append_put(b"good", b"v", 1);
    let mut bytes = wal.image().to_vec();
    bytes.extend_from_slice(&u32::MAX.to_le_bytes());
    bytes.push(RECORD_PUT);
    bytes.extend(
        [0x00, 0x00, 0x10, 0x00, RECORD_PUT]
            .iter()
            .cycle()
            .take(TAIL),
    );

    let start = std::time::Instant::now();
    let entries = entries_of(&bytes);
    let elapsed = start.elapsed();

    assert_eq!(
        entries,
        vec![WalEntry::Put {
            key: b"good".to_vec(),
            value: b"v".to_vec(),
            seq: 1,
        }]
    );
    assert!(
        elapsed < std::time::Duration::from_secs(20),
        "replaying a {TAIL}-byte torn tail took {elapsed:?}, which is not one pass over it",
    );
}

#[test]
fn replay_keeps_every_whole_record_before_a_cut_at_any_offset() {
    // The torn-tail rule at unit scale: a crash costs at most the
    // record it landed in. Cutting at every byte offset, including
    // inside the first header and at zero, must always yield exactly
    // the records that survived whole.
    let mut wal = Wal::create("test.wal");
    for i in 0..4u64 {
        wal.append_put(format!("k{i}").as_bytes(), b"v", i);
    }
    let full = wal.image().to_vec();
    let mut boundaries = vec![WAL_STAMP_LEN];
    while let Some(frame) = frame_at(&full, *boundaries.last().unwrap()) {
        boundaries.push(frame.end);
    }
    assert_eq!(boundaries.len(), 5, "four records tile the file");

    // Cuts inside the stamp leave a file with no records at all, which
    // the stamp rule already covers; the interesting range starts once
    // a whole stamp is on disk.
    for cut in WAL_STAMP_LEN..=full.len() {
        let whole = boundaries.iter().filter(|b| **b <= cut).count() - 1;
        let entries = match replay("test.wal", &full[..cut]) {
            Ok(done) => done.entries,
            Err(e) => panic!(
                "a cut at {cut} is a torn tail, not corruption: {}",
                e.to_text()
            ),
        };
        assert_eq!(entries.len(), whole, "cut at {cut}");
    }
}

#[test]
fn replay_errors_on_a_stamped_unknown_record_type() {
    // Unknown record types with valid checksums still indicate a
    // WAL format this reader cannot safely interpret.
    let mut bytes = encode_wal_stamp();
    let unknown_payload = b"opaque bytes".to_vec();
    append_raw_record(&mut bytes, 0xEF, &unknown_payload, None);
    let pd = put_data(b"after", b"ok", 42);
    append_raw_record(&mut bytes, RECORD_PUT, &pd, None);

    let kind = match replay("test.wal", &bytes) {
        Err(e) => e.kind(),
        Ok(v) => panic!("expected unknown-type error, got {} entries", v.entries.len()),
    };
    assert_eq!(kind, ErrorKind::InvalidData);
}

#[test]
fn replay_rejects_malformed_batch_entry_payload() {
    let mut data = Vec::new();
    data.extend_from_slice(&1u32.to_le_bytes()); // one batch entry
    data.push(RECORD_PUT);
    data.extend_from_slice(&100u32.to_le_bytes()); // impossible payload length
    data.extend_from_slice(&[0xAA, 0xBB]);

    let mut bytes = Vec::new();
    // The stamp first: without it the file is an unstamped log and
    // replay reports no records, which would let these probes pass
    // on the wrong reason instead of on the malformed record.
    bytes.extend_from_slice(&encode_wal_stamp());
    append_raw_record(&mut bytes, RECORD_BATCH, &data, None);

    let kind = match replay("test.wal", &bytes) {
        Err(e) => e.kind(),
        Ok(v) => panic!("expected malformed-batch error, got {} entries", v.entries.len()),
    };
    assert_eq!(kind, ErrorKind::InvalidData);
}

#[test]
fn replay_rejects_batch_trailing_bytes() {
    let mut data = Vec::new();
    data.extend_from_slice(&0u32.to_le_bytes());
    data.push(0xFF);

    let mut bytes = Vec::new();
    // The stamp first: without it the file is an unstamped log and
    // replay reports no records, which would let these probes pass
    // on the wrong reason instead of on the malformed record.
    bytes.extend_from_slice(&encode_wal_stamp());
    append_raw_record(&mut bytes, RECORD_BATCH, &data, None);

    let kind = match replay("test.wal", &bytes) {
        Err(e) => e.kind(),
        Ok(v) => panic!(
            "expected batch trailing-byte error, got {} entries",
            v.entries.len()
        ),
    };
    assert_eq!(kind, ErrorKind::InvalidData);
}

// ── parser error paths (exercised directly) ─────────────────

#[test]
fn parse_put_rejects_short_data() {
    assert!(parse_put_record(&[0u8; 15]).is_err());
}

#[test]
fn parse_put_rejects_key_len_overflow() {
    // key_len says 100 but only 2 more bytes follow.
    let mut data = Vec::new();
    data.extend_from_slice(&100u32.to_le_bytes());
    data.extend_from_slice(&[0u8; 2]);
    // pad to meet the initial 16-byte short-data bar
    data.resize(16, 0);
    assert!(parse_put_record(&data).is_err());
}

#[test]
fn parse_delete_rejects_short_data() {
    assert!(parse_delete_record(&[0u8; 11]).is_err());
}

#[test]
fn parse_delete_rejects_key_len_overflow() {
    let mut data = Vec::new();
    data.extend_from_slice(&100u32.to_le_bytes());
    data.resize(12, 0);
    assert!(parse_delete_record(&data).is_err());
}

#[test]
fn parse_delete_range_rejects_short_data() {
    assert!(parse_delete_range_record(&[0u8; 15]).is_err());
}

#[test]
fn parse_delete_range_rejects_start_len_overflow() {
    let mut data = Vec::new();
    data.extend_from_slice(&100u32.to_le_bytes());
    data.resize(16, 0);
    assert!(parse_delete_range_record(&data).is_err());
}

#[test]
fn parse_delete_range_rejects_end_len_overflow() {
    // valid start of len 1, then end_len=100 with no trailing bytes.
    let mut data = Vec::new();
    data.extend_from_slice(&1u32.to_le_bytes());
    data.push(b'k');
    data.extend_from_slice(&100u32.to_le_bytes());
    data.resize(16, 0);
    assert!(parse_delete_range_record(&data).is_err());
}

#[test]
fn parse_merge_rejects_short_data() {
    assert!(parse_merge_record(&[0u8; 15]).is_err());
}

#[test]
fn parse_merge_rejects_key_len_overflow() {
    let mut data = Vec::new();
    data.extend_from_slice(&100u32.to_le_bytes());
    data.resize(16, 0);
    assert!(parse_merge_record(&data).is_err());
}

#[test]
fn parse_merge_rejects_operand_len_overflow() {
    let mut data = Vec::new();
    data.extend_from_slice(&1u32.to_le_bytes());
    data.push(b'k');
    data.extend_from_slice(&100u32.to_le_bytes());
    data.resize(16, 0);
    assert!(parse_merge_record(&data).is_err());
}
