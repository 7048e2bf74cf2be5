//! Transactions.

use std::sync::Arc;

use regolith::mvcc::{
    keys_between, live_keys, map_error, map_isolation, settle_commit, settle_read, CommitKind,
    MvccFailure, MvccIsolation,
};
use regolith::staged::StagedWrites;
use regolith::{
    Db, DurabilityMode, ErrorKind, IoError, IsolationLevel, MergeOperator, MvccTransactions,
    Options, Stored, TransactionError, WriteBatch,
};

fn txns() -> (Db, MvccTransactions) {
    let db = Db::open("wal_000001.log", Stored::empty(), Options::default()).unwrap();
    (db, MvccTransactions::new(DurabilityMode::Eventual))
}

struct Append;

impl MergeOperator for Append {
    fn full_merge(&self, _key: &[u8], base: Option<&[u8]>, operands: &[&[u8]]) -> Option<Vec<u8>> {
        let mut out = base.map(|b| b.to_vec()).unwrap_or_default();
        for operand in operands {
            if *operand == b"refused" {
                return None;
            }
            out.extend_from_slice(operand);
        }
        Some(out)
    }

    fn name(&self) -> &'static str {
        "Append"
    }
}

#[test]
fn a_committed_transaction_is_visible_to_a_plain_db_read() {
    // kovan-mvcc keeps its versions in its own keyspace, so a
    // commit also projects the resolved value onto the ordinary
    // key. Without that projection the two APIs would answer
    // differently about the same database.
    let (mut db, mut txns) = txns();

    let mut tx = txns.begin(IsolationLevel::SnapshotIsolation);
    tx.put(b"projected", b"value").unwrap();
    tx.commit(&mut txns, &mut db).unwrap();

    assert_eq!(
        db.get(b"projected").unwrap().as_deref(),
        Some(&b"value"[..]),
        "a committed transactional write must be visible to Db::get"
    );

    let mut tx = txns.begin(IsolationLevel::SnapshotIsolation);
    tx.delete(b"projected").unwrap();
    tx.commit(&mut txns, &mut db).unwrap();

    assert_eq!(
        db.get(b"projected").unwrap(),
        None,
        "a committed transactional delete must be visible to Db::get"
    );
}

#[test]
fn a_rollback_record_projects_nothing() {
    // A rollback is not a commit. Projecting it would publish a
    // value the transaction never committed.
    let (db, txns) = txns();
    let mut tx = txns.begin(IsolationLevel::SnapshotIsolation);
    tx.put(b"abandoned", b"value").unwrap();
    drop(tx);
    assert_eq!(db.get(b"abandoned").unwrap(), None);
}

#[test]
fn a_committed_write_is_visible_to_the_next_transaction() {
    let (mut db, mut t) = txns();

    let mut w = t.begin(IsolationLevel::SnapshotIsolation);
    w.put(b"k", b"v").unwrap();
    w.commit(&mut t, &mut db).expect("commit");

    let r = t.begin(IsolationLevel::SnapshotIsolation);
    assert_eq!(r.get(&mut t, b"k").unwrap().as_deref(), Some(&b"v"[..]));
}

#[test]
fn a_transaction_reads_its_own_writes() {
    let (mut db, mut t) = txns();
    let mut w = t.begin(IsolationLevel::SnapshotIsolation);
    w.put(b"k", b"first").unwrap();
    assert_eq!(w.get(&mut t, b"k").unwrap().as_deref(), Some(&b"first"[..]));
    w.put(b"k", b"second").unwrap();
    assert_eq!(w.get(&mut t, b"k").unwrap().as_deref(), Some(&b"second"[..]));
    w.commit(&mut t, &mut db).unwrap();
}

#[test]
fn an_uncommitted_write_is_invisible_to_another_transaction() {
    let (mut db, mut t) = txns();
    let mut w = t.begin(IsolationLevel::SnapshotIsolation);
    w.put(b"k", b"pending").unwrap();

    let r = t.begin(IsolationLevel::SnapshotIsolation);
    assert_eq!(
        r.get(&mut t, b"k").unwrap(),
        None,
        "prewritten data must not be visible"
    );
    w.commit(&mut t, &mut db).unwrap();
}

#[test]
fn a_delete_hides_a_committed_value() {
    let (mut db, mut t) = txns();
    let mut w = t.begin(IsolationLevel::SnapshotIsolation);
    w.put(b"k", b"v").unwrap();
    w.commit(&mut t, &mut db).unwrap();

    let mut d = t.begin(IsolationLevel::SnapshotIsolation);
    d.delete(b"k").unwrap();
    d.commit(&mut t, &mut db).unwrap();

    let r = t.begin(IsolationLevel::SnapshotIsolation);
    assert_eq!(r.get(&mut t, b"k").unwrap(), None);
}

/// Binary keys go straight through.
#[test]
fn a_binary_key_survives_the_round_trip_through_a_transaction() {
    let (mut db, mut t) = txns();
    let k = [0x00u8, 0xff, 0x80, b'/', 0xc8];

    let mut w = t.begin(IsolationLevel::SnapshotIsolation);
    w.put(&k, b"binary").unwrap();
    w.commit(&mut t, &mut db).unwrap();

    let r = t.begin(IsolationLevel::SnapshotIsolation);
    assert_eq!(r.get(&mut t, &k).unwrap().as_deref(), Some(&b"binary"[..]));
    // And it must not collide with the text of its own hex.
    assert_eq!(r.get(&mut t, b"00ff802fc8").unwrap(), None);
}

#[test]
fn two_transactions_writing_the_same_key_do_not_both_commit() {
    let (mut db, mut t) = txns();

    let mut a = t.begin(IsolationLevel::SnapshotIsolation);
    let mut b = t.begin(IsolationLevel::SnapshotIsolation);
    a.put(b"k", b"a").unwrap();
    b.put(b"k", b"b").unwrap();

    let first = a.commit(&mut t, &mut db);
    let second = b.commit(&mut t, &mut db);
    assert!(
        first.is_ok() != second.is_ok(),
        "exactly one of two writers to the same key must commit; got {first:?} and {second:?}"
    );
}

#[test]
fn a_commit_reports_a_sequence_that_moves_forward() {
    let (mut db, mut t) = txns();
    let mut last = 0;
    for i in 0..8u8 {
        let mut w = t.begin(IsolationLevel::SnapshotIsolation);
        w.put(&[i], b"v").unwrap();
        let ts = w.commit(&mut t, &mut db).unwrap();
        assert!(ts > last, "commit {i} reported {ts}, not after {last}");
        last = ts;
    }
}

#[test]
fn a_lost_write_race_names_the_key_and_leaves_the_database_alone() {
    let (mut db, mut t) = txns();
    let mut a = t.begin(IsolationLevel::SnapshotIsolation);
    let mut b = t.begin(IsolationLevel::SnapshotIsolation);
    a.put(b"k", b"a").unwrap();
    b.put(b"k", b"b").unwrap();
    let ts = a.commit(&mut t, &mut db).unwrap();
    match b.commit(&mut t, &mut db).unwrap_err() {
        TransactionError::Conflict { key, observed_seq, latest_seq } => {
            assert_eq!(key, b"k");
            assert_eq!(observed_seq, 0);
            assert_eq!(latest_seq, ts);
        }
        other => panic!("expected a conflict, got {other:?}"),
    }
    assert_eq!(db.get(b"k").unwrap(), Some(b"a".to_vec()));
}

#[test]
fn a_serializable_transaction_loses_to_a_write_of_what_it_read() {
    let (mut db, mut t) = txns();
    let mut reader = t.begin(IsolationLevel::Serializable);
    assert_eq!(reader.get(&mut t, b"read").unwrap(), None);
    reader.put(b"other", b"v").unwrap();

    let mut writer = t.begin(IsolationLevel::SnapshotIsolation);
    writer.put(b"read", b"v").unwrap();
    writer.commit(&mut t, &mut db).unwrap();

    match reader.commit(&mut t, &mut db).unwrap_err() {
        TransactionError::Conflict { key, .. } => assert_eq!(key, b"read"),
        other => panic!("expected a conflict, got {other:?}"),
    }
    assert_eq!(db.get(b"other").unwrap(), None);
}

#[test]
fn a_snapshot_transaction_ignores_a_write_of_what_it_read() {
    let (mut db, mut t) = txns();
    let mut reader = t.begin(IsolationLevel::SnapshotIsolation);
    assert_eq!(reader.get(&mut t, b"read").unwrap(), None);
    reader.put(b"other", b"v").unwrap();

    let mut writer = t.begin(IsolationLevel::SnapshotIsolation);
    writer.put(b"read", b"v").unwrap();
    writer.commit(&mut t, &mut db).unwrap();

    reader.commit(&mut t, &mut db).unwrap();
    assert_eq!(db.get(b"other").unwrap(), Some(b"v".to_vec()));
}

#[test]
fn a_read_for_update_is_checked_like_a_write() {
    let (mut db, mut t) = txns();
    let mut reader = t.begin(IsolationLevel::SnapshotIsolation);
    assert_eq!(reader.get_for_update(&mut t, b"k").unwrap(), None);

    let mut writer = t.begin(IsolationLevel::SnapshotIsolation);
    writer.put(b"k", b"v").unwrap();
    writer.commit(&mut t, &mut db).unwrap();

    assert!(reader.commit(&mut t, &mut db).is_err());
    assert_eq!(db.get(b"k").unwrap(), Some(b"v".to_vec()));
}

#[test]
fn a_savepoint_rewinds_what_was_staged_since() {
    let (mut db, mut t) = txns();
    let mut tx = t.begin(IsolationLevel::SnapshotIsolation);
    assert!(!tx.rollback_to_savepoint());
    tx.put(b"a", b"1").unwrap();
    tx.set_savepoint();
    tx.put(b"a", b"2").unwrap();
    tx.put(b"b", b"2").unwrap();
    assert!(tx.rollback_to_savepoint());
    assert!(!tx.rollback_to_savepoint());
    assert_eq!(tx.get(&mut t, b"a").unwrap(), Some(b"1".to_vec()));
    assert_eq!(tx.get(&mut t, b"b").unwrap(), None);
    tx.commit(&mut t, &mut db).unwrap();
    assert_eq!(db.get(b"a").unwrap(), Some(b"1".to_vec()));
    assert_eq!(db.get(b"b").unwrap(), None);
}

#[test]
fn a_range_delete_takes_the_committed_keys_in_the_range() {
    let (mut db, mut t) = txns();
    let mut w = t.begin(IsolationLevel::SnapshotIsolation);
    for key in [b"a", b"b", b"c", b"d"] {
        w.put(key, b"v").unwrap();
    }
    w.commit(&mut t, &mut db).unwrap();

    let mut d = t.begin(IsolationLevel::SnapshotIsolation);
    d.delete_range(&t, b"z", b"a").unwrap();
    d.delete_range(&t, b"b", b"d").unwrap();
    d.commit(&mut t, &mut db).unwrap();

    assert_eq!(db.get(b"a").unwrap(), Some(b"v".to_vec()));
    assert_eq!(db.get(b"b").unwrap(), None);
    assert_eq!(db.get(b"c").unwrap(), None);
    assert_eq!(db.get(b"d").unwrap(), Some(b"v".to_vec()));
}

#[test]
fn a_range_delete_conflicts_with_a_write_in_the_range() {
    let (mut db, mut t) = txns();
    let mut w = t.begin(IsolationLevel::SnapshotIsolation);
    w.put(b"b", b"v").unwrap();
    w.commit(&mut t, &mut db).unwrap();

    let mut d = t.begin(IsolationLevel::SnapshotIsolation);
    d.delete_range(&t, b"a", b"c").unwrap();
    let mut w = t.begin(IsolationLevel::SnapshotIsolation);
    w.put(b"b", b"w").unwrap();
    w.commit(&mut t, &mut db).unwrap();
    assert!(d.commit(&mut t, &mut db).is_err());
    assert_eq!(db.get(b"b").unwrap(), Some(b"w".to_vec()));
}

#[test]
fn a_merge_resolves_against_what_the_transaction_sees() {
    let (mut db, mut t) = txns();
    let op: Arc<dyn MergeOperator> = Arc::new(Append);
    let mut tx = t.begin(IsolationLevel::SnapshotIsolation);
    tx.merge(&mut t, Some(&op), b"k", b"a").unwrap();
    tx.merge(&mut t, Some(&op), b"k", b"b").unwrap();
    assert_eq!(tx.get(&mut t, b"k").unwrap(), Some(b"ab".to_vec()));
    match tx.merge(&mut t, Some(&op), b"k", b"refused").unwrap_err() {
        TransactionError::Io(io) => assert_eq!(io.message, "merge operator rejected the operand"),
        other => panic!("expected a store failure, got {other:?}"),
    }
    match tx.merge(&mut t, None, b"k", b"c").unwrap_err() {
        TransactionError::Io(io) => assert_eq!(
            io.message,
            "merge called with no merge operator configured; set Options::merge_operator"
        ),
        other => panic!("expected a store failure, got {other:?}"),
    }
    tx.commit(&mut t, &mut db).unwrap();
    assert_eq!(db.get(b"k").unwrap(), Some(b"ab".to_vec()));

    let mut tx = t.begin(IsolationLevel::SnapshotIsolation);
    tx.merge(&mut t, Some(&op), b"k", b"c").unwrap();
    tx.commit(&mut t, &mut db).unwrap();
    assert_eq!(db.get(b"k").unwrap(), Some(b"abc".to_vec()));
}

#[test]
fn a_reported_failure_is_handed_to_the_next_call_that_can_say_so() {
    let (mut db, mut t) = txns();
    let mut tx = t.begin(IsolationLevel::SnapshotIsolation);
    tx.put(b"staged", b"v").unwrap();
    t.report_failure(IoError::new(ErrorKind::Other, "disk gone"));
    t.report_failure(IoError::new(ErrorKind::Other, "second"));
    // A staged key is answered from the staging area.
    assert_eq!(tx.get(&mut t, b"staged").unwrap(), Some(b"v".to_vec()));
    match tx.get(&mut t, b"elsewhere").unwrap_err() {
        TransactionError::Io(io) => assert_eq!(io.message, "disk gone"),
        other => panic!("expected a store failure, got {other:?}"),
    }
    assert_eq!(tx.get(&mut t, b"elsewhere").unwrap(), None);

    t.report_failure(IoError::new(ErrorKind::Other, "late"));
    match tx.commit(&mut t, &mut db).unwrap_err() {
        TransactionError::Io(io) => assert_eq!(io.message, "late"),
        other => panic!("expected a store failure, got {other:?}"),
    }
    assert!(t.take_failure().is_none());
}

#[test]
fn a_closed_database_fails_the_commit() {
    let (mut db, mut t) = txns();
    let mut tx = t.begin(IsolationLevel::SnapshotIsolation);
    tx.put(b"k", b"v").unwrap();
    db.close().unwrap();
    match tx.commit(&mut t, &mut db).unwrap_err() {
        TransactionError::Io(_) => {}
        other => panic!("expected a store failure, got {other:?}"),
    }
}

#[test]
fn a_transaction_without_writes_commits_where_it_began() {
    let (mut db, mut t) = txns();
    let before = db.latest_sequence();
    let tx = t.begin(IsolationLevel::Serializable);
    tx.commit(&mut t, &mut db).unwrap();
    assert_eq!(db.latest_sequence(), before);
}

#[test]
fn isolation_levels_map_to_the_stricter_neighbour() {
    assert_eq!(map_isolation(IsolationLevel::ReadCommitted), MvccIsolation::ReadCommitted);
    assert_eq!(map_isolation(IsolationLevel::SnapshotIsolation), MvccIsolation::RepeatableRead);
    assert_eq!(map_isolation(IsolationLevel::RepeatableRead), MvccIsolation::Serializable);
    assert_eq!(map_isolation(IsolationLevel::Serializable), MvccIsolation::Serializable);
}

#[test]
fn every_failure_maps_to_its_error() {
    match map_error(MvccFailure::LockConflict { key: b"k".to_vec(), holder_txn: 7 }) {
        TransactionError::Busy(key) => assert_eq!(key, b"k"),
        other => panic!("got {other:?}"),
    }
    let conflicts = [
        (MvccFailure::WriteConflict { key: b"k".to_vec(), conflicting_ts: 9 }, 9),
        (MvccFailure::SerializationFailure { key: b"k".to_vec(), conflicting_ts: 8 }, 8),
        (MvccFailure::RollbackRecord { key: b"k".to_vec() }, 0),
    ];
    for (failure, ts) in conflicts {
        match map_error(failure) {
            TransactionError::Conflict { key, observed_seq, latest_seq } => {
                assert_eq!(key, b"k");
                assert_eq!(observed_seq, 0);
                assert_eq!(latest_seq, ts);
            }
            other => panic!("got {other:?}"),
        }
    }
    let lost = "transaction lost its primary lock, which means another writer resolved it; \
                retry the transaction";
    let failures = [
        (MvccFailure::PrimaryLockMissing { key: b"k".to_vec() }, lost),
        (MvccFailure::PrimaryLockMismatch, lost),
        (MvccFailure::StorageError("bad block".to_string()), "bad block"),
    ];
    for (failure, text) in failures {
        match map_error(failure) {
            TransactionError::Io(io) => {
                assert_eq!(io.kind, ErrorKind::Other);
                assert_eq!(io.message, text);
            }
            other => panic!("got {other:?}"),
        }
    }
}

#[test]
fn a_refused_commit_writes_nothing() {
    let (mut db, mut t) = txns();
    let mut staged = StagedWrites::new();
    staged.set(b"k".to_vec(), Some(b"v".to_vec()));
    let refused = settle_commit(Err(MvccFailure::PrimaryLockMismatch), &staged, &mut t, &mut db);
    assert!(refused.is_err());
    assert_eq!(db.get(b"k").unwrap(), None);

    assert_eq!(settle_commit(Ok(5), &staged, &mut t, &mut db).unwrap(), 5);
    assert_eq!(db.get(b"k").unwrap(), Some(b"v".to_vec()));
}

#[test]
fn a_read_that_may_have_failed_says_so() {
    assert_eq!(settle_read(Some(b"v".to_vec()), None).unwrap(), Some(b"v".to_vec()));
    assert_eq!(settle_read(None, None).unwrap(), None);
    assert!(settle_read(None, Some(IoError::other("gone"))).is_err());
}

#[test]
fn keys_between_keeps_the_half_open_range() {
    let keys = vec![b"d".to_vec(), b"a".to_vec(), b"c".to_vec(), b"b".to_vec()];
    assert_eq!(keys_between(keys, b"b", b"d"), vec![b"c".to_vec(), b"b".to_vec()]);
}

#[test]
fn live_keys_are_those_last_put() {
    let keys = vec![b"a".to_vec(), b"b".to_vec(), b"c".to_vec(), b"d".to_vec(), b"e".to_vec()];
    let kinds = vec![
        Some(CommitKind::Put),
        Some(CommitKind::Delete),
        None,
        Some(CommitKind::Put),
        Some(CommitKind::Rollback),
    ];
    assert_eq!(live_keys(&keys, &kinds), vec![b"a".to_vec(), b"d".to_vec()]);
}

#[test]
fn staged_writes_stay_in_key_order() {
    let mut staged = StagedWrites::new();
    for key in [b"m", b"c", b"x", b"c"] {
        staged.set(key.to_vec(), Some(key.to_vec()));
    }
    staged.set(b"m".to_vec(), None);
    assert_eq!(staged.len(), 3);
    let keys: Vec<Vec<u8>> = staged.entries().iter().map(|e| e.key.clone()).collect();
    assert_eq!(keys, vec![b"c".to_vec(), b"m".to_vec(), b"x".to_vec()]);
    assert_eq!(staged.get(b"m"), Some(None));
    assert_eq!(staged.get(b"c"), Some(Some(b"c".to_vec())));
    assert_eq!(staged.get(b"q"), None);
}

#[test]
fn plain_writes_and_transactions_share_the_database() {
    let (mut db, mut t) = txns();
    let mut batch = WriteBatch::new();
    batch.put(b"plain", b"1");
    db.write(batch).unwrap();
    let mut tx = t.begin(IsolationLevel::SnapshotIsolation);
    tx.put(b"tx", b"2").unwrap();
    tx.commit(&mut t, &mut db).unwrap();
    assert_eq!(db.get(b"plain").unwrap(), Some(b"1".to_vec()));
    assert_eq!(db.get(b"tx").unwrap(), Some(b"2".to_vec()));
}

#[test]
fn a_second_manager_sees_what_was_committed() {
    let (mut db, mut first) = txns();
    let mut txn = first.begin(IsolationLevel::SnapshotIsolation);
    txn.put(b"k", b"v").unwrap();
    txn.put(b"gone", b"x").unwrap();
    txn.commit(&mut first, &mut db).unwrap();
    let mut txn = first.begin(IsolationLevel::SnapshotIsolation);
    txn.delete(b"gone").unwrap();
    assert_eq!(txn.staged_len(), 1);
    txn.commit(&mut first, &mut db).unwrap();
    let mut second = MvccTransactions::over(&db, DurabilityMode::Eventual).unwrap();
    let txn = second.begin(IsolationLevel::SnapshotIsolation);
    assert_eq!(txn.get(&mut second, b"k").unwrap(), Some(b"v".to_vec()));
    assert_eq!(txn.get(&mut second, b"gone").unwrap(), None);
}

#[test]
fn a_manager_over_an_empty_database_starts_empty() {
    let (db, _) = txns();
    let mut over = MvccTransactions::over(&db, DurabilityMode::Immediate).unwrap();
    let txn = over.begin(IsolationLevel::Serializable);
    assert_eq!(txn.get(&mut over, b"k").unwrap(), None);
}

#[test]
fn a_transaction_is_on_the_manager_that_began_it() {
    let (mut db, mut first) = txns();
    let mut other = MvccTransactions::new(DurabilityMode::Eventual);
    let mut txn = first.begin(IsolationLevel::SnapshotIsolation);
    txn.put(b"k", b"v").unwrap();
    txn.set_savepoint();
    txn.put(b"k", b"w").unwrap();
    assert!(txn.rollback_to_savepoint());
    txn.commit(&mut first, &mut db).unwrap();
    // A manager of its own knows nothing of it.
    let elsewhere = other.begin(IsolationLevel::SnapshotIsolation);
    assert_eq!(elsewhere.get(&mut other, b"k").unwrap(), None);
    let here = first.begin(IsolationLevel::SnapshotIsolation);
    assert_eq!(here.get(&mut first, b"k").unwrap(), Some(b"v".to_vec()));
}
