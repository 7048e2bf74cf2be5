//! Transactions, executed by kovan-mvcc.
//!
//! Isolation, conflict detection, timestamps and the two-phase commit are
//! kovan-mvcc's. What is here stages a transaction's writes until it
//! commits, so that it sees its own writes and can be rewound to a
//! savepoint, expresses range deletes and merges as point writes, and turns
//! what kovan-mvcc reports into this library's errors.
//!
//! A staged key is written at commit, and so is conflict-checked as a write:
//! answering a read of it from what is staged costs no conflict coverage.

use std::sync::Arc;

use kovan_mvcc::{KovanMVCC, MvccError, Txn};
use vstd::prelude::*;

use crate::batch::WriteBatch;
use crate::bytes;
use crate::bytes::{bytes_lt, lemma_bytes_lt_irreflexive, opt_view, slice_views, views};
use crate::column_family::{lemma_families_disjoint, prefixed, DEFAULT_CF_ID};
use crate::db::laws::{law_last_write_wins, law_others_untouched};
use crate::db::{pair_views, Db};
use crate::engine::read::Read;
use crate::error::{ErrorKind, IoError, Result};
use crate::history::{covers, effect, Effect, Op};
use crate::options::{DurabilityMode, MergeOperator};
use crate::staged::{
    lemma_staged_map, staged_map, staged_views, Staged, StagedWrite, StagedWrites,
};

verus! {

/// How far a transaction is isolated from others.
#[derive(Debug, Clone, Copy, PartialEq, Eq, Structural)]
pub enum IsolationLevel {
    /// Every read sees what is committed when it is made.
    ReadCommitted,
    /// Every read sees what was committed when the transaction began.
    SnapshotIsolation,
    /// What was read does not change before the commit.
    RepeatableRead,
    /// Transactions that commit could have run one after the other.
    Serializable,
}

/// The levels kovan-mvcc knows.
#[derive(Debug, Clone, Copy, PartialEq, Eq, Structural)]
pub enum MvccIsolation {
    ReadCommitted,
    RepeatableRead,
    Serializable,
}

/// Why a transaction failed.
#[derive(Debug)]
pub enum TransactionError {
    /// Another transaction holds the key.
    Busy(Vec<u8>),
    /// Another transaction changed the key first.
    Conflict { key: Vec<u8>, observed_seq: u64, latest_seq: u64 },
    /// The store failed.
    Io(IoError),
}

/// What a transaction's operation returns.
pub type TxResult<T> = std::result::Result<T, TransactionError>;

/// Why kovan-mvcc refused.
#[derive(Debug)]
pub enum MvccFailure {
    LockConflict { key: Vec<u8>, holder_txn: u128 },
    WriteConflict { key: Vec<u8>, conflicting_ts: u64 },
    RollbackRecord { key: Vec<u8> },
    PrimaryLockMissing { key: Vec<u8> },
    PrimaryLockMismatch,
    SerializationFailure { key: Vec<u8>, conflicting_ts: u64 },
    StorageError(String),
}

/// What the newest commit of a key did.
#[derive(Debug, Clone, Copy, PartialEq, Eq, Structural)]
pub enum CommitKind {
    Put,
    Delete,
    Rollback,
}

// ── kovan-mvcc ──────────────────────────────────────────────────────────

/// The transaction manager of kovan-mvcc.
#[verifier::external_type_specification]
#[verifier::external_body]
pub struct ExKovanMVCC(KovanMVCC);

/// A transaction of kovan-mvcc.
#[verifier::external_type_specification]
#[verifier::external_body]
pub struct ExTxn(Txn);

/// An error of kovan-mvcc.
#[verifier::external_type_specification]
#[verifier::external_body]
pub struct ExMvccError(MvccError);

/// No writes at all.
pub open spec fn no_writes() -> Map<Seq<u8>, Option<Seq<u8>>> {
    Map::empty()
}

/// The writes a transaction of kovan-mvcc has buffered: for each key a
/// value, or a deletion.
pub uninterp spec fn buffered_writes(txn: Txn) -> Map<Seq<u8>, Option<Seq<u8>>>;

/// The timestamp a transaction of kovan-mvcc began at.
pub uninterp spec fn txn_start(txn: Txn) -> u64;

/// The isolation level a transaction of kovan-mvcc was begun with.
pub uninterp spec fn txn_level(txn: Txn) -> MvccIsolation;

/// Why an error of kovan-mvcc came about.
pub uninterp spec fn failure_of(err: MvccError) -> MvccFailure;

/// [`KovanMVCC::new`]: a transaction manager over a store in memory. Nothing
/// is claimed of it.
#[verifier::external_body]
fn new_mvcc() -> KovanMVCC {
    KovanMVCC::new()
}

/// [`KovanMVCC::begin_with_isolation`]: a new transaction at the given
/// level, which has buffered no writes.
#[verifier::external_body]
fn mvcc_begin(mvcc: &KovanMVCC, level: MvccIsolation) -> (r: Txn)
    ensures
        buffered_writes(r) == no_writes(),
        txn_level(r) == level,
{
    mvcc.begin_with_isolation(match level {
        MvccIsolation::ReadCommitted => kovan_mvcc::IsolationLevel::ReadCommitted,
        MvccIsolation::RepeatableRead => kovan_mvcc::IsolationLevel::RepeatableRead,
        MvccIsolation::Serializable => kovan_mvcc::IsolationLevel::Serializable,
    })
}

/// [`Txn::read`]: what the transaction itself has buffered for the key,
/// where it has buffered something. What it reads of other keys rests on
/// what other transactions have committed, and is left unsaid.
#[verifier::external_body]
fn txn_read(txn: &Txn, key: &[u8]) -> (r: Option<Vec<u8>>)
    ensures
        buffered_writes(*txn).dom().contains(key@) ==> opt_view(r) == buffered_writes(*txn)[key@],
{
    txn.read(key)
}

/// [`Txn::write`]: buffers the value for the key, in place of what was
/// buffered for it, and succeeds. Gives the transaction back.
#[verifier::external_body]
fn txn_write(txn: Txn, key: &[u8], value: Vec<u8>) -> (r: (
    Txn,
    std::result::Result<(), MvccError>,
))
    ensures
        r.1 is Ok,
        buffered_writes(r.0) == buffered_writes(txn).insert(key@, Some(value@)),
        txn_start(r.0) == txn_start(txn),
        txn_level(r.0) == txn_level(txn),
{
    let mut txn = txn;
    let told = txn.write(key, value);
    (txn, told)
}

/// [`Txn::delete`]: buffers a deletion for the key, in place of what was
/// buffered for it, and succeeds. Gives the transaction back.
#[verifier::external_body]
fn txn_delete(txn: Txn, key: &[u8]) -> (r: (Txn, std::result::Result<(), MvccError>))
    ensures
        r.1 is Ok,
        buffered_writes(r.0) == buffered_writes(txn).insert(key@, None),
        txn_start(r.0) == txn_start(txn),
        txn_level(r.0) == txn_level(txn),
{
    let mut txn = txn;
    let told = txn.delete(key);
    (txn, told)
}

/// [`Txn::commit`]: a transaction that has buffered nothing commits at the
/// timestamp it began at. Whether another one commits, and when, rests on
/// the other transactions, and is left unsaid.
#[verifier::external_body]
fn txn_commit(txn: Txn) -> (r: std::result::Result<u64, MvccError>)
    ensures
        buffered_writes(txn) == no_writes() ==> r is Ok && r->Ok_0 == txn_start(txn),
{
    txn.commit()
}

/// [`Txn::start_ts`]: the timestamp the transaction began at.
#[verifier::external_body]
fn txn_start_ts(txn: &Txn) -> (r: u64)
    ensures
        r == txn_start(*txn),
{
    txn.start_ts()
}

/// `Storage::scan_write_keys` of the manager's store: the keys that have
/// been committed to or rolled back. Which they are rests on the other
/// transactions, and is left unsaid.
#[verifier::external_body]
fn mvcc_written_keys(mvcc: &KovanMVCC) -> Vec<Vec<u8>> {
    mvcc.storage().scan_write_keys()
}

/// `Storage::get_latest_commit` of the manager's store: what the newest
/// commit of the key at or before `ts` did, if there is one. Rollbacks are
/// passed over. What the commit did rests on the other transactions, and is
/// left unsaid.
#[verifier::external_body]
fn mvcc_latest_commit(mvcc: &KovanMVCC, key: &[u8], ts: u64) -> (r: Option<CommitKind>)
    ensures
        r != Some(CommitKind::Rollback),
{
    match mvcc.storage().get_latest_commit(key, ts)?.1.kind {
        kovan_mvcc::WriteKind::Put => Some(CommitKind::Put),
        kovan_mvcc::WriteKind::Delete => Some(CommitKind::Delete),
        kovan_mvcc::WriteKind::Rollback => Some(CommitKind::Rollback),
    }
}

/// [`MvccError`], taken apart variant by variant: the same error gives the
/// same failure. Nothing is claimed of which variant it is.
#[verifier::external_body]
fn plain_failure(err: MvccError) -> (r: MvccFailure)
    ensures
        r == failure_of(err),
{
    match err {
        MvccError::LockConflict { key, holder_txn } => MvccFailure::LockConflict { key, holder_txn },
        MvccError::WriteConflict { key, conflicting_ts } => MvccFailure::WriteConflict { key, conflicting_ts },
        MvccError::RollbackRecord { key } => MvccFailure::RollbackRecord { key },
        MvccError::PrimaryLockMissing { key } => MvccFailure::PrimaryLockMissing { key },
        MvccError::PrimaryLockMismatch => MvccFailure::PrimaryLockMismatch,
        MvccError::SerializationFailure { key, conflicting_ts } => MvccFailure::SerializationFailure { key, conflicting_ts },
        MvccError::StorageError(message) => MvccFailure::StorageError(message),
    }
}

// ── mapping ─────────────────────────────────────────────────────────────

/// The level kovan-mvcc runs a level at. Its repeatable read is its snapshot
/// level, and records no scans, so that repeatable read takes the stricter
/// neighbour.
pub open spec fn isolation_for(level: IsolationLevel) -> MvccIsolation {
    match level {
        IsolationLevel::ReadCommitted => MvccIsolation::ReadCommitted,
        IsolationLevel::SnapshotIsolation => MvccIsolation::RepeatableRead,
        IsolationLevel::RepeatableRead => MvccIsolation::Serializable,
        IsolationLevel::Serializable => MvccIsolation::Serializable,
    }
}

/// The level kovan-mvcc runs a level at.
pub fn map_isolation(level: IsolationLevel) -> (r: MvccIsolation)
    ensures
        r == isolation_for(level),
{
    match level {
        IsolationLevel::ReadCommitted => MvccIsolation::ReadCommitted,
        IsolationLevel::SnapshotIsolation => MvccIsolation::RepeatableRead,
        IsolationLevel::RepeatableRead | IsolationLevel::Serializable => MvccIsolation::Serializable,
    }
}

/// How a lost primary lock is reported.
pub open spec fn lost_lock_text() -> Seq<char> {
    "transaction lost its primary lock, which means another writer resolved it; retry the transaction"@
}

/// `e` is how `f` is reported: a race lost to another transaction names the
/// key and may be retried, anything structural is a failure of the store.
pub open spec fn reports(e: TransactionError, f: MvccFailure) -> bool {
    match f {
        MvccFailure::LockConflict { key, .. } => e matches TransactionError::Busy(k) && k == key,
        MvccFailure::WriteConflict { key, conflicting_ts } => e
            == (TransactionError::Conflict { key, observed_seq: 0, latest_seq: conflicting_ts }),
        MvccFailure::SerializationFailure { key, conflicting_ts } => e
            == (TransactionError::Conflict { key, observed_seq: 0, latest_seq: conflicting_ts }),
        MvccFailure::RollbackRecord { key } => e == (TransactionError::Conflict {
            key,
            observed_seq: 0,
            latest_seq: 0,
        }),
        MvccFailure::PrimaryLockMissing { .. } => e matches TransactionError::Io(io) && io.kind
            == ErrorKind::Other && io.message@ == lost_lock_text(),
        MvccFailure::PrimaryLockMismatch => e matches TransactionError::Io(io) && io.kind
            == ErrorKind::Other && io.message@ == lost_lock_text(),
        MvccFailure::StorageError(message) => e matches TransactionError::Io(io) && io.kind
            == ErrorKind::Other && io.message@ == message@,
    }
}

/// How a failure of kovan-mvcc is reported.
pub fn map_error(failure: MvccFailure) -> (r: TransactionError)
    ensures
        reports(r, failure),
{
    match failure {
        MvccFailure::LockConflict { key, .. } => TransactionError::Busy(key),
        MvccFailure::WriteConflict { key, conflicting_ts } => TransactionError::Conflict {
            key,
            observed_seq: 0,
            latest_seq: conflicting_ts,
        },
        MvccFailure::SerializationFailure { key, conflicting_ts } => TransactionError::Conflict {
            key,
            observed_seq: 0,
            latest_seq: conflicting_ts,
        },
        MvccFailure::RollbackRecord { key } => TransactionError::Conflict {
            key,
            observed_seq: 0,
            latest_seq: 0,
        },
        MvccFailure::PrimaryLockMissing { .. } => TransactionError::Io(
            IoError::other(
                "transaction lost its primary lock, which means another writer resolved it; retry the transaction",
            ),
        ),
        MvccFailure::PrimaryLockMismatch => TransactionError::Io(
            IoError::other(
                "transaction lost its primary lock, which means another writer resolved it; retry the transaction",
            ),
        ),
        MvccFailure::StorageError(message) => TransactionError::Io(
            IoError::other(message.as_str()),
        ),
    }
}

// ── transactions ────────────────────────────────────────────────────────

/// Transactions over one database.
pub struct MvccTransactions {
    mvcc: KovanMVCC,
    // How durable what a commit writes to the database is.
    durability: DurabilityMode,
    // A failure of the store that no call could report.
    failure: Option<IoError>,
}

/// One transaction in flight. Letting go of it undoes nothing and commits
/// nothing.
pub struct MvccTxn {
    inner: Txn,
    // Writes not yet handed on; they are when the transaction commits.
    staged: StagedWrites,
    // What was staged at each savepoint, oldest first.
    savepoints: Vec<StagedWrites>,
}

/// What was staged at each of a run of savepoints.
pub open spec fn savepoint_maps(v: Seq<StagedWrites>) -> Seq<Map<Seq<u8>, Option<Seq<u8>>>> {
    Seq::new(v.len(), |i: int| v[i].writes())
}

impl MvccTransactions {
    /// The failure of the store that no call could report, if there is one.
    pub closed spec fn pending(self) -> Option<IoError> {
        self.failure
    }

    /// How durable what a commit writes to the database is.
    pub closed spec fn durability(self) -> DurabilityMode {
        self.durability
    }

    /// The manager of kovan-mvcc that the transactions run on.
    pub closed spec fn manager(self) -> KovanMVCC {
        self.mvcc
    }

    /// Transactions of a store that starts out empty.
    pub fn new(durability: DurabilityMode) -> (r: Self)
        ensures
            r.durability() == durability,
            r.pending() is None,
            is_new_manager(r.manager()),
    {
        MvccTransactions { mvcc: new_mvcc(), durability, failure: None }
    }

    /// Transactions of a store that starts out with what the default column
    /// family of `db` holds, so that what was committed before is seen.
    pub fn over(db: &Db, durability: DurabilityMode) -> (r: TxResult<Self>)
        requires
            db.wf(),
        ensures
            r matches Ok(txns) ==> txns.durability() == durability && txns.pending() is None,
            exists|held: Result<Vec<(Vec<u8>, Vec<u8>)>>| #[trigger]
                db.scanned(DEFAULT_CF_ID, None, None, db.horizon(), held) && match held {
                    Err(_) => r matches Err(TransactionError::Io(_)),
                    Ok(entries) => exists|seed: MvccTxn, outcome: std::result::Result<
                        u64,
                        MvccFailure,
                    >| #[trigger]
                        seed.may_commit(outcome) && seed.writes() == written(
                            pair_views(entries@),
                        ) && seed.level() == isolation_for(IsolationLevel::SnapshotIsolation)
                            && match outcome {
                            Ok(_) => r matches Ok(txns) && seed.begun_by(txns)
                                && is_new_manager(txns.manager()),
                            Err(failure) => r matches Err(e) && reports(e, failure),
                        } && (entries@.len() == 0 ==> r is Ok),
                },
    {
        let txns: MvccTransactions = MvccTransactions::new(durability);
        let held: Result<Vec<(Vec<u8>, Vec<u8>)>> = db.scan(None, None);
        let ghost answer = held;
        assert(db.scanned(DEFAULT_CF_ID, None, None, db.horizon(), answer));
        let entries: Vec<(Vec<u8>, Vec<u8>)> = match held {
            Ok(entries) => entries,
            Err(e) => {
                return Err(TransactionError::Io(e.into_io_error()));
            },
        };
        let mut seed: MvccTxn = txns.begin(IsolationLevel::SnapshotIsolation);
        let ghost all = pair_views(entries@);
        let mut i: usize = 0;
        assert(all.take(0) =~= Seq::<(Seq<u8>, Seq<u8>)>::empty());
        while i < entries.len()
            invariant
                all == pair_views(entries@),
                i <= entries@.len(),
                seed.wf(),
                seed.begun_by(txns),
                seed.level() == isolation_for(IsolationLevel::SnapshotIsolation),
                seed.writes() == written(all.take(i as int)),
            decreases entries@.len() - i,
        {
            proof {
                assert(all.take(i + 1).drop_last() =~= all.take(i as int));
                assert(all.take(i + 1).last() == all[i as int]);
            }
            let _ = seed.put(entries[i].0.as_slice(), entries[i].1.as_slice());
            i += 1;
        }
        proof {
            assert(all.take(i as int) =~= all);
            assert(entries@.len() == 0 ==> all =~= Seq::<(Seq<u8>, Seq<u8>)>::empty());
        }
        let ghost whole = seed;
        let (outcome, _) = seed.end();
        assert(whole.may_commit(outcome));
        match outcome {
            Ok(_) => Ok(txns),
            Err(failure) => Err(map_error(failure)),
        }
    }

    /// Take note of a failure of the store. The first one is kept until it
    /// is reported.
    pub fn report_failure(&mut self, failure: IoError)
        ensures
            final(self).manager() == old(self).manager(),
            final(self).durability() == old(self).durability(),
            final(self).pending() == (match old(self).pending() {
                Some(first) => Some(first),
                None => Some(failure),
            }),
    {
        if self.failure.is_none() {
            self.failure = Some(failure);
        }
    }

    /// The failure of the store that was not reported yet, if there is one.
    pub fn take_failure(&mut self) -> (r: Option<IoError>)
        ensures
            r == old(self).pending(),
            final(self).manager() == old(self).manager(),
            final(self).durability() == old(self).durability(),
            final(self).pending() is None,
    {
        self.failure.take()
    }

    /// Begin a transaction on the manager.
    pub fn begin(&self, isolation: IsolationLevel) -> (r: MvccTxn)
        ensures
            r.wf(),
            r.begun_by(*self),
            r.level() == isolation_for(isolation),
            r.writes() == no_writes(),
            r.marks() == Seq::<Map<Seq<u8>, Option<Seq<u8>>>>::empty(),
    {
        let level: MvccIsolation = map_isolation(isolation);
        let inner: Txn = mvcc_begin(&self.mvcc, level);
        let ghost begun = inner;
        assert(call_ensures(mvcc_begin, (&self.mvcc, level), begun));
        let r = MvccTxn {
            inner,
            staged: StagedWrites::new(),
            savepoints: Vec::new(),
        };
        assert(r.marks() =~= Seq::<Map<Seq<u8>, Option<Seq<u8>>>>::empty());
        r
    }

    /// `keys` are the keys in `[start, end)`, among those that the store of
    /// kovan-mvcc listed, whose newest commit at or before `ts` is told to
    /// be a put.
    pub closed spec fn committed_between(
        self,
        start: Seq<u8>,
        end: Seq<u8>,
        ts: u64,
        keys: Seq<Seq<u8>>,
    ) -> bool {
        exists|written: Vec<Vec<u8>>, kinds: Seq<Option<CommitKind>>|
            {
                &&& #[trigger] may_list(self.mvcc, written)
                &&& #[trigger] may_tell_all(self.mvcc, between(views(written@), start, end), ts, kinds)
                &&& keys == live(between(views(written@), start, end), kinds)
            }
    }

    /// The keys in `[start, end)` that a value was committed for at or
    /// before `ts`.
    fn keys_in_range(&self, start: &[u8], end: &[u8], ts: u64) -> (r: Vec<Vec<u8>>)
        ensures
            self.committed_between(start@, end@, ts, views(r@)),
            forall|i: int| 0 <= i < r@.len() ==> covers(start@, end@, (#[trigger] r@[i])@),
    {
        let written: Vec<Vec<u8>> = mvcc_written_keys(&self.mvcc);
        let ghost listed = written;
        assert(may_list(self.mvcc, listed));
        let keys: Vec<Vec<u8>> = keys_between(written, start, end);
        let ghost all = views(keys@);
        let mut kinds: Vec<Option<CommitKind>> = Vec::new();
        let mut i: usize = 0;
        while i < keys.len()
            invariant
                all == views(keys@),
                i <= keys@.len(),
                kinds@.len() == i,
                forall|j: int| 0 <= j < i ==> #[trigger] may_tell(self.mvcc, all[j], ts, kinds@[j]),
            decreases keys@.len() - i,
        {
            let key: &[u8] = keys[i].as_slice();
            let kind: Option<CommitKind> = mvcc_latest_commit(&self.mvcc, key, ts);
            assert(call_ensures(mvcc_latest_commit, (&self.mvcc, key, ts), kind));
            assert(may_tell(self.mvcc, all[i as int], ts, kind));
            kinds.push(kind);
            i += 1;
        }
        assert(may_tell_all(self.mvcc, all, ts, kinds@));
        let r: Vec<Vec<u8>> = live_keys(&keys, &kinds);
        proof {
            assert forall|j: int| 0 <= j < r@.len() implies covers(
                start@,
                end@,
                (#[trigger] r@[j])@,
            ) by {
                lemma_live(all, kinds@, j);
                assert(views(r@)[j] == r@[j]@);
                let k = choose|k: int| 0 <= k < all.len() && all[k] == r@[j]@;
                assert(covers(start@, end@, keys@[k]@));
            }
        }
        r
    }
}

/// `mvcc` is what making a new manager of kovan-mvcc may give.
pub closed spec fn is_new_manager(mvcc: KovanMVCC) -> bool {
    call_ensures(new_mvcc, (), mvcc)
}

/// `txn` is what beginning a transaction on `mvcc` may give.
pub closed spec fn may_begin(mvcc: KovanMVCC, level: MvccIsolation, txn: Txn) -> bool {
    call_ensures(mvcc_begin, (&mvcc, level), txn)
}

/// Handing the write `w` to the transaction `txn` may leave it as `after`.
spec fn may_hand(txn: Txn, w: Staged, after: Txn) -> bool {
    match w.value {
        Some(value) => exists|k: &[u8], v: Vec<u8>, told: std::result::Result<(), MvccError>|
            k@ == w.key && v@ == value && #[trigger] call_ensures(
                txn_write,
                (txn, k, v),
                (after, told),
            ),
        None => exists|k: &[u8], told: std::result::Result<(), MvccError>|
            k@ == w.key && #[trigger] call_ensures(txn_delete, (txn, k), (after, told)),
    }
}

/// Handing a run of writes to a transaction, in order, may leave it as each of
/// `states` in turn.
spec fn hands_all(states: Seq<Txn>, list: Seq<Staged>) -> bool {
    &&& states.len() == list.len() + 1
    &&& forall|i: int|
        0 <= i < list.len() ==> #[trigger] may_hand(states[i], list[i], states[i + 1])
}

/// Handing a run of writes to the transaction `txn`, in order, may leave it as
/// `after`.
spec fn may_hand_all(txn: Txn, list: Seq<Staged>, after: Txn) -> bool {
    exists|states: Seq<Txn>| #[trigger]
        hands_all(states, list) && states[0] == txn && states.last() == after
}

/// The store of kovan-mvcc may list the keys `written`.
pub closed spec fn may_list(mvcc: KovanMVCC, written: Vec<Vec<u8>>) -> bool {
    call_ensures(mvcc_written_keys, (&mvcc,), written)
}

/// The store of kovan-mvcc may tell that the newest commit of `key` at or
/// before `ts` did `kind`.
pub closed spec fn may_tell(mvcc: KovanMVCC, key: Seq<u8>, ts: u64, kind: Option<CommitKind>) -> bool {
    exists|k: &[u8]|
        k@ == key && #[trigger] call_ensures(mvcc_latest_commit, (&mvcc, k, ts), kind)
}

/// What the store of kovan-mvcc may tell of each of a run of keys.
spec fn may_tell_all(
    mvcc: KovanMVCC,
    keys: Seq<Seq<u8>>,
    ts: u64,
    kinds: Seq<Option<CommitKind>>,
) -> bool {
    &&& kinds.len() == keys.len()
    &&& forall|i: int| 0 <= i < keys.len() ==> #[trigger] may_tell(mvcc, keys[i], ts, kinds[i])
}

/// The keys of a run whose newest commit is a put, in order.
pub open spec fn live(keys: Seq<Seq<u8>>, kinds: Seq<Option<CommitKind>>) -> Seq<Seq<u8>>
    decreases keys.len(),
{
    if keys.len() == 0 {
        Seq::empty()
    } else {
        let before = live(keys.drop_last(), kinds);
        if kinds[keys.len() - 1] == Some(CommitKind::Put) {
            before.push(keys.last())
        } else {
            before
        }
    }
}

/// The live keys of a run are keys of it.
proof fn lemma_live(keys: Seq<Seq<u8>>, kinds: Seq<Option<CommitKind>>, i: int)
    requires
        0 <= i < live(keys, kinds).len(),
    ensures
        keys.contains(live(keys, kinds)[i]),
    decreases keys.len(),
{
    let rest = keys.drop_last();
    if i < live(rest, kinds).len() {
        lemma_live(rest, kinds, i);
        let j = choose|j: int| 0 <= j < rest.len() && rest[j] == live(rest, kinds)[i];
        assert(keys[j] == live(keys, kinds)[i]);
    } else {
        assert(keys[keys.len() - 1] == live(keys, kinds)[i]);
    }
}

/// The keys of a run whose newest commit is a put, in order. What the newest
/// commit of each did is given by `kinds`.
pub fn live_keys(keys: &Vec<Vec<u8>>, kinds: &Vec<Option<CommitKind>>) -> (r: Vec<Vec<u8>>)
    requires
        keys@.len() == kinds@.len(),
    ensures
        views(r@) == live(views(keys@), kinds@),
{
    let mut out: Vec<Vec<u8>> = Vec::new();
    let mut i: usize = 0;
    let ghost all = views(keys@);
    proof {
        assert(all.take(0) =~= Seq::<Seq<u8>>::empty());
        assert(views(out@) =~= Seq::<Seq<u8>>::empty());
    }
    while i < keys.len()
        invariant
            all == views(keys@),
            keys@.len() == kinds@.len(),
            i <= keys@.len(),
            views(out@) == live(all.take(i as int), kinds@),
        decreases keys@.len() - i,
    {
        let ghost before = views(out@);
        proof {
            assert(all.take(i + 1).drop_last() =~= all.take(i as int));
            assert(all.take(i + 1).last() == keys@[i as int]@);
        }
        if let Some(kind) = kinds[i] {
            if kind == CommitKind::Put {
                out.push(bytes::copy(keys[i].as_slice()));
                assert(views(out@) =~= before.push(keys@[i as int]@));
            }
        }
        i += 1;
    }
    assert(all.take(i as int) =~= all);
    out
}

/// A value staged for each key of a run of entries, the last one counting.
pub open spec fn written(entries: Seq<(Seq<u8>, Seq<u8>)>) -> Map<Seq<u8>, Option<Seq<u8>>>
    decreases entries.len(),
{
    if entries.len() == 0 {
        no_writes()
    } else {
        written(entries.drop_last()).insert(entries.last().0, Some(entries.last().1))
    }
}

/// The keys of a run that lie in `[start, end)`, in order.
pub open spec fn between(keys: Seq<Seq<u8>>, start: Seq<u8>, end: Seq<u8>) -> Seq<Seq<u8>>
    decreases keys.len(),
{
    if keys.len() == 0 {
        Seq::empty()
    } else {
        let before = between(keys.drop_last(), start, end);
        if covers(start, end, keys.last()) {
            before.push(keys.last())
        } else {
            before
        }
    }
}

/// The keys of a run that lie in `[start, end)`, in order.
pub fn keys_between(keys: Vec<Vec<u8>>, start: &[u8], end: &[u8]) -> (r: Vec<Vec<u8>>)
    ensures
        views(r@) == between(views(keys@), start@, end@),
        forall|i: int| 0 <= i < r@.len() ==> covers(start@, end@, (#[trigger] r@[i])@),
{
    let mut out: Vec<Vec<u8>> = Vec::new();
    let mut i: usize = 0;
    let ghost all = views(keys@);
    proof {
        assert(all.take(0) =~= Seq::<Seq<u8>>::empty());
        assert(views(out@) =~= Seq::<Seq<u8>>::empty());
    }
    while i < keys.len()
        invariant
            all == views(keys@),
            i <= keys@.len(),
            views(out@) == between(all.take(i as int), start@, end@),
            forall|j: int| 0 <= j < out@.len() ==> covers(start@, end@, (#[trigger] out@[j])@),
        decreases keys@.len() - i,
    {
        let ghost before = views(out@);
        proof {
            assert(all.take(i + 1).drop_last() =~= all.take(i as int));
            assert(all.take(i + 1).last() == keys@[i as int]@);
        }
        if !bytes::lt(keys[i].as_slice(), start) && bytes::lt(keys[i].as_slice(), end) {
            out.push(bytes::copy(keys[i].as_slice()));
            assert(views(out@) =~= before.push(keys@[i as int]@));
        }
        i += 1;
    }
    assert(all.take(i as int) =~= all);
    out
}

/// What is staged once a deletion was staged for each of a run of keys.
pub open spec fn with_deletes(
    staged: Map<Seq<u8>, Option<Seq<u8>>>,
    keys: Seq<Seq<u8>>,
) -> Map<Seq<u8>, Option<Seq<u8>>>
    decreases keys.len(),
{
    if keys.len() == 0 {
        staged
    } else {
        with_deletes(staged, keys.drop_last()).insert(keys.last(), None)
    }
}

/// A deletion is staged for each of the keys, and nothing else changes.
pub proof fn lemma_with_deletes(
    staged: Map<Seq<u8>, Option<Seq<u8>>>,
    keys: Seq<Seq<u8>>,
    key: Seq<u8>,
)
    ensures
        keys.contains(key) ==> with_deletes(staged, keys).dom().contains(key) && with_deletes(
            staged,
            keys,
        )[key] is None,
        !keys.contains(key) ==> (with_deletes(staged, keys).dom().contains(key)
            <==> staged.dom().contains(key)) && with_deletes(staged, keys)[key] == staged[key],
    decreases keys.len(),
{
    if keys.len() > 0 {
        let rest = keys.drop_last();
        lemma_with_deletes(staged, rest, key);
        assert(keys[keys.len() - 1] == keys.last());
        if rest.contains(key) {
            let i = choose|i: int| 0 <= i < rest.len() && rest[i] == key;
            assert(keys[i] == key);
        }
        if keys.contains(key) && key != keys.last() {
            let i = choose|i: int| 0 <= i < keys.len() && keys[i] == key;
            assert(rest[i] == key);
        }
    }
}

/// The writes of a transaction as operations on the default column family.
pub open spec fn projected(list: Seq<Staged>) -> Seq<Op> {
    Seq::new(
        list.len(),
        |i: int|
            match list[i].value {
                Some(value) => Op::Put { key: prefixed(DEFAULT_CF_ID, list[i].key), value },
                None => Op::Delete { key: prefixed(DEFAULT_CF_ID, list[i].key) },
            },
    )
}

/// The writes of a transaction as a batch.
fn projection(staged: &StagedWrites) -> (r: WriteBatch)
    ensures
        r.ops() == projected(staged.list()),
{
    let mut batch: WriteBatch = WriteBatch::new();
    let entries: &Vec<StagedWrite> = staged.entries();
    let mut i: usize = 0;
    assert(batch.ops() =~= projected(staged.list()).take(0));
    while i < entries.len()
        invariant
            i <= entries@.len(),
            staged_views(entries@) == staged.list(),
            batch.ops() == projected(staged.list()).take(i as int),
        decreases entries@.len() - i,
    {
        let ghost before = batch.ops();
        assert(staged.list()[i as int] == entries@[i as int]@);
        match &entries[i].value {
            Some(value) => batch.put(entries[i].key.as_slice(), value.as_slice()),
            None => batch.delete(entries[i].key.as_slice()),
        }
        proof {
            let all = projected(staged.list());
            assert(all.take(i + 1) =~= all.take(i as int).push(all[i as int]));
            assert(batch.ops() =~= before.push(all[i as int]));
        }
        i += 1;
    }
    assert(projected(staged.list()).take(i as int) =~= projected(staged.list()));
    batch
}

/// What a read that went to the store comes to: a failure no call could
/// report comes first, since a miss might be one.
pub fn settle_read(value: Option<Vec<u8>>, failure: Option<IoError>) -> (r: TxResult<
    Option<Vec<u8>>,
>)
    ensures
        match failure {
            Some(err) => r == Err::<Option<Vec<u8>>, TransactionError>(TransactionError::Io(err)),
            None => r == Ok::<Option<Vec<u8>>, TransactionError>(value),
        },
{
    match failure {
        Some(err) => Err(TransactionError::Io(err)),
        None => Ok(value),
    }
}

/// What a commit comes to, by what kovan-mvcc made of it: one that was
/// refused leaves the database alone; one that was taken is written to the
/// default column family as one batch, so that plain reads see it too. A
/// failure of the store that no call could report takes the place of success.
pub open spec fn settled(
    outcome: std::result::Result<u64, MvccFailure>,
    staged: Seq<Staged>,
    txns: MvccTransactions,
    txns_after: MvccTransactions,
    db: Db,
    db_after: Db,
    r: TxResult<u64>,
) -> bool {
    match outcome {
        Err(failure) => {
            &&& db_after == db
            &&& txns_after.pending() == txns.pending()
            &&& r matches Err(e) && reports(e, failure)
        },
        Ok(ts) => {
            let ops = projected(staged);
            &&& db_after.wrote_batch(
                db,
                ops,
                txns.durability() == DurabilityMode::Immediate,
                false,
                false,
            )
            &&& txns_after.pending() is None
            &&& match txns.pending() {
                Some(err) => r == Err::<u64, TransactionError>(TransactionError::Io(err)),
                None => if db.batch_fault(ops, false, false) is Some {
                    r matches Err(TransactionError::Io(_))
                } else {
                    r == Ok::<u64, TransactionError>(ts)
                },
            }
        },
    }
}

/// End a commit by what kovan-mvcc made of it.
pub fn settle_commit(
    outcome: std::result::Result<u64, MvccFailure>,
    staged: &StagedWrites,
    txns: &mut MvccTransactions,
    db: &mut Db,
) -> (r: TxResult<u64>)
    requires
        old(db).wf(),
        old(db).has_room(staged.list().len()),
    ensures
        final(db).wf(),
        final(txns).manager() == old(txns).manager(),
        final(txns).durability() == old(txns).durability(),
        settled(outcome, staged.list(), *old(txns), *final(txns), *old(db), *final(db), r),
{
    let ts: u64 = match outcome {
        Ok(ts) => ts,
        Err(failure) => {
            return Err(map_error(failure));
        },
    };
    if let Err(e) = db.write_with_durability(projection(staged), txns.durability) {
        txns.report_failure(e.into_io_error());
    }
    match txns.take_failure() {
        Some(err) => Err(TransactionError::Io(err)),
        None => Ok(ts),
    }
}

/// A failure of the store, told by `text`.
pub open spec fn is_other(r: TxResult<()>, text: Seq<char>) -> bool {
    r matches Err(TransactionError::Io(io)) && io.kind == ErrorKind::Other && io.message@ == text
}

/// What a merge comes to, by what the merge operator made of it.
pub open spec fn merged_onto(
    after: MvccTxn,
    before: MvccTxn,
    key: Seq<u8>,
    merged: Option<Seq<u8>>,
    r: TxResult<()>,
) -> bool {
    match merged {
        Some(value) => r is Ok && after.writes() == before.writes().insert(key, Some(value)),
        None => after.writes() == before.writes() && is_other(
            r,
            "merge operator rejected the operand"@,
        ),
    }
}

impl MvccTxn {
    /// What the transaction has staged for each key.
    pub closed spec fn writes(self) -> Map<Seq<u8>, Option<Seq<u8>>> {
        self.staged.writes()
    }

    /// The staged writes, in key order.
    pub closed spec fn list(self) -> Seq<Staged> {
        self.staged.list()
    }

    /// What was staged at each savepoint, oldest first.
    pub closed spec fn marks(self) -> Seq<Map<Seq<u8>, Option<Seq<u8>>>> {
        savepoint_maps(self.savepoints@)
    }

    /// The level kovan-mvcc runs the transaction at.
    pub closed spec fn level(self) -> MvccIsolation {
        txn_level(self.inner)
    }

    /// The timestamp the transaction began at.
    pub closed spec fn start(self) -> u64 {
        txn_start(self.inner)
    }

    /// The transaction of kovan-mvcc it runs as.
    pub closed spec fn handle(self) -> Txn {
        self.inner
    }

    /// The transaction was begun on the manager of `txns`: what was committed
    /// there is what it reads, and where it commits.
    pub open spec fn begun_by(self, txns: MvccTransactions) -> bool {
        may_begin(txns.manager(), self.level(), self.handle())
    }

    /// Nothing was handed to kovan-mvcc yet, and what is staged is in order.
    pub closed spec fn wf(self) -> bool {
        &&& buffered_writes(self.inner) == no_writes()
        &&& self.staged.wf()
        &&& forall|i: int|
            0 <= i < self.savepoints@.len() ==> (#[trigger] self.savepoints@[i]).wf()
    }

    /// What writes leave alone.
    pub open spec fn same_txn(self, before: Self) -> bool {
        &&& self.wf()
        &&& self.handle() == before.handle()
        &&& self.marks() == before.marks()
        &&& self.level() == before.level()
        &&& self.start() == before.start()
    }

    /// kovan-mvcc may read `value` for `key` in this transaction.
    pub closed spec fn may_read(self, key: Seq<u8>, value: Option<Vec<u8>>) -> bool {
        exists|k: &[u8]| k@ == key && #[trigger] call_ensures(txn_read, (&self.inner, k), value)
    }

    /// kovan-mvcc may end the commit of this transaction, handed all that is
    /// staged in key order, with `outcome`.
    pub closed spec fn may_commit(self, outcome: std::result::Result<u64, MvccFailure>) -> bool {
        exists|txn: Txn, ended: std::result::Result<u64, MvccError>|
            {
                &&& may_hand_all(self.inner, self.list(), txn)
                &&& buffered_writes(txn) == self.writes()
                &&& txn_start(txn) == self.start()
                &&& txn_level(txn) == self.level()
                &&& #[trigger] call_ensures(txn_commit, (txn,), ended)
                &&& outcome == (match ended {
                    Ok(ts) => Ok::<u64, MvccFailure>(ts),
                    Err(err) => Err(failure_of(err)),
                })
            }
    }

    /// The value of `key` as the transaction sees it: what it has staged,
    /// else what kovan-mvcc reads.
    pub fn get(&self, txns: &mut MvccTransactions, key: &[u8]) -> (r: TxResult<Option<Vec<u8>>>)
        requires
            self.wf(),
        ensures
            final(txns).manager() == old(txns).manager(),
            final(txns).durability() == old(txns).durability(),
            if self.writes().dom().contains(key@) {
                &&& r matches Ok(value) && opt_view(value) == self.writes()[key@]
                &&& final(txns).pending() == old(txns).pending()
            } else {
                &&& final(txns).pending() is None
                &&& exists|value: Option<Vec<u8>>|
                    #![trigger self.may_read(key@, value)]
                    self.may_read(key@, value) && r == (match old(txns).pending() {
                        Some(err) => Err::<Option<Vec<u8>>, TransactionError>(
                            TransactionError::Io(err),
                        ),
                        None => Ok(value),
                    })
            },
    {
        if let Some(local) = self.staged.get(key) {
            return Ok(local);
        }
        let value: Option<Vec<u8>> = txn_read(&self.inner, key);
        assert(call_ensures(txn_read, (&self.inner, key), value));
        assert(self.may_read(key@, value));
        settle_read(value, txns.take_failure())
    }

    /// Read `key`, and stage what was read as a write: the key is then
    /// checked for conflicts at commit, whatever the isolation level.
    pub fn get_for_update(&mut self, txns: &mut MvccTransactions, key: &[u8]) -> (r: TxResult<
        Option<Vec<u8>>,
    >)
        requires
            old(self).wf(),
        ensures
            final(txns).manager() == old(txns).manager(),
            final(txns).durability() == old(txns).durability(),
            final(self).same_txn(*old(self)),
            old(self).writes().dom().contains(key@) ==> (r matches Ok(value) && opt_view(value)
                == old(self).writes()[key@]),
            old(self).writes().dom().contains(key@) ==> final(txns).pending() == old(
                txns,
            ).pending(),
            !old(self).writes().dom().contains(key@) ==> final(txns).pending() is None && exists|
                value: Option<Vec<u8>>,
            |
                #![trigger old(self).may_read(key@, value)]
                old(self).may_read(key@, value) && r == (match old(txns).pending() {
                    Some(err) => Err::<Option<Vec<u8>>, TransactionError>(
                        TransactionError::Io(err),
                    ),
                    None => Ok(value),
                }),
            match r {
                Ok(value) => final(self).writes() == old(self).writes().insert(
                    key@,
                    opt_view(value),
                ),
                Err(_) => final(self).writes() == old(self).writes(),
            },
    {
        let current: Option<Vec<u8>> = match self.get(txns, key) {
            Ok(current) => current,
            Err(e) => {
                return Err(e);
            },
        };
        // An absent key is staged as a deletion, so that a concurrent insert
        // is still a conflict.
        let again: Option<Vec<u8>> = match &current {
            Some(value) => Some(bytes::copy(value.as_slice())),
            None => None,
        };
        self.staged.set(bytes::copy(key), again);
        Ok(current)
    }

    /// Stage a value for `key`.
    pub fn put(&mut self, key: &[u8], value: &[u8]) -> (r: TxResult<()>)
        requires
            old(self).wf(),
        ensures
            r is Ok,
            final(self).same_txn(*old(self)),
            final(self).writes() == old(self).writes().insert(key@, Some(value@)),
    {
        self.staged.set(bytes::copy(key), Some(bytes::copy(value)));
        Ok(())
    }

    /// Stage a deletion of `key`.
    pub fn delete(&mut self, key: &[u8]) -> (r: TxResult<()>)
        requires
            old(self).wf(),
        ensures
            r is Ok,
            final(self).same_txn(*old(self)),
            final(self).writes() == old(self).writes().insert(key@, None),
    {
        self.staged.set(bytes::copy(key), None);
        Ok(())
    }

    /// Stage a deletion of each of the keys.
    pub fn delete_keys(&mut self, keys: &Vec<Vec<u8>>)
        requires
            old(self).wf(),
        ensures
            final(self).same_txn(*old(self)),
            final(self).writes() == with_deletes(old(self).writes(), views(keys@)),
    {
        let ghost before = *self;
        let ghost all = views(keys@);
        let mut i: usize = 0;
        assert(all.take(0) =~= Seq::<Seq<u8>>::empty());
        while i < keys.len()
            invariant
                all == views(keys@),
                i <= keys@.len(),
                self.same_txn(before),
                self.writes() == with_deletes(before.writes(), all.take(i as int)),
            decreases keys@.len() - i,
        {
            proof {
                assert(all.take(i + 1).drop_last() =~= all.take(i as int));
                assert(all.take(i + 1).last() == keys@[i as int]@);
            }
            self.staged.set(bytes::copy(keys[i].as_slice()), None);
            i += 1;
        }
        assert(all.take(i as int) =~= all);
    }

    /// Delete every key in `[start, end)` that the transaction's snapshot
    /// holds, one by one, so that each is checked for conflicts. `txns` is the
    /// one that began the transaction.
    pub fn delete_range(&mut self, txns: &MvccTransactions, start: &[u8], end: &[u8]) -> (r:
        TxResult<()>)
        requires
            old(self).wf(),
            old(self).begun_by(*txns),
        ensures
            r is Ok,
            final(self).same_txn(*old(self)),
            !bytes_lt(start@, end@) ==> final(self).writes() == old(self).writes(),
            exists|keys: Seq<Seq<u8>>|
                #![trigger with_deletes(old(self).writes(), keys)]
                with_deletes(old(self).writes(), keys) == final(self).writes() && (forall|i: int|
                    0 <= i < keys.len() ==> covers(start@, end@, #[trigger] keys[i])) && (bytes_lt(
                    start@,
                    end@,
                ) ==> txns.committed_between(start@, end@, old(self).start(), keys)),
    {
        if !bytes::lt(start, end) {
            let ghost none = Seq::<Seq<u8>>::empty();
            assert(with_deletes(old(self).writes(), none) == self.writes());
            return Ok(());
        }
        let keys: Vec<Vec<u8>> = txns.keys_in_range(start, end, txn_start_ts(&self.inner));
        self.delete_keys(&keys);
        assert(with_deletes(old(self).writes(), views(keys@)) == self.writes());
        Ok(())
    }

    /// Apply `operand` to `existing`, a value of `key`, through the merge
    /// operator, and stage what comes of it.
    pub fn stage_merge(
        &mut self,
        op: &Arc<dyn MergeOperator>,
        key: &[u8],
        existing: Option<Vec<u8>>,
        operand: &[u8],
    ) -> (r: TxResult<()>)
        requires
            old(self).wf(),
        ensures
            final(self).same_txn(*old(self)),
            merged_onto(
                *final(self),
                *old(self),
                key@,
                op.merged(key@, opt_view(existing), seq![operand@]),
                r,
            ),
    {
        let base: Option<&[u8]> = match &existing {
            Some(value) => Some(value.as_slice()),
            None => None,
        };
        let mut operands: Vec<&[u8]> = Vec::new();
        operands.push(operand);
        assert(slice_views(operands@) =~= seq![operand@]);
        match op.full_merge(key, base, operands.as_slice()) {
            Some(merged) => {
                self.staged.set(bytes::copy(key), Some(merged));
                Ok(())
            },
            None => Err(
                TransactionError::Io(IoError::other("merge operator rejected the operand")),
            ),
        }
    }

    /// Apply `operand` to `key` through the merge operator, against the value
    /// the transaction sees, and stage what comes of it.
    pub fn merge(
        &mut self,
        txns: &mut MvccTransactions,
        merge_operator: Option<&Arc<dyn MergeOperator>>,
        key: &[u8],
        operand: &[u8],
    ) -> (r: TxResult<()>)
        requires
            old(self).wf(),
        ensures
            final(txns).manager() == old(txns).manager(),
            final(txns).durability() == old(txns).durability(),
            final(self).same_txn(*old(self)),
            match merge_operator {
                None => {
                    &&& final(self).writes() == old(self).writes()
                    &&& final(txns).pending() == old(txns).pending()
                    &&& is_other(
                        r,
                        "merge called with no merge operator configured; set Options::merge_operator"@,
                    )
                },
                Some(op) => if old(self).writes().dom().contains(key@) {
                    &&& final(txns).pending() == old(txns).pending()
                    &&& merged_onto(
                        *final(self),
                        *old(self),
                        key@,
                        op.merged(key@, old(self).writes()[key@], seq![operand@]),
                        r,
                    )
                } else {
                    &&& final(txns).pending() is None
                    &&& match old(txns).pending() {
                        Some(err) => final(self).writes() == old(self).writes() && r == Err::<
                            (),
                            TransactionError,
                        >(TransactionError::Io(err)),
                        None => exists|base: Option<Vec<u8>>|
                            #![trigger old(self).may_read(key@, base)]
                            old(self).may_read(key@, base) && merged_onto(
                                *final(self),
                                *old(self),
                                key@,
                                op.merged(key@, opt_view(base), seq![operand@]),
                                r,
                            ),
                    }
                },
            },
    {
        let op: &Arc<dyn MergeOperator> = match merge_operator {
            Some(op) => op,
            None => {
                return Err(
                    TransactionError::Io(
                        IoError::other(
                            "merge called with no merge operator configured; set Options::merge_operator",
                        ),
                    ),
                );
            },
        };
        let existing: Option<Vec<u8>> = match self.get(txns, key) {
            Ok(existing) => existing,
            Err(e) => {
                return Err(e);
            },
        };
        let ghost merged = op.merged(key@, opt_view(existing), seq![operand@]);
        let r: TxResult<()> = self.stage_merge(op, key, existing, operand);
        assert(merged_onto(*self, *old(self), key@, merged, r));
        r
    }

    /// How many keys the transaction has staged a write for.
    pub fn staged_len(&self) -> (r: usize)
        ensures
            r == self.list().len(),
    {
        self.staged.len()
    }

    /// Mark a point the transaction can be rewound to.
    pub fn set_savepoint(&mut self)
        requires
            old(self).wf(),
        ensures
            final(self).wf(),
            final(self).handle() == old(self).handle(),
            final(self).level() == old(self).level(),
            final(self).start() == old(self).start(),
            final(self).writes() == old(self).writes(),
            final(self).marks() == old(self).marks().push(old(self).writes()),
    {
        let ghost before = self.savepoints@;
        let copy: StagedWrites = self.staged.clone();
        self.savepoints.push(copy);
        assert(self.marks() =~= savepoint_maps(before).push(self.staged.writes()));
    }

    /// Undo every staged write back to the last savepoint, which is used up.
    /// Reads are not rewound.
    pub fn rollback_to_savepoint(&mut self) -> (r: bool)
        requires
            old(self).wf(),
        ensures
            final(self).wf(),
            final(self).handle() == old(self).handle(),
            final(self).level() == old(self).level(),
            final(self).start() == old(self).start(),
            r == (old(self).marks().len() > 0),
            r ==> final(self).writes() == old(self).marks().last() && final(self).marks()
                == old(self).marks().drop_last(),
            !r ==> final(self).writes() == old(self).writes() && final(self).marks() == old(
                self,
            ).marks(),
    {
        let ghost before = self.savepoints@;
        match self.savepoints.pop() {
            Some(saved) => {
                proof {
                    assert(before[before.len() - 1].wf());
                    assert(savepoint_maps(self.savepoints@) =~= savepoint_maps(before).drop_last());
                }
                self.staged = saved;
                true
            },
            None => false,
        }
    }

    /// Commit, and report the timestamp the transaction committed at. What
    /// is staged is handed to kovan-mvcc in key order; once it has committed
    /// there, it is written to the default column family as well.
    pub fn commit(self, txns: &mut MvccTransactions, db: &mut Db) -> (r: TxResult<u64>)
        requires
            self.wf(),
            old(db).wf(),
            old(db).has_room(self.list().len()),
        ensures
            final(db).wf(),
            final(txns).manager() == old(txns).manager(),
            final(txns).durability() == old(txns).durability(),
            exists|outcome: std::result::Result<u64, MvccFailure>|
                #![trigger self.may_commit(outcome)]
                self.may_commit(outcome) && settled(
                    outcome,
                    self.list(),
                    *old(txns),
                    *final(txns),
                    *old(db),
                    *final(db),
                    r,
                ),
            self.writes() == no_writes() && old(txns).pending() is None && old(db).batch_fault(
                projected(self.list()),
                false,
                false,
            ) is None ==> r == Ok::<u64, TransactionError>(self.start()),
    {
        let (outcome, staged) = self.end();
        settle_commit(outcome, &staged, txns, db)
    }

    /// Hand what is staged to kovan-mvcc and have it committed there. Gives
    /// what came of it, and what was staged.
    fn end(self) -> (r: (std::result::Result<u64, MvccFailure>, StagedWrites))
        requires
            self.wf(),
        ensures
            self.may_commit(r.0),
            r.1.list() == self.list(),
            self.writes() == no_writes() ==> r.0 == Ok::<u64, MvccFailure>(self.start()),
    {
        let MvccTxn { inner, staged, savepoints: _ } = self;
        let whole: Txn = hand_over(inner, &staged);
        let ended: std::result::Result<u64, MvccError> = txn_commit(whole);
        let ghost told = ended;
        assert(call_ensures(txn_commit, (whole,), told));
        let outcome: std::result::Result<u64, MvccFailure> = match ended {
            Ok(ts) => Ok(ts),
            Err(err) => Err(plain_failure(err)),
        };
        assert(self.may_commit(outcome));
        (outcome, staged)
    }
}

/// Hand what is staged to a transaction of kovan-mvcc, in key order.
fn hand_over(txn: Txn, staged: &StagedWrites) -> (r: Txn)
    requires
        buffered_writes(txn) == no_writes(),
    ensures
        may_hand_all(txn, staged.list(), r),
        buffered_writes(r) == staged.writes(),
        txn_start(r) == txn_start(txn),
        txn_level(r) == txn_level(txn),
{
    let ghost list = staged.list();
    let ghost first = txn;
    let ghost mut states = seq![txn];
    let mut txn: Txn = txn;
    let entries: &Vec<StagedWrite> = staged.entries();
    let mut i: usize = 0;
    assert(list.take(0) =~= Seq::<Staged>::empty());
    while i < entries.len()
        invariant
            list == staged.list(),
            staged_views(entries@) == list,
            i <= list.len(),
            hands_all(states, list.take(i as int)),
            states[0] == first,
            states.last() == txn,
            buffered_writes(txn) == staged_map(list.take(i as int)),
            txn_start(txn) == txn_start(first),
            txn_level(txn) == txn_level(first),
        decreases list.len() - i,
    {
        proof {
            assert(list[i as int] == entries@[i as int]@);
            assert(list.take(i + 1).drop_last() =~= list.take(i as int));
            assert(list.take(i + 1).last() == list[i as int]);
        }
        let ghost before = txn;
        let key: &[u8] = entries[i].key.as_slice();
        match &entries[i].value {
            Some(value) => {
                let value: Vec<u8> = bytes::copy(value.as_slice());
                let ghost given = value;
                let told = txn_write(txn, key, value);
                let ghost all = told;
                assert(call_ensures(txn_write, (before, key, given), (all.0, all.1)));
                txn = told.0;
            },
            None => {
                let told = txn_delete(txn, key);
                let ghost all = told;
                assert(call_ensures(txn_delete, (before, key), (all.0, all.1)));
                txn = told.0;
            },
        }
        assert(may_hand(before, list[i as int], txn));
        proof {
            let so_far = states;
            states = so_far.push(txn);
            assert forall|j: int| 0 <= j < i + 1 implies #[trigger] may_hand(
                states[j],
                list.take(i + 1)[j],
                states[j + 1],
            ) by {
                if j < i {
                    assert(may_hand(so_far[j], list.take(i as int)[j], so_far[j + 1]));
                }
            }
        }
        i += 1;
    }
    assert(list.take(i as int) =~= list);
    txn
}

// ── laws ────────────────────────────────────────────────────────────────

/// A transaction stays on the manager that began it, whatever is staged, and
/// whatever its manager reports meanwhile.
pub proof fn law_txn_keeps_manager(
    txns: MvccTransactions,
    txns_later: MvccTransactions,
    txn: MvccTxn,
    later: MvccTxn,
)
    requires
        txn.begun_by(txns),
        later.same_txn(txn),
        txns_later.manager() == txns.manager(),
    ensures
        later.begun_by(txns_later),
{
}

/// The keys that a range holds are, of all the keys that the store lists,
/// those not before `start` and before `end` whose newest commit at or before
/// `ts` is told to be a put.
pub proof fn law_committed_between(
    txns: MvccTransactions,
    start: Seq<u8>,
    end: Seq<u8>,
    ts: u64,
    keys: Seq<Seq<u8>>,
)
    requires
        txns.committed_between(start, end, ts, keys),
    ensures
        exists|listed: Vec<Vec<u8>>, kinds: Seq<Option<CommitKind>>|
            {
                &&& #[trigger] may_list(txns.manager(), listed)
                &&& (#[trigger] kinds.len()) == listed@.len()
                &&& forall|i: int|
                    #![trigger listed@[i]]
                    0 <= i < listed@.len() && !bytes_lt(listed@[i]@, start) && bytes_lt(
                        listed@[i]@,
                        end,
                    ) ==> may_tell(txns.manager(), listed@[i]@, ts, kinds[i])
                &&& forall|key: Seq<u8>| #[trigger]
                    keys.contains(key) <==> exists|i: int|
                        0 <= i < listed@.len() && (#[trigger] listed@[i])@ == key && !bytes_lt(
                            key,
                            start,
                        ) && bytes_lt(key, end) && kinds[i] == Some(CommitKind::Put)
            },
{
    let (listed, told) = choose|listed: Vec<Vec<u8>>, told: Seq<Option<CommitKind>>|
        {
            &&& #[trigger] may_list(txns.mvcc, listed)
            &&& #[trigger] may_tell_all(txns.mvcc, between(views(listed@), start, end), ts, told)
            &&& keys == live(between(views(listed@), start, end), told)
        };
    let kinds = lemma_kinds_spread(txns.mvcc, views(listed@), start, end, ts, told);
    assert(may_list(txns.manager(), listed) && kinds.len() == listed@.len());
    assert forall|i: int|
        #![trigger listed@[i]]
        0 <= i < listed@.len() && !bytes_lt(listed@[i]@, start) && bytes_lt(
            listed@[i]@,
            end,
        ) implies may_tell(txns.manager(), listed@[i]@, ts, kinds[i]) by {
        assert(views(listed@)[i] == listed@[i]@);
    }
    assert forall|key: Seq<u8>| #[trigger] keys.contains(key) <==> exists|i: int|
        0 <= i < listed@.len() && (#[trigger] listed@[i])@ == key && !bytes_lt(key, start)
            && bytes_lt(key, end) && kinds[i] == Some(CommitKind::Put) by {
        if keys.contains(key) {
            let i = choose|i: int|
                0 <= i < listed@.len() && (#[trigger] views(listed@)[i]) == key && !bytes_lt(
                    key,
                    start,
                ) && bytes_lt(key, end) && kinds[i] == Some(CommitKind::Put);
            assert(listed@[i]@ == key);
        }
        if exists|i: int|
            0 <= i < listed@.len() && (#[trigger] listed@[i])@ == key && !bytes_lt(key, start)
                && bytes_lt(key, end) && kinds[i] == Some(CommitKind::Put) {
            let i = choose|i: int|
                0 <= i < listed@.len() && (#[trigger] listed@[i])@ == key && !bytes_lt(key, start)
                    && bytes_lt(key, end) && kinds[i] == Some(CommitKind::Put);
            assert(views(listed@)[i] == key);
        }
    }
}

/// What was told of the keys of a range, spread over the whole list that they
/// are from.
proof fn lemma_kinds_spread(
    mvcc: KovanMVCC,
    all: Seq<Seq<u8>>,
    start: Seq<u8>,
    end: Seq<u8>,
    ts: u64,
    told: Seq<Option<CommitKind>>,
) -> (kinds: Seq<Option<CommitKind>>)
    requires
        told.len() >= between(all, start, end).len(),
        forall|i: int|
            0 <= i < between(all, start, end).len() ==> #[trigger] may_tell(
                mvcc,
                between(all, start, end)[i],
                ts,
                told[i],
            ),
    ensures
        kinds.len() == all.len(),
        forall|i: int|
            #![trigger all[i]]
            0 <= i < all.len() && !bytes_lt(all[i], start) && bytes_lt(all[i], end) ==> may_tell(
                mvcc,
                all[i],
                ts,
                kinds[i],
            ),
        forall|key: Seq<u8>| #[trigger]
            live(between(all, start, end), told).contains(key) <==> exists|i: int|
                0 <= i < all.len() && (#[trigger] all[i]) == key && !bytes_lt(key, start)
                    && bytes_lt(key, end) && kinds[i] == Some(CommitKind::Put),
    decreases all.len(),
{
    if all.len() == 0 {
        assert(live(between(all, start, end), told) =~= Seq::<Seq<u8>>::empty());
        Seq::empty()
    } else {
        let rest = all.drop_last();
        let last = all.last();
        let whole = between(all, start, end);
        let part = between(rest, start, end);
        assert forall|i: int| 0 <= i < part.len() implies #[trigger] may_tell(
            mvcc,
            part[i],
            ts,
            told[i],
        ) by {
            assert(may_tell(mvcc, whole[i], ts, told[i]));
        }
        let before = lemma_kinds_spread(mvcc, rest, start, end, ts, told);
        let inside = !bytes_lt(last, start) && bytes_lt(last, end);
        let kind = if inside {
            told[part.len() as int]
        } else {
            None
        };
        let kinds = before.push(kind);
        if inside {
            assert(whole == part.push(last));
            assert(may_tell(mvcc, whole[part.len() as int], ts, told[part.len() as int]));
            assert(whole.drop_last() =~= part);
        }
        assert forall|i: int|
            #![trigger all[i]]
            0 <= i < all.len() && !bytes_lt(all[i], start) && bytes_lt(all[i], end) implies may_tell(
            mvcc,
            all[i],
            ts,
            kinds[i],
        ) by {
            if i < rest.len() {
                assert(rest[i] == all[i]);
            }
        }
        let old_live = live(part, told);
        let new_live = live(whole, told);
        assert forall|key: Seq<u8>| #[trigger] new_live.contains(key) <==> exists|i: int|
            0 <= i < all.len() && (#[trigger] all[i]) == key && !bytes_lt(key, start) && bytes_lt(
                key,
                end,
            ) && kinds[i] == Some(CommitKind::Put) by {
            let adds = inside && kind == Some(CommitKind::Put);
            if adds {
                assert(new_live == old_live.push(last));
            } else {
                assert(new_live == old_live);
            }
            if new_live.contains(key) {
                let j = choose|j: int| 0 <= j < new_live.len() && new_live[j] == key;
                if adds && j == old_live.len() {
                    assert(all[all.len() - 1] == key);
                } else {
                    assert(old_live[j] == key);
                    assert(old_live.contains(key));
                    let i = choose|i: int|
                        0 <= i < rest.len() && (#[trigger] rest[i]) == key && !bytes_lt(key, start)
                            && bytes_lt(key, end) && before[i] == Some(CommitKind::Put);
                    assert(all[i] == key);
                }
            }
            if exists|i: int|
                0 <= i < all.len() && (#[trigger] all[i]) == key && !bytes_lt(key, start)
                    && bytes_lt(key, end) && kinds[i] == Some(CommitKind::Put) {
                let i = choose|i: int|
                    0 <= i < all.len() && (#[trigger] all[i]) == key && !bytes_lt(key, start)
                        && bytes_lt(key, end) && kinds[i] == Some(CommitKind::Put);
                if i < rest.len() {
                    assert(rest[i] == key);
                    assert(old_live.contains(key));
                    let j = choose|j: int| 0 <= j < old_live.len() && old_live[j] == key;
                    assert(new_live[j] == key);
                } else {
                    assert(new_live[old_live.len() as int] == key);
                }
            }
        }
        kinds
    }
}

/// Rewinding to a savepoint gives back what was staged when it was set,
/// whatever was staged since, and the savepoints before it.
pub proof fn law_savepoint_rewinds(set: MvccTxn, marked: MvccTxn, later: MvccTxn, rewound: MvccTxn)
    requires
        marked.marks() == set.marks().push(set.writes()),
        later.marks() == marked.marks(),
        rewound.writes() == later.marks().last(),
        rewound.marks() == later.marks().drop_last(),
    ensures
        rewound.writes() == set.writes(),
        rewound.marks() == set.marks(),
{
    assert(set.marks().push(set.writes()).drop_last() =~= set.marks());
}

/// What a transaction committed is what plain reads of the default column
/// family give from then on: a value for each key it wrote, and nothing for
/// each key it deleted. Every other key reads as before.
pub proof fn law_commit_visible(
    txn: MvccTxn,
    before: Db,
    after: Db,
    sync: bool,
    id: u32,
    key: Seq<u8>,
)
    requires
        txn.wf(),
        before.wf(),
        before.batch_fault(projected(txn.list()), false, false) is None,
        after.wrote_batch(before, projected(txn.list()), sync, false, false),
    ensures
        after.reads(id, key, after.horizon()) == (if id == DEFAULT_CF_ID
            && txn.writes().dom().contains(key) {
            Read::Value(txn.writes()[key])
        } else {
            before.reads(id, key, before.horizon())
        }),
{
    let list = txn.list();
    let ops = projected(list);
    lemma_staged_map(list, key);
    if id == DEFAULT_CF_ID && txn.writes().dom().contains(key) {
        let i = choose|i: int| 0 <= i < list.len() && (#[trigger] list[i]).key == key;
        assert(ops[i] == (match list[i].value {
            Some(value) => Op::Put { key: prefixed(DEFAULT_CF_ID, key), value },
            None => Op::Delete { key: prefixed(DEFAULT_CF_ID, key) },
        }));
        assert forall|j: int| i < j < ops.len() implies effect(
            #[trigger] ops[j],
            prefixed(id, key),
        ) == Effect::Nothing by {
            assert(bytes_lt(list[i].key, list[j].key));
            lemma_bytes_lt_irreflexive(key);
            lemma_families_disjoint(DEFAULT_CF_ID, list[j].key, id, key);
        }
        law_last_write_wins(before, after, ops, sync, false, id, key, i);
    } else if ops.len() > 0 {
        assert forall|j: int| 0 <= j < ops.len() implies effect(
            #[trigger] ops[j],
            prefixed(id, key),
        ) == Effect::Nothing by {
            assert(list[j].key != key || id != DEFAULT_CF_ID);
            lemma_families_disjoint(DEFAULT_CF_ID, list[j].key, id, key);
        }
        law_others_untouched(before, after, ops, sync, false, id, key);
    }
}

} // verus!
