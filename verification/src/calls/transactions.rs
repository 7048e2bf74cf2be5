//! Transactions: what they stage, what they read of it, and what a commit
//! leaves in the database.

use std::sync::Arc;

use vstd::prelude::*;

use crate::bytes::{bytes_lt, opt_slice_view, views};
use crate::calls::reads::{alike, law_get_answers_the_read};
use crate::calls::scans::lemma_scanned;
use crate::column_family::DEFAULT_CF_ID;
use crate::db::{pair_views, Db};
use crate::engine::read::Read;
use crate::error::{IoError, Result};
use crate::history::covers;
use crate::mvcc::{
    between, is_new_manager, isolation_for, keys_between, law_commit_visible, law_committed_between, lemma_with_deletes, live,
    live_keys, map_error, map_isolation, may_list, may_tell, projected, reports, settle_read, settled, with_deletes, written,
    CommitKind, IsolationLevel, MvccFailure, MvccIsolation, MvccTransactions, MvccTxn,
    TransactionError, TxResult,
};
use crate::options::{DurabilityMode, MergeOperator};

verus! {

/// The keys kept of a list are those not before `start` and before `end`, all
/// of them, in the order of the list.
pub proof fn law_keys_between(keys: Vec<Vec<u8>>, start: &[u8], end: &[u8], r: Vec<Vec<u8>>)
    requires
        call_ensures(keys_between, (keys, start, end), r),
    ensures
        Seq::new(r@.len(), |i: int| r@[i]@) == Seq::new(keys@.len(), |i: int| keys@[i]@).filter(
            |key: Seq<u8>| !bytes_lt(key, start@) && bytes_lt(key, end@),
        ),
{
    let all = Seq::new(keys@.len(), |i: int| keys@[i]@);
    assert(views(keys@) =~= all);
    assert(views(r@) =~= Seq::new(r@.len(), |i: int| r@[i]@));
    lemma_between_filters(all, start@, end@);
}

proof fn lemma_between_filters(all: Seq<Seq<u8>>, start: Seq<u8>, end: Seq<u8>)
    ensures
        between(all, start, end) == all.filter(
            |key: Seq<u8>| !bytes_lt(key, start) && bytes_lt(key, end),
        ),
    decreases all.len(),
{
    reveal(Seq::filter);
    if all.len() > 0 {
        lemma_between_filters(all.drop_last(), start, end);
    }
}

/// A key is kept of a list if and only if the list holds it and it lies in
/// the range.
pub proof fn law_keys_between_keeps(
    keys: Vec<Vec<u8>>,
    start: &[u8],
    end: &[u8],
    r: Vec<Vec<u8>>,
    key: Seq<u8>,
)
    requires
        call_ensures(keys_between, (keys, start, end), r),
    ensures
        (exists|i: int| 0 <= i < r@.len() && (#[trigger] r@[i])@ == key) <==> (exists|i: int|
            0 <= i < keys@.len() && (#[trigger] keys@[i])@ == key) && !bytes_lt(key, start@)
            && bytes_lt(key, end@),
{
    let all = Seq::new(keys@.len(), |i: int| keys@[i]@);
    let kept = Seq::new(r@.len(), |i: int| r@[i]@);
    let inside = |k: Seq<u8>| !bytes_lt(k, start@) && bytes_lt(k, end@);
    law_keys_between(keys, start, end, r);
    if exists|i: int| 0 <= i < r@.len() && (#[trigger] r@[i])@ == key {
        let i = choose|i: int| 0 <= i < r@.len() && (#[trigger] r@[i])@ == key;
        assert(kept[i] == key);
        all.lemma_filter_pred(inside, i);
        assert(all.filter(inside).contains(key));
        all.lemma_filter_contains_rev(inside, key);
        let j = choose|j: int| 0 <= j < all.len() && all[j] == key;
        assert(keys@[j]@ == key);
    }
    if (exists|i: int| 0 <= i < keys@.len() && (#[trigger] keys@[i])@ == key) && inside(key) {
        let i = choose|i: int| 0 <= i < keys@.len() && (#[trigger] keys@[i])@ == key;
        assert(all[i] == key);
        all.lemma_filter_contains(inside, i);
        let j = choose|j: int| 0 <= j < kept.len() && kept[j] == key;
        assert(r@[j]@ == key);
    }
}

/// The live keys of a list are those whose newest commit is a put, all of
/// them, in the order of the list.
pub proof fn law_live_keys(keys: &Vec<Vec<u8>>, kinds: &Vec<Option<CommitKind>>, r: Vec<Vec<u8>>)
    requires
        keys@.len() == kinds@.len(),
        call_ensures(live_keys, (keys, kinds), r),
    ensures
        Seq::new(r@.len(), |i: int| r@[i]@) == Seq::new(
            keys@.len(),
            |i: int| (keys@[i]@, kinds@[i]),
        ).filter(|told: (Seq<u8>, Option<CommitKind>)| told.1 == Some(CommitKind::Put)).map_values(
            |told: (Seq<u8>, Option<CommitKind>)| told.0,
        ),
{
    let told = Seq::new(keys@.len(), |i: int| (keys@[i]@, kinds@[i]));
    lemma_live_filters(views(keys@), kinds@, told);
    assert(views(r@) =~= Seq::new(r@.len(), |i: int| r@[i]@));
}

proof fn lemma_live_filters(
    all: Seq<Seq<u8>>,
    kinds: Seq<Option<CommitKind>>,
    told: Seq<(Seq<u8>, Option<CommitKind>)>,
)
    requires
        told.len() == all.len(),
        all.len() <= kinds.len(),
        forall|i: int| 0 <= i < all.len() ==> #[trigger] told[i] == (all[i], kinds[i]),
    ensures
        live(all, kinds) == told.filter(
            |t: (Seq<u8>, Option<CommitKind>)| t.1 == Some(CommitKind::Put),
        ).map_values(|t: (Seq<u8>, Option<CommitKind>)| t.0),
    decreases all.len(),
{
    reveal(Seq::filter);
    let puts = |t: (Seq<u8>, Option<CommitKind>)| t.1 == Some(CommitKind::Put);
    let key = |t: (Seq<u8>, Option<CommitKind>)| t.0;
    if all.len() == 0 {
        assert(told.filter(puts).map_values(key) =~= live(all, kinds));
    } else {
        let fewer = told.drop_last();
        assert forall|i: int| 0 <= i < fewer.len() implies #[trigger] fewer[i] == (
            all.drop_last()[i],
            kinds[i],
        ) by {
            assert(told[i] == fewer[i]);
        }
        lemma_live_filters(all.drop_last(), kinds, fewer);
        assert(told.last() == told[all.len() - 1]);
        assert(fewer.filter(puts).push(told.last()).map_values(key) =~= fewer.filter(
            puts,
        ).map_values(key).push(told.last().0));
    }
}

/// A range delete stages a deletion for every key that the store lists in
/// the range and whose newest commit at or before the transaction's start is
/// told to be a put, and leaves what is staged for every other key. An empty
/// range stages nothing.
pub proof fn law_txn_delete_range(
    txn: &mut MvccTxn,
    txns: &MvccTransactions,
    start: &[u8],
    end: &[u8],
    r: TxResult<()>,
    after: MvccTxn,
)
    requires
        old(txn).wf(),
        old(txn).begun_by(*txns),
        call_ensures(MvccTxn::delete_range, (txn, txns, start, end), r),
        *final(txn) == after,
    ensures
        r is Ok,
        !bytes_lt(start@, end@) ==> after.writes() == old(txn).writes(),
        bytes_lt(start@, end@) ==> exists|listed: Vec<Vec<u8>>, kinds: Seq<Option<CommitKind>>|
            {
                &&& #[trigger] may_list(txns.manager(), listed)
                &&& (#[trigger] kinds.len()) == listed@.len()
                &&& forall|i: int|
                    #![trigger listed@[i]]
                    0 <= i < listed@.len() && !bytes_lt(listed@[i]@, start@) && bytes_lt(
                        listed@[i]@,
                        end@,
                    ) ==> may_tell(txns.manager(), listed@[i]@, old(txn).start(), kinds[i])
                &&& forall|i: int|
                    #![trigger listed@[i]]
                    0 <= i < listed@.len() && !bytes_lt(listed@[i]@, start@) && bytes_lt(
                        listed@[i]@,
                        end@,
                    ) && kinds[i] == Some(CommitKind::Put) ==> after.writes().dom().contains(
                        listed@[i]@,
                    ) && after.writes()[listed@[i]@] is None
                &&& forall|key: Seq<u8>|
                    (forall|i: int|
                        0 <= i < listed@.len() && (#[trigger] listed@[i])@ == key ==> bytes_lt(
                            key,
                            start@,
                        ) || !bytes_lt(key, end@) || kinds[i] != Some(CommitKind::Put))
                        ==> after.writes().dom().contains(key) == #[trigger] old(
                        txn,
                    ).writes().dom().contains(key) && after.writes()[key] == old(txn).writes()[key]
            },
{
    let staged = old(txn).writes();
    let keys = choose|keys: Seq<Seq<u8>>| #[trigger]
        with_deletes(staged, keys) == after.writes() && (forall|i: int|
            0 <= i < keys.len() ==> covers(start@, end@, #[trigger] keys[i])) && (bytes_lt(
            start@,
            end@,
        ) ==> txns.committed_between(start@, end@, old(txn).start(), keys));
    if bytes_lt(start@, end@) {
        law_committed_between(*txns, start@, end@, old(txn).start(), keys);
        let (listed, kinds) = choose|listed: Vec<Vec<u8>>, kinds: Seq<Option<CommitKind>>|
            {
                &&& #[trigger] may_list(txns.manager(), listed)
                &&& (#[trigger] kinds.len()) == listed@.len()
                &&& forall|i: int|
                    #![trigger listed@[i]]
                    0 <= i < listed@.len() && !bytes_lt(listed@[i]@, start@) && bytes_lt(
                        listed@[i]@,
                        end@,
                    ) ==> may_tell(txns.manager(), listed@[i]@, old(txn).start(), kinds[i])
                &&& forall|key: Seq<u8>| #[trigger]
                    keys.contains(key) <==> exists|i: int|
                        0 <= i < listed@.len() && (#[trigger] listed@[i])@ == key && !bytes_lt(
                            key,
                            start@,
                        ) && bytes_lt(key, end@) && kinds[i] == Some(CommitKind::Put)
            };
        assert forall|i: int|
            #![trigger listed@[i]]
            0 <= i < listed@.len() && !bytes_lt(listed@[i]@, start@) && bytes_lt(
                listed@[i]@,
                end@,
            ) && kinds[i] == Some(CommitKind::Put) implies after.writes().dom().contains(
            listed@[i]@,
        ) && after.writes()[listed@[i]@] is None by {
            assert(keys.contains(listed@[i]@));
            lemma_with_deletes(staged, keys, listed@[i]@);
        }
        assert forall|key: Seq<u8>|
            (forall|i: int|
                0 <= i < listed@.len() && (#[trigger] listed@[i])@ == key ==> bytes_lt(key, start@)
                    || !bytes_lt(key, end@) || kinds[i] != Some(CommitKind::Put)) implies after.writes().dom().contains(
            key,
        ) == #[trigger] old(txn).writes().dom().contains(key) && after.writes()[key] == old(
            txn,
        ).writes()[key] by {
            assert(!keys.contains(key));
            lemma_with_deletes(staged, keys, key);
        }
    }
}

/// A transaction reads its own writes: after a put it gets the value, and
/// whatever else it staged stands.
pub proof fn law_txn_put_then_get(
    txn: &mut MvccTxn,
    txns: &mut MvccTransactions,
    key: &[u8],
    value: &[u8],
    r: TxResult<()>,
    after: MvccTxn,
    got: TxResult<Option<Vec<u8>>>,
    other: Seq<u8>,
)
    requires
        old(txn).wf(),
        call_ensures(MvccTxn::put, (txn, key, value), r),
        *final(txn) == after,
        call_ensures(MvccTxn::get, (&after, txns, key), got),
    ensures
        r is Ok,
        got matches Ok(Some(v)) && v@ == value@,
        other != key@ ==> after.writes().dom().contains(other) == old(txn).writes().dom().contains(
            other,
        ) && after.writes()[other] == old(txn).writes()[other],
        after.marks() == old(txn).marks(),
{
}

/// A transaction reads its own deletions: after one it gets nothing, and
/// whatever else it staged stands.
pub proof fn law_txn_delete_then_get(
    txn: &mut MvccTxn,
    txns: &mut MvccTransactions,
    key: &[u8],
    r: TxResult<()>,
    after: MvccTxn,
    got: TxResult<Option<Vec<u8>>>,
    other: Seq<u8>,
)
    requires
        old(txn).wf(),
        call_ensures(MvccTxn::delete, (txn, key), r),
        *final(txn) == after,
        call_ensures(MvccTxn::get, (&after, txns, key), got),
    ensures
        r is Ok,
        got matches Ok(None),
        other != key@ ==> after.writes().dom().contains(other) == old(txn).writes().dom().contains(
            other,
        ) && after.writes()[other] == old(txn).writes()[other],
        after.marks() == old(txn).marks(),
{
}

/// A read for update gives what a get gives, and stages it, so that a get
/// then gives it again.
pub proof fn law_txn_get_for_update(
    txn: &mut MvccTxn,
    txns: &mut MvccTransactions,
    key: &[u8],
    read: TxResult<Option<Vec<u8>>>,
    after: MvccTxn,
    later: &mut MvccTransactions,
    again: TxResult<Option<Vec<u8>>>,
)
    requires
        old(txn).wf(),
        call_ensures(MvccTxn::get_for_update, (txn, txns, key), read),
        *final(txn) == after,
        call_ensures(MvccTxn::get, (&after, later, key), again),
    ensures
        read matches Ok(value) ==> {
            &&& after.writes().dom().contains(key@)
            &&& match (value, again) {
                (Some(v), Ok(Some(w))) => v@ == w@ && after.writes()[key@] == Some(v@),
                (None, Ok(None)) => after.writes()[key@] is None,
                _ => false,
            }
        },
        read is Err ==> after.writes() == old(txn).writes(),
{
}

/// A merge in a transaction applies the operator to the value the transaction
/// staged for the key and to the one operand, and a get then gives what comes
/// of it. Where the operator makes nothing of them, nothing is staged.
pub proof fn law_txn_merge_onto_staged(
    txn: &mut MvccTxn,
    txns: &mut MvccTransactions,
    op: &Arc<dyn MergeOperator>,
    key: &[u8],
    operand: &[u8],
    r: TxResult<()>,
    after: MvccTxn,
    later: &mut MvccTransactions,
    got: TxResult<Option<Vec<u8>>>,
)
    requires
        old(txn).wf(),
        old(txn).writes().dom().contains(key@),
        call_ensures(MvccTxn::merge, (txn, txns, Some(op), key, operand), r),
        *final(txn) == after,
        call_ensures(MvccTxn::get, (&after, later, key), got),
    ensures
        match op.merged(key@, old(txn).writes()[key@], seq![operand@]) {
            Some(value) => r is Ok && (got matches Ok(Some(v)) && v@ == value),
            None => r is Err && after.writes() == old(txn).writes(),
        },
{
}

/// Setting a savepoint, staging a put, and rewinding leaves what was staged
/// as it was, and the savepoints before it.
pub proof fn law_txn_rewinds(
    first: &mut MvccTxn,
    second: &mut MvccTxn,
    third: &mut MvccTxn,
    key: &[u8],
    value: &[u8],
    put: TxResult<()>,
    rewound: bool,
)
    requires
        old(first).wf(),
        call_ensures(MvccTxn::set_savepoint, (first,), ()),
        *final(first) == *old(second),
        call_ensures(MvccTxn::put, (second, key, value), put),
        *final(second) == *old(third),
        call_ensures(MvccTxn::rollback_to_savepoint, (third,), rewound),
    ensures
        rewound,
        final(third).wf(),
        final(third).writes() == old(first).writes(),
        final(third).marks() == old(first).marks(),
{
    assert(old(first).marks().push(old(first).writes()).drop_last() =~= old(first).marks());
}

/// Without a savepoint there is nothing to rewind to.
pub proof fn law_txn_no_savepoint(txn: &mut MvccTxn, rewound: bool)
    requires
        old(txn).wf(),
        old(txn).marks().len() == 0,
        call_ensures(MvccTxn::rollback_to_savepoint, (txn,), rewound),
    ensures
        !rewound,
        final(txn).writes() == old(txn).writes(),
{
}

/// A transaction that was just begun has staged nothing and has no savepoint.
pub proof fn law_txn_begins_empty(
    txns: &MvccTransactions,
    isolation: IsolationLevel,
    txn: MvccTxn,
    staged: usize,
)
    requires
        call_ensures(MvccTransactions::begin, (txns, isolation), txn),
    ensures
        txn.wf(),
        txn.begun_by(*txns),
        txn.marks().len() == 0,
        forall|key: Seq<u8>| !(#[trigger] txn.writes().dom().contains(key)),
{
}

/// After a commit that was taken, a get of every key that was staged gives
/// what was staged for it, and of every other key what it gave before. One
/// that a conflict refused leaves the database as it was.
pub proof fn law_commit_then_get(
    txn: MvccTxn,
    txns: &mut MvccTransactions,
    db: &mut Db,
    r: TxResult<u64>,
    after: Db,
    key: &[u8],
    earlier: Result<Option<Vec<u8>>>,
    later: Result<Option<Vec<u8>>>,
)
    requires
        txn.wf(),
        old(db).wf(),
        call_ensures(MvccTxn::commit, (txn, txns, db), r),
        *final(db) == after,
        call_ensures(Db::get, (&*old(db), key), earlier),
        call_ensures(Db::get, (&after, key), later),
    ensures
        r is Ok && txn.writes().dom().contains(key@) ==> match txn.writes()[key@] {
            Some(value) => later matches Ok(Some(v)) && v@ == value,
            None => later matches Ok(None),
        },
        r is Ok && !txn.writes().dom().contains(key@) ==> alike(earlier, later),
        r matches Err(TransactionError::Busy(_)) ==> after == *old(db),
        r matches Err(TransactionError::Conflict { .. }) ==> after == *old(db),
{
    let outcome = choose|outcome: std::result::Result<u64, MvccFailure>| #[trigger]
        txn.may_commit(outcome) && settled(
            outcome,
            txn.list(),
            *old(txns),
            *final(txns),
            *old(db),
            after,
            r,
        );
    if r is Ok {
        let ops = projected(txn.list());
        let sync = old(txns).durability() == DurabilityMode::Immediate;
        law_commit_visible(txn, *old(db), after, sync, DEFAULT_CF_ID, key@);
        assert(!old(db).is_closed());
        law_get_answers_the_read(after, key, later);
        law_get_answers_the_read(*old(db), key, earlier);
    }
}

/// Transactions made over a database start out with what its default family
/// holds: the first thing they commit is a value for every key that a get
/// finds one of, that value, and nothing else.
pub proof fn law_over_starts_with_what_is_there(
    db: Db,
    durability: DurabilityMode,
    r: TxResult<MvccTransactions>,
)
    requires
        db.wf(),
        call_ensures(MvccTransactions::over, (&db, durability), r),
    ensures
        db.is_closed() ==> r is Err,
        r is Ok ==> exists|seed: MvccTxn, ts: u64|
            {
                &&& #[trigger] seed.may_commit(Ok::<u64, MvccFailure>(ts))
                &&& seed.begun_by(r->Ok_0)
                &&& forall|key: Seq<u8>|
                    #![trigger seed.writes().dom().contains(key)]
                    #![trigger db.reads(DEFAULT_CF_ID, key, db.horizon())]
                    match db.reads(DEFAULT_CF_ID, key, db.horizon()) {
                        Read::Value(Some(value)) => seed.writes().dom().contains(key)
                            && seed.writes()[key] == Some(value),
                        _ => !seed.writes().dom().contains(key),
                    }
            },
{
    let held = choose|held: Result<Vec<(Vec<u8>, Vec<u8>)>>| #[trigger]
        db.scanned(DEFAULT_CF_ID, None, None, db.horizon(), held) && match held {
            Err(_) => r matches Err(TransactionError::Io(_)),
            Ok(entries) => exists|seed: MvccTxn, outcome: std::result::Result<u64, MvccFailure>|
                #[trigger]
                seed.may_commit(outcome) && seed.writes() == written(pair_views(entries@))
                    && seed.level() == isolation_for(IsolationLevel::SnapshotIsolation)
                    && match outcome {
                    Ok(_) => r matches Ok(txns) && seed.begun_by(txns) && is_new_manager(
                        txns.manager(),
                    ),
                    Err(failure) => r matches Err(e) && reports(e, failure),
                } && (entries@.len() == 0 ==> r is Ok),
        };
    if r is Ok {
        let entries = held->Ok_0;
        let none: Option<&[u8]> = None;
        assert(opt_slice_view(none) == None::<Seq<u8>>);
        lemma_scanned(db, DEFAULT_CF_ID, none, none, db.horizon(), held);
        let (seed, outcome) = choose|
            seed: MvccTxn,
            outcome: std::result::Result<u64, MvccFailure>,
        | #[trigger]
            seed.may_commit(outcome) && seed.writes() == written(pair_views(entries@))
                && seed.level() == isolation_for(IsolationLevel::SnapshotIsolation)
                && match outcome {
                Ok(_) => r matches Ok(txns) && seed.begun_by(txns) && is_new_manager(
                    txns.manager(),
                ),
                Err(failure) => r matches Err(e) && reports(e, failure),
            } && (entries@.len() == 0 ==> r is Ok);
        let ts = outcome->Ok_0;
        assert(seed.may_commit(Ok::<u64, MvccFailure>(ts)));
        let pairs = pair_views(entries@);
        assert forall|key: Seq<u8>|
            #![trigger seed.writes().dom().contains(key)]
            #![trigger db.reads(DEFAULT_CF_ID, key, db.horizon())]
            match db.reads(DEFAULT_CF_ID, key, db.horizon()) {
                Read::Value(Some(value)) => seed.writes().dom().contains(key)
                    && seed.writes()[key] == Some(value),
                _ => !seed.writes().dom().contains(key),
            } by {
            lemma_written(pairs, key);
            if seed.writes().dom().contains(key) {
                let i = choose|i: int| 0 <= i < pairs.len() && (#[trigger] pairs[i]).0 == key
                    && seed.writes()[key] == Some(pairs[i].1);
                assert(entries@[i].0@ == key);
            }
            if db.reads(DEFAULT_CF_ID, key, db.horizon()) != Read::Value(None) {
                let i = choose|i: int|
                    0 <= i < entries@.len() && (#[trigger] entries@[i]).0@ == key;
                assert(pairs[i].0 == key);
            }
        }
    }
}

/// What is written of a run of entries: every key of it, with a value that
/// stands beside it.
proof fn lemma_written(entries: Seq<(Seq<u8>, Seq<u8>)>, key: Seq<u8>)
    ensures
        written(entries).dom().contains(key) <==> exists|i: int|
            0 <= i < entries.len() && (#[trigger] entries[i]).0 == key,
        written(entries).dom().contains(key) ==> exists|i: int|
            0 <= i < entries.len() && (#[trigger] entries[i]).0 == key && written(entries)[key]
                == Some(entries[i].1),
    decreases entries.len(),
{
    if entries.len() > 0 {
        let rest = entries.drop_last();
        lemma_written(rest, key);
        assert(entries[entries.len() - 1] == entries.last());
        if entries.last().0 != key {
            if written(rest).dom().contains(key) {
                let i = choose|i: int|
                    0 <= i < rest.len() && (#[trigger] rest[i]).0 == key && written(rest)[key]
                        == Some(rest[i].1);
                assert(entries[i] == rest[i]);
            }
            if exists|i: int| 0 <= i < entries.len() && (#[trigger] entries[i]).0 == key {
                let i = choose|i: int| 0 <= i < entries.len() && (#[trigger] entries[i]).0 == key;
                assert(rest[i] == entries[i]);
            }
        }
    }
}

/// No transaction runs at a level weaker than was asked for: what asks for
/// repeatable reads or more runs serializable, a snapshot stays one, and only
/// what asks for committed reads runs at that level.
pub proof fn law_isolation(level: IsolationLevel, r: MvccIsolation)
    requires
        call_ensures(map_isolation, (level,), r),
    ensures
        r is ReadCommitted <==> level is ReadCommitted,
        r is RepeatableRead <==> level is SnapshotIsolation,
        r is Serializable <==> level is RepeatableRead || level is Serializable,
{
}

/// A race lost to another transaction is told by its key, so that the caller
/// can try again; a failure of the store is not told as one.
pub proof fn law_conflict_names_key(failure: MvccFailure, e: TransactionError)
    requires
        call_ensures(map_error, (failure,), e),
    ensures
        match failure {
            MvccFailure::LockConflict { key, .. } => e matches TransactionError::Busy(k) && k@
                == key@,
            MvccFailure::WriteConflict { key, conflicting_ts } => e matches TransactionError::Conflict {
                key: k,
                observed_seq,
                latest_seq,
            } && k@ == key@ && latest_seq == conflicting_ts && observed_seq == 0,
            MvccFailure::SerializationFailure { key, conflicting_ts } => e matches TransactionError::Conflict {
                key: k,
                observed_seq,
                latest_seq,
            } && k@ == key@ && latest_seq == conflicting_ts && observed_seq == 0,
            MvccFailure::RollbackRecord { key } => e matches TransactionError::Conflict {
                key: k,
                observed_seq,
                latest_seq,
            } && k@ == key@ && latest_seq == 0 && observed_seq == 0,
            _ => e is Io,
        },
{
}

/// Of several failures the first is told, once.
pub proof fn law_first_failure_is_told(
    txns: &mut MvccTransactions,
    once: &mut MvccTransactions,
    twice: &mut MvccTransactions,
    again: &mut MvccTransactions,
    a: IoError,
    b: IoError,
    pending: Option<IoError>,
    r: Option<IoError>,
    rest: Option<IoError>,
)
    requires
        pending == old(txns).pending(),
        call_ensures(MvccTransactions::report_failure, (txns, a), ()),
        *old(once) == *final(txns),
        call_ensures(MvccTransactions::report_failure, (once, b), ()),
        *old(twice) == *final(once),
        call_ensures(MvccTransactions::take_failure, (twice,), r),
        *old(again) == *final(twice),
        call_ensures(MvccTransactions::take_failure, (again,), rest),
    ensures
        r == (match pending {
            Some(first) => Some(first),
            None => Some(a),
        }),
        rest is None,
{
}

/// A read is its value where no failure came in between, and that failure
/// where one did.
pub proof fn law_read_settles(
    value: Option<Vec<u8>>,
    failure: Option<IoError>,
    r: TxResult<Option<Vec<u8>>>,
)
    requires
        call_ensures(settle_read, (value, failure), r),
    ensures
        failure is None <==> r is Ok,
        r matches Ok(v) ==> v == value,
        failure matches Some(e) ==> (r matches Err(TransactionError::Io(told)) && told == e),
{
}

/// Deleting keys stages a deletion for each of them, and leaves what is
/// staged for every other key.
pub proof fn law_txn_delete_keys(txn: &mut MvccTxn, keys: &Vec<Vec<u8>>, key: Seq<u8>)
    requires
        old(txn).wf(),
        call_ensures(MvccTxn::delete_keys, (txn, keys), ()),
    ensures
        (exists|i: int| 0 <= i < keys@.len() && (#[trigger] keys@[i])@ == key)
            ==> final(txn).writes().dom().contains(key) && final(txn).writes()[key] is None,
        !(exists|i: int| 0 <= i < keys@.len() && (#[trigger] keys@[i])@ == key)
            ==> final(txn).writes().dom().contains(key) == old(txn).writes().dom().contains(key)
            && final(txn).writes()[key] == old(txn).writes()[key],
        final(txn).marks() == old(txn).marks(),
{
    lemma_with_deletes(old(txn).writes(), views(keys@), key);
    if exists|i: int| 0 <= i < keys@.len() && (#[trigger] keys@[i])@ == key {
        let i = choose|i: int| 0 <= i < keys@.len() && (#[trigger] keys@[i])@ == key;
        assert(views(keys@)[i] == key);
    } else if views(keys@).contains(key) {
        let i = views(keys@).index_of(key);
        assert(keys@[i]@ == key);
    }
}

/// Merging onto what was read stages what the operator makes of it and the
/// operand, and stages nothing where the operator refuses.
pub proof fn law_txn_stage_merge(
    txn: &mut MvccTxn,
    op: &Arc<dyn MergeOperator>,
    key: &[u8],
    existing: Option<Vec<u8>>,
    operand: &[u8],
    r: TxResult<()>,
    other: Seq<u8>,
)
    requires
        old(txn).wf(),
        call_ensures(MvccTxn::stage_merge, (txn, op, key, existing, operand), r),
    ensures
        ({
            let base = match existing {
                Some(v) => Some(v@),
                None => None,
            };
            match op.merged(key@, base, seq![operand@]) {
                Some(value) => r is Ok && final(txn).writes().dom().contains(key@)
                    && final(txn).writes()[key@] == Some(value),
                None => r is Err && final(txn).writes() == old(txn).writes(),
            }
        }),
        other != key@ ==> final(txn).writes().dom().contains(other)
            == old(txn).writes().dom().contains(other) && final(txn).writes()[other]
            == old(txn).writes()[other],
{
}

} // verus!
