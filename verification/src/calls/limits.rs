//! What a write is held to: its options, the limits, and the families it
//! names.

use vstd::prelude::*;

use crate::batch::WriteBatch;
use crate::column_family::{family_of, lemma_prefixed_parts, prefixed, DEFAULT_CF_ID};
use crate::db::ingest::{held_by, ExternalFile};
use crate::db::Db;
use crate::engine::memtable::storable;
use crate::engine::store::write_refusal;
use crate::engine::wal::ops_record_size;
use crate::error::{Error, Result};
use crate::history::Op;
use crate::options::{DurabilityMode, WriteOptions};

verus! {

/// A write owes a sync where its options ask for one, or the database syncs
/// every write, unless it skips the log; what was owed stays owed.
pub proof fn law_put_opt_sync(
    db: &mut Db,
    opts: &WriteOptions,
    key: &[u8],
    value: &[u8],
    r: Result<()>,
    earlier: bool,
    later: bool,
)
    requires
        old(db).wf(),
        call_ensures(Db::sync_due, (&*old(db),), earlier),
        call_ensures(Db::put_opt, (db, opts, key, value), r),
        r is Ok,
        call_ensures(Db::sync_due, (&*final(db),), later),
    ensures
        later <==> earlier || ((opts.sync || old(db).mode() == DurabilityMode::Immediate)
            && !opts.disable_wal),
{
}

/// A write that skips the log is lost in a crash as long as the memtable it
/// is in was not written out; one that does not skip it is durable at once.
pub proof fn law_put_opt_durable(
    db: &mut Db,
    opts: &WriteOptions,
    key: &[u8],
    value: &[u8],
    r: Result<()>,
)
    requires
        old(db).wf(),
        old(db).durable() == old(db).history(),
        call_ensures(Db::put_opt, (db, opts, key, value), r),
        r is Ok,
    ensures
        !opts.disable_wal ==> final(db).durable() == final(db).history(),
        opts.disable_wal && final(db).store().active().len() > 0 ==> final(db).durable()
            == old(db).durable(),
{
    let ops = seq![(Op::Put { key: prefixed(DEFAULT_CF_ID, key@), value: value@ })];
    assert(ops.len() == 1);
}

/// While writes are held back, one that will not wait is refused as busy, and
/// so is any write where waiting would not help. One that can wait is taken.
pub proof fn law_put_opt_stalled(
    db: &mut Db,
    opts: &WriteOptions,
    key: &[u8],
    value: &[u8],
    stall: Option<&'static str>,
    r: Result<()>,
)
    requires
        old(db).wf(),
        !old(db).is_closed(),
        !old(db).is_read_only(),
        key@.len() <= old(db).key_limit(),
        value@.len() <= old(db).value_limit(),
        key@.len() + value@.len() <= 0x3fff_ff00,
        call_ensures(Db::write_stall, (&*old(db),), stall),
        call_ensures(Db::put_opt, (db, opts, key, value), r),
    ensures
        match stall {
            Some(reason) => if opts.no_slowdown || old(db).store().stalled_for_good() {
                r matches Err(Error::Busy(told)) && told@ == reason@
            } else {
                r is Ok
            },
            None => r is Ok,
        },
{
    let op = Op::Put { key: prefixed(DEFAULT_CF_ID, key@), value: value@ };
    let ops = seq![op];
    lemma_prefixed_parts(DEFAULT_CF_ID, key@);
    assert(ops[0] == op);
    assert(storable(op));
    assert(write_refusal(ops, opts.disable_wal) is None);
}

/// Every stored key that an operation names.
pub open spec fn names(op: Op, key: Seq<u8>) -> bool {
    match op {
        Op::Put { key: k, .. } => k == key,
        Op::Delete { key: k } => k == key,
        Op::Merge { key: k, .. } => k == key,
        Op::DeleteRange { start, end } => start == key || end == key,
    }
}

/// Every value that an operation writes.
pub open spec fn brings(op: Op, value: Seq<u8>) -> bool {
    match op {
        Op::Put { value: v, .. } => v == value,
        Op::Merge { operand, .. } => operand == value,
        _ => false,
    }
}

/// An operation names live families alone, and nothing in it is over the
/// limits.
pub open spec fn acceptable(db: Db, op: Op) -> bool {
    &&& forall|key: Seq<u8>| #[trigger]
        names(op, key) ==> key.len() >= 4 && db.families().has_id(family_of(key)) && key.len() - 4
            <= db.key_limit()
    &&& forall|value: Seq<u8>| #[trigger] brings(op, value) ==> value.len() <= db.value_limit()
}

proof fn lemma_acceptable(db: Db, op: Op)
    ensures
        acceptable(db, op) <==> db.op_family_fault(op) is None && db.op_size_fault(op) is None,
{
    match op {
        Op::Put { key, value } => {
            assert(names(op, key));
            assert(brings(op, value));
        },
        Op::Delete { key } => {
            assert(names(op, key));
        },
        Op::Merge { key, operand } => {
            assert(names(op, key));
            assert(brings(op, operand));
        },
        Op::DeleteRange { start, end } => {
            assert(names(op, start));
            assert(names(op, end));
        },
    }
}

proof fn lemma_all_acceptable(db: Db, ops: Seq<Op>)
    ensures
        (forall|i: int| 0 <= i < ops.len() ==> acceptable(db, #[trigger] ops[i]))
            <==> db.batch_family_fault(ops) is None && db.batch_size_fault(ops) is None,
    decreases ops.len(),
{
    if ops.len() > 0 {
        let rest = ops.drop_last();
        lemma_all_acceptable(db, rest);
        lemma_acceptable(db, ops.last());
        assert(ops[ops.len() - 1] == ops.last());
        assert forall|i: int| 0 <= i < rest.len() implies rest[i] == #[trigger] ops[i] by {}
        if forall|i: int| 0 <= i < rest.len() ==> acceptable(db, #[trigger] rest[i]) {
            assert forall|i: int| 0 <= i < rest.len() implies acceptable(db, #[trigger] ops[i]) by {
                assert(rest[i] == ops[i]);
            }
        }
        if forall|i: int| 0 <= i < ops.len() ==> acceptable(db, #[trigger] ops[i]) {
            assert forall|i: int| 0 <= i < rest.len() implies acceptable(
                db,
                #[trigger] rest[i],
            ) by {
                assert(rest[i] == ops[i]);
            }
        }
    }
}

/// A batch is taken where the database is open and takes writes, every
/// operation names live families and keeps to the limits, nothing stalls, and
/// it fits in the log; and it is refused where any of these fails. An empty
/// batch is taken by any database that takes writes.
pub proof fn law_batch_taken(db: &mut Db, batch: WriteBatch, r: Result<()>)
    requires
        old(db).wf(),
        call_ensures(Db::write, (db, batch), r),
    ensures
        old(db).is_closed() ==> r matches Err(Error::Closed),
        !old(db).is_closed() && old(db).is_read_only() ==> r matches Err(Error::ReadOnly),
        !old(db).is_closed() && !old(db).is_read_only() && batch.ops().len() == 0 ==> r is Ok,
        (exists|i: int| 0 <= i < batch.ops().len() && !acceptable(*old(db), #[trigger] batch.ops()[i]))
            ==> r is Err,
        !old(db).is_closed() && !old(db).is_read_only() && old(db).store().stall() is None && (forall|
            i: int,
        |
            0 <= i < batch.ops().len() ==> acceptable(*old(db), #[trigger] batch.ops()[i])
                && storable(batch.ops()[i])) && ops_record_size(batch.ops()) <= 0x4000_0000 ==> r
            is Ok,
{
    lemma_all_acceptable(*old(db), batch.ops());
}

/// Taking in external files is all or nothing: files that name a family that
/// is not live, or a key too short to name one, are refused and nothing
/// changes.
pub proof fn law_ingest_all_or_nothing(
    db: &mut Db,
    files: Vec<ExternalFile>,
    r: Result<()>,
    key: Seq<u8>,
    i: int,
)
    requires
        old(db).wf(),
        call_ensures(Db::ingest_external_files, (db, files), r),
    ensures
        r is Err ==> *final(db) == *old(db),
        old(db).is_closed() ==> r matches Err(Error::Closed),
        !old(db).is_closed() && old(db).is_read_only() ==> r matches Err(Error::ReadOnly),
        0 <= i < held_by(files@).len() && names(held_by(files@)[i], key) && (key.len() < 4 || !old(
            db,
        ).families().has_id(family_of(key))) ==> r is Err,
{
    if 0 <= i < held_by(files@).len() && names(held_by(files@)[i], key) && (key.len() < 4 || !old(
        db,
    ).families().has_id(family_of(key))) {
        lemma_foreign(*old(db), held_by(files@), i, key);
    }
}

proof fn lemma_foreign(db: Db, ops: Seq<Op>, i: int, key: Seq<u8>)
    requires
        0 <= i < ops.len(),
        names(ops[i], key),
        key.len() < 4 || !db.families().has_id(family_of(key)),
    ensures
        db.foreign_fault(ops) is Some,
    decreases ops.len(),
{
    if i < ops.len() - 1 {
        assert(ops.drop_last()[i] == ops[i]);
        lemma_foreign(db, ops.drop_last(), i, key);
    } else {
        assert(ops.last() == ops[i]);
    }
}

/// Compacting a range is refused for a closed or read-only database, and for
/// a bound longer than a key may be; nothing else refuses it.
pub proof fn law_compact_range_taken(
    db: &mut Db,
    start: Option<&[u8]>,
    end: Option<&[u8]>,
    r: Result<()>,
)
    requires
        old(db).wf(),
        call_ensures(Db::compact_range, (db, start, end), r),
    ensures
        r is Ok <==> !old(db).is_closed() && !old(db).is_read_only() && (start matches Some(s)
            ==> s@.len() <= old(db).key_limit()) && (end matches Some(e) ==> e@.len()
            <= old(db).key_limit()),
        r is Err ==> *final(db) == *old(db),
{
}

} // verus!
