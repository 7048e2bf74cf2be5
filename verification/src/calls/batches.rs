//! Batches: that a batch does what its operations do in the order they were
//! added, all of it or none of it.

use vstd::prelude::*;

use crate::batch::{WriteBatch, WriteTally};
use crate::bytes::bytes_lt;
use crate::calls::merges::answers_merge;
use crate::calls::reads::alike;
use crate::column_family::{
    lemma_families_disjoint, lemma_family_range, lemma_prefixed_parts, prefixed, ColumnFamilyHandle,
    DEFAULT_CF_ID,
};
use crate::db::laws::lemma_run_extended;
use crate::db::Db;
use crate::error::Result;
use crate::history::{numbered, probe, Op};
use crate::options::{DurabilityMode, WriteOptions};

verus! {

/// What a batch that was taken leaves in the history.
proof fn lemma_taken(before: Db, after: Db, ops: Seq<Op>, sync: bool, no_slowdown: bool, disable_wal: bool)
    requires
        before.wf(),
        before.batch_fault(ops, no_slowdown, disable_wal) is None,
        after.wrote_batch(before, ops, sync, no_slowdown, disable_wal),
    ensures
        after.horizon() == before.horizon() + ops.len(),
        after.history() == before.history() + numbered(ops, before.horizon() + 1),
        after.operator() == before.operator(),
        after.families() == before.families(),
        !before.is_closed() && !after.is_closed(),
{
    if ops.len() == 0 {
        assert(before.history() + numbered(ops, before.horizon() + 1) =~= before.history());
    }
}

/// A batch that was refused changes nothing, and an empty one that was taken
/// changes nothing either.
pub proof fn law_batch_all_or_nothing(
    db: &mut Db,
    batch: WriteBatch,
    r: Result<()>,
    empty: bool,
)
    requires
        old(db).wf(),
        call_ensures(WriteBatch::is_empty, (&batch,), empty),
        call_ensures(Db::write, (db, batch), r),
    ensures
        r is Err ==> *final(db) == *old(db),
        empty ==> *final(db) == *old(db),
{
}

/// A `put` at the end of a batch: once the batch is taken a get gives
/// the value put; every other key reads as if the batch had been
/// written without it.
pub proof fn law_batch_put(
    batch: &mut WriteBatch,
    written: &[u8],
    value: &[u8],
    db: &mut Db,
    r: Result<()>,
    long: Db,
    other: &mut Db,
    q: Result<()>,
    short: Db,
    key: &[u8],
    g: Result<Option<Vec<u8>>>,
    without: Result<Option<Vec<u8>>>,
)
    requires
        call_ensures(WriteBatch::put, (batch, written, value), ()),
        old(db).wf(),
        *old(other) == *old(db),
        call_ensures(Db::write, (db, *final(batch)), r),
        *final(db) == long,
        call_ensures(Db::write, (other, *old(batch)), q),
        *final(other) == short,
        r is Ok && q is Ok,
        call_ensures(Db::get, (&long, key), g),
        call_ensures(Db::get, (&short, key), without),
    ensures
        key@ == written@ ==> (g matches Ok(Some(x)) && x@ == value@),
        key@ != written@ ==> alike(without, g),
{
    let before = *old(db);
    let ops = old(batch).ops();
    let op = Op::Put { key: prefixed(DEFAULT_CF_ID, written@), value: value@ };
    let sync = before.mode() == DurabilityMode::Immediate;
    let all = final(batch).ops();
    lemma_taken(before, short, ops, sync, false, false);
    lemma_taken(before, long, all, sync, false, false);
    if true {
        lemma_run_extended(before, short, long, ops, op, prefixed(DEFAULT_CF_ID, key@));
        lemma_families_disjoint(DEFAULT_CF_ID, written@, DEFAULT_CF_ID, key@);
    }
}

/// A `put_owned` at the end of a batch: once the batch is taken a get gives
/// the value put; every other key reads as if the batch had been
/// written without it.
pub proof fn law_batch_put_owned(
    batch: &mut WriteBatch,
    written: &[u8],
    value: Vec<u8>,
    db: &mut Db,
    r: Result<()>,
    long: Db,
    other: &mut Db,
    q: Result<()>,
    short: Db,
    key: &[u8],
    g: Result<Option<Vec<u8>>>,
    without: Result<Option<Vec<u8>>>,
)
    requires
        call_ensures(WriteBatch::put_owned, (batch, written, value), ()),
        old(db).wf(),
        *old(other) == *old(db),
        call_ensures(Db::write, (db, *final(batch)), r),
        *final(db) == long,
        call_ensures(Db::write, (other, *old(batch)), q),
        *final(other) == short,
        r is Ok && q is Ok,
        call_ensures(Db::get, (&long, key), g),
        call_ensures(Db::get, (&short, key), without),
    ensures
        key@ == written@ ==> (g matches Ok(Some(x)) && x@ == value@),
        key@ != written@ ==> alike(without, g),
{
    let before = *old(db);
    let ops = old(batch).ops();
    let op = Op::Put { key: prefixed(DEFAULT_CF_ID, written@), value: value@ };
    let sync = before.mode() == DurabilityMode::Immediate;
    let all = final(batch).ops();
    lemma_taken(before, short, ops, sync, false, false);
    lemma_taken(before, long, all, sync, false, false);
    if true {
        lemma_run_extended(before, short, long, ops, op, prefixed(DEFAULT_CF_ID, key@));
        lemma_families_disjoint(DEFAULT_CF_ID, written@, DEFAULT_CF_ID, key@);
    }
}

/// A `delete` at the end of a batch: once the batch is taken a get gives
/// nothing; every other key reads as if the batch had been
/// written without it.
pub proof fn law_batch_delete(
    batch: &mut WriteBatch,
    written: &[u8],
    db: &mut Db,
    r: Result<()>,
    long: Db,
    other: &mut Db,
    q: Result<()>,
    short: Db,
    key: &[u8],
    g: Result<Option<Vec<u8>>>,
    without: Result<Option<Vec<u8>>>,
)
    requires
        call_ensures(WriteBatch::delete, (batch, written), ()),
        old(db).wf(),
        *old(other) == *old(db),
        call_ensures(Db::write, (db, *final(batch)), r),
        *final(db) == long,
        call_ensures(Db::write, (other, *old(batch)), q),
        *final(other) == short,
        r is Ok && q is Ok,
        call_ensures(Db::get, (&long, key), g),
        call_ensures(Db::get, (&short, key), without),
    ensures
        key@ == written@ ==> g matches Ok(None),
        key@ != written@ ==> alike(without, g),
{
    let before = *old(db);
    let ops = old(batch).ops();
    let op = Op::Delete { key: prefixed(DEFAULT_CF_ID, written@) };
    let sync = before.mode() == DurabilityMode::Immediate;
    let all = final(batch).ops();
    lemma_taken(before, short, ops, sync, false, false);
    lemma_taken(before, long, all, sync, false, false);
    if true {
        lemma_run_extended(before, short, long, ops, op, prefixed(DEFAULT_CF_ID, key@));
        lemma_families_disjoint(DEFAULT_CF_ID, written@, DEFAULT_CF_ID, key@);
    }
}

/// A `merge` at the end of a batch: once the batch is taken a get gives
/// what the operator makes of the operand, where nothing was there without it; every other key reads as if the batch had been
/// written without it.
pub proof fn law_batch_merge(
    batch: &mut WriteBatch,
    written: &[u8],
    operand: &[u8],
    db: &mut Db,
    r: Result<()>,
    long: Db,
    other: &mut Db,
    q: Result<()>,
    short: Db,
    key: &[u8],
    g: Result<Option<Vec<u8>>>,
    without: Result<Option<Vec<u8>>>,
)
    requires
        call_ensures(WriteBatch::merge, (batch, written, operand), ()),
        old(db).wf(),
        *old(other) == *old(db),
        call_ensures(Db::write, (db, *final(batch)), r),
        *final(db) == long,
        call_ensures(Db::write, (other, *old(batch)), q),
        *final(other) == short,
        r is Ok && q is Ok,
        call_ensures(Db::get, (&long, key), g),
        call_ensures(Db::get, (&short, key), without),
    ensures
        key@ == written@ && (without matches Ok(None)) ==> answers_merge(*old(db), key@, None, seq![operand@], g),
        key@ != written@ ==> alike(without, g),
{
    let before = *old(db);
    let ops = old(batch).ops();
    let op = Op::Merge { key: prefixed(DEFAULT_CF_ID, written@), operand: operand@ };
    let sync = before.mode() == DurabilityMode::Immediate;
    let all = final(batch).ops();
    lemma_taken(before, short, ops, sync, false, false);
    lemma_taken(before, long, all, sync, false, false);
    if true {
        lemma_run_extended(before, short, long, ops, op, prefixed(DEFAULT_CF_ID, key@));
        lemma_families_disjoint(DEFAULT_CF_ID, written@, DEFAULT_CF_ID, key@);
        lemma_prefixed_parts(DEFAULT_CF_ID, key@);
        let found = probe(short.history(), prefixed(DEFAULT_CF_ID, key@), short.horizon());
        if without matches Ok(None) {
            assert(found.operands.len() == 0);
            assert(found.operands.push(operand@) =~= seq![operand@]);
        }
    }
}

/// A `delete_range` at the end of a batch: once the batch is taken a get gives
/// nothing of every key of the range; every other key reads as if the batch had been
/// written without it.
pub proof fn law_batch_delete_range(
    batch: &mut WriteBatch,
    start: &[u8],
    end: &[u8],
    db: &mut Db,
    r: Result<()>,
    long: Db,
    other: &mut Db,
    q: Result<()>,
    short: Db,
    key: &[u8],
    g: Result<Option<Vec<u8>>>,
    without: Result<Option<Vec<u8>>>,
)
    requires
        call_ensures(WriteBatch::delete_range, (batch, start, end), ()),
        old(db).wf(),
        *old(other) == *old(db),
        call_ensures(Db::write, (db, *final(batch)), r),
        *final(db) == long,
        call_ensures(Db::write, (other, *old(batch)), q),
        *final(other) == short,
        r is Ok && q is Ok,
        call_ensures(Db::get, (&long, key), g),
        call_ensures(Db::get, (&short, key), without),
    ensures
        !bytes_lt(key@, start@) && bytes_lt(key@, end@) ==> g matches Ok(None),
        bytes_lt(key@, start@) || !bytes_lt(key@, end@) ==> alike(without, g),
{
    let before = *old(db);
    let ops = old(batch).ops();
    let op = Op::DeleteRange { start: prefixed(DEFAULT_CF_ID, start@), end: prefixed(DEFAULT_CF_ID, end@) };
    let sync = before.mode() == DurabilityMode::Immediate;
    let all = final(batch).ops();
    if !bytes_lt(key@, start@) && bytes_lt(key@, end@) {
        crate::bytes::lemma_bytes_le_lt(start@, key@, end@);
    }
    lemma_taken(before, short, ops, sync, false, false);
    lemma_taken(before, long, all, sync, false, false);
    if bytes_lt(start@, end@) {
        lemma_run_extended(before, short, long, ops, op, prefixed(DEFAULT_CF_ID, key@));
        lemma_family_range(DEFAULT_CF_ID, start@, end@, DEFAULT_CF_ID, key@);
    }
}

/// A `put_cf` in a column family at the end of a batch: once the batch is taken a get gives
/// the value put; every other key reads as if the batch had been
/// written without it.
pub proof fn law_batch_put_cf(
    batch: &mut WriteBatch,
    cf: &ColumnFamilyHandle,
    written: &[u8],
    value: &[u8],
    db: &mut Db,
    r: Result<()>,
    long: Db,
    other: &mut Db,
    q: Result<()>,
    short: Db,
    key: &[u8],
    g: Result<Option<Vec<u8>>>,
    without: Result<Option<Vec<u8>>>,
)
    requires
        call_ensures(WriteBatch::put_cf, (batch, cf, written, value), ()),
        old(db).wf(),
        *old(other) == *old(db),
        call_ensures(Db::write, (db, *final(batch)), r),
        *final(db) == long,
        call_ensures(Db::write, (other, *old(batch)), q),
        *final(other) == short,
        r is Ok && q is Ok,
        old(db).families().is_live(*cf),
        call_ensures(Db::get_cf, (&long, cf, key), g),
        call_ensures(Db::get_cf, (&short, cf, key), without),
    ensures
        key@ == written@ ==> (g matches Ok(Some(x)) && x@ == value@),
        key@ != written@ ==> alike(without, g),
{
    let before = *old(db);
    let ops = old(batch).ops();
    let op = Op::Put { key: prefixed(cf.id_number(), written@), value: value@ };
    let sync = before.mode() == DurabilityMode::Immediate;
    let all = final(batch).ops();
    lemma_taken(before, short, ops, sync, false, false);
    lemma_taken(before, long, all, sync, false, false);
    if true {
        lemma_run_extended(before, short, long, ops, op, prefixed(cf.id_number(), key@));
        lemma_families_disjoint(cf.id_number(), written@, cf.id_number(), key@);
    }
}

/// A `delete_cf` in a column family at the end of a batch: once the batch is taken a get gives
/// nothing; every other key reads as if the batch had been
/// written without it.
pub proof fn law_batch_delete_cf(
    batch: &mut WriteBatch,
    cf: &ColumnFamilyHandle,
    written: &[u8],
    db: &mut Db,
    r: Result<()>,
    long: Db,
    other: &mut Db,
    q: Result<()>,
    short: Db,
    key: &[u8],
    g: Result<Option<Vec<u8>>>,
    without: Result<Option<Vec<u8>>>,
)
    requires
        call_ensures(WriteBatch::delete_cf, (batch, cf, written), ()),
        old(db).wf(),
        *old(other) == *old(db),
        call_ensures(Db::write, (db, *final(batch)), r),
        *final(db) == long,
        call_ensures(Db::write, (other, *old(batch)), q),
        *final(other) == short,
        r is Ok && q is Ok,
        old(db).families().is_live(*cf),
        call_ensures(Db::get_cf, (&long, cf, key), g),
        call_ensures(Db::get_cf, (&short, cf, key), without),
    ensures
        key@ == written@ ==> g matches Ok(None),
        key@ != written@ ==> alike(without, g),
{
    let before = *old(db);
    let ops = old(batch).ops();
    let op = Op::Delete { key: prefixed(cf.id_number(), written@) };
    let sync = before.mode() == DurabilityMode::Immediate;
    let all = final(batch).ops();
    lemma_taken(before, short, ops, sync, false, false);
    lemma_taken(before, long, all, sync, false, false);
    if true {
        lemma_run_extended(before, short, long, ops, op, prefixed(cf.id_number(), key@));
        lemma_families_disjoint(cf.id_number(), written@, cf.id_number(), key@);
    }
}

/// A `merge_cf` in a column family at the end of a batch: once the batch is taken a get gives
/// what the operator makes of the operand, where nothing was there without it; every other key reads as if the batch had been
/// written without it.
pub proof fn law_batch_merge_cf(
    batch: &mut WriteBatch,
    cf: &ColumnFamilyHandle,
    written: &[u8],
    operand: &[u8],
    db: &mut Db,
    r: Result<()>,
    long: Db,
    other: &mut Db,
    q: Result<()>,
    short: Db,
    key: &[u8],
    g: Result<Option<Vec<u8>>>,
    without: Result<Option<Vec<u8>>>,
)
    requires
        call_ensures(WriteBatch::merge_cf, (batch, cf, written, operand), ()),
        old(db).wf(),
        *old(other) == *old(db),
        call_ensures(Db::write, (db, *final(batch)), r),
        *final(db) == long,
        call_ensures(Db::write, (other, *old(batch)), q),
        *final(other) == short,
        r is Ok && q is Ok,
        old(db).families().is_live(*cf),
        call_ensures(Db::get_cf, (&long, cf, key), g),
        call_ensures(Db::get_cf, (&short, cf, key), without),
    ensures
        key@ == written@ && (without matches Ok(None)) ==> answers_merge(*old(db), key@, None, seq![operand@], g),
        key@ != written@ ==> alike(without, g),
{
    let before = *old(db);
    let ops = old(batch).ops();
    let op = Op::Merge { key: prefixed(cf.id_number(), written@), operand: operand@ };
    let sync = before.mode() == DurabilityMode::Immediate;
    let all = final(batch).ops();
    lemma_taken(before, short, ops, sync, false, false);
    lemma_taken(before, long, all, sync, false, false);
    if true {
        lemma_run_extended(before, short, long, ops, op, prefixed(cf.id_number(), key@));
        lemma_families_disjoint(cf.id_number(), written@, cf.id_number(), key@);
        lemma_prefixed_parts(cf.id_number(), key@);
        let found = probe(short.history(), prefixed(cf.id_number(), key@), short.horizon());
        if without matches Ok(None) {
            assert(found.operands.len() == 0);
            assert(found.operands.push(operand@) =~= seq![operand@]);
        }
    }
}

/// A `delete_range_cf` in a column family at the end of a batch: once the batch is taken a get gives
/// nothing of every key of the range; every other key reads as if the batch had been
/// written without it.
pub proof fn law_batch_delete_range_cf(
    batch: &mut WriteBatch,
    cf: &ColumnFamilyHandle,
    start: &[u8],
    end: &[u8],
    db: &mut Db,
    r: Result<()>,
    long: Db,
    other: &mut Db,
    q: Result<()>,
    short: Db,
    key: &[u8],
    g: Result<Option<Vec<u8>>>,
    without: Result<Option<Vec<u8>>>,
)
    requires
        call_ensures(WriteBatch::delete_range_cf, (batch, cf, start, end), ()),
        old(db).wf(),
        *old(other) == *old(db),
        call_ensures(Db::write, (db, *final(batch)), r),
        *final(db) == long,
        call_ensures(Db::write, (other, *old(batch)), q),
        *final(other) == short,
        r is Ok && q is Ok,
        old(db).families().is_live(*cf),
        call_ensures(Db::get_cf, (&long, cf, key), g),
        call_ensures(Db::get_cf, (&short, cf, key), without),
    ensures
        !bytes_lt(key@, start@) && bytes_lt(key@, end@) ==> g matches Ok(None),
        bytes_lt(key@, start@) || !bytes_lt(key@, end@) ==> alike(without, g),
{
    let before = *old(db);
    let ops = old(batch).ops();
    let op = Op::DeleteRange { start: prefixed(cf.id_number(), start@), end: prefixed(cf.id_number(), end@) };
    let sync = before.mode() == DurabilityMode::Immediate;
    let all = final(batch).ops();
    if !bytes_lt(key@, start@) && bytes_lt(key@, end@) {
        crate::bytes::lemma_bytes_le_lt(start@, key@, end@);
    }
    lemma_taken(before, short, ops, sync, false, false);
    lemma_taken(before, long, all, sync, false, false);
    if bytes_lt(start@, end@) {
        lemma_run_extended(before, short, long, ops, op, prefixed(cf.id_number(), key@));
        lemma_family_range(cf.id_number(), start@, end@, cf.id_number(), key@);
    }
}

/// A put and then merges in one batch come to what the operator makes of the
/// value and of the operands in the order they were added.
pub proof fn law_batch_put_then_merges(
    db: &mut Db,
    batch: WriteBatch,
    r: Result<()>,
    after: Db,
    key: &[u8],
    value: Seq<u8>,
    operands: Seq<Seq<u8>>,
    g: Result<Option<Vec<u8>>>,
)
    requires
        old(db).wf(),
        operands.len() >= 1,
        batch.ops() == seq![(Op::Put { key: prefixed(DEFAULT_CF_ID, key@), value })] + Seq::new(
            operands.len(),
            |i: int| Op::Merge { key: prefixed(DEFAULT_CF_ID, key@), operand: operands[i] },
        ),
        call_ensures(Db::write, (db, batch), r),
        r is Ok,
        *final(db) == after,
        call_ensures(Db::get, (&after, key), g),
    ensures
        answers_merge(*old(db), key@, Some(value), operands, g),
{
    let before = *old(db);
    let stored = prefixed(DEFAULT_CF_ID, key@);
    lemma_taken(
        before,
        after,
        batch.ops(),
        before.mode() == DurabilityMode::Immediate,
        false,
        false,
    );
    lemma_chain_in_batch(
        before.history(),
        before.horizon() + 1,
        stored,
        value,
        operands,
        after.horizon(),
    );
    lemma_prefixed_parts(DEFAULT_CF_ID, key@);
}

/// What a put and merges of one key hold of it, read at the end.
proof fn lemma_chain_in_batch(
    h: Seq<crate::history::Logged>,
    base: int,
    key: Seq<u8>,
    value: Seq<u8>,
    operands: Seq<Seq<u8>>,
    seq: u64,
)
    requires
        base >= 1,
        base + operands.len() <= seq,
    ensures
        ({
            let ops = seq![(Op::Put { key, value })] + Seq::new(
                operands.len(),
                |i: int| Op::Merge { key, operand: operands[i] },
            );
            probe(h + numbered(ops, base), key, seq) == (crate::history::Probe {
                operands,
                end: crate::history::End::Value(value),
            })
        }),
    decreases operands.len(),
{
    let merges = Seq::new(operands.len(), |i: int| Op::Merge { key, operand: operands[i] });
    let ops = seq![(Op::Put { key, value })] + merges;
    let all = h + numbered(ops, base);
    if operands.len() == 0 {
        assert(all.last() == numbered(ops, base)[0]);
        assert(operands =~= Seq::<Seq<u8>>::empty());
    } else {
        let fewer = operands.drop_last();
        let less = seq![(Op::Put { key, value })] + Seq::new(
            fewer.len(),
            |i: int| Op::Merge { key, operand: fewer[i] },
        );
        lemma_chain_in_batch(h, base, key, value, fewer, seq);
        assert(all.drop_last() =~= h + numbered(less, base));
        assert(all.last() == numbered(ops, base)[operands.len() as int]);
        assert(all.last().op == ops[operands.len() as int]);
        assert(fewer.push(operands.last()) =~= operands);
    }
}

/// Whichever way a batch is written, the reads after it are those after a
/// plain write, and the sequence number is the same.
pub proof fn law_write_opt_reads_like_write(
    db: &mut Db,
    opts: &WriteOptions,
    batch: WriteBatch,
    r: Result<()>,
    after: Db,
    plain: &mut Db,
    q: Result<()>,
    beside: Db,
    cf: &ColumnFamilyHandle,
    key: &[u8],
    g: Result<Option<Vec<u8>>>,
    w: Result<Option<Vec<u8>>>,
    latest: u64,
    other: u64,
)
    requires
        old(db).wf(),
        *old(plain) == *old(db),
        call_ensures(Db::write_opt, (db, opts, batch), r),
        *final(db) == after,
        call_ensures(Db::write, (plain, batch), q),
        *final(plain) == beside,
        r is Ok && q is Ok,
        call_ensures(Db::get_cf, (&after, cf, key), g),
        call_ensures(Db::get_cf, (&beside, cf, key), w),
        call_ensures(Db::latest_sequence, (&after,), latest),
        call_ensures(Db::latest_sequence, (&beside,), other),
    ensures
        alike(g, w),
        latest == other,
{
    let before = *old(db);
    lemma_taken(before, after, batch.ops(), old(db).syncs(*opts), opts.no_slowdown, opts.disable_wal);
    lemma_taken(before, beside, batch.ops(), before.mode() == DurabilityMode::Immediate, false, false);
}

/// Whichever way a batch is written, the reads after it are those after a
/// plain write, and the sequence number is the same.
pub proof fn law_write_sequenced_reads_like_write(
    db: &mut Db,
    batch: WriteBatch,
    r: Result<u64>,
    after: Db,
    plain: &mut Db,
    q: Result<()>,
    beside: Db,
    cf: &ColumnFamilyHandle,
    key: &[u8],
    g: Result<Option<Vec<u8>>>,
    w: Result<Option<Vec<u8>>>,
    latest: u64,
    other: u64,
)
    requires
        old(db).wf(),
        *old(plain) == *old(db),
        call_ensures(Db::write_sequenced, (db, batch), r),
        *final(db) == after,
        call_ensures(Db::write, (plain, batch), q),
        *final(plain) == beside,
        r is Ok && q is Ok,
        call_ensures(Db::get_cf, (&after, cf, key), g),
        call_ensures(Db::get_cf, (&beside, cf, key), w),
        call_ensures(Db::latest_sequence, (&after,), latest),
        call_ensures(Db::latest_sequence, (&beside,), other),
    ensures
        alike(g, w),
        latest == other,
{
    let before = *old(db);
    lemma_taken(before, after, batch.ops(), old(db).mode() == DurabilityMode::Immediate, false, false);
    lemma_taken(before, beside, batch.ops(), before.mode() == DurabilityMode::Immediate, false, false);
}

/// Whichever way a batch is written, the reads after it are those after a
/// plain write, and the sequence number is the same.
pub proof fn law_write_sequenced_opt_reads_like_write(
    db: &mut Db,
    opts: &WriteOptions,
    batch: WriteBatch,
    r: Result<u64>,
    after: Db,
    plain: &mut Db,
    q: Result<()>,
    beside: Db,
    cf: &ColumnFamilyHandle,
    key: &[u8],
    g: Result<Option<Vec<u8>>>,
    w: Result<Option<Vec<u8>>>,
    latest: u64,
    other: u64,
)
    requires
        old(db).wf(),
        *old(plain) == *old(db),
        call_ensures(Db::write_sequenced_opt, (db, opts, batch), r),
        *final(db) == after,
        call_ensures(Db::write, (plain, batch), q),
        *final(plain) == beside,
        r is Ok && q is Ok,
        call_ensures(Db::get_cf, (&after, cf, key), g),
        call_ensures(Db::get_cf, (&beside, cf, key), w),
        call_ensures(Db::latest_sequence, (&after,), latest),
        call_ensures(Db::latest_sequence, (&beside,), other),
    ensures
        alike(g, w),
        latest == other,
{
    let before = *old(db);
    lemma_taken(before, after, batch.ops(), old(db).syncs(*opts), opts.no_slowdown, opts.disable_wal);
    lemma_taken(before, beside, batch.ops(), before.mode() == DurabilityMode::Immediate, false, false);
}

/// Whichever way a batch is written, the reads after it are those after a
/// plain write, and the sequence number is the same.
pub proof fn law_write_with_durability_reads_like_write(
    db: &mut Db,
    durability: DurabilityMode,
    batch: WriteBatch,
    r: Result<()>,
    after: Db,
    plain: &mut Db,
    q: Result<()>,
    beside: Db,
    cf: &ColumnFamilyHandle,
    key: &[u8],
    g: Result<Option<Vec<u8>>>,
    w: Result<Option<Vec<u8>>>,
    latest: u64,
    other: u64,
)
    requires
        old(db).wf(),
        *old(plain) == *old(db),
        call_ensures(Db::write_with_durability, (db, batch, durability), r),
        *final(db) == after,
        call_ensures(Db::write, (plain, batch), q),
        *final(plain) == beside,
        r is Ok && q is Ok,
        call_ensures(Db::get_cf, (&after, cf, key), g),
        call_ensures(Db::get_cf, (&beside, cf, key), w),
        call_ensures(Db::latest_sequence, (&after,), latest),
        call_ensures(Db::latest_sequence, (&beside,), other),
    ensures
        alike(g, w),
        latest == other,
{
    let before = *old(db);
    lemma_taken(before, after, batch.ops(), durability == DurabilityMode::Immediate, false, false);
    lemma_taken(before, beside, batch.ops(), before.mode() == DurabilityMode::Immediate, false, false);
}

/// The number that `write_sequenced` gives back is the newest that a snapshot
/// taken then would read at, and the batch took one number for each of its
/// operations.
pub proof fn law_write_sequenced_number(
    db: &mut Db,
    batch: WriteBatch,
    r: Result<u64>,
    after: Db,
    earlier: u64,
    latest: u64,
    points: usize,
    ranges: usize,
    merges: usize,
)
    requires
        old(db).wf(),
        call_ensures(Db::latest_sequence, (&*old(db),), earlier),
        call_ensures(WriteBatch::len, (&batch,), points),
        call_ensures(WriteBatch::range_delete_count, (&batch,), ranges),
        call_ensures(WriteBatch::merge_count, (&batch,), merges),
        call_ensures(Db::write_sequenced, (db, batch), r),
        *final(db) == after,
        call_ensures(Db::latest_sequence, (&after,), latest),
    ensures
        r matches Ok(number) ==> number == latest && number == earlier + points + ranges + merges,
        r is Err ==> latest == earlier,
{
    if r is Ok {
        lemma_taken(*old(db), after, batch.ops(), old(db).mode() == DurabilityMode::Immediate, false, false);
    }
    lemma_counts(batch.ops());
}

/// The number that `write_sequenced_opt` gives back is the newest that a snapshot
/// taken then would read at, and the batch took one number for each of its
/// operations.
pub proof fn law_write_sequenced_opt_number(
    db: &mut Db,
    opts: &WriteOptions,
    batch: WriteBatch,
    r: Result<u64>,
    after: Db,
    earlier: u64,
    latest: u64,
    points: usize,
    ranges: usize,
    merges: usize,
)
    requires
        old(db).wf(),
        call_ensures(Db::latest_sequence, (&*old(db),), earlier),
        call_ensures(WriteBatch::len, (&batch,), points),
        call_ensures(WriteBatch::range_delete_count, (&batch,), ranges),
        call_ensures(WriteBatch::merge_count, (&batch,), merges),
        call_ensures(Db::write_sequenced_opt, (db, opts, batch), r),
        *final(db) == after,
        call_ensures(Db::latest_sequence, (&after,), latest),
    ensures
        r matches Ok(number) ==> number == latest && number == earlier + points + ranges + merges,
        r is Err ==> latest == earlier,
{
    if r is Ok {
        lemma_taken(*old(db), after, batch.ops(), old(db).syncs(*opts), opts.no_slowdown, opts.disable_wal);
    }
    lemma_counts(batch.ops());
}

/// Every operation is a put or a delete, a range delete, or a merge.
proof fn lemma_counts(ops: Seq<Op>)
    ensures
        ops.len() == ops.filter(|op: Op| op is Put || op is Delete).len() + ops.filter(
            |op: Op| op is DeleteRange,
        ).len() + ops.filter(|op: Op| op is Merge).len(),
    decreases ops.len(),
{
    reveal(Seq::filter);
    if ops.len() > 0 {
        lemma_counts(ops.drop_last());
    }
}

/// What a `put` adds to what a batch says of itself.
pub proof fn law_batch_counts_put(
    batch: &mut WriteBatch,
    key: &[u8],
    value: &[u8],
    earlier: (usize, usize, usize, usize, WriteTally),
    later: (usize, usize, usize, usize, WriteTally),
    empty: bool,
)
    requires
        call_ensures(WriteBatch::put, (batch, key, value), ()),
        call_ensures(WriteBatch::len, (&*old(batch),), earlier.0),
        call_ensures(WriteBatch::range_delete_count, (&*old(batch),), earlier.1),
        call_ensures(WriteBatch::merge_count, (&*old(batch),), earlier.2),
        call_ensures(WriteBatch::buffered_bytes, (&*old(batch),), earlier.3),
        call_ensures(WriteBatch::tally, (&*old(batch),), earlier.4),
        call_ensures(WriteBatch::len, (&*final(batch),), later.0),
        call_ensures(WriteBatch::range_delete_count, (&*final(batch),), later.1),
        call_ensures(WriteBatch::merge_count, (&*final(batch),), later.2),
        call_ensures(WriteBatch::buffered_bytes, (&*final(batch),), later.3),
        call_ensures(WriteBatch::tally, (&*final(batch),), later.4),
        call_ensures(WriteBatch::is_empty, (&*final(batch),), empty),
    ensures
        !empty,
        later.0 == earlier.0 + 1,
        later.1 == earlier.1 + 0,
        later.2 == earlier.2 + 0,
        later.3 == earlier.3 + key@.len() + 4 + value@.len(),
        later.4.puts == earlier.4.puts + 1,
        later.4.deletes == earlier.4.deletes + 0,
        later.4.range_deletes == earlier.4.range_deletes + 0,
        later.4.merges == earlier.4.merges + 0,
        later.4.bytes == earlier.4.bytes + key@.len() + 4 + value@.len(),
{
    reveal(Seq::filter);
    lemma_prefixed_parts(DEFAULT_CF_ID, key@);
    let ops = old(batch).ops();
    let op = Op::Put { key: prefixed(DEFAULT_CF_ID, key@), value: value@ };
    assert(ops.push(op).drop_last() =~= ops);
    assert(ops.push(op).last() == op);
    let point = |o: Op| o is Put || o is Delete;
    let kept = ops.filter(point);
    assert(kept.push(op).drop_last() =~= kept);
    assert(kept.push(op).last() == op);
}

/// What a `delete` adds to what a batch says of itself.
pub proof fn law_batch_counts_delete(
    batch: &mut WriteBatch,
    key: &[u8],
    earlier: (usize, usize, usize, usize, WriteTally),
    later: (usize, usize, usize, usize, WriteTally),
    empty: bool,
)
    requires
        call_ensures(WriteBatch::delete, (batch, key), ()),
        call_ensures(WriteBatch::len, (&*old(batch),), earlier.0),
        call_ensures(WriteBatch::range_delete_count, (&*old(batch),), earlier.1),
        call_ensures(WriteBatch::merge_count, (&*old(batch),), earlier.2),
        call_ensures(WriteBatch::buffered_bytes, (&*old(batch),), earlier.3),
        call_ensures(WriteBatch::tally, (&*old(batch),), earlier.4),
        call_ensures(WriteBatch::len, (&*final(batch),), later.0),
        call_ensures(WriteBatch::range_delete_count, (&*final(batch),), later.1),
        call_ensures(WriteBatch::merge_count, (&*final(batch),), later.2),
        call_ensures(WriteBatch::buffered_bytes, (&*final(batch),), later.3),
        call_ensures(WriteBatch::tally, (&*final(batch),), later.4),
        call_ensures(WriteBatch::is_empty, (&*final(batch),), empty),
    ensures
        !empty,
        later.0 == earlier.0 + 1,
        later.1 == earlier.1 + 0,
        later.2 == earlier.2 + 0,
        later.3 == earlier.3 + key@.len() + 4,
        later.4.puts == earlier.4.puts + 0,
        later.4.deletes == earlier.4.deletes + 1,
        later.4.range_deletes == earlier.4.range_deletes + 0,
        later.4.merges == earlier.4.merges + 0,
        later.4.bytes == earlier.4.bytes + key@.len() + 4,
{
    reveal(Seq::filter);
    lemma_prefixed_parts(DEFAULT_CF_ID, key@);
    let ops = old(batch).ops();
    let op = Op::Delete { key: prefixed(DEFAULT_CF_ID, key@) };
    assert(ops.push(op).drop_last() =~= ops);
    assert(ops.push(op).last() == op);
    let point = |o: Op| o is Put || o is Delete;
    let kept = ops.filter(point);
    assert(kept.push(op).drop_last() =~= kept);
    assert(kept.push(op).last() == op);
}

/// What a `merge` adds to what a batch says of itself.
pub proof fn law_batch_counts_merge(
    batch: &mut WriteBatch,
    key: &[u8],
    operand: &[u8],
    earlier: (usize, usize, usize, usize, WriteTally),
    later: (usize, usize, usize, usize, WriteTally),
    empty: bool,
)
    requires
        call_ensures(WriteBatch::merge, (batch, key, operand), ()),
        call_ensures(WriteBatch::len, (&*old(batch),), earlier.0),
        call_ensures(WriteBatch::range_delete_count, (&*old(batch),), earlier.1),
        call_ensures(WriteBatch::merge_count, (&*old(batch),), earlier.2),
        call_ensures(WriteBatch::buffered_bytes, (&*old(batch),), earlier.3),
        call_ensures(WriteBatch::tally, (&*old(batch),), earlier.4),
        call_ensures(WriteBatch::len, (&*final(batch),), later.0),
        call_ensures(WriteBatch::range_delete_count, (&*final(batch),), later.1),
        call_ensures(WriteBatch::merge_count, (&*final(batch),), later.2),
        call_ensures(WriteBatch::buffered_bytes, (&*final(batch),), later.3),
        call_ensures(WriteBatch::tally, (&*final(batch),), later.4),
        call_ensures(WriteBatch::is_empty, (&*final(batch),), empty),
    ensures
        !empty,
        later.0 == earlier.0 + 0,
        later.1 == earlier.1 + 0,
        later.2 == earlier.2 + 1,
        later.3 == earlier.3 + key@.len() + 4 + operand@.len(),
        later.4.puts == earlier.4.puts + 0,
        later.4.deletes == earlier.4.deletes + 0,
        later.4.range_deletes == earlier.4.range_deletes + 0,
        later.4.merges == earlier.4.merges + 1,
        later.4.bytes == earlier.4.bytes + 0,
{
    reveal(Seq::filter);
    lemma_prefixed_parts(DEFAULT_CF_ID, key@);
    let ops = old(batch).ops();
    let op = Op::Merge { key: prefixed(DEFAULT_CF_ID, key@), operand: operand@ };
    assert(ops.push(op).drop_last() =~= ops);
    assert(ops.push(op).last() == op);
    let point = |o: Op| o is Put || o is Delete;
    let kept = ops.filter(point);
    assert(kept.push(op).drop_last() =~= kept);
    assert(kept.push(op).last() == op);
}

/// What a `delete_range` adds to what a batch says of itself.
pub proof fn law_batch_counts_delete_range(
    batch: &mut WriteBatch,
    start: &[u8],
    end: &[u8],
    earlier: (usize, usize, usize, usize, WriteTally),
    later: (usize, usize, usize, usize, WriteTally),
    empty: bool,
)
    requires
        bytes_lt(start@, end@),
        call_ensures(WriteBatch::delete_range, (batch, start, end), ()),
        call_ensures(WriteBatch::len, (&*old(batch),), earlier.0),
        call_ensures(WriteBatch::range_delete_count, (&*old(batch),), earlier.1),
        call_ensures(WriteBatch::merge_count, (&*old(batch),), earlier.2),
        call_ensures(WriteBatch::buffered_bytes, (&*old(batch),), earlier.3),
        call_ensures(WriteBatch::tally, (&*old(batch),), earlier.4),
        call_ensures(WriteBatch::len, (&*final(batch),), later.0),
        call_ensures(WriteBatch::range_delete_count, (&*final(batch),), later.1),
        call_ensures(WriteBatch::merge_count, (&*final(batch),), later.2),
        call_ensures(WriteBatch::buffered_bytes, (&*final(batch),), later.3),
        call_ensures(WriteBatch::tally, (&*final(batch),), later.4),
        call_ensures(WriteBatch::is_empty, (&*final(batch),), empty),
    ensures
        !empty,
        later.0 == earlier.0 + 0,
        later.1 == earlier.1 + 1,
        later.2 == earlier.2 + 0,
        later.3 == earlier.3 + start@.len() + 4 + end@.len() + 4,
        later.4.puts == earlier.4.puts + 0,
        later.4.deletes == earlier.4.deletes + 0,
        later.4.range_deletes == earlier.4.range_deletes + 1,
        later.4.merges == earlier.4.merges + 0,
        later.4.bytes == earlier.4.bytes + 0,
{
    reveal(Seq::filter);
    lemma_prefixed_parts(DEFAULT_CF_ID, start@);
    lemma_prefixed_parts(DEFAULT_CF_ID, end@);
    let ops = old(batch).ops();
    let op = Op::DeleteRange { start: prefixed(DEFAULT_CF_ID, start@), end: prefixed(DEFAULT_CF_ID, end@) };
    assert(ops.push(op).drop_last() =~= ops);
    assert(ops.push(op).last() == op);
    let point = |o: Op| o is Put || o is Delete;
    let kept = ops.filter(point);
    assert(kept.push(op).drop_last() =~= kept);
    assert(kept.push(op).last() == op);
}

/// A batch that was just made holds nothing.
pub proof fn law_batch_begins_empty(
    batch: WriteBatch,
    empty: bool,
    points: usize,
    ranges: usize,
    merges: usize,
    bytes: usize,
    tally: WriteTally,
)
    requires
        call_ensures(WriteBatch::new, (), batch),
        call_ensures(WriteBatch::is_empty, (&batch,), empty),
        call_ensures(WriteBatch::len, (&batch,), points),
        call_ensures(WriteBatch::range_delete_count, (&batch,), ranges),
        call_ensures(WriteBatch::merge_count, (&batch,), merges),
        call_ensures(WriteBatch::buffered_bytes, (&batch,), bytes),
        call_ensures(WriteBatch::tally, (&batch,), tally),
    ensures
        empty,
        points == 0 && ranges == 0 && merges == 0 && bytes == 0,
        tally == (WriteTally { puts: 0, deletes: 0, range_deletes: 0, merges: 0, bytes: 0 }),
{
    reveal(Seq::filter);
}

/// A range delete whose range is empty adds nothing to a batch.
pub proof fn law_batch_empty_range(batch: &mut WriteBatch, start: &[u8], end: &[u8])
    requires
        !bytes_lt(start@, end@),
        call_ensures(WriteBatch::delete_range, (batch, start, end), ()),
    ensures
        final(batch).ops() == old(batch).ops(),
{
}

/// What is already prefixed goes into a batch as it is: the same as adding
/// the key to the family whose prefix it has.
pub proof fn law_batch_raw(
    raw: &mut WriteBatch,
    plain: &mut WriteBatch,
    cf: &ColumnFamilyHandle,
    key: &[u8],
    value: &[u8],
    stored: Vec<u8>,
    bytes: Vec<u8>,
    kind: int,
)
    requires
        old(raw).ops() == old(plain).ops(),
        stored@.len() == 4 + key@.len(),
        stored@ == prefixed(cf.id_number(), key@),
        bytes@ == value@,
        (kind == 0 && call_ensures(WriteBatch::insert_raw_put, (raw, stored, bytes), ())
            && call_ensures(WriteBatch::put_cf, (plain, cf, key, value), ())) || (kind == 1
            && call_ensures(WriteBatch::insert_raw_delete, (raw, stored), ()) && call_ensures(
            WriteBatch::delete_cf,
            (plain, cf, key),
            (),
        )) || (kind == 2 && call_ensures(WriteBatch::insert_raw_merge, (raw, stored, bytes), ())
            && call_ensures(WriteBatch::merge_cf, (plain, cf, key, value), ())),
    ensures
        final(raw).ops() == final(plain).ops(),
{
}

} // verus!
