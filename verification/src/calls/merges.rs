//! Merges: what a chain of operands comes to.

use std::sync::Arc;

use vstd::prelude::*;

use crate::bytes::views;
use crate::calls::reads::{law_get_answers_the_read, law_get_cf_answers_the_read};
use crate::column_family::{lemma_prefixed_parts, prefixed, ColumnFamilyHandle, DEFAULT_CF_ID};
use crate::db::laws::lemma_merge_adds_operand;
use crate::db::Db;
use crate::engine::memtable::{Found, FoundEnd};
use crate::engine::read::settle;
use crate::error::{Error, IoError, Result};
use crate::history::{numbered, probe, End, Op, Probe};
use crate::options::{DurabilityMode, MergeOperator, WriteOptions};

verus! {

/// A read answered what the database's operator makes of `base` and
/// `operands`, or that the merge failed where the operator makes nothing of
/// them or there is no operator.
pub open spec fn answers_merge(
    db: Db,
    key: Seq<u8>,
    base: Option<Seq<u8>>,
    operands: Seq<Seq<u8>>,
    g: Result<Option<Vec<u8>>>,
) -> bool {
    match db.operator() {
        Some(op) => match op.merged(key, base, operands) {
            Some(value) => g matches Ok(Some(v)) && v@ == value,
            None => g matches Err(Error::MergeFailed(k)) && k@ == key,
        },
        None => g matches Err(Error::MergeFailed(k)) && k@ == key,
    }
}

/// What a chain of merges of one stored key, each onto the state the one
/// before it left, holds of the key.
proof fn lemma_chain(dbs: Seq<Db>, id: u32, key: Seq<u8>, operands: Seq<Seq<u8>>, syncs: Seq<bool>, logs: Seq<bool>)
    requires
        dbs.len() == operands.len() + 1,
        syncs.len() == operands.len(),
        logs.len() == operands.len(),
        forall|i: int| 0 <= i < dbs.len() ==> (#[trigger] dbs[i]).wf(),
        forall|i: int|
            #![trigger operands[i]]
            0 <= i < operands.len() ==> dbs[i + 1].stored(
                dbs[i],
                seq![(Op::Merge { key: prefixed(id, key), operand: operands[i] })],
                syncs[i],
                logs[i],
            ),
    ensures
        dbs.last().operator() == dbs[0].operator(),
        dbs.last().is_closed() == dbs[0].is_closed(),
        ({
            let older = probe(dbs[0].history(), prefixed(id, key), dbs[0].horizon());
            probe(dbs.last().history(), prefixed(id, key), dbs.last().horizon()) == (Probe {
                operands: older.operands + operands,
                end: older.end,
            })
        }),
    decreases operands.len(),
{
    let stored = prefixed(id, key);
    let older = probe(dbs[0].history(), stored, dbs[0].horizon());
    if operands.len() == 0 {
        assert(older.operands + operands =~= older.operands);
    } else {
        let n = operands.len() - 1;
        let less = dbs.drop_last();
        let fewer = operands.drop_last();
        assert forall|i: int| 0 <= i < less.len() implies (#[trigger] less[i]).wf() by {
            assert(less[i] == dbs[i]);
        }
        assert forall|i: int|
            #![trigger fewer[i]]
            0 <= i < fewer.len() implies less[i + 1].stored(
            less[i],
            seq![(Op::Merge { key: stored, operand: fewer[i] })],
            syncs.drop_last()[i],
            logs.drop_last()[i],
        ) by {
            assert(operands[i] == fewer[i]);
        }
        lemma_chain(less, id, key, fewer, syncs.drop_last(), logs.drop_last());
        let before = dbs[n];
        let after = dbs[n + 1];
        assert(less.last() == before);
        assert(operands[n] == operands.last());
        lemma_merge_adds_operand(before, after, syncs[n], logs[n], id, key, operands[n]);
        assert((older.operands + fewer).push(operands[n]) =~= older.operands + operands);
    }
}

/// After a put, and then merges of `operands` one after the other, a get
/// answers what the operator makes of the value put and of the operands in
/// the order they were written, however many there are.
pub proof fn law_put_then_merges(
    db: &mut Db,
    key: &[u8],
    value: &[u8],
    r: Result<()>,
    dbs: Seq<Db>,
    operands: Seq<&[u8]>,
    results: Seq<Result<()>>,
    g: Result<Option<Vec<u8>>>,
)
    requires
        old(db).wf(),
        call_ensures(Db::put, (db, key, value), r),
        r is Ok,
        dbs.len() == operands.len() + 1,
        results.len() == operands.len(),
        operands.len() >= 1,
        *final(db) == dbs[0],
        forall|i: int|
            #![trigger operands[i]]
            0 <= i < operands.len() ==> exists|m: &mut Db|
                *m == dbs[i] && *final(m) == dbs[i + 1] && #[trigger] call_ensures(
                    Db::merge,
                    (m, key, operands[i]),
                    results[i],
                ),
        forall|i: int| 0 <= i < results.len() ==> (#[trigger] results[i]) is Ok,
        call_ensures(Db::get, (&dbs.last(), key), g),
    ensures
        answers_merge(
            *old(db),
            key@,
            Some(value@),
            Seq::new(operands.len(), |i: int| operands[i]@),
            g,
        ),
{
    let first = dbs[0];
    let stored = prefixed(DEFAULT_CF_ID, key@);
    let ops = seq![(Op::Put { key: stored, value: value@ })];
    let written = numbered(ops, old(db).horizon() + 1);
    assert((old(db).history() + written).last() == written[0]);
    assert(probe(first.history(), stored, first.horizon()) == (Probe {
        operands: Seq::empty(),
        end: End::Value(value@),
    }));
    assert forall|i: int| 0 <= i < dbs.len() implies (#[trigger] dbs[i]).wf() by {
        if i > 0 {
            let operand = operands[i - 1];
        }
    }
    assert forall|i: int|
        #![trigger operands[i]]
        0 <= i < operands.len() implies dbs[i + 1].stored(
        dbs[i],
        seq![(Op::Merge { key: prefixed(DEFAULT_CF_ID, key@), operand: operands[i]@ })],
        dbs[i].mode() == DurabilityMode::Immediate,
        false,
    ) by {
        let taken = results[i];
    }
    lemma_merges_taken(dbs, key, operands, g);
}

/// After merges of `operands` one after the other onto a key that a get
/// found nothing of, a get answers what the operator makes of no value and
/// of the operands in the order they were written.
pub proof fn law_merges_of_absent_key(
    dbs: Seq<Db>,
    key: &[u8],
    earlier: Result<Option<Vec<u8>>>,
    operands: Seq<&[u8]>,
    results: Seq<Result<()>>,
    g: Result<Option<Vec<u8>>>,
)
    requires
        dbs.len() == operands.len() + 1,
        results.len() == operands.len(),
        operands.len() >= 1,
        dbs[0].wf(),
        call_ensures(Db::get, (&dbs[0], key), earlier),
        earlier matches Ok(None),
        forall|i: int|
            #![trigger operands[i]]
            0 <= i < operands.len() ==> exists|m: &mut Db|
                *m == dbs[i] && *final(m) == dbs[i + 1] && #[trigger] call_ensures(
                    Db::merge,
                    (m, key, operands[i]),
                    results[i],
                ),
        forall|i: int| 0 <= i < results.len() ==> (#[trigger] results[i]) is Ok,
        call_ensures(Db::get, (&dbs.last(), key), g),
    ensures
        answers_merge(
            dbs[0],
            key@,
            None,
            Seq::new(operands.len(), |i: int| operands[i]@),
            g,
        ),
{
    law_get_answers_the_read(dbs[0], key, earlier);
    assert forall|i: int| 0 <= i < dbs.len() implies (#[trigger] dbs[i]).wf() by {
        if i > 0 {
            let operand = operands[i - 1];
        }
    }
    assert forall|i: int|
        #![trigger operands[i]]
        0 <= i < operands.len() implies dbs[i + 1].stored(
        dbs[i],
        seq![(Op::Merge { key: prefixed(DEFAULT_CF_ID, key@), operand: operands[i]@ })],
        dbs[i].mode() == DurabilityMode::Immediate,
        false,
    ) by {
        let taken = results[i];
    }
    lemma_merges_taken(dbs, key, operands, g);
}

/// What a chain of merges that were taken leads to.
proof fn lemma_merges_taken(
    dbs: Seq<Db>,
    key: &[u8],
    operands: Seq<&[u8]>,
    g: Result<Option<Vec<u8>>>,
)
    requires
        dbs.len() == operands.len() + 1,
        operands.len() >= 1,
        !dbs[0].is_closed(),
        forall|i: int| 0 <= i < dbs.len() ==> (#[trigger] dbs[i]).wf(),
        forall|i: int|
            #![trigger operands[i]]
            0 <= i < operands.len() ==> dbs[i + 1].stored(
                dbs[i],
                seq![(Op::Merge { key: prefixed(DEFAULT_CF_ID, key@), operand: operands[i]@ })],
                dbs[i].mode() == DurabilityMode::Immediate,
                false,
            ),
        call_ensures(Db::get, (&dbs.last(), key), g),
    ensures
        ({
            let older = probe(
                dbs[0].history(),
                prefixed(DEFAULT_CF_ID, key@),
                dbs[0].horizon(),
            );
            older.operands.len() == 0 ==> answers_merge(
                dbs[0],
                key@,
                match older.end {
                    End::Value(value) => Some(value),
                    _ => None,
                },
                Seq::new(operands.len(), |i: int| operands[i]@),
                g,
            )
        }),
{
    let bytes = Seq::new(operands.len(), |i: int| operands[i]@);
    let syncs = Seq::new(operands.len(), |i: int| dbs[i].mode() == DurabilityMode::Immediate);
    let logs = Seq::new(operands.len(), |i: int| false);
    assert forall|i: int|
        #![trigger bytes[i]]
        0 <= i < bytes.len() implies dbs[i + 1].stored(
        dbs[i],
        seq![(Op::Merge { key: prefixed(DEFAULT_CF_ID, key@), operand: bytes[i] })],
        syncs[i],
        logs[i],
    ) by {
        let o = operands[i];
    }
    lemma_chain(dbs, DEFAULT_CF_ID, key@, bytes, syncs, logs);
    lemma_prefixed_parts(DEFAULT_CF_ID, key@);
    let older = probe(dbs[0].history(), prefixed(DEFAULT_CF_ID, key@), dbs[0].horizon());
    if older.operands.len() == 0 {
        assert(older.operands + bytes =~= bytes);
    }
    law_get_answers_the_read(dbs.last(), key, g);
}

/// A merge under options of its own of a key that a get found nothing of: a get then
/// answers what the operator makes of the operand alone.
pub proof fn law_merge_opt_of_absent_key(
    db: &mut Db,
    opts: &WriteOptions,
    key: &[u8],
    earlier: Result<Option<Vec<u8>>>,
    operand: &[u8],
    r: Result<()>,
    after: Db,
    g: Result<Option<Vec<u8>>>,
)
    requires
        old(db).wf(),
        call_ensures(Db::get, (&*old(db), key), earlier),
        earlier matches Ok(None),
        call_ensures(Db::merge_opt, (db, opts, key, operand), r),
        r is Ok,
        *final(db) == after,
        call_ensures(Db::get, (&after, key), g),
    ensures
        answers_merge(*old(db), key@, None, seq![operand@], g),
{
    let stored = prefixed(DEFAULT_CF_ID, key@);
    let older = probe(old(db).history(), stored, old(db).horizon());
    law_get_answers_the_read(*old(db), key, earlier);
    assert(older.operands.len() == 0);
    lemma_merge_adds_operand(
        *old(db),
        after,
        old(db).syncs(*opts),
        opts.disable_wal,
        DEFAULT_CF_ID,
        key@,
        operand@,
    );
    assert(older.operands.push(operand@) =~= seq![operand@]);
    lemma_prefixed_parts(DEFAULT_CF_ID, key@);
    law_get_answers_the_read(after, key, g);
}

/// A put and then a merge under options of its own: a get then answers what the operator
/// makes of the value put and the operand.
pub proof fn law_put_opt_then_merge(
    db: &mut Db,
    opts: &WriteOptions,
    key: &[u8],
    value: &[u8],
    r: Result<()>,
    second: Db,
    again: &mut Db,
    operand: &[u8],
    q: Result<()>,
    after: Db,
    g: Result<Option<Vec<u8>>>,
)
    requires
        old(db).wf(),
        call_ensures(Db::put_opt, (db, opts, key, value), r),
        r is Ok,
        *final(db) == second,
        *old(again) == second,
        call_ensures(Db::merge_opt, (again, opts, key, operand), q),
        q is Ok,
        *final(again) == after,
        call_ensures(Db::get, (&after, key), g),
    ensures
        answers_merge(*old(db), key@, Some(value@), seq![operand@], g),
{
    let stored = prefixed(DEFAULT_CF_ID, key@);
    let ops = seq![(Op::Put { key: stored, value: value@ })];
    let written = numbered(ops, old(db).horizon() + 1);
    assert((old(db).history() + written).last() == written[0]);
    let older = probe(second.history(), stored, second.horizon());
    assert(older == (Probe { operands: Seq::empty(), end: End::Value(value@) }));
    lemma_merge_adds_operand(
        second,
        after,
        second.syncs(*opts),
        opts.disable_wal,
        DEFAULT_CF_ID,
        key@,
        operand@,
    );
    assert(older.operands.push(operand@) =~= seq![operand@]);
    lemma_prefixed_parts(DEFAULT_CF_ID, key@);
    law_get_answers_the_read(after, key, g);
}

/// A merge in a column family of a key that a get found nothing of: a get then
/// answers what the operator makes of the operand alone.
pub proof fn law_merge_cf_of_absent_key(
    db: &mut Db,
    cf: &ColumnFamilyHandle,
    key: &[u8],
    earlier: Result<Option<Vec<u8>>>,
    operand: &[u8],
    r: Result<()>,
    after: Db,
    g: Result<Option<Vec<u8>>>,
)
    requires
        old(db).wf(),
        call_ensures(Db::get_cf, (&*old(db), cf, key), earlier),
        earlier matches Ok(None),
        call_ensures(Db::merge_cf, (db, cf, key, operand), r),
        r is Ok,
        *final(db) == after,
        call_ensures(Db::get_cf, (&after, cf, key), g),
    ensures
        answers_merge(*old(db), key@, None, seq![operand@], g),
{
    let stored = prefixed(cf.id_number(), key@);
    let older = probe(old(db).history(), stored, old(db).horizon());
    law_get_cf_answers_the_read(*old(db), cf, key, earlier);
    assert(older.operands.len() == 0);
    lemma_merge_adds_operand(
        *old(db),
        after,
        old(db).mode() == DurabilityMode::Immediate,
        false,
        cf.id_number(),
        key@,
        operand@,
    );
    assert(older.operands.push(operand@) =~= seq![operand@]);
    lemma_prefixed_parts(cf.id_number(), key@);
    law_get_cf_answers_the_read(after, cf, key, g);
}

/// A put and then a merge in a column family: a get then answers what the operator
/// makes of the value put and the operand.
pub proof fn law_put_cf_then_merge(
    db: &mut Db,
    cf: &ColumnFamilyHandle,
    key: &[u8],
    value: &[u8],
    r: Result<()>,
    second: Db,
    again: &mut Db,
    operand: &[u8],
    q: Result<()>,
    after: Db,
    g: Result<Option<Vec<u8>>>,
)
    requires
        old(db).wf(),
        call_ensures(Db::put_cf, (db, cf, key, value), r),
        r is Ok,
        *final(db) == second,
        *old(again) == second,
        call_ensures(Db::merge_cf, (again, cf, key, operand), q),
        q is Ok,
        *final(again) == after,
        call_ensures(Db::get_cf, (&after, cf, key), g),
    ensures
        answers_merge(*old(db), key@, Some(value@), seq![operand@], g),
{
    let stored = prefixed(cf.id_number(), key@);
    let ops = seq![(Op::Put { key: stored, value: value@ })];
    let written = numbered(ops, old(db).horizon() + 1);
    assert((old(db).history() + written).last() == written[0]);
    let older = probe(second.history(), stored, second.horizon());
    assert(older == (Probe { operands: Seq::empty(), end: End::Value(value@) }));
    lemma_merge_adds_operand(
        second,
        after,
        second.mode() == DurabilityMode::Immediate,
        false,
        cf.id_number(),
        key@,
        operand@,
    );
    assert(older.operands.push(operand@) =~= seq![operand@]);
    lemma_prefixed_parts(cf.id_number(), key@);
    law_get_cf_answers_the_read(after, cf, key, g);
}

/// Settling what was found of a stored key applies the operator to the
/// operands in the order they were found, on the value under them, if there
/// is one. Without operands the value stands as it is.
pub proof fn law_settle(
    operator: &Option<Arc<dyn MergeOperator>>,
    key: &[u8],
    found: Found,
    r: std::result::Result<Option<Vec<u8>>, IoError>,
)
    requires
        call_ensures(settle, (operator, key, found), r),
        key@.len() >= 4,
    ensures
        ({
            let base = match found.end {
                FoundEnd::Value(value) => Some(value@),
                _ => None,
            };
            let operands = Seq::new(found.operands@.len(), |i: int| found.operands@[i]@);
            if operands.len() == 0 {
                match base {
                    Some(value) => r matches Ok(Some(v)) && v@ == value,
                    None => r matches Ok(None),
                }
            } else {
                match *operator {
                    Some(op) => match op.merged(key@.skip(4), base, operands) {
                        Some(value) => r matches Ok(Some(v)) && v@ == value,
                        None => r is Err,
                    },
                    None => r is Err,
                }
            }
        }),
{
    let operands = Seq::new(found.operands@.len(), |i: int| found.operands@[i]@);
    assert(views(found.operands@) =~= operands);
    assert(found@.operands == operands);
}

} // verus!
