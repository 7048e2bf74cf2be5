//! Snapshots: that they read the moment they were taken at, whatever is
//! written later.

use vstd::prelude::*;

use crate::batch::WriteBatch;
use crate::bytes::bytes_lt;
use crate::calls::cursors::{lemma_walks, walks_reads};
use crate::calls::reads::alike;
use crate::calls::scans::{begins_scan, holds_reads, lemma_page_holds, lemma_paged, lemma_scanned, lists_reads};
use crate::column_family::{prefixed, ColumnFamilyHandle, DEFAULT_CF_ID};
use crate::db::laws::law_snapshot_isolation;
use crate::db::snapshot::Snapshot;
use crate::db::{Db, ScanPage};
use crate::engine::read::Read;
use crate::error::{Error, Result};
use crate::history::Op;
use crate::iter::CfIter;
use crate::options::{DurabilityMode, WriteOptions};
use crate::slice::DbSlice;

verus! {

/// A snapshot reads what the history held when it was taken: a get through it
/// on an open database answers the read at its number, byte for byte.
pub proof fn law_snapshot_get_answers_the_read(
    s: Snapshot,
    db: Db,
    key: &[u8],
    g: Result<Option<Vec<u8>>>,
)
    requires
        db.wf(),
        call_ensures(Snapshot::get, (&s, &db, key), g),
    ensures
        db.is_closed() <==> g matches Err(Error::Closed),
        !db.is_closed() ==> match db.reads(DEFAULT_CF_ID, key@, s.number()) {
            Read::Value(Some(value)) => g matches Ok(Some(v)) && v@ == value,
            Read::Value(None) => g matches Ok(None),
            Read::MergeFailed => g matches Err(Error::MergeFailed(k)) && k@ == key@,
        },
{
}

/// [`law_snapshot_get_answers_the_read`] of a column family.
pub proof fn law_snapshot_get_cf_answers_the_read(
    s: Snapshot,
    db: Db,
    cf: &ColumnFamilyHandle,
    key: &[u8],
    g: Result<Option<Vec<u8>>>,
)
    requires
        db.wf(),
        call_ensures(Snapshot::get_cf, (&s, &db, cf, key), g),
    ensures
        db.is_closed() <==> g matches Err(Error::Closed),
        !db.is_closed() && !db.families().is_live(*cf) <==> g matches Err(
            Error::InvalidColumnFamily(_),
        ),
        !db.is_closed() && db.families().is_live(*cf) ==> match db.reads(
            cf.id_number(),
            key@,
            s.number(),
        ) {
            Read::Value(Some(value)) => g matches Ok(Some(v)) && v@ == value,
            Read::Value(None) => g matches Ok(None),
            Read::MergeFailed => g matches Err(Error::MergeFailed(k)) && k@ == key@,
        },
{
}

/// A snapshot that was just taken reads what the database reads, and taking
/// it changed nothing that is read.
pub proof fn law_snapshot_is_now(
    db: &mut Db,
    s: Snapshot,
    after: Db,
    key: &[u8],
    earlier: Result<Option<Vec<u8>>>,
    now: Result<Option<Vec<u8>>>,
    pinned: Result<Option<Vec<u8>>>,
    latest: u64,
    number: u64,
)
    requires
        old(db).wf(),
        call_ensures(Db::snapshot, (db,), s),
        *final(db) == after,
        call_ensures(Db::get, (&*old(db), key), earlier),
        call_ensures(Db::get, (&after, key), now),
        call_ensures(Snapshot::get, (&s, &after, key), pinned),
        call_ensures(Db::latest_sequence, (&*old(db),), latest),
        call_ensures(Snapshot::sequence, (&s,), number),
    ensures
        alike(earlier, now),
        alike(earlier, pinned),
        number == latest,
{
}

/// [`law_snapshot_is_now`] of a column family.
pub proof fn law_snapshot_is_now_cf(
    db: &mut Db,
    s: Snapshot,
    after: Db,
    cf: &ColumnFamilyHandle,
    key: &[u8],
    earlier: Result<Option<Vec<u8>>>,
    now: Result<Option<Vec<u8>>>,
    pinned: Result<Option<Vec<u8>>>,
)
    requires
        old(db).wf(),
        call_ensures(Db::snapshot, (db,), s),
        *final(db) == after,
        call_ensures(Db::get_cf, (&*old(db), cf, key), earlier),
        call_ensures(Db::get_cf, (&after, cf, key), now),
        call_ensures(Snapshot::get_cf, (&s, &after, cf, key), pinned),
    ensures
        alike(earlier, now),
        alike(earlier, pinned),
{
}

/// Letting go of a snapshot, or holding one twice, changes nothing that is
/// read, and a copy reads what the one it was made of reads.
pub proof fn law_release_changes_no_read(
    db: &mut Db,
    s: Snapshot,
    after: Db,
    key: &[u8],
    earlier: Result<Option<Vec<u8>>>,
    later: Result<Option<Vec<u8>>>,
)
    requires
        old(db).wf(),
        call_ensures(Db::release, (db, s), ()),
        *final(db) == after,
        call_ensures(Db::get, (&*old(db), key), earlier),
        call_ensures(Db::get, (&after, key), later),
    ensures
        alike(earlier, later),
{
}

/// A copy of a snapshot reads what the snapshot reads.
pub proof fn law_clone_pin_reads_the_same(
    db: &mut Db,
    s: Snapshot,
    copy: Snapshot,
    after: Db,
    key: &[u8],
    by_first: Result<Option<Vec<u8>>>,
    by_copy: Result<Option<Vec<u8>>>,
)
    requires
        old(db).wf(),
        call_ensures(Db::clone_pin, (db, &s), copy),
        *final(db) == after,
        call_ensures(Snapshot::get, (&s, &*old(db), key), by_first),
        call_ensures(Snapshot::get, (&copy, &after, key), by_copy),
    ensures
        alike(by_first, by_copy),
{
}

/// Every way to read one key through a snapshot agrees.
pub proof fn law_snapshot_point_reads_agree(
    s: Snapshot,
    db: Db,
    key: &[u8],
    g: Result<Option<Vec<u8>>>,
    slice: Result<Option<DbSlice>>,
    size: Result<Option<usize>>,
    there: Result<bool>,
)
    requires
        db.wf(),
        call_ensures(Snapshot::get, (&s, &db, key), g),
        call_ensures(Snapshot::get_slice, (&s, &db, key), slice),
        call_ensures(Snapshot::get_size, (&s, &db, key), size),
        call_ensures(Snapshot::has, (&s, &db, key), there),
    ensures
        match g {
            Ok(Some(v)) => {
                &&& slice matches Ok(Some(t)) && t@ == v@
                &&& size matches Ok(Some(n)) && n == v@.len()
                &&& there matches Ok(true)
            },
            Ok(None) => {
                &&& slice matches Ok(None)
                &&& size matches Ok(None)
                &&& there matches Ok(false)
            },
            Err(_) => slice is Err && size is Err && there is Err,
        },
{
}

/// [`law_snapshot_point_reads_agree`] of a column family.
pub proof fn law_snapshot_point_reads_agree_cf(
    s: Snapshot,
    db: Db,
    cf: &ColumnFamilyHandle,
    key: &[u8],
    g: Result<Option<Vec<u8>>>,
    slice: Result<Option<DbSlice>>,
    size: Result<Option<usize>>,
    there: Result<bool>,
)
    requires
        db.wf(),
        call_ensures(Snapshot::get_cf, (&s, &db, cf, key), g),
        call_ensures(Snapshot::get_slice_cf, (&s, &db, cf, key), slice),
        call_ensures(Snapshot::get_size_cf, (&s, &db, cf, key), size),
        call_ensures(Snapshot::has_cf, (&s, &db, cf, key), there),
    ensures
        match g {
            Ok(Some(v)) => {
                &&& slice matches Ok(Some(t)) && t@ == v@
                &&& size matches Ok(Some(n)) && n == v@.len()
                &&& there matches Ok(true)
            },
            Ok(None) => {
                &&& slice matches Ok(None)
                &&& size matches Ok(None)
                &&& there matches Ok(false)
            },
            Err(_) => slice is Err && size is Err && there is Err,
        },
{
}

/// A scan through a snapshot lists what reads at its number find, and a page
/// is the beginning of it.
pub proof fn law_snapshot_scan_lists_reads(
    s: Snapshot,
    db: Db,
    start: Option<&[u8]>,
    end: Option<&[u8]>,
    limit: usize,
    all: Result<Vec<(Vec<u8>, Vec<u8>)>>,
    page: Result<ScanPage>,
)
    requires
        db.wf(),
        !db.is_closed(),
        limit > 0,
        call_ensures(Snapshot::scan, (&s, &db, start, end), all),
        call_ensures(Snapshot::scan_page, (&s, &db, start, end, limit), page),
    ensures
        lists_reads(db, DEFAULT_CF_ID, start, end, s.number(), all),
        holds_reads(db, DEFAULT_CF_ID, start, end, limit, s.number(), page),
        all matches Ok(entries) ==> (page matches Ok(p) && begins_scan(limit, p, entries@)),
{
    lemma_scanned(db, DEFAULT_CF_ID, start, end, s.number(), all);
    lemma_page_holds(db, DEFAULT_CF_ID, start, end, limit, s.number(), page);
    lemma_paged(db, DEFAULT_CF_ID, start, end, limit, s.number(), page, all);
}

/// [`law_snapshot_scan_lists_reads`] of a column family.
pub proof fn law_snapshot_scan_cf_lists_reads(
    s: Snapshot,
    db: Db,
    cf: &ColumnFamilyHandle,
    start: Option<&[u8]>,
    end: Option<&[u8]>,
    limit: usize,
    all: Result<Vec<(Vec<u8>, Vec<u8>)>>,
    page: Result<ScanPage>,
)
    requires
        db.wf(),
        !db.is_closed(),
        db.families().is_live(*cf),
        limit > 0,
        call_ensures(Snapshot::scan_cf, (&s, &db, cf, start, end), all),
        call_ensures(Snapshot::scan_page_cf, (&s, &db, cf, start, end, limit), page),
    ensures
        lists_reads(db, cf.id_number(), start, end, s.number(), all),
        holds_reads(db, cf.id_number(), start, end, limit, s.number(), page),
        all matches Ok(entries) ==> (page matches Ok(p) && begins_scan(limit, p, entries@)),
{
    lemma_scanned(db, cf.id_number(), start, end, s.number(), all);
    lemma_page_holds(db, cf.id_number(), start, end, limit, s.number(), page);
    lemma_paged(db, cf.id_number(), start, end, limit, s.number(), page, all);
}

/// An iterator made through a snapshot walks the reads at its number.
pub proof fn law_snapshot_iter_walks_reads(s: Snapshot, db: Db, it: CfIter)
    requires
        db.wf(),
        !db.is_closed(),
        call_ensures(Snapshot::iter, (&s, &db), it),
    ensures
        it.wf() && it.live() && !it.was_closed(),
        walks_reads(db, DEFAULT_CF_ID, s.number(), it.cursor().rows),
{
    lemma_walks(db, DEFAULT_CF_ID, s.number(), it);
}

/// [`law_snapshot_iter_walks_reads`] of a column family.
pub proof fn law_snapshot_iter_cf_walks_reads(
    s: Snapshot,
    db: Db,
    cf: &ColumnFamilyHandle,
    it: CfIter,
)
    requires
        db.wf(),
        !db.is_closed(),
        db.families().is_live(*cf),
        call_ensures(Snapshot::iter_cf, (&s, &db, cf), it),
    ensures
        it.wf() && it.live() && !it.was_closed(),
        walks_reads(db, cf.id_number(), s.number(), it.cursor().rows),
{
    lemma_walks(db, cf.id_number(), s.number(), it);
}

/// A snapshot does not see a later `put`, of the key it reads or of any
/// other.
pub proof fn law_snapshot_misses_put(
    s: Snapshot,
    db: &mut Db,
    written: &[u8],
    value: &[u8],
    r: Result<()>,
    after: Db,
    cf: &ColumnFamilyHandle,
    key: &[u8],
    earlier: Result<Option<Vec<u8>>>,
    later: Result<Option<Vec<u8>>>,
)
    requires
        old(db).wf(),
        s.number() <= old(db).horizon(),
        call_ensures(Db::put, (db, written, value), r),
        *final(db) == after,
        call_ensures(Snapshot::get_cf, (&s, &*old(db), cf, key), earlier),
        call_ensures(Snapshot::get_cf, (&s, &after, cf, key), later),
    ensures
        alike(earlier, later),
        s.number() <= after.horizon(),
{
    if r is Ok && true {
        law_snapshot_isolation(
            *old(db),
            after,
            seq![(Op::Put { key: prefixed(DEFAULT_CF_ID, written@), value: value@ })],
            old(db).mode() == DurabilityMode::Immediate,
            false,
            cf.id_number(),
            key@,
            s.number(),
        );
    }
}

/// A snapshot does not see a later `delete`, of the key it reads or of any
/// other.
pub proof fn law_snapshot_misses_delete(
    s: Snapshot,
    db: &mut Db,
    written: &[u8],
    r: Result<()>,
    after: Db,
    cf: &ColumnFamilyHandle,
    key: &[u8],
    earlier: Result<Option<Vec<u8>>>,
    later: Result<Option<Vec<u8>>>,
)
    requires
        old(db).wf(),
        s.number() <= old(db).horizon(),
        call_ensures(Db::delete, (db, written), r),
        *final(db) == after,
        call_ensures(Snapshot::get_cf, (&s, &*old(db), cf, key), earlier),
        call_ensures(Snapshot::get_cf, (&s, &after, cf, key), later),
    ensures
        alike(earlier, later),
        s.number() <= after.horizon(),
{
    if r is Ok && true {
        law_snapshot_isolation(
            *old(db),
            after,
            seq![(Op::Delete { key: prefixed(DEFAULT_CF_ID, written@) })],
            old(db).mode() == DurabilityMode::Immediate,
            false,
            cf.id_number(),
            key@,
            s.number(),
        );
    }
}

/// A snapshot does not see a later `merge`, of the key it reads or of any
/// other.
pub proof fn law_snapshot_misses_merge(
    s: Snapshot,
    db: &mut Db,
    written: &[u8],
    operand: &[u8],
    r: Result<()>,
    after: Db,
    cf: &ColumnFamilyHandle,
    key: &[u8],
    earlier: Result<Option<Vec<u8>>>,
    later: Result<Option<Vec<u8>>>,
)
    requires
        old(db).wf(),
        s.number() <= old(db).horizon(),
        call_ensures(Db::merge, (db, written, operand), r),
        *final(db) == after,
        call_ensures(Snapshot::get_cf, (&s, &*old(db), cf, key), earlier),
        call_ensures(Snapshot::get_cf, (&s, &after, cf, key), later),
    ensures
        alike(earlier, later),
        s.number() <= after.horizon(),
{
    if r is Ok && true {
        law_snapshot_isolation(
            *old(db),
            after,
            seq![(Op::Merge { key: prefixed(DEFAULT_CF_ID, written@), operand: operand@ })],
            old(db).mode() == DurabilityMode::Immediate,
            false,
            cf.id_number(),
            key@,
            s.number(),
        );
    }
}

/// A snapshot does not see a later `delete_range`, of the key it reads or of any
/// other.
pub proof fn law_snapshot_misses_delete_range(
    s: Snapshot,
    db: &mut Db,
    from: &[u8],
    to: &[u8],
    r: Result<()>,
    after: Db,
    cf: &ColumnFamilyHandle,
    key: &[u8],
    earlier: Result<Option<Vec<u8>>>,
    later: Result<Option<Vec<u8>>>,
)
    requires
        old(db).wf(),
        s.number() <= old(db).horizon(),
        call_ensures(Db::delete_range, (db, from, to), r),
        *final(db) == after,
        call_ensures(Snapshot::get_cf, (&s, &*old(db), cf, key), earlier),
        call_ensures(Snapshot::get_cf, (&s, &after, cf, key), later),
    ensures
        alike(earlier, later),
        s.number() <= after.horizon(),
{
    if r is Ok && bytes_lt(from@, to@) {
        law_snapshot_isolation(
            *old(db),
            after,
            seq![(Op::DeleteRange { start: prefixed(DEFAULT_CF_ID, from@), end: prefixed(DEFAULT_CF_ID, to@) })],
            old(db).mode() == DurabilityMode::Immediate,
            false,
            cf.id_number(),
            key@,
            s.number(),
        );
    }
}

/// A snapshot does not see a later `put_opt`, of the key it reads or of any
/// other.
pub proof fn law_snapshot_misses_put_opt(
    s: Snapshot,
    db: &mut Db,
    opts: &WriteOptions, written: &[u8],
    value: &[u8],
    r: Result<()>,
    after: Db,
    cf: &ColumnFamilyHandle,
    key: &[u8],
    earlier: Result<Option<Vec<u8>>>,
    later: Result<Option<Vec<u8>>>,
)
    requires
        old(db).wf(),
        s.number() <= old(db).horizon(),
        call_ensures(Db::put_opt, (db, opts, written, value), r),
        *final(db) == after,
        call_ensures(Snapshot::get_cf, (&s, &*old(db), cf, key), earlier),
        call_ensures(Snapshot::get_cf, (&s, &after, cf, key), later),
    ensures
        alike(earlier, later),
        s.number() <= after.horizon(),
{
    if r is Ok && true {
        law_snapshot_isolation(
            *old(db),
            after,
            seq![(Op::Put { key: prefixed(DEFAULT_CF_ID, written@), value: value@ })],
            old(db).syncs(*opts),
            opts.disable_wal,
            cf.id_number(),
            key@,
            s.number(),
        );
    }
}

/// A snapshot does not see a later `delete_opt`, of the key it reads or of any
/// other.
pub proof fn law_snapshot_misses_delete_opt(
    s: Snapshot,
    db: &mut Db,
    opts: &WriteOptions, written: &[u8],
    r: Result<()>,
    after: Db,
    cf: &ColumnFamilyHandle,
    key: &[u8],
    earlier: Result<Option<Vec<u8>>>,
    later: Result<Option<Vec<u8>>>,
)
    requires
        old(db).wf(),
        s.number() <= old(db).horizon(),
        call_ensures(Db::delete_opt, (db, opts, written), r),
        *final(db) == after,
        call_ensures(Snapshot::get_cf, (&s, &*old(db), cf, key), earlier),
        call_ensures(Snapshot::get_cf, (&s, &after, cf, key), later),
    ensures
        alike(earlier, later),
        s.number() <= after.horizon(),
{
    if r is Ok && true {
        law_snapshot_isolation(
            *old(db),
            after,
            seq![(Op::Delete { key: prefixed(DEFAULT_CF_ID, written@) })],
            old(db).syncs(*opts),
            opts.disable_wal,
            cf.id_number(),
            key@,
            s.number(),
        );
    }
}

/// A snapshot does not see a later `merge_opt`, of the key it reads or of any
/// other.
pub proof fn law_snapshot_misses_merge_opt(
    s: Snapshot,
    db: &mut Db,
    opts: &WriteOptions, written: &[u8],
    operand: &[u8],
    r: Result<()>,
    after: Db,
    cf: &ColumnFamilyHandle,
    key: &[u8],
    earlier: Result<Option<Vec<u8>>>,
    later: Result<Option<Vec<u8>>>,
)
    requires
        old(db).wf(),
        s.number() <= old(db).horizon(),
        call_ensures(Db::merge_opt, (db, opts, written, operand), r),
        *final(db) == after,
        call_ensures(Snapshot::get_cf, (&s, &*old(db), cf, key), earlier),
        call_ensures(Snapshot::get_cf, (&s, &after, cf, key), later),
    ensures
        alike(earlier, later),
        s.number() <= after.horizon(),
{
    if r is Ok && true {
        law_snapshot_isolation(
            *old(db),
            after,
            seq![(Op::Merge { key: prefixed(DEFAULT_CF_ID, written@), operand: operand@ })],
            old(db).syncs(*opts),
            opts.disable_wal,
            cf.id_number(),
            key@,
            s.number(),
        );
    }
}

/// A snapshot does not see a later `delete_range_opt`, of the key it reads or of any
/// other.
pub proof fn law_snapshot_misses_delete_range_opt(
    s: Snapshot,
    db: &mut Db,
    opts: &WriteOptions, from: &[u8],
    to: &[u8],
    r: Result<()>,
    after: Db,
    cf: &ColumnFamilyHandle,
    key: &[u8],
    earlier: Result<Option<Vec<u8>>>,
    later: Result<Option<Vec<u8>>>,
)
    requires
        old(db).wf(),
        s.number() <= old(db).horizon(),
        call_ensures(Db::delete_range_opt, (db, opts, from, to), r),
        *final(db) == after,
        call_ensures(Snapshot::get_cf, (&s, &*old(db), cf, key), earlier),
        call_ensures(Snapshot::get_cf, (&s, &after, cf, key), later),
    ensures
        alike(earlier, later),
        s.number() <= after.horizon(),
{
    if r is Ok && bytes_lt(from@, to@) {
        law_snapshot_isolation(
            *old(db),
            after,
            seq![(Op::DeleteRange { start: prefixed(DEFAULT_CF_ID, from@), end: prefixed(DEFAULT_CF_ID, to@) })],
            old(db).syncs(*opts),
            opts.disable_wal,
            cf.id_number(),
            key@,
            s.number(),
        );
    }
}

/// A snapshot does not see a later `put_cf`, of the key it reads or of any
/// other.
pub proof fn law_snapshot_misses_put_cf(
    s: Snapshot,
    db: &mut Db,
    family: &ColumnFamilyHandle, written: &[u8],
    value: &[u8],
    r: Result<()>,
    after: Db,
    cf: &ColumnFamilyHandle,
    key: &[u8],
    earlier: Result<Option<Vec<u8>>>,
    later: Result<Option<Vec<u8>>>,
)
    requires
        old(db).wf(),
        s.number() <= old(db).horizon(),
        call_ensures(Db::put_cf, (db, family, written, value), r),
        *final(db) == after,
        call_ensures(Snapshot::get_cf, (&s, &*old(db), cf, key), earlier),
        call_ensures(Snapshot::get_cf, (&s, &after, cf, key), later),
    ensures
        alike(earlier, later),
        s.number() <= after.horizon(),
{
    if r is Ok && true {
        law_snapshot_isolation(
            *old(db),
            after,
            seq![(Op::Put { key: prefixed(family.id_number(), written@), value: value@ })],
            old(db).mode() == DurabilityMode::Immediate,
            false,
            cf.id_number(),
            key@,
            s.number(),
        );
    }
}

/// A snapshot does not see a later `delete_cf`, of the key it reads or of any
/// other.
pub proof fn law_snapshot_misses_delete_cf(
    s: Snapshot,
    db: &mut Db,
    family: &ColumnFamilyHandle, written: &[u8],
    r: Result<()>,
    after: Db,
    cf: &ColumnFamilyHandle,
    key: &[u8],
    earlier: Result<Option<Vec<u8>>>,
    later: Result<Option<Vec<u8>>>,
)
    requires
        old(db).wf(),
        s.number() <= old(db).horizon(),
        call_ensures(Db::delete_cf, (db, family, written), r),
        *final(db) == after,
        call_ensures(Snapshot::get_cf, (&s, &*old(db), cf, key), earlier),
        call_ensures(Snapshot::get_cf, (&s, &after, cf, key), later),
    ensures
        alike(earlier, later),
        s.number() <= after.horizon(),
{
    if r is Ok && true {
        law_snapshot_isolation(
            *old(db),
            after,
            seq![(Op::Delete { key: prefixed(family.id_number(), written@) })],
            old(db).mode() == DurabilityMode::Immediate,
            false,
            cf.id_number(),
            key@,
            s.number(),
        );
    }
}

/// A snapshot does not see a later `merge_cf`, of the key it reads or of any
/// other.
pub proof fn law_snapshot_misses_merge_cf(
    s: Snapshot,
    db: &mut Db,
    family: &ColumnFamilyHandle, written: &[u8],
    operand: &[u8],
    r: Result<()>,
    after: Db,
    cf: &ColumnFamilyHandle,
    key: &[u8],
    earlier: Result<Option<Vec<u8>>>,
    later: Result<Option<Vec<u8>>>,
)
    requires
        old(db).wf(),
        s.number() <= old(db).horizon(),
        call_ensures(Db::merge_cf, (db, family, written, operand), r),
        *final(db) == after,
        call_ensures(Snapshot::get_cf, (&s, &*old(db), cf, key), earlier),
        call_ensures(Snapshot::get_cf, (&s, &after, cf, key), later),
    ensures
        alike(earlier, later),
        s.number() <= after.horizon(),
{
    if r is Ok && true {
        law_snapshot_isolation(
            *old(db),
            after,
            seq![(Op::Merge { key: prefixed(family.id_number(), written@), operand: operand@ })],
            old(db).mode() == DurabilityMode::Immediate,
            false,
            cf.id_number(),
            key@,
            s.number(),
        );
    }
}

/// A snapshot does not see a later `delete_range_cf`, of the key it reads or of any
/// other.
pub proof fn law_snapshot_misses_delete_range_cf(
    s: Snapshot,
    db: &mut Db,
    family: &ColumnFamilyHandle, from: &[u8],
    to: &[u8],
    r: Result<()>,
    after: Db,
    cf: &ColumnFamilyHandle,
    key: &[u8],
    earlier: Result<Option<Vec<u8>>>,
    later: Result<Option<Vec<u8>>>,
)
    requires
        old(db).wf(),
        s.number() <= old(db).horizon(),
        call_ensures(Db::delete_range_cf, (db, family, from, to), r),
        *final(db) == after,
        call_ensures(Snapshot::get_cf, (&s, &*old(db), cf, key), earlier),
        call_ensures(Snapshot::get_cf, (&s, &after, cf, key), later),
    ensures
        alike(earlier, later),
        s.number() <= after.horizon(),
{
    if r is Ok && bytes_lt(from@, to@) {
        law_snapshot_isolation(
            *old(db),
            after,
            seq![(Op::DeleteRange { start: prefixed(family.id_number(), from@), end: prefixed(family.id_number(), to@) })],
            old(db).mode() == DurabilityMode::Immediate,
            false,
            cf.id_number(),
            key@,
            s.number(),
        );
    }
}

/// A snapshot sees nothing of a batch that `write` takes later.
pub proof fn law_snapshot_misses_write(
    s: Snapshot,
    db: &mut Db,
    batch: WriteBatch,
    r: Result<()>,
    after: Db,
    cf: &ColumnFamilyHandle,
    key: &[u8],
    earlier: Result<Option<Vec<u8>>>,
    later: Result<Option<Vec<u8>>>,
)
    requires
        old(db).wf(),
        s.number() <= old(db).horizon(),
        call_ensures(Db::write, (db, batch), r),
        *final(db) == after,
        call_ensures(Snapshot::get_cf, (&s, &*old(db), cf, key), earlier),
        call_ensures(Snapshot::get_cf, (&s, &after, cf, key), later),
    ensures
        alike(earlier, later),
        s.number() <= after.horizon(),
{
    if r is Ok && batch.ops().len() > 0 {
        law_snapshot_isolation(
            *old(db),
            after,
            batch.ops(),
            old(db).mode() == DurabilityMode::Immediate,
            false,
            cf.id_number(),
            key@,
            s.number(),
        );
    }
}

/// A snapshot sees nothing of a batch that `write_opt` takes later.
pub proof fn law_snapshot_misses_write_opt(
    s: Snapshot,
    db: &mut Db,
    opts: &WriteOptions,
    batch: WriteBatch,
    r: Result<()>,
    after: Db,
    cf: &ColumnFamilyHandle,
    key: &[u8],
    earlier: Result<Option<Vec<u8>>>,
    later: Result<Option<Vec<u8>>>,
)
    requires
        old(db).wf(),
        s.number() <= old(db).horizon(),
        call_ensures(Db::write_opt, (db, opts, batch), r),
        *final(db) == after,
        call_ensures(Snapshot::get_cf, (&s, &*old(db), cf, key), earlier),
        call_ensures(Snapshot::get_cf, (&s, &after, cf, key), later),
    ensures
        alike(earlier, later),
        s.number() <= after.horizon(),
{
    if r is Ok && batch.ops().len() > 0 {
        law_snapshot_isolation(
            *old(db),
            after,
            batch.ops(),
            old(db).syncs(*opts),
            opts.disable_wal,
            cf.id_number(),
            key@,
            s.number(),
        );
    }
}

/// A snapshot sees nothing of a batch that `write_sequenced` takes later.
pub proof fn law_snapshot_misses_write_sequenced(
    s: Snapshot,
    db: &mut Db,
    batch: WriteBatch,
    r: Result<u64>,
    after: Db,
    cf: &ColumnFamilyHandle,
    key: &[u8],
    earlier: Result<Option<Vec<u8>>>,
    later: Result<Option<Vec<u8>>>,
)
    requires
        old(db).wf(),
        s.number() <= old(db).horizon(),
        call_ensures(Db::write_sequenced, (db, batch), r),
        *final(db) == after,
        call_ensures(Snapshot::get_cf, (&s, &*old(db), cf, key), earlier),
        call_ensures(Snapshot::get_cf, (&s, &after, cf, key), later),
    ensures
        alike(earlier, later),
        s.number() <= after.horizon(),
{
    if r is Ok && batch.ops().len() > 0 {
        law_snapshot_isolation(
            *old(db),
            after,
            batch.ops(),
            old(db).mode() == DurabilityMode::Immediate,
            false,
            cf.id_number(),
            key@,
            s.number(),
        );
    }
}

/// A snapshot sees nothing of a batch that `write_sequenced_opt` takes later.
pub proof fn law_snapshot_misses_write_sequenced_opt(
    s: Snapshot,
    db: &mut Db,
    opts: &WriteOptions,
    batch: WriteBatch,
    r: Result<u64>,
    after: Db,
    cf: &ColumnFamilyHandle,
    key: &[u8],
    earlier: Result<Option<Vec<u8>>>,
    later: Result<Option<Vec<u8>>>,
)
    requires
        old(db).wf(),
        s.number() <= old(db).horizon(),
        call_ensures(Db::write_sequenced_opt, (db, opts, batch), r),
        *final(db) == after,
        call_ensures(Snapshot::get_cf, (&s, &*old(db), cf, key), earlier),
        call_ensures(Snapshot::get_cf, (&s, &after, cf, key), later),
    ensures
        alike(earlier, later),
        s.number() <= after.horizon(),
{
    if r is Ok && batch.ops().len() > 0 {
        law_snapshot_isolation(
            *old(db),
            after,
            batch.ops(),
            old(db).syncs(*opts),
            opts.disable_wal,
            cf.id_number(),
            key@,
            s.number(),
        );
    }
}

/// A snapshot sees nothing of a batch that `write_with_durability` takes later.
pub proof fn law_snapshot_misses_write_with_durability(
    s: Snapshot,
    db: &mut Db,
    batch: WriteBatch,
    durability: DurabilityMode,
    r: Result<()>,
    after: Db,
    cf: &ColumnFamilyHandle,
    key: &[u8],
    earlier: Result<Option<Vec<u8>>>,
    later: Result<Option<Vec<u8>>>,
)
    requires
        old(db).wf(),
        s.number() <= old(db).horizon(),
        call_ensures(Db::write_with_durability, (db, batch, durability), r),
        *final(db) == after,
        call_ensures(Snapshot::get_cf, (&s, &*old(db), cf, key), earlier),
        call_ensures(Snapshot::get_cf, (&s, &after, cf, key), later),
    ensures
        alike(earlier, later),
        s.number() <= after.horizon(),
{
    if r is Ok && batch.ops().len() > 0 {
        law_snapshot_isolation(
            *old(db),
            after,
            batch.ops(),
            durability == DurabilityMode::Immediate,
            false,
            cf.id_number(),
            key@,
            s.number(),
        );
    }
}

/// Waiting for snapshots is over once there are none, or the time is up, and
/// tells how many there still are.
pub proof fn law_wait_for_snapshots(db: Db, time_is_up: bool, r: Option<u64>)
    requires
        db.wf(),
        db.live_snapshots() <= u64::MAX,
        call_ensures(Db::wait_for_snapshots, (&db, time_is_up), r),
    ensures
        r is None <==> !time_is_up && db.live_snapshots() > 0,
        r matches Some(n) ==> n == db.live_snapshots(),
{
}

} // verus!
