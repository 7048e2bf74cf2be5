//! Writes, and what the reads after them answer.

use vstd::prelude::*;

use crate::bytes::bytes_lt;
use crate::calls::reads::alike;
use crate::column_family::{
    lemma_families_disjoint, lemma_prefixed_parts, prefixed, ColumnFamilyHandle, DEFAULT_CF_ID,
};
use crate::db::laws::{law_others_untouched, law_range_delete, law_read_your_delete, law_read_your_put};
use crate::db::Db;
use crate::engine::memtable::storable;
use crate::engine::store::write_refusal;
use crate::error::{Error, Result};
use crate::history::Op;
use crate::options::{DurabilityMode, WriteOptions};

verus! {


/// A get after a put that was taken gives back the value put, byte for
/// byte. One that was refused left the database as it was.
pub proof fn law_put_then_get(
    db: &mut Db,
    key: &[u8],
    value: &[u8],
    r: Result<()>,
    after: Db,
    g: Result<Option<Vec<u8>>>,
)
    requires
        old(db).wf(),
        call_ensures(Db::put, (db, key, value), r),
        *final(db) == after,
        call_ensures(Db::get, (&after, key), g),
    ensures
        r is Ok ==> (g matches Ok(Some(v)) && v@ == value@),
        r is Err ==> after == *old(db),
{
    if r is Ok {
        law_read_your_put(
            *old(db),
            after,
            old(db).mode() == DurabilityMode::Immediate,
            false,
            DEFAULT_CF_ID,
            key@,
            value@,
        );
    }
}

/// A get after a delete that was taken finds nothing. One that was
/// refused left the database as it was.
pub proof fn law_delete_then_get(
    db: &mut Db,
    key: &[u8],
    r: Result<()>,
    after: Db,
    g: Result<Option<Vec<u8>>>,
)
    requires
        old(db).wf(),
        call_ensures(Db::delete, (db, key), r),
        *final(db) == after,
        call_ensures(Db::get, (&after, key), g),
    ensures
        r is Ok ==> g matches Ok(None),
        r is Err ==> after == *old(db),
{
    if r is Ok {
        law_read_your_delete(
            *old(db),
            after,
            old(db).mode() == DurabilityMode::Immediate,
            false,
            DEFAULT_CF_ID,
            key@,
        );
    }
}

/// A put leaves every other key as it was, in its own family and in
/// every other.
pub proof fn law_put_leaves_others(
    db: &mut Db,
    key: &[u8],
    value: &[u8],
    r: Result<()>,
    after: Db,
    family: &ColumnFamilyHandle,
    other: &[u8],
    earlier: Result<Option<Vec<u8>>>,
    later: Result<Option<Vec<u8>>>,
)
    requires
        old(db).wf(),
        call_ensures(Db::put, (db, key, value), r),
        *final(db) == after,
        family.id_number() != DEFAULT_CF_ID || other@ != key@,
        call_ensures(Db::get_cf, (&*old(db), family, other), earlier),
        call_ensures(Db::get_cf, (&after, family, other), later),
    ensures
        alike(earlier, later),
        r is Err ==> after == *old(db),
{
    let ops = seq![(Op::Put { key: prefixed(DEFAULT_CF_ID, key@), value: value@ })];
    lemma_families_disjoint(DEFAULT_CF_ID, key@, family.id_number(), other@);
    if r is Ok {
        law_others_untouched(
            *old(db),
            after,
            ops,
            old(db).mode() == DurabilityMode::Immediate,
            false,
            family.id_number(),
            other@,
        );
    }
}

/// [`law_put_leaves_others`], by the reads that name no family.
pub proof fn law_put_leaves_other_keys(
    db: &mut Db,
    key: &[u8],
    value: &[u8],
    r: Result<()>,
    after: Db,
    other: &[u8],
    earlier: Result<Option<Vec<u8>>>,
    later: Result<Option<Vec<u8>>>,
)
    requires
        old(db).wf(),
        call_ensures(Db::put, (db, key, value), r),
        *final(db) == after,
        other@ != key@,
        call_ensures(Db::get, (&*old(db), other), earlier),
        call_ensures(Db::get, (&after, other), later),
    ensures
        alike(earlier, later),
{
    let ops = seq![(Op::Put { key: prefixed(DEFAULT_CF_ID, key@), value: value@ })];
    lemma_families_disjoint(DEFAULT_CF_ID, key@, DEFAULT_CF_ID, other@);
    if r is Ok {
        law_others_untouched(
            *old(db),
            after,
            ops,
            old(db).mode() == DurabilityMode::Immediate,
            false,
            DEFAULT_CF_ID,
            other@,
        );
    }
}

/// A delete leaves every other key as it was, in its own family and in
/// every other.
pub proof fn law_delete_leaves_others(
    db: &mut Db,
    key: &[u8],
    r: Result<()>,
    after: Db,
    family: &ColumnFamilyHandle,
    other: &[u8],
    earlier: Result<Option<Vec<u8>>>,
    later: Result<Option<Vec<u8>>>,
)
    requires
        old(db).wf(),
        call_ensures(Db::delete, (db, key), r),
        *final(db) == after,
        family.id_number() != DEFAULT_CF_ID || other@ != key@,
        call_ensures(Db::get_cf, (&*old(db), family, other), earlier),
        call_ensures(Db::get_cf, (&after, family, other), later),
    ensures
        alike(earlier, later),
        r is Err ==> after == *old(db),
{
    let ops = seq![(Op::Delete { key: prefixed(DEFAULT_CF_ID, key@) })];
    lemma_families_disjoint(DEFAULT_CF_ID, key@, family.id_number(), other@);
    if r is Ok {
        law_others_untouched(
            *old(db),
            after,
            ops,
            old(db).mode() == DurabilityMode::Immediate,
            false,
            family.id_number(),
            other@,
        );
    }
}

/// [`law_delete_leaves_others`], by the reads that name no family.
pub proof fn law_delete_leaves_other_keys(
    db: &mut Db,
    key: &[u8],
    r: Result<()>,
    after: Db,
    other: &[u8],
    earlier: Result<Option<Vec<u8>>>,
    later: Result<Option<Vec<u8>>>,
)
    requires
        old(db).wf(),
        call_ensures(Db::delete, (db, key), r),
        *final(db) == after,
        other@ != key@,
        call_ensures(Db::get, (&*old(db), other), earlier),
        call_ensures(Db::get, (&after, other), later),
    ensures
        alike(earlier, later),
{
    let ops = seq![(Op::Delete { key: prefixed(DEFAULT_CF_ID, key@) })];
    lemma_families_disjoint(DEFAULT_CF_ID, key@, DEFAULT_CF_ID, other@);
    if r is Ok {
        law_others_untouched(
            *old(db),
            after,
            ops,
            old(db).mode() == DurabilityMode::Immediate,
            false,
            DEFAULT_CF_ID,
            other@,
        );
    }
}

/// A merge leaves every other key as it was, in its own family and in
/// every other.
pub proof fn law_merge_leaves_others(
    db: &mut Db,
    key: &[u8],
    operand: &[u8],
    r: Result<()>,
    after: Db,
    family: &ColumnFamilyHandle,
    other: &[u8],
    earlier: Result<Option<Vec<u8>>>,
    later: Result<Option<Vec<u8>>>,
)
    requires
        old(db).wf(),
        call_ensures(Db::merge, (db, key, operand), r),
        *final(db) == after,
        family.id_number() != DEFAULT_CF_ID || other@ != key@,
        call_ensures(Db::get_cf, (&*old(db), family, other), earlier),
        call_ensures(Db::get_cf, (&after, family, other), later),
    ensures
        alike(earlier, later),
        r is Err ==> after == *old(db),
{
    let ops = seq![(Op::Merge { key: prefixed(DEFAULT_CF_ID, key@), operand: operand@ })];
    lemma_families_disjoint(DEFAULT_CF_ID, key@, family.id_number(), other@);
    if r is Ok {
        law_others_untouched(
            *old(db),
            after,
            ops,
            old(db).mode() == DurabilityMode::Immediate,
            false,
            family.id_number(),
            other@,
        );
    }
}

/// [`law_merge_leaves_others`], by the reads that name no family.
pub proof fn law_merge_leaves_other_keys(
    db: &mut Db,
    key: &[u8],
    operand: &[u8],
    r: Result<()>,
    after: Db,
    other: &[u8],
    earlier: Result<Option<Vec<u8>>>,
    later: Result<Option<Vec<u8>>>,
)
    requires
        old(db).wf(),
        call_ensures(Db::merge, (db, key, operand), r),
        *final(db) == after,
        other@ != key@,
        call_ensures(Db::get, (&*old(db), other), earlier),
        call_ensures(Db::get, (&after, other), later),
    ensures
        alike(earlier, later),
{
    let ops = seq![(Op::Merge { key: prefixed(DEFAULT_CF_ID, key@), operand: operand@ })];
    lemma_families_disjoint(DEFAULT_CF_ID, key@, DEFAULT_CF_ID, other@);
    if r is Ok {
        law_others_untouched(
            *old(db),
            after,
            ops,
            old(db).mode() == DurabilityMode::Immediate,
            false,
            DEFAULT_CF_ID,
            other@,
        );
    }
}

/// A range delete that was taken removes the keys from `start` up to
/// `end`, `end` left out, and leaves every other key of the family as it was.
pub proof fn law_delete_range_then_get(
    db: &mut Db,
    start: &[u8],
    end: &[u8],
    r: Result<()>,
    after: Db,
    key: &[u8],
    earlier: Result<Option<Vec<u8>>>,
    later: Result<Option<Vec<u8>>>,
)
    requires
        old(db).wf(),
        call_ensures(Db::delete_range, (db, start, end), r),
        *final(db) == after,
        call_ensures(Db::get, (&*old(db), key), earlier),
        call_ensures(Db::get, (&after, key), later),
    ensures
        r is Ok && !bytes_lt(key@, start@) && bytes_lt(key@, end@) ==> later matches Ok(None),
        bytes_lt(key@, start@) || !bytes_lt(key@, end@) ==> alike(earlier, later),
        r is Err ==> after == *old(db),
{
    if !bytes_lt(key@, start@) && bytes_lt(key@, end@) {
        crate::bytes::lemma_bytes_le_lt(start@, key@, end@);
    }
    if r is Ok && bytes_lt(start@, end@) {
        law_range_delete(
            *old(db),
            after,
            old(db).mode() == DurabilityMode::Immediate,
            false,
            DEFAULT_CF_ID,
            start@,
            end@,
            DEFAULT_CF_ID,
            key@,
        );
    }
}

/// A range delete leaves every other family as it was.
pub proof fn law_delete_range_leaves_families(
    db: &mut Db,
    start: &[u8],
    end: &[u8],
    r: Result<()>,
    after: Db,
    family: &ColumnFamilyHandle,
    key: &[u8],
    earlier: Result<Option<Vec<u8>>>,
    later: Result<Option<Vec<u8>>>,
)
    requires
        old(db).wf(),
        call_ensures(Db::delete_range, (db, start, end), r),
        *final(db) == after,
        family.id_number() != DEFAULT_CF_ID,
        call_ensures(Db::get_cf, (&*old(db), family, key), earlier),
        call_ensures(Db::get_cf, (&after, family, key), later),
    ensures
        alike(earlier, later),
{
    if r is Ok && bytes_lt(start@, end@) {
        law_range_delete(
            *old(db),
            after,
            old(db).mode() == DurabilityMode::Immediate,
            false,
            DEFAULT_CF_ID,
            start@,
            end@,
            family.id_number(),
            key@,
        );
    }
}

/// When a put is taken, and how it is refused: a closed database and a
/// read-only one take none, what is over the limits is refused, and what is
/// within them is taken where nothing stalls.
pub proof fn law_put_taken(
    db: &mut Db,
    key: &[u8],
    value: &[u8],
    r: Result<()>,
)
    requires
        old(db).wf(),
        call_ensures(Db::put, (db, key, value), r),
    ensures
        old(db).is_closed() ==> r matches Err(Error::Closed),
        !old(db).is_closed() && old(db).is_read_only() ==> r matches Err(Error::ReadOnly),
        !old(db).is_closed() && !old(db).is_read_only() && (key@.len() > old(db).key_limit() || value@.len() > old(db).value_limit()) ==> r matches Err(
            Error::InvalidArgument(_),
        ),
        !old(db).is_closed() && !old(db).is_read_only() && key@.len() <= old(db).key_limit() && value@.len() <= old(db).value_limit() && old(db).store().stall() is None && key@.len() + value@.len()
            <= 0x3fff_ff00 ==> r is Ok,
{
    let ops = seq![(Op::Put { key: prefixed(DEFAULT_CF_ID, key@), value: value@ })];
    lemma_prefixed_parts(DEFAULT_CF_ID, key@);
    if key@.len() + value@.len() <= 0x3fff_ff00 {
        lemma_fits(ops[0], false);
    }
}

/// When a delete is taken, and how it is refused: a closed database and a
/// read-only one take none, what is over the limits is refused, and what is
/// within them is taken where nothing stalls.
pub proof fn law_delete_taken(
    db: &mut Db,
    key: &[u8],
    r: Result<()>,
)
    requires
        old(db).wf(),
        call_ensures(Db::delete, (db, key), r),
    ensures
        old(db).is_closed() ==> r matches Err(Error::Closed),
        !old(db).is_closed() && old(db).is_read_only() ==> r matches Err(Error::ReadOnly),
        !old(db).is_closed() && !old(db).is_read_only() && (key@.len() > old(db).key_limit()) ==> r matches Err(
            Error::InvalidArgument(_),
        ),
        !old(db).is_closed() && !old(db).is_read_only() && key@.len() <= old(db).key_limit() && old(db).store().stall() is None && key@.len()
            <= 0x3fff_ff00 ==> r is Ok,
{
    let ops = seq![(Op::Delete { key: prefixed(DEFAULT_CF_ID, key@) })];
    lemma_prefixed_parts(DEFAULT_CF_ID, key@);
    if key@.len() <= 0x3fff_ff00 {
        lemma_fits(ops[0], false);
    }
}

/// When a merge is taken, and how it is refused: a closed database and a
/// read-only one take none, what is over the limits is refused, and what is
/// within them is taken where nothing stalls.
pub proof fn law_merge_taken(
    db: &mut Db,
    key: &[u8],
    operand: &[u8],
    r: Result<()>,
)
    requires
        old(db).wf(),
        call_ensures(Db::merge, (db, key, operand), r),
    ensures
        old(db).is_closed() ==> r matches Err(Error::Closed),
        !old(db).is_closed() && old(db).is_read_only() ==> r matches Err(Error::ReadOnly),
        !old(db).is_closed() && !old(db).is_read_only() && (key@.len() > old(db).key_limit() || operand@.len() > old(db).value_limit()) ==> r matches Err(
            Error::InvalidArgument(_),
        ),
        !old(db).is_closed() && !old(db).is_read_only() && key@.len() <= old(db).key_limit() && operand@.len() <= old(db).value_limit() && old(db).store().stall() is None && key@.len() + operand@.len()
            <= 0x3fff_ff00 ==> r is Ok,
{
    let ops = seq![(Op::Merge { key: prefixed(DEFAULT_CF_ID, key@), operand: operand@ })];
    lemma_prefixed_parts(DEFAULT_CF_ID, key@);
    if key@.len() + operand@.len() <= 0x3fff_ff00 {
        lemma_fits(ops[0], false);
    }
}

/// A get after a put under options of its own that was taken gives back the value put, byte for
/// byte. One that was refused left the database as it was.
pub proof fn law_put_opt_then_get(
    db: &mut Db,
    opts: &WriteOptions, key: &[u8],
    value: &[u8],
    r: Result<()>,
    after: Db,
    g: Result<Option<Vec<u8>>>,
)
    requires
        old(db).wf(),
        call_ensures(Db::put_opt, (db, opts, key, value), r),
        *final(db) == after,
        call_ensures(Db::get, (&after, key), g),
    ensures
        r is Ok ==> (g matches Ok(Some(v)) && v@ == value@),
        r is Err ==> after == *old(db),
{
    if r is Ok {
        law_read_your_put(
            *old(db),
            after,
            old(db).syncs(*opts),
            opts.disable_wal,
            DEFAULT_CF_ID,
            key@,
            value@,
        );
    }
}

/// A get after a delete under options of its own that was taken finds nothing. One that was
/// refused left the database as it was.
pub proof fn law_delete_opt_then_get(
    db: &mut Db,
    opts: &WriteOptions, key: &[u8],
    r: Result<()>,
    after: Db,
    g: Result<Option<Vec<u8>>>,
)
    requires
        old(db).wf(),
        call_ensures(Db::delete_opt, (db, opts, key), r),
        *final(db) == after,
        call_ensures(Db::get, (&after, key), g),
    ensures
        r is Ok ==> g matches Ok(None),
        r is Err ==> after == *old(db),
{
    if r is Ok {
        law_read_your_delete(
            *old(db),
            after,
            old(db).syncs(*opts),
            opts.disable_wal,
            DEFAULT_CF_ID,
            key@,
        );
    }
}

/// A put under options of its own leaves every other key as it was, in its own family and in
/// every other.
pub proof fn law_put_opt_leaves_others(
    db: &mut Db,
    opts: &WriteOptions, key: &[u8],
    value: &[u8],
    r: Result<()>,
    after: Db,
    family: &ColumnFamilyHandle,
    other: &[u8],
    earlier: Result<Option<Vec<u8>>>,
    later: Result<Option<Vec<u8>>>,
)
    requires
        old(db).wf(),
        call_ensures(Db::put_opt, (db, opts, key, value), r),
        *final(db) == after,
        family.id_number() != DEFAULT_CF_ID || other@ != key@,
        call_ensures(Db::get_cf, (&*old(db), family, other), earlier),
        call_ensures(Db::get_cf, (&after, family, other), later),
    ensures
        alike(earlier, later),
        r is Err ==> after == *old(db),
{
    let ops = seq![(Op::Put { key: prefixed(DEFAULT_CF_ID, key@), value: value@ })];
    lemma_families_disjoint(DEFAULT_CF_ID, key@, family.id_number(), other@);
    if r is Ok {
        law_others_untouched(
            *old(db),
            after,
            ops,
            old(db).syncs(*opts),
            opts.disable_wal,
            family.id_number(),
            other@,
        );
    }
}

/// [`law_put_opt_leaves_others`], by the reads that name no family.
pub proof fn law_put_opt_leaves_other_keys(
    db: &mut Db,
    opts: &WriteOptions, key: &[u8],
    value: &[u8],
    r: Result<()>,
    after: Db,
    other: &[u8],
    earlier: Result<Option<Vec<u8>>>,
    later: Result<Option<Vec<u8>>>,
)
    requires
        old(db).wf(),
        call_ensures(Db::put_opt, (db, opts, key, value), r),
        *final(db) == after,
        other@ != key@,
        call_ensures(Db::get, (&*old(db), other), earlier),
        call_ensures(Db::get, (&after, other), later),
    ensures
        alike(earlier, later),
{
    let ops = seq![(Op::Put { key: prefixed(DEFAULT_CF_ID, key@), value: value@ })];
    lemma_families_disjoint(DEFAULT_CF_ID, key@, DEFAULT_CF_ID, other@);
    if r is Ok {
        law_others_untouched(
            *old(db),
            after,
            ops,
            old(db).syncs(*opts),
            opts.disable_wal,
            DEFAULT_CF_ID,
            other@,
        );
    }
}

/// A delete under options of its own leaves every other key as it was, in its own family and in
/// every other.
pub proof fn law_delete_opt_leaves_others(
    db: &mut Db,
    opts: &WriteOptions, key: &[u8],
    r: Result<()>,
    after: Db,
    family: &ColumnFamilyHandle,
    other: &[u8],
    earlier: Result<Option<Vec<u8>>>,
    later: Result<Option<Vec<u8>>>,
)
    requires
        old(db).wf(),
        call_ensures(Db::delete_opt, (db, opts, key), r),
        *final(db) == after,
        family.id_number() != DEFAULT_CF_ID || other@ != key@,
        call_ensures(Db::get_cf, (&*old(db), family, other), earlier),
        call_ensures(Db::get_cf, (&after, family, other), later),
    ensures
        alike(earlier, later),
        r is Err ==> after == *old(db),
{
    let ops = seq![(Op::Delete { key: prefixed(DEFAULT_CF_ID, key@) })];
    lemma_families_disjoint(DEFAULT_CF_ID, key@, family.id_number(), other@);
    if r is Ok {
        law_others_untouched(
            *old(db),
            after,
            ops,
            old(db).syncs(*opts),
            opts.disable_wal,
            family.id_number(),
            other@,
        );
    }
}

/// [`law_delete_opt_leaves_others`], by the reads that name no family.
pub proof fn law_delete_opt_leaves_other_keys(
    db: &mut Db,
    opts: &WriteOptions, key: &[u8],
    r: Result<()>,
    after: Db,
    other: &[u8],
    earlier: Result<Option<Vec<u8>>>,
    later: Result<Option<Vec<u8>>>,
)
    requires
        old(db).wf(),
        call_ensures(Db::delete_opt, (db, opts, key), r),
        *final(db) == after,
        other@ != key@,
        call_ensures(Db::get, (&*old(db), other), earlier),
        call_ensures(Db::get, (&after, other), later),
    ensures
        alike(earlier, later),
{
    let ops = seq![(Op::Delete { key: prefixed(DEFAULT_CF_ID, key@) })];
    lemma_families_disjoint(DEFAULT_CF_ID, key@, DEFAULT_CF_ID, other@);
    if r is Ok {
        law_others_untouched(
            *old(db),
            after,
            ops,
            old(db).syncs(*opts),
            opts.disable_wal,
            DEFAULT_CF_ID,
            other@,
        );
    }
}

/// A merge under options of its own leaves every other key as it was, in its own family and in
/// every other.
pub proof fn law_merge_opt_leaves_others(
    db: &mut Db,
    opts: &WriteOptions, key: &[u8],
    operand: &[u8],
    r: Result<()>,
    after: Db,
    family: &ColumnFamilyHandle,
    other: &[u8],
    earlier: Result<Option<Vec<u8>>>,
    later: Result<Option<Vec<u8>>>,
)
    requires
        old(db).wf(),
        call_ensures(Db::merge_opt, (db, opts, key, operand), r),
        *final(db) == after,
        family.id_number() != DEFAULT_CF_ID || other@ != key@,
        call_ensures(Db::get_cf, (&*old(db), family, other), earlier),
        call_ensures(Db::get_cf, (&after, family, other), later),
    ensures
        alike(earlier, later),
        r is Err ==> after == *old(db),
{
    let ops = seq![(Op::Merge { key: prefixed(DEFAULT_CF_ID, key@), operand: operand@ })];
    lemma_families_disjoint(DEFAULT_CF_ID, key@, family.id_number(), other@);
    if r is Ok {
        law_others_untouched(
            *old(db),
            after,
            ops,
            old(db).syncs(*opts),
            opts.disable_wal,
            family.id_number(),
            other@,
        );
    }
}

/// [`law_merge_opt_leaves_others`], by the reads that name no family.
pub proof fn law_merge_opt_leaves_other_keys(
    db: &mut Db,
    opts: &WriteOptions, key: &[u8],
    operand: &[u8],
    r: Result<()>,
    after: Db,
    other: &[u8],
    earlier: Result<Option<Vec<u8>>>,
    later: Result<Option<Vec<u8>>>,
)
    requires
        old(db).wf(),
        call_ensures(Db::merge_opt, (db, opts, key, operand), r),
        *final(db) == after,
        other@ != key@,
        call_ensures(Db::get, (&*old(db), other), earlier),
        call_ensures(Db::get, (&after, other), later),
    ensures
        alike(earlier, later),
{
    let ops = seq![(Op::Merge { key: prefixed(DEFAULT_CF_ID, key@), operand: operand@ })];
    lemma_families_disjoint(DEFAULT_CF_ID, key@, DEFAULT_CF_ID, other@);
    if r is Ok {
        law_others_untouched(
            *old(db),
            after,
            ops,
            old(db).syncs(*opts),
            opts.disable_wal,
            DEFAULT_CF_ID,
            other@,
        );
    }
}

/// A range delete under options of its own that was taken removes the keys from `start` up to
/// `end`, `end` left out, and leaves every other key of the family as it was.
pub proof fn law_delete_range_opt_then_get(
    db: &mut Db,
    opts: &WriteOptions, start: &[u8],
    end: &[u8],
    r: Result<()>,
    after: Db,
    key: &[u8],
    earlier: Result<Option<Vec<u8>>>,
    later: Result<Option<Vec<u8>>>,
)
    requires
        old(db).wf(),
        call_ensures(Db::delete_range_opt, (db, opts, start, end), r),
        *final(db) == after,
        call_ensures(Db::get, (&*old(db), key), earlier),
        call_ensures(Db::get, (&after, key), later),
    ensures
        r is Ok && !bytes_lt(key@, start@) && bytes_lt(key@, end@) ==> later matches Ok(None),
        bytes_lt(key@, start@) || !bytes_lt(key@, end@) ==> alike(earlier, later),
        r is Err ==> after == *old(db),
{
    if !bytes_lt(key@, start@) && bytes_lt(key@, end@) {
        crate::bytes::lemma_bytes_le_lt(start@, key@, end@);
    }
    if r is Ok && bytes_lt(start@, end@) {
        law_range_delete(
            *old(db),
            after,
            old(db).syncs(*opts),
            opts.disable_wal,
            DEFAULT_CF_ID,
            start@,
            end@,
            DEFAULT_CF_ID,
            key@,
        );
    }
}

/// A range delete under options of its own leaves every other family as it was.
pub proof fn law_delete_range_opt_leaves_families(
    db: &mut Db,
    opts: &WriteOptions, start: &[u8],
    end: &[u8],
    r: Result<()>,
    after: Db,
    family: &ColumnFamilyHandle,
    key: &[u8],
    earlier: Result<Option<Vec<u8>>>,
    later: Result<Option<Vec<u8>>>,
)
    requires
        old(db).wf(),
        call_ensures(Db::delete_range_opt, (db, opts, start, end), r),
        *final(db) == after,
        family.id_number() != DEFAULT_CF_ID,
        call_ensures(Db::get_cf, (&*old(db), family, key), earlier),
        call_ensures(Db::get_cf, (&after, family, key), later),
    ensures
        alike(earlier, later),
{
    if r is Ok && bytes_lt(start@, end@) {
        law_range_delete(
            *old(db),
            after,
            old(db).syncs(*opts),
            opts.disable_wal,
            DEFAULT_CF_ID,
            start@,
            end@,
            family.id_number(),
            key@,
        );
    }
}

/// When a put under options of its own is taken, and how it is refused: a closed database and a
/// read-only one take none, what is over the limits is refused, and what is
/// within them is taken where nothing stalls.
pub proof fn law_put_opt_taken(
    db: &mut Db,
    opts: &WriteOptions, key: &[u8],
    value: &[u8],
    r: Result<()>,
)
    requires
        old(db).wf(),
        call_ensures(Db::put_opt, (db, opts, key, value), r),
    ensures
        old(db).is_closed() ==> r matches Err(Error::Closed),
        !old(db).is_closed() && old(db).is_read_only() ==> r matches Err(Error::ReadOnly),
        !old(db).is_closed() && !old(db).is_read_only() && (key@.len() > old(db).key_limit() || value@.len() > old(db).value_limit()) ==> r matches Err(
            Error::InvalidArgument(_),
        ),
        !old(db).is_closed() && !old(db).is_read_only() && key@.len() <= old(db).key_limit() && value@.len() <= old(db).value_limit() && old(db).store().stall() is None && key@.len() + value@.len()
            <= 0x3fff_ff00 ==> r is Ok,
{
    let ops = seq![(Op::Put { key: prefixed(DEFAULT_CF_ID, key@), value: value@ })];
    lemma_prefixed_parts(DEFAULT_CF_ID, key@);
    if key@.len() + value@.len() <= 0x3fff_ff00 {
        lemma_fits(ops[0], opts.disable_wal);
    }
}

/// When a delete under options of its own is taken, and how it is refused: a closed database and a
/// read-only one take none, what is over the limits is refused, and what is
/// within them is taken where nothing stalls.
pub proof fn law_delete_opt_taken(
    db: &mut Db,
    opts: &WriteOptions, key: &[u8],
    r: Result<()>,
)
    requires
        old(db).wf(),
        call_ensures(Db::delete_opt, (db, opts, key), r),
    ensures
        old(db).is_closed() ==> r matches Err(Error::Closed),
        !old(db).is_closed() && old(db).is_read_only() ==> r matches Err(Error::ReadOnly),
        !old(db).is_closed() && !old(db).is_read_only() && (key@.len() > old(db).key_limit()) ==> r matches Err(
            Error::InvalidArgument(_),
        ),
        !old(db).is_closed() && !old(db).is_read_only() && key@.len() <= old(db).key_limit() && old(db).store().stall() is None && key@.len()
            <= 0x3fff_ff00 ==> r is Ok,
{
    let ops = seq![(Op::Delete { key: prefixed(DEFAULT_CF_ID, key@) })];
    lemma_prefixed_parts(DEFAULT_CF_ID, key@);
    if key@.len() <= 0x3fff_ff00 {
        lemma_fits(ops[0], opts.disable_wal);
    }
}

/// When a merge under options of its own is taken, and how it is refused: a closed database and a
/// read-only one take none, what is over the limits is refused, and what is
/// within them is taken where nothing stalls.
pub proof fn law_merge_opt_taken(
    db: &mut Db,
    opts: &WriteOptions, key: &[u8],
    operand: &[u8],
    r: Result<()>,
)
    requires
        old(db).wf(),
        call_ensures(Db::merge_opt, (db, opts, key, operand), r),
    ensures
        old(db).is_closed() ==> r matches Err(Error::Closed),
        !old(db).is_closed() && old(db).is_read_only() ==> r matches Err(Error::ReadOnly),
        !old(db).is_closed() && !old(db).is_read_only() && (key@.len() > old(db).key_limit() || operand@.len() > old(db).value_limit()) ==> r matches Err(
            Error::InvalidArgument(_),
        ),
        !old(db).is_closed() && !old(db).is_read_only() && key@.len() <= old(db).key_limit() && operand@.len() <= old(db).value_limit() && old(db).store().stall() is None && key@.len() + operand@.len()
            <= 0x3fff_ff00 ==> r is Ok,
{
    let ops = seq![(Op::Merge { key: prefixed(DEFAULT_CF_ID, key@), operand: operand@ })];
    lemma_prefixed_parts(DEFAULT_CF_ID, key@);
    if key@.len() + operand@.len() <= 0x3fff_ff00 {
        lemma_fits(ops[0], opts.disable_wal);
    }
}

/// A get after a put in a column family that was taken gives back the value put, byte for
/// byte. One that was refused left the database as it was.
pub proof fn law_put_cf_then_get(
    db: &mut Db,
    cf: &ColumnFamilyHandle, key: &[u8],
    value: &[u8],
    r: Result<()>,
    after: Db,
    g: Result<Option<Vec<u8>>>,
)
    requires
        old(db).wf(),
        call_ensures(Db::put_cf, (db, cf, key, value), r),
        *final(db) == after,
        call_ensures(Db::get_cf, (&after, cf, key), g),
    ensures
        r is Ok ==> (g matches Ok(Some(v)) && v@ == value@),
        r is Err ==> after == *old(db),
{
    if r is Ok {
        law_read_your_put(
            *old(db),
            after,
            old(db).mode() == DurabilityMode::Immediate,
            false,
            cf.id_number(),
            key@,
            value@,
        );
    }
}

/// A get after a delete in a column family that was taken finds nothing. One that was
/// refused left the database as it was.
pub proof fn law_delete_cf_then_get(
    db: &mut Db,
    cf: &ColumnFamilyHandle, key: &[u8],
    r: Result<()>,
    after: Db,
    g: Result<Option<Vec<u8>>>,
)
    requires
        old(db).wf(),
        call_ensures(Db::delete_cf, (db, cf, key), r),
        *final(db) == after,
        call_ensures(Db::get_cf, (&after, cf, key), g),
    ensures
        r is Ok ==> g matches Ok(None),
        r is Err ==> after == *old(db),
{
    if r is Ok {
        law_read_your_delete(
            *old(db),
            after,
            old(db).mode() == DurabilityMode::Immediate,
            false,
            cf.id_number(),
            key@,
        );
    }
}

/// A put in a column family leaves every other key as it was, in its own family and in
/// every other.
pub proof fn law_put_cf_leaves_others(
    db: &mut Db,
    cf: &ColumnFamilyHandle, key: &[u8],
    value: &[u8],
    r: Result<()>,
    after: Db,
    family: &ColumnFamilyHandle,
    other: &[u8],
    earlier: Result<Option<Vec<u8>>>,
    later: Result<Option<Vec<u8>>>,
)
    requires
        old(db).wf(),
        call_ensures(Db::put_cf, (db, cf, key, value), r),
        *final(db) == after,
        family.id_number() != cf.id_number() || other@ != key@,
        call_ensures(Db::get_cf, (&*old(db), family, other), earlier),
        call_ensures(Db::get_cf, (&after, family, other), later),
    ensures
        alike(earlier, later),
        r is Err ==> after == *old(db),
{
    let ops = seq![(Op::Put { key: prefixed(cf.id_number(), key@), value: value@ })];
    lemma_families_disjoint(cf.id_number(), key@, family.id_number(), other@);
    if r is Ok {
        law_others_untouched(
            *old(db),
            after,
            ops,
            old(db).mode() == DurabilityMode::Immediate,
            false,
            family.id_number(),
            other@,
        );
    }
}

/// A delete in a column family leaves every other key as it was, in its own family and in
/// every other.
pub proof fn law_delete_cf_leaves_others(
    db: &mut Db,
    cf: &ColumnFamilyHandle, key: &[u8],
    r: Result<()>,
    after: Db,
    family: &ColumnFamilyHandle,
    other: &[u8],
    earlier: Result<Option<Vec<u8>>>,
    later: Result<Option<Vec<u8>>>,
)
    requires
        old(db).wf(),
        call_ensures(Db::delete_cf, (db, cf, key), r),
        *final(db) == after,
        family.id_number() != cf.id_number() || other@ != key@,
        call_ensures(Db::get_cf, (&*old(db), family, other), earlier),
        call_ensures(Db::get_cf, (&after, family, other), later),
    ensures
        alike(earlier, later),
        r is Err ==> after == *old(db),
{
    let ops = seq![(Op::Delete { key: prefixed(cf.id_number(), key@) })];
    lemma_families_disjoint(cf.id_number(), key@, family.id_number(), other@);
    if r is Ok {
        law_others_untouched(
            *old(db),
            after,
            ops,
            old(db).mode() == DurabilityMode::Immediate,
            false,
            family.id_number(),
            other@,
        );
    }
}

/// A merge in a column family leaves every other key as it was, in its own family and in
/// every other.
pub proof fn law_merge_cf_leaves_others(
    db: &mut Db,
    cf: &ColumnFamilyHandle, key: &[u8],
    operand: &[u8],
    r: Result<()>,
    after: Db,
    family: &ColumnFamilyHandle,
    other: &[u8],
    earlier: Result<Option<Vec<u8>>>,
    later: Result<Option<Vec<u8>>>,
)
    requires
        old(db).wf(),
        call_ensures(Db::merge_cf, (db, cf, key, operand), r),
        *final(db) == after,
        family.id_number() != cf.id_number() || other@ != key@,
        call_ensures(Db::get_cf, (&*old(db), family, other), earlier),
        call_ensures(Db::get_cf, (&after, family, other), later),
    ensures
        alike(earlier, later),
        r is Err ==> after == *old(db),
{
    let ops = seq![(Op::Merge { key: prefixed(cf.id_number(), key@), operand: operand@ })];
    lemma_families_disjoint(cf.id_number(), key@, family.id_number(), other@);
    if r is Ok {
        law_others_untouched(
            *old(db),
            after,
            ops,
            old(db).mode() == DurabilityMode::Immediate,
            false,
            family.id_number(),
            other@,
        );
    }
}

/// A range delete in a column family that was taken removes the keys from `start` up to
/// `end`, `end` left out, and leaves every other key of the family as it was.
pub proof fn law_delete_range_cf_then_get(
    db: &mut Db,
    cf: &ColumnFamilyHandle, start: &[u8],
    end: &[u8],
    r: Result<()>,
    after: Db,
    key: &[u8],
    earlier: Result<Option<Vec<u8>>>,
    later: Result<Option<Vec<u8>>>,
)
    requires
        old(db).wf(),
        call_ensures(Db::delete_range_cf, (db, cf, start, end), r),
        *final(db) == after,
        call_ensures(Db::get_cf, (&*old(db), cf, key), earlier),
        call_ensures(Db::get_cf, (&after, cf, key), later),
    ensures
        r is Ok && !bytes_lt(key@, start@) && bytes_lt(key@, end@) ==> later matches Ok(None),
        bytes_lt(key@, start@) || !bytes_lt(key@, end@) ==> alike(earlier, later),
        r is Err ==> after == *old(db),
{
    if !bytes_lt(key@, start@) && bytes_lt(key@, end@) {
        crate::bytes::lemma_bytes_le_lt(start@, key@, end@);
    }
    if r is Ok && bytes_lt(start@, end@) {
        law_range_delete(
            *old(db),
            after,
            old(db).mode() == DurabilityMode::Immediate,
            false,
            cf.id_number(),
            start@,
            end@,
            cf.id_number(),
            key@,
        );
    }
}

/// A range delete in a column family leaves every other family as it was.
pub proof fn law_delete_range_cf_leaves_families(
    db: &mut Db,
    cf: &ColumnFamilyHandle, start: &[u8],
    end: &[u8],
    r: Result<()>,
    after: Db,
    family: &ColumnFamilyHandle,
    key: &[u8],
    earlier: Result<Option<Vec<u8>>>,
    later: Result<Option<Vec<u8>>>,
)
    requires
        old(db).wf(),
        call_ensures(Db::delete_range_cf, (db, cf, start, end), r),
        *final(db) == after,
        family.id_number() != cf.id_number(),
        call_ensures(Db::get_cf, (&*old(db), family, key), earlier),
        call_ensures(Db::get_cf, (&after, family, key), later),
    ensures
        alike(earlier, later),
{
    if r is Ok && bytes_lt(start@, end@) {
        law_range_delete(
            *old(db),
            after,
            old(db).mode() == DurabilityMode::Immediate,
            false,
            cf.id_number(),
            start@,
            end@,
            family.id_number(),
            key@,
        );
    }
}

/// When a put in a column family is taken, and how it is refused: a closed database and a
/// read-only one take none, what is over the limits is refused, and what is
/// within them is taken where nothing stalls.
pub proof fn law_put_cf_taken(
    db: &mut Db,
    cf: &ColumnFamilyHandle, key: &[u8],
    value: &[u8],
    r: Result<()>,
)
    requires
        old(db).wf(),
        call_ensures(Db::put_cf, (db, cf, key, value), r),
    ensures
        old(db).is_closed() ==> r matches Err(Error::Closed),
        !old(db).is_closed() && old(db).is_read_only() ==> r matches Err(Error::ReadOnly),
        !old(db).is_closed() && !old(db).is_read_only() && !old(db).families().is_live(*cf) ==> r matches Err(
            Error::InvalidColumnFamily(_),
        ),
        !old(db).is_closed() && !old(db).is_read_only() && old(db).families().is_live(*cf) && (key@.len() > old(db).key_limit() || value@.len() > old(db).value_limit()) ==> r matches Err(
            Error::InvalidArgument(_),
        ),
        !old(db).is_closed() && !old(db).is_read_only() && old(db).families().is_live(*cf) && key@.len() <= old(db).key_limit() && value@.len() <= old(db).value_limit() && old(db).store().stall() is None && key@.len() + value@.len()
            <= 0x3fff_ff00 ==> r is Ok,
{
    let ops = seq![(Op::Put { key: prefixed(cf.id_number(), key@), value: value@ })];
    lemma_prefixed_parts(cf.id_number(), key@);
    if key@.len() + value@.len() <= 0x3fff_ff00 {
        lemma_fits(ops[0], false);
    }
}

/// When a delete in a column family is taken, and how it is refused: a closed database and a
/// read-only one take none, what is over the limits is refused, and what is
/// within them is taken where nothing stalls.
pub proof fn law_delete_cf_taken(
    db: &mut Db,
    cf: &ColumnFamilyHandle, key: &[u8],
    r: Result<()>,
)
    requires
        old(db).wf(),
        call_ensures(Db::delete_cf, (db, cf, key), r),
    ensures
        old(db).is_closed() ==> r matches Err(Error::Closed),
        !old(db).is_closed() && old(db).is_read_only() ==> r matches Err(Error::ReadOnly),
        !old(db).is_closed() && !old(db).is_read_only() && !old(db).families().is_live(*cf) ==> r matches Err(
            Error::InvalidColumnFamily(_),
        ),
        !old(db).is_closed() && !old(db).is_read_only() && old(db).families().is_live(*cf) && (key@.len() > old(db).key_limit()) ==> r matches Err(
            Error::InvalidArgument(_),
        ),
        !old(db).is_closed() && !old(db).is_read_only() && old(db).families().is_live(*cf) && key@.len() <= old(db).key_limit() && old(db).store().stall() is None && key@.len()
            <= 0x3fff_ff00 ==> r is Ok,
{
    let ops = seq![(Op::Delete { key: prefixed(cf.id_number(), key@) })];
    lemma_prefixed_parts(cf.id_number(), key@);
    if key@.len() <= 0x3fff_ff00 {
        lemma_fits(ops[0], false);
    }
}

/// When a merge in a column family is taken, and how it is refused: a closed database and a
/// read-only one take none, what is over the limits is refused, and what is
/// within them is taken where nothing stalls.
pub proof fn law_merge_cf_taken(
    db: &mut Db,
    cf: &ColumnFamilyHandle, key: &[u8],
    operand: &[u8],
    r: Result<()>,
)
    requires
        old(db).wf(),
        call_ensures(Db::merge_cf, (db, cf, key, operand), r),
    ensures
        old(db).is_closed() ==> r matches Err(Error::Closed),
        !old(db).is_closed() && old(db).is_read_only() ==> r matches Err(Error::ReadOnly),
        !old(db).is_closed() && !old(db).is_read_only() && !old(db).families().is_live(*cf) ==> r matches Err(
            Error::InvalidColumnFamily(_),
        ),
        !old(db).is_closed() && !old(db).is_read_only() && old(db).families().is_live(*cf) && (key@.len() > old(db).key_limit() || operand@.len() > old(db).value_limit()) ==> r matches Err(
            Error::InvalidArgument(_),
        ),
        !old(db).is_closed() && !old(db).is_read_only() && old(db).families().is_live(*cf) && key@.len() <= old(db).key_limit() && operand@.len() <= old(db).value_limit() && old(db).store().stall() is None && key@.len() + operand@.len()
            <= 0x3fff_ff00 ==> r is Ok,
{
    let ops = seq![(Op::Merge { key: prefixed(cf.id_number(), key@), operand: operand@ })];
    lemma_prefixed_parts(cf.id_number(), key@);
    if key@.len() + operand@.len() <= 0x3fff_ff00 {
        lemma_fits(ops[0], false);
    }
}

/// A single operation of less than a gigabyte fits in the log and in the
/// memtable.
proof fn lemma_fits(op: Op, disable_wal: bool)
    requires
        match op {
            Op::Put { key, value } => key.len() + value.len() <= 0x3fff_ff10,
            Op::Delete { key } => key.len() <= 0x3fff_ff10,
            Op::Merge { key, operand } => key.len() + operand.len() <= 0x3fff_ff10,
            Op::DeleteRange { start, end } => start.len() + end.len() <= 0x3fff_ff10,
        },
    ensures
        write_refusal(seq![op], disable_wal) is None,
{
    let ops = seq![op];
    assert(ops[0] == op);
    assert(storable(op));
}

} // verus!
