//! Iterators: where each call leaves the cursor, and what it then hands out.

use vstd::prelude::*;

use crate::bytes::{bytes_lt, lemma_bytes_lt_asymmetric, lemma_bytes_lt_irreflexive, opt_slice_view};
use crate::column_family::{ColumnFamilyHandle, DEFAULT_CF_ID};
use crate::db::Db;
use crate::engine::read::{Read, RowView};
use crate::error::{Error, Result};
use crate::iter::{lemma_rows_below, lemma_rows_up_to, rows_below, rows_up_to, CfIter};
use crate::slice::DbSlice;

verus! {

/// What an iterator that stands on row `i` hands out: its key and value, or
/// nothing and the failure where the row cannot be read. Where there is no
/// row `i` it hands out nothing.
pub open spec fn hands_out(
    rows: Seq<RowView>,
    i: int,
    key: Option<&[u8]>,
    value: Option<&[u8]>,
    status: Result<()>,
) -> bool {
    if 0 <= i < rows.len() {
        match rows[i].value {
            Some(bytes) => {
                &&& key matches Some(k) && k@ == rows[i].key
                &&& value matches Some(v) && v@ == bytes
                &&& status is Ok
            },
            None => {
                &&& key is None
                &&& value is None
                &&& status matches Err(Error::MergeFailed(k)) && k@ == rows[i].key
            },
        }
    } else {
        key is None && value is None && status is Ok
    }
}

/// What starts with `prefix` lies at or after it, and so does whatever lies
/// between.
pub proof fn lemma_between_starts(prefix: Seq<u8>, between: Seq<u8>, key: Seq<u8>)
    requires
        prefix.is_prefix_of(key),
        !bytes_lt(between, prefix),
        !bytes_lt(key, between),
    ensures
        prefix.is_prefix_of(between),
    decreases prefix.len(),
{
    if prefix.len() > 0 {
        assert(key.take(prefix.len() as int)[0] == key[0]);
        assert(prefix[0] == key[0]);
        let p = prefix.drop_first();
        let b = between.drop_first();
        let k = key.drop_first();
        assert(p.is_prefix_of(k)) by {
            assert forall|i: int| 0 <= i < p.len() implies p[i] == k.subrange(0, p.len() as int)[i] by {
                assert(prefix[i + 1] == key.subrange(0, prefix.len() as int)[i + 1]);
            }
            assert(p =~= k.subrange(0, p.len() as int));
        }
        lemma_between_starts(p, b, k);
        assert forall|i: int| 0 <= i < prefix.len() implies prefix[i] == between.subrange(
            0,
            prefix.len() as int,
        )[i] by {
            if i > 0 {
                assert(p[i - 1] == b.subrange(0, p.len() as int)[i - 1]);
            }
        }
        assert(prefix =~= between.subrange(0, prefix.len() as int));
    }
}

/// What starts with `prefix` does not come before it.
pub proof fn lemma_start_not_below(prefix: Seq<u8>, key: Seq<u8>)
    requires
        prefix.is_prefix_of(key),
    ensures
        !bytes_lt(key, prefix),
    decreases prefix.len(),
{
    if prefix.len() > 0 {
        let p = prefix.drop_first();
        let k = key.drop_first();
        assert(prefix[0] == key.subrange(0, prefix.len() as int)[0]);
        assert(p.is_prefix_of(k)) by {
            assert forall|i: int| 0 <= i < p.len() implies p[i] == k.subrange(0, p.len() as int)[i] by {
                assert(prefix[i + 1] == key.subrange(0, prefix.len() as int)[i + 1]);
            }
            assert(p =~= k.subrange(0, p.len() as int));
        }
        lemma_start_not_below(p, k);
    }
}

/// After a prefix seek the iterator stands on the first row whose key starts
/// with the prefix, or on none where no key does.
pub proof fn law_seek_prefix(
    it: &mut CfIter,
    prefix: &[u8],
    after: CfIter,
    i: int,
    key: Option<&[u8]>,
    value: Option<&[u8]>,
    status: Result<()>,
)
    requires
        old(it).wf(),
        old(it).live(),
        !old(it).was_closed(),
        call_ensures(CfIter::seek_prefix, (it, prefix), ()),
        *final(it) == after,
        call_ensures(CfIter::key, (&after,), key),
        call_ensures(CfIter::value, (&after,), value),
        call_ensures(CfIter::status, (&after,), status),
        0 <= i <= old(it).cursor().rows.len(),
        i < old(it).cursor().rows.len() ==> prefix@.is_prefix_of(old(it).cursor().rows[i].key),
        forall|j: int|
            0 <= j < i ==> !prefix@.is_prefix_of((#[trigger] old(it).cursor().rows[j]).key),
    ensures
        after.wf() && after.live() && !after.was_closed(),
        after.cursor().rows == old(it).cursor().rows,
        after.cursor().prefix == Some(prefix@),
        hands_out(old(it).cursor().rows, i, key, value, status),
{
    let before = *old(it);
    let rows = before.cursor().rows;
    before.lemma_cursor();
    after.lemma_same_source(before);
    after.lemma_fault();
    lemma_rows_below(rows, prefix@);
    let n = rows_below(rows, prefix@);
    if i < rows.len() {
        lemma_start_not_below(prefix@, rows[i].key);
        assert(n <= i);
        if n < i {
            assert(bytes_lt(rows[n].key, rows[i].key));
            lemma_bytes_lt_asymmetric(rows[n].key, rows[i].key);
            lemma_between_starts(prefix@, rows[n].key, rows[i].key);
        }
    }
}

/// After a seek the iterator stands on the first row whose key does not come
/// before the target, or on none where every key does.
pub proof fn law_seek(
    it: &mut CfIter,
    target: &[u8],
    after: CfIter,
    i: int,
    key: Option<&[u8]>,
    value: Option<&[u8]>,
    status: Result<()>,
)
    requires
        old(it).wf(),
        old(it).live(),
        !old(it).was_closed(),
        call_ensures(CfIter::seek, (it, target), ()),
        *final(it) == after,
        call_ensures(CfIter::key, (&after,), key),
        call_ensures(CfIter::value, (&after,), value),
        call_ensures(CfIter::status, (&after,), status),
        0 <= i <= old(it).cursor().rows.len(),
        i < old(it).cursor().rows.len() ==> !bytes_lt(old(it).cursor().rows[i].key, target@),
        forall|j: int| 0 <= j < i ==> bytes_lt((#[trigger] old(it).cursor().rows[j]).key, target@),
    ensures
        after.wf() && after.live() && !after.was_closed(),
        after.cursor().rows == old(it).cursor().rows,
        after.cursor().prefix is None,
        hands_out(old(it).cursor().rows, i, key, value, status),
{
    let before = *old(it);
    let rows = before.cursor().rows;
    before.lemma_cursor();
    after.lemma_same_source(before);
    after.lemma_fault();
    lemma_rows_below(rows, target@);
    let n = rows_below(rows, target@);
    if n < i {
        assert(bytes_lt(rows[n].key, target@));
    }
    if i < n {
        assert(bytes_lt(rows[i].key, target@));
    }
}

/// After a backward seek the iterator stands on the last row whose key does
/// not come after the target, or on none where every key does.
pub proof fn law_seek_for_prev(
    it: &mut CfIter,
    target: &[u8],
    after: CfIter,
    i: int,
    key: Option<&[u8]>,
    value: Option<&[u8]>,
    status: Result<()>,
)
    requires
        old(it).wf(),
        old(it).live(),
        !old(it).was_closed(),
        call_ensures(CfIter::seek_for_prev, (it, target), ()),
        *final(it) == after,
        call_ensures(CfIter::key, (&after,), key),
        call_ensures(CfIter::value, (&after,), value),
        call_ensures(CfIter::status, (&after,), status),
        -1 <= i < old(it).cursor().rows.len(),
        i >= 0 ==> !bytes_lt(target@, old(it).cursor().rows[i].key),
        forall|j: int|
            i < j < old(it).cursor().rows.len() ==> bytes_lt(
                target@,
                (#[trigger] old(it).cursor().rows[j]).key,
            ),
    ensures
        after.wf() && after.live() && !after.was_closed(),
        after.cursor().rows == old(it).cursor().rows,
        after.cursor().prefix is None,
        hands_out(old(it).cursor().rows, i, key, value, status),
{
    let before = *old(it);
    let rows = before.cursor().rows;
    before.lemma_cursor();
    after.lemma_same_source(before);
    after.lemma_fault();
    lemma_rows_up_to(rows, target@);
    let n = rows_up_to(rows, target@);
    if n <= i {
        assert(bytes_lt(target@, rows[i].key));
    }
    if i + 1 < n {
        assert(bytes_lt(target@, rows[n - 1].key));
    }
}

/// After a seek to the first or to the last key the iterator stands on the
/// first or the last row.
pub proof fn law_seek_to_first(
    it: &mut CfIter,
    after: CfIter,
    key: Option<&[u8]>,
    value: Option<&[u8]>,
    status: Result<()>,
)
    requires
        old(it).wf(),
        old(it).live(),
        !old(it).was_closed(),
        call_ensures(CfIter::seek_to_first, (it,), ()),
        *final(it) == after,
        call_ensures(CfIter::key, (&after,), key),
        call_ensures(CfIter::value, (&after,), value),
        call_ensures(CfIter::status, (&after,), status),
    ensures
        after.wf() && after.live() && !after.was_closed(),
        after.cursor().rows == old(it).cursor().rows,
        after.cursor().prefix is None,
        hands_out(old(it).cursor().rows, 0, key, value, status),
{
    after.lemma_same_source(*old(it));
    after.lemma_fault();
}

/// [`law_seek_to_first`], from the other end.
pub proof fn law_seek_to_last(
    it: &mut CfIter,
    after: CfIter,
    key: Option<&[u8]>,
    value: Option<&[u8]>,
    status: Result<()>,
)
    requires
        old(it).wf(),
        old(it).live(),
        !old(it).was_closed(),
        call_ensures(CfIter::seek_to_last, (it,), ()),
        *final(it) == after,
        call_ensures(CfIter::key, (&after,), key),
        call_ensures(CfIter::value, (&after,), value),
        call_ensures(CfIter::status, (&after,), status),
    ensures
        after.wf() && after.live() && !after.was_closed(),
        after.cursor().rows == old(it).cursor().rows,
        after.cursor().prefix is None,
        hands_out(old(it).cursor().rows, old(it).cursor().rows.len() - 1, key, value, status),
{
    after.lemma_same_source(*old(it));
    after.lemma_fault();
}

/// A step forward from row `i` leads to row `i + 1`, unless a prefix seek
/// confined the iterator and that row's key does not start with the prefix:
/// then it stands on none.
pub proof fn law_next(
    it: &mut CfIter,
    after: CfIter,
    i: int,
    from: Option<&[u8]>,
    earlier: Result<()>,
    key: Option<&[u8]>,
    value: Option<&[u8]>,
    status: Result<()>,
)
    requires
        old(it).wf(),
        old(it).live(),
        !old(it).was_closed(),
        call_ensures(CfIter::key, (&*old(it),), from),
        call_ensures(CfIter::status, (&*old(it),), earlier),
        earlier is Ok,
        0 <= i < old(it).cursor().rows.len(),
        from matches Some(k) && k@ == old(it).cursor().rows[i].key,
        call_ensures(CfIter::next, (it,), ()),
        *final(it) == after,
        call_ensures(CfIter::key, (&after,), key),
        call_ensures(CfIter::value, (&after,), value),
        call_ensures(CfIter::status, (&after,), status),
    ensures
        after.wf() && after.live() && !after.was_closed(),
        after.cursor().rows == old(it).cursor().rows,
        after.cursor().prefix == old(it).cursor().prefix,
        ({
            let rows = old(it).cursor().rows;
            match old(it).cursor().prefix {
                Some(prefix) if i + 1 < rows.len() && !prefix.is_prefix_of(rows[i + 1].key) => key
                    is None && value is None && status is Ok,
                _ => hands_out(rows, i + 1, key, value, status),
            }
        }),
{
    let before = *old(it);
    lemma_stands(before, i, from);
    after.lemma_same_source(before);
    after.lemma_fault();
    before.lemma_fault();
}

/// A step back from row `i` leads to row `i - 1`, and from the first row to
/// none.
pub proof fn law_prev(
    it: &mut CfIter,
    after: CfIter,
    i: int,
    from: Option<&[u8]>,
    earlier: Result<()>,
    key: Option<&[u8]>,
    value: Option<&[u8]>,
    status: Result<()>,
)
    requires
        old(it).wf(),
        old(it).live(),
        !old(it).was_closed(),
        call_ensures(CfIter::key, (&*old(it),), from),
        call_ensures(CfIter::status, (&*old(it),), earlier),
        earlier is Ok,
        0 <= i < old(it).cursor().rows.len(),
        from matches Some(k) && k@ == old(it).cursor().rows[i].key,
        call_ensures(CfIter::prev, (it,), ()),
        *final(it) == after,
        call_ensures(CfIter::key, (&after,), key),
        call_ensures(CfIter::value, (&after,), value),
        call_ensures(CfIter::status, (&after,), status),
    ensures
        after.wf() && after.live() && !after.was_closed(),
        after.cursor().rows == old(it).cursor().rows,
        after.cursor().prefix == old(it).cursor().prefix,
        hands_out(old(it).cursor().rows, i - 1, key, value, status),
{
    let before = *old(it);
    lemma_stands(before, i, from);
    after.lemma_same_source(before);
    after.lemma_fault();
    before.lemma_fault();
}

/// An iterator that hands out the key of row `i` stands there.
proof fn lemma_stands(it: CfIter, i: int, key: Option<&[u8]>)
    requires
        it.wf(),
        it.live(),
        call_ensures(CfIter::key, (&it,), key),
        0 <= i < it.cursor().rows.len(),
        key matches Some(k) && k@ == it.cursor().rows[i].key,
    ensures
        it.cursor().at == Some(i),
{
    it.lemma_cursor();
    let rows = it.cursor().rows;
    let at = it.cursor().at->0;
    assert(opt_slice_view(key) == Some(rows[at].key));
    if at != i {
        lemma_bytes_lt_irreflexive(rows[i].key);
        if at < i {
            assert(bytes_lt(rows[at].key, rows[i].key));
        } else {
            assert(bytes_lt(rows[i].key, rows[at].key));
        }
    }
}

/// An iterator that stands on no row stays there, whichever way it steps.
pub proof fn law_no_row_no_step(it: &mut CfIter, after: CfIter, from: Option<&[u8]>, key: Option<&[u8]>)
    requires
        old(it).wf(),
        call_ensures(CfIter::key, (&*old(it),), from),
        from is None,
        call_ensures(CfIter::next, (it,), ()) || call_ensures(CfIter::prev, (it,), ()),
        *final(it) == after,
        call_ensures(CfIter::key, (&after,), key),
    ensures
        key is None,
        after.cursor() == old(it).cursor(),
{
    after.lemma_same_source(*old(it));
}

/// The ways to ask an iterator agree: it is valid where it hands out a key,
/// and then it hands out a value, the same bytes as a slice.
pub proof fn law_iterator_answers_agree(
    it: CfIter,
    valid: bool,
    key: Option<&[u8]>,
    value: Option<&[u8]>,
    slice: Option<DbSlice>,
)
    requires
        it.wf(),
        call_ensures(CfIter::valid, (&it,), valid),
        call_ensures(CfIter::key, (&it,), key),
        call_ensures(CfIter::value, (&it,), value),
        call_ensures(CfIter::value_slice, (&it,), slice),
    ensures
        valid <==> key is Some,
        valid <==> value is Some,
        match (value, slice) {
            (Some(v), Some(s)) => v@ == s@,
            (None, None) => true,
            _ => false,
        },
{
    it.lemma_cursor();
}

/// A fresh iterator was not placed yet; any seek places it, whether or not it
/// then stands on a row.
pub proof fn law_seeks_place(db: Db, it: CfIter, fresh: bool, m: &mut CfIter, target: &[u8], placed: bool)
    requires
        db.wf(),
        call_ensures(Db::iter, (&db,), it),
        call_ensures(CfIter::positioned, (&it,), fresh),
        old(m).wf(),
        old(m).live(),
        call_ensures(CfIter::seek, (m, target), ()) || call_ensures(
            CfIter::seek_for_prev,
            (m, target),
            (),
        ) || call_ensures(CfIter::seek_prefix, (m, target), ()) || call_ensures(
            CfIter::seek_to_first,
            (m,),
            (),
        ) || call_ensures(CfIter::seek_to_last, (m,), ()),
        call_ensures(CfIter::positioned, (&*final(m),), placed),
    ensures
        !fresh,
        placed,
{
}

/// The rows of an iterator over family `id` at `seq`: in key order, every
/// key that a read finds something of, with what it finds.
pub open spec fn walks_reads(db: Db, id: u32, seq: u64, rows: Seq<RowView>) -> bool {
    &&& forall|i: int, j: int|
        0 <= i < j < rows.len() ==> bytes_lt((#[trigger] rows[i]).key, (#[trigger] rows[j]).key)
    &&& forall|i: int|
        0 <= i < rows.len() ==> match (#[trigger] rows[i]).value {
            Some(value) => db.reads(id, rows[i].key, seq) == Read::Value(Some(value)),
            None => db.reads(id, rows[i].key, seq) == Read::MergeFailed,
        }
    &&& forall|key: Seq<u8>| #[trigger]
        db.reads(id, key, seq) != Read::Value(None) ==> exists|i: int|
            0 <= i < rows.len() && (#[trigger] rows[i]).key == key
}

/// An iterator made of an open database walks the reads of the moment it was
/// made at, and stands nowhere at first. One of a closed database walks
/// nothing and says why.
pub proof fn law_iter_walks_reads(db: Db, it: CfIter, key: Option<&[u8]>, status: Result<()>)
    requires
        db.wf(),
        call_ensures(Db::iter, (&db,), it),
        call_ensures(CfIter::key, (&it,), key),
        call_ensures(CfIter::status, (&it,), status),
    ensures
        it.wf() && it.live(),
        it.was_closed() == db.is_closed(),
        key is None,
        it.cursor().prefix is None,
        !db.is_closed() ==> status is Ok && walks_reads(
            db,
            DEFAULT_CF_ID,
            db.horizon(),
            it.cursor().rows,
        ),
        db.is_closed() ==> it.cursor().rows.len() == 0 && status matches Err(Error::Closed),
{
    it.lemma_fault();
    if !db.is_closed() {
        lemma_walks(db, DEFAULT_CF_ID, db.horizon(), it);
    }
}

/// [`law_iter_walks_reads`] of a column family. One made through a dead
/// handle walks nothing and says why.
pub proof fn law_iter_cf_walks_reads(
    db: Db,
    cf: &ColumnFamilyHandle,
    it: CfIter,
    key: Option<&[u8]>,
    status: Result<()>,
)
    requires
        db.wf(),
        call_ensures(Db::iter_cf, (&db, cf), it),
        call_ensures(CfIter::key, (&it,), key),
        call_ensures(CfIter::status, (&it,), status),
    ensures
        it.wf(),
        it.live() == db.families().is_live(*cf),
        key is None,
        it.live() ==> it.was_closed() == db.is_closed(),
        it.live() && !db.is_closed() ==> status is Ok && walks_reads(
            db,
            cf.id_number(),
            db.horizon(),
            it.cursor().rows,
        ),
        it.live() && db.is_closed() ==> it.cursor().rows.len() == 0 && status matches Err(
            Error::Closed,
        ),
        !it.live() ==> it.cursor().rows.len() == 0 && status matches Err(
            Error::InvalidColumnFamily(_),
        ),
{
    it.lemma_fault();
    if !db.is_closed() && db.families().is_live(*cf) {
        lemma_walks(db, cf.id_number(), db.horizon(), it);
    }
}

/// What an iterator walks are the reads.
pub proof fn lemma_walks(db: Db, id: u32, seq: u64, it: CfIter)
    requires
        !db.is_closed(),
        db.iterates(id, seq, it),
    ensures
        walks_reads(db, id, seq, it.cursor().rows),
{
    let rows = it.cursor().rows;
    assert forall|key: Seq<u8>| #[trigger] db.reads(id, key, seq) != Read::Value(
        None,
    ) implies exists|i: int| 0 <= i < rows.len() && (#[trigger] rows[i]).key == key by {}
}

} // verus!
