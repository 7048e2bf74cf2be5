//! Tailing iterators: that they see what is written after they were made.

use vstd::prelude::*;

use crate::bytes::{bytes_lt, opt_slice_view};
use crate::calls::cursors::{hands_out, lemma_walks, walks_reads};
use crate::column_family::{ColumnFamilyHandle, DEFAULT_CF_ID};
use crate::db::tailing::TailingIter;
use crate::db::Db;
use crate::engine::read::RowView;
use crate::error::{Error, Result};
use crate::iter::{lemma_rows_below, rows_below, sought, CfIter};

verus! {

/// A tailing iterator stands on the first row, of those that reads of the
/// database find now, whose key does not come before `from`.
pub open spec fn stands_at(
    db: Db,
    id: u32,
    from: Seq<u8>,
    key: Option<&[u8]>,
    value: Option<&[u8]>,
    status: Result<()>,
) -> bool {
    exists|rows: Seq<RowView>, i: int|
        {
            &&& #[trigger] walks_reads(db, id, db.horizon(), rows)
            &&& 0 <= i <= rows.len()
            &&& forall|j: int| 0 <= j < i ==> bytes_lt((#[trigger] rows[j]).key, from)
            &&& i < rows.len() ==> !bytes_lt(rows[i].key, from)
            &&& #[trigger] hands_out(rows, i, key, value, status)
        }
}

proof fn lemma_looked(
    it: TailingIter,
    before: TailingIter,
    db: Db,
    from: Seq<u8>,
    key: Option<&[u8]>,
    value: Option<&[u8]>,
    status: Result<()>,
)
    requires
        !db.is_closed(),
        it.looked(before, db, from),
        call_ensures(TailingIter::key, (&it,), key),
        call_ensures(TailingIter::value, (&it,), value),
        call_ensures(TailingIter::status, (&it,), status),
    ensures
        stands_at(db, before.family(), from, key, value, status),
{
    let fresh = choose|fresh: CfIter| #[trigger]
        db.iterates(before.family(), db.horizon(), fresh) && it.known().same_source(fresh)
            && it.known().cursor() == sought(fresh.cursor(), from);
    let rows = fresh.cursor().rows;
    fresh.lemma_cursor();
    lemma_walks(db, before.family(), db.horizon(), fresh);
    it.known().lemma_same_source(fresh);
    it.known().lemma_fault();
    lemma_rows_below(rows, from);
    let i = rows_below(rows, from);
    assert(hands_out(rows, i, key, value, status));
}

/// A seek looks at the database as it is now, whatever was written since the
/// iterator was made: it stands on the first key not before the target.
pub proof fn law_tailing_seek(
    it: &mut TailingIter,
    db: &Db,
    target: &[u8],
    after: TailingIter,
    key: Option<&[u8]>,
    value: Option<&[u8]>,
    status: Result<()>,
)
    requires
        old(it).wf(),
        old(it).is_alive(),
        db.wf(),
        !db.is_closed(),
        call_ensures(TailingIter::seek, (it, db, target), ()),
        *final(it) == after,
        call_ensures(TailingIter::key, (&after,), key),
        call_ensures(TailingIter::value, (&after,), value),
        call_ensures(TailingIter::status, (&after,), status),
    ensures
        after.wf() && after.is_alive() && after.family() == old(it).family(),
        stands_at(*db, old(it).family(), target@, key, value, status),
        goes_on_after(after, target@, key),
{
    lemma_looked(after, *old(it), *db, target@, key, value, status);
    lemma_goes_on(after, target@, key);
}

/// A seek to the first key stands on the least key that there is now.
pub proof fn law_tailing_seek_to_first(
    it: &mut TailingIter,
    db: &Db,
    after: TailingIter,
    key: Option<&[u8]>,
    value: Option<&[u8]>,
    status: Result<()>,
)
    requires
        old(it).wf(),
        old(it).is_alive(),
        db.wf(),
        !db.is_closed(),
        call_ensures(TailingIter::seek_to_first, (it, db), ()),
        *final(it) == after,
        call_ensures(TailingIter::key, (&after,), key),
        call_ensures(TailingIter::value, (&after,), value),
        call_ensures(TailingIter::status, (&after,), status),
    ensures
        after.wf() && after.is_alive() && after.family() == old(it).family(),
        stands_at(*db, old(it).family(), Seq::empty(), key, value, status),
        goes_on_after(after, Seq::empty(), key),
{
    lemma_looked(after, *old(it), *db, Seq::empty(), key, value, status);
    lemma_goes_on(after, Seq::empty(), key);
}

/// Where an iterator goes on from: right after the key it stands on, or from
/// where it last looked.
pub open spec fn goes_on_after(it: TailingIter, from: Seq<u8>, key: Option<&[u8]>) -> bool {
    match key {
        Some(k) => it.begins() == k@.push(0),
        None => it.begins() == from,
    }
}

proof fn lemma_goes_on(it: TailingIter, from: Seq<u8>, key: Option<&[u8]>)
    requires
        it.wf(),
        it.is_alive(),
        it.begins() == crate::db::tailing::onward(it.known().cursor(), from),
        call_ensures(TailingIter::key, (&it,), key),
    ensures
        goes_on_after(it, from, key),
{
    assert(opt_slice_view(key) is Some <==> it.known().cursor().at is Some);
}

/// A key followed by a zero byte is the least key after it.
pub proof fn law_next_key(key: Seq<u8>, other: Seq<u8>)
    ensures
        !bytes_lt(other, key.push(0)) <==> bytes_lt(key, other),
    decreases key.len(),
{
    if key.len() == 0 {
        assert(key.push(0).drop_first() =~= Seq::<u8>::empty());
        if other.len() > 0 && other[0] == 0 {
            assert(!bytes_lt(other.drop_first(), key.push(0).drop_first()));
        }
    } else if other.len() > 0 && key[0] == other[0] {
        assert(key.push(0).drop_first() =~= key.drop_first().push(0));
        law_next_key(key.drop_first(), other.drop_first());
    }
}

/// A refresh looks again from where the iterator goes on: a key written since
/// then, after the one it stood on, is found.
pub proof fn law_tailing_refresh(
    it: &mut TailingIter,
    db: &Db,
    after: TailingIter,
    key: Option<&[u8]>,
    value: Option<&[u8]>,
    status: Result<()>,
)
    requires
        old(it).wf(),
        old(it).is_alive(),
        db.wf(),
        !db.is_closed(),
        call_ensures(TailingIter::refresh, (it, db), ()),
        *final(it) == after,
        call_ensures(TailingIter::key, (&after,), key),
        call_ensures(TailingIter::value, (&after,), value),
        call_ensures(TailingIter::status, (&after,), status),
    ensures
        after.wf() && after.is_alive() && after.family() == old(it).family(),
        stands_at(*db, old(it).family(), old(it).begins(), key, value, status),
        goes_on_after(after, old(it).begins(), key),
{
    lemma_looked(after, *old(it), *db, old(it).begins(), key, value, status);
    lemma_goes_on(after, old(it).begins(), key);
}

/// A step leads to the next row that the iterator knows of, and where it
/// knows of none it looks again: it never goes back, and it never stands on
/// the key it stood on.
pub proof fn law_tailing_next(
    it: &mut TailingIter,
    db: &Db,
    after: TailingIter,
    from: Option<&[u8]>,
    key: Option<&[u8]>,
    value: Option<&[u8]>,
    status: Result<()>,
)
    requires
        old(it).wf(),
        old(it).is_alive(),
        db.wf(),
        !db.is_closed(),
        call_ensures(TailingIter::key, (&*old(it),), from),
        goes_on_after(*old(it), old(it).begins(), from),
        call_ensures(TailingIter::next, (it, db), ()),
        *final(it) == after,
        call_ensures(TailingIter::key, (&after,), key),
        call_ensures(TailingIter::value, (&after,), value),
        call_ensures(TailingIter::status, (&after,), status),
    ensures
        after.wf() && after.is_alive() && after.family() == old(it).family(),
        goes_on_after(after, old(it).begins(), key),
        (from, key) matches (Some(a), Some(b)) ==> bytes_lt(a@, b@),
        key is None ==> stands_at(*db, old(it).family(), old(it).begins(), key, value, status),
{
    let before = *old(it);
    let c = before.known().cursor();
    before.lemma_known();
    before.known().lemma_cursor();
    if c.at is Some && crate::iter::stepped(c).at is Some {
        lemma_goes_on(after, before.begins(), key);
        let i = c.at->0;
        assert(opt_slice_view(from) == Some(c.rows[i].key));
        assert(opt_slice_view(key) == Some(c.rows[i + 1].key));
        assert(bytes_lt(c.rows[i].key, c.rows[i + 1].key));
    } else {
        lemma_looked(after, before, *db, before.begins(), key, value, status);
        lemma_goes_on(after, before.begins(), key);
        if from is Some && key is Some {
            law_next_key(from->0@, key->0@);
            let (rows, i) = choose|rows: Seq<RowView>, i: int|
                {
                    &&& #[trigger] walks_reads(*db, before.family(), db.horizon(), rows)
                    &&& 0 <= i <= rows.len()
                    &&& forall|j: int| 0 <= j < i ==> bytes_lt((#[trigger] rows[j]).key, before.begins())
                    &&& i < rows.len() ==> !bytes_lt(rows[i].key, before.begins())
                    &&& #[trigger] hands_out(rows, i, key, value, status)
                };
            assert(key->0@ == rows[i].key);
        }
    }
}

/// A tailing iterator stands nowhere at first and goes on from the least key.
/// One made through a dead handle says so.
pub proof fn law_tailing_begins(
    db: Db,
    cf: &ColumnFamilyHandle,
    plain: TailingIter,
    it: TailingIter,
    key: Option<&[u8]>,
    valid: bool,
    status: Result<()>,
)
    requires
        db.wf(),
        call_ensures(Db::iter_tailing, (&db,), plain),
        call_ensures(Db::iter_tailing_cf, (&db, cf), it),
        call_ensures(TailingIter::key, (&it,), key),
        call_ensures(TailingIter::valid, (&it,), valid),
        call_ensures(TailingIter::status, (&it,), status),
    ensures
        plain.wf() && plain.is_alive() && plain.family() == DEFAULT_CF_ID,
        plain.begins() == Seq::<u8>::empty() && it.begins() == Seq::<u8>::empty(),
        it.family() == cf.id_number(),
        it.is_alive() == db.families().is_live(*cf),
        key is None && !valid,
        !db.families().is_live(*cf) ==> status matches Err(Error::InvalidColumnFamily(_)),
{
}

} // verus!
