//! The iterators that own their snapshot: they stand and step as those that
//! do not.

use vstd::prelude::*;

use crate::bytes::{bytes_lt, lemma_bytes_lt_asymmetric, lemma_bytes_lt_irreflexive, opt_slice_view};
use crate::calls::cursors::{
    hands_out, lemma_between_starts, lemma_start_not_below, lemma_walks, walks_reads,
};
use crate::column_family::DEFAULT_CF_ID;
use crate::db::snapshot::Snapshot;
use crate::db::stream::OwnedSnapshotIter;
use crate::db::Db;
use crate::error::Result;
use crate::iter::{lemma_rows_below, lemma_rows_up_to, rows_below, rows_up_to};
use crate::slice::DbSlice;

verus! {

/// After a prefix seek the iterator stands on the first row whose key starts
/// with the prefix, or on none where no key does.
pub proof fn law_owned_seek_prefix(
    it: &mut OwnedSnapshotIter,
    prefix: &[u8],
    after: OwnedSnapshotIter,
    i: int,
    key: Option<&[u8]>,
    value: Option<&[u8]>,
    status: Result<()>,
)
    requires
        old(it).wf(),
        old(it).walker().live(),
        !old(it).walker().was_closed(),
        call_ensures(OwnedSnapshotIter::seek_prefix, (it, prefix), ()),
        *final(it) == after,
        call_ensures(OwnedSnapshotIter::key, (&after,), key),
        call_ensures(OwnedSnapshotIter::value, (&after,), value),
        call_ensures(OwnedSnapshotIter::status, (&after,), status),
        0 <= i <= old(it).walker().cursor().rows.len(),
        i < old(it).walker().cursor().rows.len() ==> prefix@.is_prefix_of(old(it).walker().cursor().rows[i].key),
        forall|j: int|
            0 <= j < i ==> !prefix@.is_prefix_of((#[trigger] old(it).walker().cursor().rows[j]).key),
    ensures
        after.number() == old(it).number(),
        after.wf() && after.walker().live() && !after.walker().was_closed(),
        after.walker().cursor().rows == old(it).walker().cursor().rows,
        after.walker().cursor().prefix == Some(prefix@),
        hands_out(old(it).walker().cursor().rows, i, key, value, status),
{
    let before = *old(it);
    let rows = before.walker().cursor().rows;
    before.walker().lemma_cursor();
    after.walker().lemma_same_source(before.walker());
    after.walker().lemma_fault();
    lemma_rows_below(rows, prefix@);
    let n = rows_below(rows, prefix@);
    if i < rows.len() {
        lemma_start_not_below(prefix@, rows[i].key);
        assert(n <= i);
        if n < i {
            assert(bytes_lt(rows[n].key, rows[i].key));
            lemma_bytes_lt_asymmetric(rows[n].key, rows[i].key);
            lemma_between_starts(prefix@, rows[n].key, rows[i].key);
        }
    }
}

/// After a seek the iterator stands on the first row whose key does not come
/// before the target, or on none where every key does.
pub proof fn law_owned_seek(
    it: &mut OwnedSnapshotIter,
    target: &[u8],
    after: OwnedSnapshotIter,
    i: int,
    key: Option<&[u8]>,
    value: Option<&[u8]>,
    status: Result<()>,
)
    requires
        old(it).wf(),
        old(it).walker().live(),
        !old(it).walker().was_closed(),
        call_ensures(OwnedSnapshotIter::seek, (it, target), ()),
        *final(it) == after,
        call_ensures(OwnedSnapshotIter::key, (&after,), key),
        call_ensures(OwnedSnapshotIter::value, (&after,), value),
        call_ensures(OwnedSnapshotIter::status, (&after,), status),
        0 <= i <= old(it).walker().cursor().rows.len(),
        i < old(it).walker().cursor().rows.len() ==> !bytes_lt(old(it).walker().cursor().rows[i].key, target@),
        forall|j: int| 0 <= j < i ==> bytes_lt((#[trigger] old(it).walker().cursor().rows[j]).key, target@),
    ensures
        after.number() == old(it).number(),
        after.wf() && after.walker().live() && !after.walker().was_closed(),
        after.walker().cursor().rows == old(it).walker().cursor().rows,
        after.walker().cursor().prefix is None,
        hands_out(old(it).walker().cursor().rows, i, key, value, status),
{
    let before = *old(it);
    let rows = before.walker().cursor().rows;
    before.walker().lemma_cursor();
    after.walker().lemma_same_source(before.walker());
    after.walker().lemma_fault();
    lemma_rows_below(rows, target@);
    let n = rows_below(rows, target@);
    if n < i {
        assert(bytes_lt(rows[n].key, target@));
    }
    if i < n {
        assert(bytes_lt(rows[i].key, target@));
    }
}

/// After a backward seek the iterator stands on the last row whose key does
/// not come after the target, or on none where every key does.
pub proof fn law_owned_seek_for_prev(
    it: &mut OwnedSnapshotIter,
    target: &[u8],
    after: OwnedSnapshotIter,
    i: int,
    key: Option<&[u8]>,
    value: Option<&[u8]>,
    status: Result<()>,
)
    requires
        old(it).wf(),
        old(it).walker().live(),
        !old(it).walker().was_closed(),
        call_ensures(OwnedSnapshotIter::seek_for_prev, (it, target), ()),
        *final(it) == after,
        call_ensures(OwnedSnapshotIter::key, (&after,), key),
        call_ensures(OwnedSnapshotIter::value, (&after,), value),
        call_ensures(OwnedSnapshotIter::status, (&after,), status),
        -1 <= i < old(it).walker().cursor().rows.len(),
        i >= 0 ==> !bytes_lt(target@, old(it).walker().cursor().rows[i].key),
        forall|j: int|
            i < j < old(it).walker().cursor().rows.len() ==> bytes_lt(
                target@,
                (#[trigger] old(it).walker().cursor().rows[j]).key,
            ),
    ensures
        after.number() == old(it).number(),
        after.wf() && after.walker().live() && !after.walker().was_closed(),
        after.walker().cursor().rows == old(it).walker().cursor().rows,
        after.walker().cursor().prefix is None,
        hands_out(old(it).walker().cursor().rows, i, key, value, status),
{
    let before = *old(it);
    let rows = before.walker().cursor().rows;
    before.walker().lemma_cursor();
    after.walker().lemma_same_source(before.walker());
    after.walker().lemma_fault();
    lemma_rows_up_to(rows, target@);
    let n = rows_up_to(rows, target@);
    if n <= i {
        assert(bytes_lt(target@, rows[i].key));
    }
    if i + 1 < n {
        assert(bytes_lt(target@, rows[n - 1].key));
    }
}

/// After a seek to the first or to the last key the iterator stands on the
/// first or the last row.
pub proof fn law_owned_seek_to_first(
    it: &mut OwnedSnapshotIter,
    after: OwnedSnapshotIter,
    key: Option<&[u8]>,
    value: Option<&[u8]>,
    status: Result<()>,
)
    requires
        old(it).wf(),
        old(it).walker().live(),
        !old(it).walker().was_closed(),
        call_ensures(OwnedSnapshotIter::seek_to_first, (it,), ()),
        *final(it) == after,
        call_ensures(OwnedSnapshotIter::key, (&after,), key),
        call_ensures(OwnedSnapshotIter::value, (&after,), value),
        call_ensures(OwnedSnapshotIter::status, (&after,), status),
    ensures
        after.number() == old(it).number(),
        after.wf() && after.walker().live() && !after.walker().was_closed(),
        after.walker().cursor().rows == old(it).walker().cursor().rows,
        after.walker().cursor().prefix is None,
        hands_out(old(it).walker().cursor().rows, 0, key, value, status),
{
    after.walker().lemma_same_source(old(it).walker());
    after.walker().lemma_fault();
}

/// [`law_owned_seek_to_first`], from the other end.
pub proof fn law_owned_seek_to_last(
    it: &mut OwnedSnapshotIter,
    after: OwnedSnapshotIter,
    key: Option<&[u8]>,
    value: Option<&[u8]>,
    status: Result<()>,
)
    requires
        old(it).wf(),
        old(it).walker().live(),
        !old(it).walker().was_closed(),
        call_ensures(OwnedSnapshotIter::seek_to_last, (it,), ()),
        *final(it) == after,
        call_ensures(OwnedSnapshotIter::key, (&after,), key),
        call_ensures(OwnedSnapshotIter::value, (&after,), value),
        call_ensures(OwnedSnapshotIter::status, (&after,), status),
    ensures
        after.number() == old(it).number(),
        after.wf() && after.walker().live() && !after.walker().was_closed(),
        after.walker().cursor().rows == old(it).walker().cursor().rows,
        after.walker().cursor().prefix is None,
        hands_out(old(it).walker().cursor().rows, old(it).walker().cursor().rows.len() - 1, key, value, status),
{
    after.walker().lemma_same_source(old(it).walker());
    after.walker().lemma_fault();
}

/// A step forward from row `i` leads to row `i + 1`, unless a prefix seek
/// confined the iterator and that row's key does not start with the prefix:
/// then it stands on none.
pub proof fn law_owned_next(
    it: &mut OwnedSnapshotIter,
    after: OwnedSnapshotIter,
    i: int,
    from: Option<&[u8]>,
    earlier: Result<()>,
    key: Option<&[u8]>,
    value: Option<&[u8]>,
    status: Result<()>,
)
    requires
        old(it).wf(),
        old(it).walker().live(),
        !old(it).walker().was_closed(),
        call_ensures(OwnedSnapshotIter::key, (&*old(it),), from),
        call_ensures(OwnedSnapshotIter::status, (&*old(it),), earlier),
        earlier is Ok,
        0 <= i < old(it).walker().cursor().rows.len(),
        from matches Some(k) && k@ == old(it).walker().cursor().rows[i].key,
        call_ensures(OwnedSnapshotIter::next, (it,), ()),
        *final(it) == after,
        call_ensures(OwnedSnapshotIter::key, (&after,), key),
        call_ensures(OwnedSnapshotIter::value, (&after,), value),
        call_ensures(OwnedSnapshotIter::status, (&after,), status),
    ensures
        after.number() == old(it).number(),
        after.wf() && after.walker().live() && !after.walker().was_closed(),
        after.walker().cursor().rows == old(it).walker().cursor().rows,
        after.walker().cursor().prefix == old(it).walker().cursor().prefix,
        ({
            let rows = old(it).walker().cursor().rows;
            match old(it).walker().cursor().prefix {
                Some(prefix) if i + 1 < rows.len() && !prefix.is_prefix_of(rows[i + 1].key) => key
                    is None && value is None && status is Ok,
                _ => hands_out(rows, i + 1, key, value, status),
            }
        }),
{
    let before = *old(it);
    lemma_owned_stands(before, i, from);
    after.walker().lemma_same_source(before.walker());
    after.walker().lemma_fault();
    before.walker().lemma_fault();
}

/// A step back from row `i` leads to row `i - 1`, and from the first row to
/// none.
pub proof fn law_owned_prev(
    it: &mut OwnedSnapshotIter,
    after: OwnedSnapshotIter,
    i: int,
    from: Option<&[u8]>,
    earlier: Result<()>,
    key: Option<&[u8]>,
    value: Option<&[u8]>,
    status: Result<()>,
)
    requires
        old(it).wf(),
        old(it).walker().live(),
        !old(it).walker().was_closed(),
        call_ensures(OwnedSnapshotIter::key, (&*old(it),), from),
        call_ensures(OwnedSnapshotIter::status, (&*old(it),), earlier),
        earlier is Ok,
        0 <= i < old(it).walker().cursor().rows.len(),
        from matches Some(k) && k@ == old(it).walker().cursor().rows[i].key,
        call_ensures(OwnedSnapshotIter::prev, (it,), ()),
        *final(it) == after,
        call_ensures(OwnedSnapshotIter::key, (&after,), key),
        call_ensures(OwnedSnapshotIter::value, (&after,), value),
        call_ensures(OwnedSnapshotIter::status, (&after,), status),
    ensures
        after.number() == old(it).number(),
        after.wf() && after.walker().live() && !after.walker().was_closed(),
        after.walker().cursor().rows == old(it).walker().cursor().rows,
        after.walker().cursor().prefix == old(it).walker().cursor().prefix,
        hands_out(old(it).walker().cursor().rows, i - 1, key, value, status),
{
    let before = *old(it);
    lemma_owned_stands(before, i, from);
    after.walker().lemma_same_source(before.walker());
    after.walker().lemma_fault();
    before.walker().lemma_fault();
}

/// The ways to ask an iterator agree: it is valid where it hands out a key,
/// and then it hands out a value, the same bytes as a slice.
pub proof fn law_owned_iterator_answers_agree(
    it: OwnedSnapshotIter,
    valid: bool,
    key: Option<&[u8]>,
    value: Option<&[u8]>,
    slice: Option<DbSlice>,
)
    requires
        it.wf(),
        call_ensures(OwnedSnapshotIter::valid, (&it,), valid),
        call_ensures(OwnedSnapshotIter::key, (&it,), key),
        call_ensures(OwnedSnapshotIter::value, (&it,), value),
        call_ensures(OwnedSnapshotIter::value_slice, (&it,), slice),
    ensures
        valid <==> key is Some,
        valid <==> value is Some,
        match (value, slice) {
            (Some(v), Some(s)) => v@ == s@,
            (None, None) => true,
            _ => false,
        },
{
    it.walker().lemma_cursor();
}

/// An iterator that hands out the key of row `i` stands there.
proof fn lemma_owned_stands(it: OwnedSnapshotIter, i: int, key: Option<&[u8]>)
    requires
        it.wf(),
        it.walker().live(),
        call_ensures(OwnedSnapshotIter::key, (&it,), key),
        0 <= i < it.walker().cursor().rows.len(),
        key matches Some(k) && k@ == it.walker().cursor().rows[i].key,
    ensures
        it.walker().cursor().at == Some(i),
{
    it.walker().lemma_cursor();
    let rows = it.walker().cursor().rows;
    let at = it.walker().cursor().at->0;
    assert(opt_slice_view(key) == Some(rows[at].key));
    if at != i {
        lemma_bytes_lt_irreflexive(rows[i].key);
        if at < i {
            assert(bytes_lt(rows[at].key, rows[i].key));
        } else {
            assert(bytes_lt(rows[i].key, rows[at].key));
        }
    }
}

/// An iterator made of a snapshot walks the reads at the snapshot's number,
/// and hands the snapshot back.
pub proof fn law_owned_iter_walks_reads(
    s: Snapshot,
    db: Db,
    it: OwnedSnapshotIter,
    back: Snapshot,
)
    requires
        db.wf(),
        !db.is_closed(),
        call_ensures(Snapshot::into_owned_iter, (s, &db), it),
        call_ensures(OwnedSnapshotIter::into_snapshot, (it,), back),
    ensures
        it.wf() && it.walker().live() && !it.walker().was_closed(),
        walks_reads(db, DEFAULT_CF_ID, s.number(), it.walker().cursor().rows),
        back.number() == s.number(),
{
    lemma_walks(db, DEFAULT_CF_ID, s.number(), it.walker());
}

/// [`law_owned_iter_walks_reads`], by a copy of the snapshot.
pub proof fn law_owned_iter_of_copy_walks_reads(
    s: &Snapshot,
    db: &mut Db,
    it: OwnedSnapshotIter,
)
    requires
        old(db).wf(),
        !old(db).is_closed(),
        call_ensures(Snapshot::owned_iter, (s, db), it),
    ensures
        it.wf() && it.walker().live() && !it.walker().was_closed(),
        walks_reads(*old(db), DEFAULT_CF_ID, s.number(), it.walker().cursor().rows),
        it.number() == s.number(),
{
    lemma_walks(*final(db), DEFAULT_CF_ID, s.number(), it.walker());
    assert forall|key: Seq<u8>| #[trigger]
        old(db).reads(DEFAULT_CF_ID, key, s.number()) == final(db).reads(
            DEFAULT_CF_ID,
            key,
            s.number(),
        ) by {}
}

} // verus!
