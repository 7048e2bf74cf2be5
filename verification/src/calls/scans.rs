//! Scans and pages: that they list what point reads find, all of it, in
//! order.

use vstd::prelude::*;

use crate::bytes::{bytes_lt, lemma_bytes_lt_asymmetric, lemma_bytes_lt_irreflexive, opt_slice_view};
use crate::calls::reads::{law_get_answers_the_read, law_get_cf_answers_the_read};
use crate::column_family::{ColumnFamilyHandle, DEFAULT_CF_ID};
use crate::db::laws::law_scan_unique;
use crate::db::read::{
    any_failed, failed_key, is_family_scan, lemma_readable_rows, page_of, page_reach, pairs_of,
    readable,
};
use crate::db::{pair_view, pair_views, Db, ScanPage};
use crate::engine::read::{Read, RowView};
use crate::error::{Error, Result};

verus! {

/// `key` is not before `start` and is before `end`, where they are given.
pub open spec fn asked_for(start: Option<&[u8]>, end: Option<&[u8]>, key: Seq<u8>) -> bool {
    &&& start matches Some(s) ==> !bytes_lt(key, s@)
    &&& end matches Some(e) ==> bytes_lt(key, e@)
}

/// A scan that answered holds, for every key asked for, what a read of it at
/// the same point finds, and nothing else, in order of the keys; one that
/// failed names the first key whose read fails.
pub open spec fn lists_reads(
    db: Db,
    id: u32,
    start: Option<&[u8]>,
    end: Option<&[u8]>,
    seq: u64,
    r: Result<Vec<(Vec<u8>, Vec<u8>)>>,
) -> bool {
    match r {
        Ok(entries) => {
            &&& forall|i: int, j: int|
                0 <= i < j < entries@.len() ==> bytes_lt(
                    (#[trigger] entries@[i]).0@,
                    (#[trigger] entries@[j]).0@,
                )
            &&& forall|i: int|
                0 <= i < entries@.len() ==> asked_for(start, end, (#[trigger] entries@[i]).0@)
                    && db.reads(id, entries@[i].0@, seq) == Read::Value(Some(entries@[i].1@))
            &&& forall|key: Seq<u8>|
                asked_for(start, end, key) && #[trigger] db.reads(id, key, seq) != Read::Value(
                    None,
                ) ==> exists|i: int|
                    0 <= i < entries@.len() && (#[trigger] entries@[i]).0@ == key
        },
        Err(Error::MergeFailed(first)) => {
            &&& asked_for(start, end, first@)
            &&& db.reads(id, first@, seq) == Read::MergeFailed
            &&& forall|key: Seq<u8>|
                asked_for(start, end, key) && bytes_lt(key, first@) ==> #[trigger] db.reads(
                    id,
                    key,
                    seq,
                ) != Read::MergeFailed
        },
        Err(_) => false,
    }
}

/// The first row that could not be read is the least key whose read fails.
proof fn lemma_first_failure(
    db: Db,
    id: u32,
    start: Option<&[u8]>,
    end: Option<&[u8]>,
    seq: u64,
    rows: Seq<RowView>,
)
    requires
        is_family_scan(
            db.operator(),
            db.history(),
            id,
            opt_slice_view(start),
            opt_slice_view(end),
            seq,
            rows,
        ),
        any_failed(rows),
    ensures
        readable(rows) < rows.len(),
        asked_for(start, end, failed_key(rows)),
        db.reads(id, failed_key(rows), seq) == Read::MergeFailed,
        forall|key: Seq<u8>|
            asked_for(start, end, key) && bytes_lt(key, failed_key(rows)) ==> #[trigger] db.reads(
                id,
                key,
                seq,
            ) != Read::MergeFailed,
{
    lemma_readable_rows(rows);
    let f = choose|f: int| 0 <= f < rows.len() && (#[trigger] rows[f]).value is None;
    let n = readable(rows);
    assert(n <= f);
    assert(rows[n].value is None);
    assert forall|key: Seq<u8>|
        asked_for(start, end, key) && bytes_lt(key, failed_key(rows)) implies #[trigger] db.reads(
        id,
        key,
        seq,
    ) != Read::MergeFailed by {
        if db.reads(id, key, seq) == Read::MergeFailed {
            let i = choose|i: int| 0 <= i < rows.len() && (#[trigger] rows[i]).key == key;
            assert(rows[i].value is None);
            lemma_bytes_lt_irreflexive(key);
            if i > n {
                assert(bytes_lt(rows[n].key, rows[i].key));
                lemma_bytes_lt_asymmetric(key, rows[n].key);
            }
        }
    }
}

/// Whatever scan answered, on an open database, lists the reads.
pub proof fn lemma_scanned(
    db: Db,
    id: u32,
    start: Option<&[u8]>,
    end: Option<&[u8]>,
    seq: u64,
    r: Result<Vec<(Vec<u8>, Vec<u8>)>>,
)
    requires
        !db.is_closed(),
        db.scanned(id, opt_slice_view(start), opt_slice_view(end), seq, r),
    ensures
        lists_reads(db, id, start, end, seq, r),
{
    let rows = choose|rows: Seq<RowView>| #[trigger]
        is_family_scan(
            db.operator(),
            db.history(),
            id,
            opt_slice_view(start),
            opt_slice_view(end),
            seq,
            rows,
        ) && (if any_failed(rows) {
            r matches Err(e) && crate::error::is_fault(
                e,
                crate::error::Fault::MergeFailed(failed_key(rows)),
            )
        } else {
            r matches Ok(entries) && pair_views(entries@) == pairs_of(rows)
        });
    if any_failed(rows) {
        lemma_first_failure(db, id, start, end, seq, rows);
    } else {
        let entries = r->Ok_0@;
        lemma_entries_of(entries, rows);
        assert forall|key: Seq<u8>|
            asked_for(start, end, key) && #[trigger] db.reads(id, key, seq) != Read::Value(
                None,
            ) implies exists|i: int| 0 <= i < entries.len() && (#[trigger] entries[i]).0@ == key by {
            let i = choose|i: int| 0 <= i < rows.len() && (#[trigger] rows[i]).key == key;
            assert(entries[i].0@ == key);
        }
    }
}

/// Entries that are the pairs of readable rows hold the rows' keys and
/// values.
pub proof fn lemma_entries_of(entries: Seq<(Vec<u8>, Vec<u8>)>, rows: Seq<RowView>)
    requires
        pair_views(entries) == pairs_of(rows),
        !any_failed(rows),
    ensures
        entries.len() == rows.len(),
        forall|i: int|
            #![trigger entries[i]]
            #![trigger rows[i]]
            0 <= i < entries.len() ==> entries[i].0@ == rows[i].key && rows[i].value == Some(
                entries[i].1@,
            ),
{
    assert(pair_views(entries).len() == entries.len());
    assert(pairs_of(rows).len() == rows.len());
    assert forall|i: int|
        #![trigger entries[i]]
        #![trigger rows[i]]
        0 <= i < entries.len() implies entries[i].0@ == rows[i].key && rows[i].value == Some(
        entries[i].1@,
    ) by {
        assert(pair_views(entries)[i] == pair_view(entries[i]));
        assert(pairs_of(rows)[i] == (rows[i].key, rows[i].value->0));
        if rows[i].value is None {
            assert(any_failed(rows));
        }
    }
}

/// A scan on an open database lists, in order, the keys asked for with the
/// values that reads of them find.
pub proof fn law_scan_lists_reads(
    db: Db,
    start: Option<&[u8]>,
    end: Option<&[u8]>,
    r: Result<Vec<(Vec<u8>, Vec<u8>)>>,
)
    requires
        db.wf(),
        call_ensures(Db::scan, (&db, start, end), r),
    ensures
        db.is_closed() <==> r matches Err(Error::Closed),
        !db.is_closed() ==> lists_reads(db, DEFAULT_CF_ID, start, end, db.horizon(), r),
{
    if !db.is_closed() {
        lemma_scanned(db, DEFAULT_CF_ID, start, end, db.horizon(), r);
    }
}

/// [`law_scan_lists_reads`] of a column family, through a live handle.
pub proof fn law_scan_cf_lists_reads(
    db: Db,
    cf: &ColumnFamilyHandle,
    start: Option<&[u8]>,
    end: Option<&[u8]>,
    r: Result<Vec<(Vec<u8>, Vec<u8>)>>,
)
    requires
        db.wf(),
        call_ensures(Db::scan_cf, (&db, cf, start, end), r),
    ensures
        db.is_closed() <==> r matches Err(Error::Closed),
        !db.is_closed() && !db.families().is_live(*cf) <==> r matches Err(
            Error::InvalidColumnFamily(_),
        ),
        !db.is_closed() && db.families().is_live(*cf) ==> lists_reads(
            db,
            cf.id_number(),
            start,
            end,
            db.horizon(),
            r,
        ),
{
    if !db.is_closed() && db.families().is_live(*cf) {
        lemma_scanned(db, cf.id_number(), start, end, db.horizon(), r);
    }
}

/// A scan and a get of one key agree: the key is among the entries if and
/// only if it was asked for and the get finds a value, and the entry holds
/// that value byte for byte. Where the get of a key asked for fails, so does
/// the scan.
pub proof fn law_scan_holds_what_get_finds(
    db: Db,
    start: Option<&[u8]>,
    end: Option<&[u8]>,
    r: Result<Vec<(Vec<u8>, Vec<u8>)>>,
    key: &[u8],
    g: Result<Option<Vec<u8>>>,
)
    requires
        db.wf(),
        !db.is_closed(),
        call_ensures(Db::scan, (&db, start, end), r),
        call_ensures(Db::get, (&db, key), g),
    ensures
        r matches Ok(entries) ==> {
            &&& (exists|i: int| 0 <= i < entries@.len() && (#[trigger] entries@[i]).0@ == key@)
                <==> asked_for(start, end, key@) && (g matches Ok(Some(_)))
            &&& forall|i: int|
                0 <= i < entries@.len() && (#[trigger] entries@[i]).0@ == key@ ==> (g matches Ok(
                    Some(v),
                ) && v@ == entries@[i].1@)
        },
        asked_for(start, end, key@) && g is Err ==> r is Err,
{
    law_scan_lists_reads(db, start, end, r);
    law_get_answers_the_read(db, key, g);
    assert(db.reads(DEFAULT_CF_ID, key@, db.horizon()) == db.reads(
        DEFAULT_CF_ID,
        key@,
        db.horizon(),
    ));
}

/// [`law_scan_holds_what_get_finds`] of a column family.
pub proof fn law_scan_cf_holds_what_get_finds(
    db: Db,
    cf: &ColumnFamilyHandle,
    start: Option<&[u8]>,
    end: Option<&[u8]>,
    r: Result<Vec<(Vec<u8>, Vec<u8>)>>,
    key: &[u8],
    g: Result<Option<Vec<u8>>>,
)
    requires
        db.wf(),
        !db.is_closed(),
        db.families().is_live(*cf),
        call_ensures(Db::scan_cf, (&db, cf, start, end), r),
        call_ensures(Db::get_cf, (&db, cf, key), g),
    ensures
        r matches Ok(entries) ==> {
            &&& (exists|i: int| 0 <= i < entries@.len() && (#[trigger] entries@[i]).0@ == key@)
                <==> asked_for(start, end, key@) && (g matches Ok(Some(_)))
            &&& forall|i: int|
                0 <= i < entries@.len() && (#[trigger] entries@[i]).0@ == key@ ==> (g matches Ok(
                    Some(v),
                ) && v@ == entries@[i].1@)
        },
        asked_for(start, end, key@) && g is Err ==> r is Err,
{
    law_scan_cf_lists_reads(db, cf, start, end, r);
    law_get_cf_answers_the_read(db, cf, key, g);
    assert(db.reads(cf.id_number(), key@, db.horizon()) == db.reads(
        cf.id_number(),
        key@,
        db.horizon(),
    ));
}

/// A page holds the first entries of the scan it is a page of, as many as
/// the limit allows, and says with which key the next page begins: the first
/// entry it left out, if it left one out.
pub open spec fn begins_scan(
    limit: usize,
    page: ScanPage,
    entries: Seq<(Vec<u8>, Vec<u8>)>,
) -> bool {
    &&& page.entries@.len() == (if entries.len() <= limit {
        entries.len() as int
    } else {
        limit as int
    })
    &&& forall|i: int|
        0 <= i < page.entries@.len() ==> (#[trigger] page.entries@[i]).0@ == entries[i].0@
            && page.entries@[i].1@ == entries[i].1@
    &&& match page.next_start {
        Some(key) => entries.len() > limit && key@ == entries[limit as int].0@,
        None => entries.len() <= limit,
    }
}

/// Whatever page was answered beside a scan of the same bounds begins it.
pub proof fn lemma_paged(
    db: Db,
    id: u32,
    start: Option<&[u8]>,
    end: Option<&[u8]>,
    limit: usize,
    seq: u64,
    page: Result<ScanPage>,
    all: Result<Vec<(Vec<u8>, Vec<u8>)>>,
)
    requires
        !db.is_closed(),
        limit > 0,
        db.paged(id, opt_slice_view(start), opt_slice_view(end), limit, seq, page),
        db.scanned(id, opt_slice_view(start), opt_slice_view(end), seq, all),
    ensures
        all matches Ok(entries) ==> (page matches Ok(p) && begins_scan(limit, p, entries@)),
{
    if all is Ok {
        let (s, e) = (opt_slice_view(start), opt_slice_view(end));
        let rows = choose|rows: Seq<RowView>| #[trigger]
            is_family_scan(db.operator(), db.history(), id, s, e, seq, rows) && (if any_failed(
                rows,
            ) {
                all matches Err(f) && crate::error::is_fault(
                    f,
                    crate::error::Fault::MergeFailed(failed_key(rows)),
                )
            } else {
                all matches Ok(entries) && pair_views(entries@) == pairs_of(rows)
            });
        let other = choose|other: Seq<RowView>| #[trigger]
            is_family_scan(db.operator(), db.history(), id, s, e, seq, other) && page_of(
                other,
                limit,
                page,
            );
        law_scan_unique(db, id, s, e, seq, rows, other);
        let entries = all->Ok_0@;
        lemma_entries_of(entries, rows);
        let early = rows.take(page_reach(rows, limit));
        assert(!any_failed(early)) by {
            if any_failed(early) {
                let i = choose|i: int| 0 <= i < early.len() && (#[trigger] early[i]).value is None;
                assert(rows[i].value is None);
            }
        }
        if rows.len() > limit {
            let head = rows.take(limit as int);
            assert(!any_failed(head)) by {
                if any_failed(head) {
                    let i = choose|i: int|
                        0 <= i < head.len() && (#[trigger] head[i]).value is None;
                    assert(rows[i].value is None);
                }
            }
            lemma_entries_of(page->Ok_0.entries@, head);
            let p = page->Ok_0;
            assert forall|i: int| 0 <= i < p.entries@.len() implies (
            #[trigger] p.entries@[i]).0@ == entries[i].0@ && p.entries@[i].1@ == entries[i].1@ by {
                assert(head[i] == rows[i]);
            }
        } else {
            lemma_entries_of(page->Ok_0.entries@, rows);
        }
    }
}

/// A page is the beginning of the scan of the same bounds, and names the key
/// that the next page begins with; a limit of none is refused.
pub proof fn law_page_begins_scan(
    db: Db,
    start: Option<&[u8]>,
    end: Option<&[u8]>,
    limit: usize,
    page: Result<ScanPage>,
    all: Result<Vec<(Vec<u8>, Vec<u8>)>>,
)
    requires
        db.wf(),
        call_ensures(Db::scan_page, (&db, start, end, limit), page),
        call_ensures(Db::scan, (&db, start, end), all),
    ensures
        db.is_closed() <==> page matches Err(Error::Closed),
        !db.is_closed() && limit == 0 <==> page matches Err(Error::InvalidArgument(_)),
        limit > 0 ==> (all matches Ok(entries) ==> (page matches Ok(p) && begins_scan(
            limit,
            p,
            entries@,
        ))),
{
    if !db.is_closed() && limit > 0 {
        lemma_paged(db, DEFAULT_CF_ID, start, end, limit, db.horizon(), page, all);
    }
}

/// [`law_page_begins_scan`] of a column family.
pub proof fn law_page_cf_begins_scan(
    db: Db,
    cf: &ColumnFamilyHandle,
    start: Option<&[u8]>,
    end: Option<&[u8]>,
    limit: usize,
    page: Result<ScanPage>,
    all: Result<Vec<(Vec<u8>, Vec<u8>)>>,
)
    requires
        db.wf(),
        call_ensures(Db::scan_page_cf, (&db, cf, start, end, limit), page),
        call_ensures(Db::scan_cf, (&db, cf, start, end), all),
    ensures
        db.is_closed() <==> page matches Err(Error::Closed),
        !db.is_closed() && !db.families().is_live(*cf) <==> page matches Err(
            Error::InvalidColumnFamily(_),
        ),
        limit > 0 ==> (all matches Ok(entries) ==> (page matches Ok(p) && begins_scan(
            limit,
            p,
            entries@,
        ))),
{
    if !db.is_closed() && db.families().is_live(*cf) && limit > 0 {
        lemma_paged(db, cf.id_number(), start, end, limit, db.horizon(), page, all);
    }
}

/// Every entry of a page is what a read of its key finds, byte for byte,
/// whether or not the rest of the scan can be read.
pub proof fn law_page_holds_reads(
    db: Db,
    start: Option<&[u8]>,
    end: Option<&[u8]>,
    limit: usize,
    page: Result<ScanPage>,
)
    requires
        db.wf(),
        !db.is_closed(),
        limit > 0,
        call_ensures(Db::scan_page, (&db, start, end, limit), page),
    ensures
        holds_reads(db, DEFAULT_CF_ID, start, end, limit, db.horizon(), page),
{
    lemma_page_holds(db, DEFAULT_CF_ID, start, end, limit, db.horizon(), page);
}

/// [`law_page_holds_reads`] of a column family.
pub proof fn law_page_cf_holds_reads(
    db: Db,
    cf: &ColumnFamilyHandle,
    start: Option<&[u8]>,
    end: Option<&[u8]>,
    limit: usize,
    page: Result<ScanPage>,
)
    requires
        db.wf(),
        !db.is_closed(),
        db.families().is_live(*cf),
        limit > 0,
        call_ensures(Db::scan_page_cf, (&db, cf, start, end, limit), page),
    ensures
        holds_reads(db, cf.id_number(), start, end, limit, db.horizon(), page),
{
    lemma_page_holds(db, cf.id_number(), start, end, limit, db.horizon(), page);
}

/// A page that answered holds, in order, what reads find of every key asked
/// for up to where the next page begins; one that failed names the first key
/// whose read fails.
pub open spec fn holds_reads(
    db: Db,
    id: u32,
    start: Option<&[u8]>,
    end: Option<&[u8]>,
    limit: usize,
    seq: u64,
    page: Result<ScanPage>,
) -> bool {
    match page {
        Ok(p) => {
            &&& p.entries@.len() <= limit
            &&& p.next_start is Some ==> p.entries@.len() == limit
            &&& forall|i: int, j: int|
                0 <= i < j < p.entries@.len() ==> bytes_lt(
                    (#[trigger] p.entries@[i]).0@,
                    (#[trigger] p.entries@[j]).0@,
                )
            &&& forall|i: int|
                0 <= i < p.entries@.len() ==> asked_for(start, end, (#[trigger] p.entries@[i]).0@)
                    && db.reads(id, p.entries@[i].0@, seq) == Read::Value(Some(p.entries@[i].1@))
            &&& p.next_start matches Some(next) ==> asked_for(start, end, next@) && (db.reads(
                id,
                next@,
                seq,
            ) matches Read::Value(Some(_)))
            &&& forall|key: Seq<u8>|
                asked_for(start, end, key) && (p.next_start matches Some(next) ==> bytes_lt(
                    key,
                    next@,
                )) && #[trigger] db.reads(id, key, seq) != Read::Value(None) ==> exists|i: int|
                    0 <= i < p.entries@.len() && (#[trigger] p.entries@[i]).0@ == key
        },
        Err(Error::MergeFailed(first)) => {
            &&& asked_for(start, end, first@)
            &&& db.reads(id, first@, seq) == Read::MergeFailed
            &&& forall|key: Seq<u8>|
                asked_for(start, end, key) && bytes_lt(key, first@) ==> #[trigger] db.reads(
                    id,
                    key,
                    seq,
                ) != Read::MergeFailed
        },
        Err(_) => false,
    }
}

/// Whatever page was answered on an open database holds the reads.
pub proof fn lemma_page_holds(
    db: Db,
    id: u32,
    start: Option<&[u8]>,
    end: Option<&[u8]>,
    limit: usize,
    seq: u64,
    page: Result<ScanPage>,
)
    requires
        !db.is_closed(),
        limit > 0,
        db.paged(id, opt_slice_view(start), opt_slice_view(end), limit, seq, page),
    ensures
        holds_reads(db, id, start, end, limit, seq, page),
{
    let (s, e) = (opt_slice_view(start), opt_slice_view(end));
    let rows = choose|rows: Seq<RowView>| #[trigger]
        is_family_scan(db.operator(), db.history(), id, s, e, seq, rows) && page_of(
            rows,
            limit,
            page,
        );
    let early = rows.take(page_reach(rows, limit));
    if any_failed(early) {
        let i = choose|i: int| 0 <= i < early.len() && (#[trigger] early[i]).value is None;
        assert(rows[i].value is None);
        lemma_first_failure(db, id, start, end, seq, rows);
    } else {
        let p = page->Ok_0;
        let head = if rows.len() > limit {
            rows.take(limit as int)
        } else {
            rows
        };
        assert(!any_failed(head)) by {
            if any_failed(head) {
                let i = choose|i: int| 0 <= i < head.len() && (#[trigger] head[i]).value is None;
                assert(early[i].value is None);
            }
        }
        lemma_entries_of(p.entries@, head);
        assert forall|i: int, j: int| 0 <= i < j < p.entries@.len() implies bytes_lt(
            (#[trigger] p.entries@[i]).0@,
            (#[trigger] p.entries@[j]).0@,
        ) by {
            assert(head[i] == rows[i] && head[j] == rows[j]);
        }
        assert forall|i: int| 0 <= i < p.entries@.len() implies asked_for(
            start,
            end,
            (#[trigger] p.entries@[i]).0@,
        ) && db.reads(id, p.entries@[i].0@, seq) == Read::Value(Some(p.entries@[i].1@)) by {
            assert(head[i] == rows[i]);
        }
        if rows.len() > limit {
            assert(early[limit as int] == rows[limit as int]);
            assert(p.next_start->0@ == rows[limit as int].key);
        }
        assert forall|key: Seq<u8>|
            asked_for(start, end, key) && (p.next_start matches Some(next) ==> bytes_lt(
                key,
                next@,
            )) && #[trigger] db.reads(id, key, seq) != Read::Value(None) implies exists|i: int|
            0 <= i < p.entries@.len() && (#[trigger] p.entries@[i]).0@ == key by {
            let i = choose|i: int| 0 <= i < rows.len() && (#[trigger] rows[i]).key == key;
            if rows.len() > limit && i >= limit {
                lemma_bytes_lt_irreflexive(key);
                if i > limit {
                    assert(bytes_lt(rows[limit as int].key, rows[i].key));
                    lemma_bytes_lt_asymmetric(key, rows[limit as int].key);
                }
            }
            assert(head[i] == rows[i]);
            assert(p.entries@[i].0@ == key);
        }
    }
}

} // verus!
