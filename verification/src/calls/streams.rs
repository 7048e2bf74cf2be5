//! Streams and entries: what they hand out, draw by draw.

use vstd::prelude::*;

use crate::bytes::opt_slice_view;
use crate::calls::scans::lemma_entries_of;
use crate::column_family::DEFAULT_CF_ID;
use crate::db::laws::{draws, law_stream_yields_scan};
use crate::db::read::{any_failed, failed_key, is_family_scan, pairs_of};
use crate::db::snapshot::Snapshot;
use crate::db::stream::{Entries, ScanStream};
use crate::db::{pair_views, Db};
use crate::engine::read::RowView;
use crate::error::{is_fault, Error, Fault, Result};
use crate::iter::CfIter;
use crate::slice::DbSlice;

verus! {

/// What a stream handed out, draw by draw, is what a scan lists: entry after
/// entry, and then nothing. Where the scan fails, the stream stops short and
/// its status names the same key.
pub open spec fn hands_out_scan(
    handed: Seq<Option<(Vec<u8>, DbSlice)>>,
    status: Result<()>,
    all: Result<Vec<(Vec<u8>, Vec<u8>)>>,
) -> bool {
    match all {
        Ok(entries) => {
            &&& forall|n: int|
                0 <= n < handed.len() && n < entries@.len() ==> ((#[trigger] handed[n]) matches Some(
                    (key, value),
                ) && key@ == entries@[n].0@ && value@ == entries@[n].1@)
            &&& forall|n: int| entries@.len() <= n < handed.len() ==> (#[trigger] handed[n]) is None
            &&& handed.len() > entries@.len() ==> status is Ok
        },
        Err(Error::MergeFailed(first)) => {
            handed.len() > 0 && handed.last() is None ==> (status matches Err(
                Error::MergeFailed(key),
            ) && key@ == first@)
        },
        Err(_) => false,
    }
}

proof fn lemma_stream(
    db: Db,
    seq: u64,
    start: Option<&[u8]>,
    end: Option<&[u8]>,
    steps: Seq<ScanStream>,
    handed: Seq<Option<(Vec<u8>, DbSlice)>>,
    status: Result<()>,
    all: Result<Vec<(Vec<u8>, Vec<u8>)>>,
)
    requires
        !db.is_closed(),
        draws(steps, handed),
        steps[0].streams(db, seq, opt_slice_view(start), opt_slice_view(end)),
        call_ensures(ScanStream::status, (&steps.last(),), status),
        db.scanned(DEFAULT_CF_ID, opt_slice_view(start), opt_slice_view(end), seq, all),
    ensures
        hands_out_scan(handed, status, all),
{
    let (s, e) = (opt_slice_view(start), opt_slice_view(end));
    let rows = choose|rows: Seq<RowView>| #[trigger]
        is_family_scan(db.operator(), db.history(), DEFAULT_CF_ID, s, e, seq, rows) && (
        if any_failed(rows) {
            all matches Err(f) && is_fault(f, Fault::MergeFailed(failed_key(rows)))
        } else {
            all matches Ok(entries) && pair_views(entries@) == pairs_of(rows)
        });
    law_stream_yields_scan(db, seq, s, e, rows, steps, handed);
    if !any_failed(rows) {
        lemma_entries_of(all->Ok_0@, rows);
    }
}

/// A stream of a database hands out, draw by draw, what a scan of the same
/// bounds lists, whatever is written while it is drawn from.
pub proof fn law_stream_hands_out_scan(
    db: &mut Db,
    start: Option<&[u8]>,
    end: Option<&[u8]>,
    r: Result<ScanStream>,
    steps: Seq<ScanStream>,
    handed: Seq<Option<(Vec<u8>, DbSlice)>>,
    status: Result<()>,
    all: Result<Vec<(Vec<u8>, Vec<u8>)>>,
)
    requires
        old(db).wf(),
        call_ensures(Db::scan, (&*old(db), start, end), all),
        call_ensures(Db::scan_stream, (db, start, end), r),
        r is Ok ==> {
            &&& steps.len() == handed.len() + 1
            &&& steps[0] == r->Ok_0
            &&& forall|i: int|
                #![trigger handed[i]]
                0 <= i < handed.len() ==> exists|m: &mut ScanStream|
                    *m == steps[i] && *final(m) == steps[i + 1] && #[trigger] call_ensures(
                        ScanStream::next,
                        (m,),
                        handed[i],
                    )
            &&& call_ensures(ScanStream::status, (&steps.last(),), status)
        },
    ensures
        old(db).is_closed() <==> r matches Err(Error::Closed),
        r is Ok <==> !old(db).is_closed(),
        r is Ok ==> hands_out_scan(handed, status, all),
{
    if r is Ok {
        assert forall|i: int| 0 <= i < handed.len() implies #[trigger] steps[i + 1].drew(
            steps[i],
            handed[i],
        ) by {
            let h = handed[i];
        }
        assert(draws(steps, handed));
        lemma_stream(
            *final(db),
            old(db).horizon(),
            start,
            end,
            steps,
            handed,
            status,
            all,
        );
    }
}

/// A stream of a snapshot hands out, draw by draw, what a scan through the
/// snapshot lists.
pub proof fn law_snapshot_stream_hands_out_scan(
    s: Snapshot,
    db: Db,
    start: Option<&[u8]>,
    end: Option<&[u8]>,
    stream: ScanStream,
    steps: Seq<ScanStream>,
    handed: Seq<Option<(Vec<u8>, DbSlice)>>,
    status: Result<()>,
    all: Result<Vec<(Vec<u8>, Vec<u8>)>>,
)
    requires
        db.wf(),
        !db.is_closed(),
        call_ensures(Snapshot::scan, (&s, &db, start, end), all),
        call_ensures(Snapshot::into_scan_stream, (s, &db, start, end), stream),
        steps.len() == handed.len() + 1,
        steps[0] == stream,
        forall|i: int|
            #![trigger handed[i]]
            0 <= i < handed.len() ==> exists|m: &mut ScanStream|
                *m == steps[i] && *final(m) == steps[i + 1] && #[trigger] call_ensures(
                    ScanStream::next,
                    (m,),
                    handed[i],
                ),
        call_ensures(ScanStream::status, (&steps.last(),), status),
    ensures
        hands_out_scan(handed, status, all),
{
    assert forall|i: int| 0 <= i < handed.len() implies #[trigger] steps[i + 1].drew(
        steps[i],
        handed[i],
    ) by {
        let h = handed[i];
    }
    assert(draws(steps, handed));
    lemma_stream(db, s.number(), start, end, steps, handed, status, all);
}

/// [`law_snapshot_stream_hands_out_scan`], by a copy of the snapshot.
pub proof fn law_copied_stream_hands_out_scan(
    s: &Snapshot,
    db: &mut Db,
    start: Option<&[u8]>,
    end: Option<&[u8]>,
    stream: ScanStream,
    steps: Seq<ScanStream>,
    handed: Seq<Option<(Vec<u8>, DbSlice)>>,
    status: Result<()>,
    all: Result<Vec<(Vec<u8>, Vec<u8>)>>,
)
    requires
        old(db).wf(),
        !old(db).is_closed(),
        call_ensures(Snapshot::scan, (s, &*old(db), start, end), all),
        call_ensures(Snapshot::scan_stream, (s, db, start, end), stream),
        steps.len() == handed.len() + 1,
        steps[0] == stream,
        forall|i: int|
            #![trigger handed[i]]
            0 <= i < handed.len() ==> exists|m: &mut ScanStream|
                *m == steps[i] && *final(m) == steps[i + 1] && #[trigger] call_ensures(
                    ScanStream::next,
                    (m,),
                    handed[i],
                ),
        call_ensures(ScanStream::status, (&steps.last(),), status),
    ensures
        hands_out_scan(handed, status, all),
{
    assert forall|i: int| 0 <= i < handed.len() implies #[trigger] steps[i + 1].drew(
        steps[i],
        handed[i],
    ) by {
        let h = handed[i];
    }
    assert(draws(steps, handed));
    lemma_stream(*final(db), s.number(), start, end, steps, handed, status, all);
}

/// The entry of row `i`, or nothing where there is no such row or it cannot
/// be read.
pub open spec fn entry_of(rows: Seq<RowView>, i: int, r: Option<(Vec<u8>, DbSlice)>) -> bool {
    if 0 <= i < rows.len() && rows[i].value is Some {
        r matches Some((key, value)) && key@ == rows[i].key && rows[i].value == Some(value@)
    } else {
        r is None
    }
}

/// The entries of an iterator that was never placed begin with the first row,
/// or in reverse with the last.
pub proof fn law_entries_begin(
    it: CfIter,
    placed: bool,
    reverse: bool,
    made: Entries<CfIter>,
    e: &mut Entries<CfIter>,
    r: Option<(Vec<u8>, DbSlice)>,
)
    requires
        it.wf(),
        it.live(),
        call_ensures(CfIter::positioned, (&it,), placed),
        !placed,
        it.cursor().prefix is None,
        reverse ==> call_ensures(CfIter::entries_rev, (it,), made),
        !reverse ==> call_ensures(CfIter::entries, (it,), made),
        *old(e) == made,
        call_ensures(Entries::<CfIter>::next, (e,), r),
    ensures
        entry_of(
            it.cursor().rows,
            if reverse {
                it.cursor().rows.len() - 1
            } else {
                0
            },
            r,
        ),
        final(e).of().cursor().rows == it.cursor().rows,
        final(e).has_started(),
        final(e).is_reverse() == reverse,
{
}

/// Each draw after the first hands out the row after the last one handed out,
/// or in reverse the row before it.
pub proof fn law_entries_go_on(
    e: &mut Entries<CfIter>,
    i: int,
    r: Option<(Vec<u8>, DbSlice)>,
)
    requires
        old(e).of().wf(),
        old(e).of().live(),
        old(e).has_started(),
        old(e).of().cursor().prefix is None,
        old(e).of().cursor().at == Some(i),
        call_ensures(Entries::<CfIter>::next, (e,), r),
    ensures
        entry_of(
            old(e).of().cursor().rows,
            if old(e).is_reverse() {
                i - 1
            } else {
                i + 1
            },
            r,
        ),
        final(e).of().cursor().rows == old(e).of().cursor().rows,
        final(e).of().cursor().prefix is None,
        final(e).is_reverse() == old(e).is_reverse(),
        r is Some ==> final(e).of().cursor().at == Some(
            if old(e).is_reverse() {
                i - 1
            } else {
                i + 1
            },
        ),
{
}

} // verus!
