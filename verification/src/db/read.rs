//! Reads: point lookups, scans, pages and iterators, each as of a point of
//! the history.

use std::sync::Arc;

use vstd::prelude::*;

use crate::bytes;
use crate::bytes::{
    bytes_le, bytes_lt, lemma_be_value_unique, opt_slice_view, opt_view, slice_views,
};
use crate::column_family::{
    cf_lower_bound, cf_upper_bound, family_of, lemma_family_bounds, lemma_family_head,
    lemma_family_order, lemma_family_range, lemma_family_tail, lemma_prefixed_parts, past_family,
    prefix_key, prefixed, unprefixed, ColumnFamilyHandle, CF_PREFIX_LEN, DEFAULT_CF_ID, META_CF_ID,
};
use crate::db::{
    all_prefixed, is_merge_failure, map_point_read_error_for, pair_views, strip_cf_prefix_entries,
    strip_cf_prefix_page, stripped, Db, ScanPage,
};
use crate::engine::compaction::user_part;
use crate::engine::memtable::point_key;
use crate::engine::read::{
    is_scan, merge_failure, read_at, row_holds, row_views, user_key_of, Read, Row, RowView,
};
use crate::engine::store::keyed;
use crate::error::{is_fault, Error, Fault, Result};
use crate::history::{covers, lemma_found_was_written, Logged};
use crate::iter::{dead_handle_text, rows_ascend, CfIter};
use crate::options::MergeOperator;
use crate::slice::DbSlice;

verus! {

/// A key lies between two bounds, either of which may be missing.
pub open spec fn in_bounds(start: Option<Seq<u8>>, end: Option<Seq<u8>>, key: Seq<u8>) -> bool {
    &&& start matches Some(s) ==> bytes_le(s, key)
    &&& end matches Some(e) ==> bytes_lt(key, e)
}

/// `rows` is what a scan of family `id` between two bounds comes to: in key
/// order, every key that a read finds something of, and no other.
pub open spec fn is_family_scan(
    operator: Option<Arc<dyn MergeOperator>>,
    h: Seq<Logged>,
    id: u32,
    start: Option<Seq<u8>>,
    end: Option<Seq<u8>>,
    seq: u64,
    rows: Seq<RowView>,
) -> bool {
    &&& rows_ascend(rows)
    &&& forall|i: int|
        0 <= i < rows.len() ==> in_bounds(start, end, (#[trigger] rows[i]).key) && row_holds(
            read_at(operator, h, prefixed(id, rows[i].key), seq),
            rows[i],
        )
    &&& forall|key: Seq<u8>|
        in_bounds(start, end, key) && #[trigger] read_at(operator, h, prefixed(id, key), seq)
            != Read::Value(None) ==> exists|i: int|
            0 <= i < rows.len() && (#[trigger] rows[i]).key == key
}

/// Some row could not be read.
pub open spec fn any_failed(rows: Seq<RowView>) -> bool {
    exists|i: int| 0 <= i < rows.len() && (#[trigger] rows[i]).value is None
}

/// How many rows come before the first that could not be read.
pub open spec fn readable(rows: Seq<RowView>) -> int
    decreases rows.len(),
{
    if rows.len() == 0 || rows[0].value is None {
        0
    } else {
        1 + readable(rows.drop_first())
    }
}

/// The key of the first row that could not be read.
pub open spec fn failed_key(rows: Seq<RowView>) -> Seq<u8> {
    rows[readable(rows)].key
}

/// The first row that could not be read is the one that only readable rows
/// come before.
pub proof fn lemma_readable(rows: Seq<RowView>, n: int)
    requires
        0 <= n <= rows.len(),
        forall|i: int| 0 <= i < n ==> (#[trigger] rows[i]).value is Some,
        n < rows.len() ==> rows[n].value is None,
    ensures
        readable(rows) == n,
    decreases rows.len(),
{
    if n > 0 {
        let rest = rows.drop_first();
        assert forall|i: int| 0 <= i < n - 1 implies (#[trigger] rest[i]).value is Some by {
            assert(rest[i] == rows[i + 1]);
        }
        lemma_readable(rest, n - 1);
        assert(rows[0].value is Some);
    }
}

/// The rows before the first that could not be read can be, and that one
/// cannot.
pub proof fn lemma_readable_rows(rows: Seq<RowView>)
    ensures
        0 <= readable(rows) <= rows.len(),
        forall|i: int| 0 <= i < readable(rows) ==> (#[trigger] rows[i]).value is Some,
        readable(rows) < rows.len() ==> rows[readable(rows)].value is None,
    decreases rows.len(),
{
    if rows.len() > 0 && rows[0].value is Some {
        let rest = rows.drop_first();
        lemma_readable_rows(rest);
        assert forall|i: int| 0 <= i < readable(rows) implies (#[trigger] rows[i]).value is Some by {
            if i > 0 {
                assert(rest[i - 1] == rows[i]);
            }
        }
    }
}

/// The rows as keys and values.
pub open spec fn pairs_of(rows: Seq<RowView>) -> Seq<(Seq<u8>, Seq<u8>)> {
    Seq::new(rows.len(), |i: int| (rows[i].key, rows[i].value->0))
}

/// The least stored key of a scan.
pub open spec fn stored_start(id: u32, start: Option<Seq<u8>>) -> Seq<u8> {
    match start {
        Some(s) => prefixed(id, s),
        None => prefixed(id, Seq::empty()),
    }
}

/// The first stored key past a scan.
pub open spec fn stored_end(id: u32, end: Option<Seq<u8>>) -> Seq<u8> {
    match end {
        Some(e) => prefixed(id, e),
        None => past_family(id),
    }
}

/// The stored bounds of a scan hold exactly the stored keys of the family
/// that lie between the scan's bounds.
pub proof fn lemma_stored_bounds(
    id: u32,
    start: Option<Seq<u8>>,
    end: Option<Seq<u8>>,
    other: u32,
    key: Seq<u8>,
)
    requires
        id < META_CF_ID,
    ensures
        covers(stored_start(id, start), stored_end(id, end), prefixed(other, key)) <==> other == id
            && in_bounds(start, end, key),
{
    match (start, end) {
        (Some(s), Some(e)) => lemma_family_range(id, s, e, other, key),
        (Some(s), None) => lemma_family_tail(id, s, other, key),
        (None, Some(e)) => lemma_family_head(id, e, other, key),
        (None, None) => lemma_family_bounds(id, other, key),
    }
}

/// A stored key long enough for a prefix is made of its family and its user
/// key.
pub proof fn lemma_stored_key_parts(key: Seq<u8>)
    requires
        key.len() >= CF_PREFIX_LEN,
    ensures
        prefixed(family_of(key), unprefixed(key)) == key,
{
    lemma_be_value_unique(key.take(4));
    crate::bytes::lemma_be_value_bound(key.take(4));
    crate::bytes::lemma_u32_fits();
    assert(key =~= key.take(4) + key.skip(4));
}

/// A read that came out as a value, or as the failure named.
pub open spec fn got(r: Result<Option<Vec<u8>>>, outcome: std::result::Result<
    Option<Seq<u8>>,
    Fault,
>) -> bool {
    match outcome {
        Ok(value) => r matches Ok(v) && opt_view(v) == value,
        Err(fault) => r matches Err(e) && is_fault(e, fault),
    }
}

/// The values of a run of reads.
pub open spec fn values_of(v: Seq<Option<Vec<u8>>>) -> Seq<Option<Seq<u8>>> {
    Seq::new(v.len(), |i: int| opt_view(v[i]))
}

/// The failure of a merge of the stored key `key`, told by the user key.
fn merge_failed(key: &[u8]) -> (r: Error)
    ensures
        is_fault(r, Fault::MergeFailed(user_key_of(key@))),
{
    Error::MergeFailed(bytes::copy(user_part(key)))
}

/// Refuse a scan that ran into a row it could not read; else the rows as
/// keys and values.
pub(crate) fn collect_range(rows: Vec<Row>) -> (r: Result<Vec<(Vec<u8>, Vec<u8>)>>)
    ensures
        if any_failed(row_views(rows@)) {
            r matches Err(e) && is_fault(
                e,
                Fault::MergeFailed(user_key_of(failed_key(row_views(rows@)))),
            )
        } else {
            r matches Ok(entries) && pair_views(entries@) == pairs_of(row_views(rows@))
        },
{
    let mut out: Vec<(Vec<u8>, Vec<u8>)> = Vec::new();
    let mut i: usize = 0;
    let ghost all = row_views(rows@);
    while i < rows.len()
        invariant
            i <= rows@.len(),
            all == row_views(rows@),
            pair_views(out@) == pairs_of(all).take(i as int),
            forall|j: int| 0 <= j < i ==> (#[trigger] all[j]).value is Some,
        decreases rows@.len() - i,
    {
        let ghost before = pair_views(out@);
        match &rows[i].value {
            None => {
                proof {
                    assert(all[i as int].value is None);
                    lemma_readable(all, i as int);
                }
                return Err(merge_failed(rows[i].key.as_slice()));
            },
            Some(value) => {
                out.push((bytes::copy(rows[i].key.as_slice()), bytes::copy(value.as_slice())));
                proof {
                    assert(pair_views(out@) =~= before.push((all[i as int].key, value@)));
                    assert(pairs_of(all).take(i + 1) =~= pairs_of(all).take(i as int).push(
                        pairs_of(all)[i as int],
                    ));
                }
            },
        }
        i += 1;
    }
    assert(pairs_of(all).take(i as int) =~= pairs_of(all));
    Ok(out)
}

/// How many rows a page of `limit` looks at: one past the page tells where
/// the next begins.
pub open spec fn page_reach(rows: Seq<RowView>, limit: usize) -> int {
    if rows.len() > limit {
        limit + 1
    } else {
        rows.len() as int
    }
}

/// The page of the first `limit` rows, and where the next page begins.
fn collect_page(rows: Vec<Row>, limit: usize) -> (r: Result<ScanPage>)
    ensures
        ({
            let all = row_views(rows@);
            if limit == 0 {
                r matches Err(e) && is_fault(
                    e,
                    Fault::InvalidArgument("scan page limit must be greater than zero"@),
                )
            } else if any_failed(all.take(page_reach(all, limit))) {
                r matches Err(e) && is_fault(e, Fault::MergeFailed(user_key_of(failed_key(all))))
            } else if all.len() > limit {
                r matches Ok(page) && pair_views(page.entries@) == pairs_of(
                    all.take(limit as int),
                ) && opt_view(page.next_start) == Some(all[limit as int].key)
            } else {
                r matches Ok(page) && pair_views(page.entries@) == pairs_of(all) && opt_view(
                    page.next_start,
                ) is None
            }
        }),
{
    if limit == 0 {
        return Err(Error::invalid_argument("scan page limit must be greater than zero"));
    }
    let ghost all = row_views(rows@);
    let ghost reach = page_reach(all, limit);
    let mut entries: Vec<(Vec<u8>, Vec<u8>)> = Vec::new();
    let mut next_start: Option<Vec<u8>> = None;
    let mut i: usize = 0;
    while i < rows.len() && next_start.is_none()
        invariant
            all == row_views(rows@),
            reach == page_reach(all, limit),
            0 < limit,
            i <= rows@.len(),
            i <= reach,
            next_start is None ==> i <= limit && pair_views(entries@) == pairs_of(all).take(
                i as int,
            ),
            next_start matches Some(key) ==> i == limit + 1 && all.len() > limit && key@
                == all[limit as int].key && pair_views(entries@) == pairs_of(all).take(
                limit as int,
            ),
            forall|j: int| 0 <= j < i ==> (#[trigger] all[j]).value is Some,
        decreases rows@.len() - i,
    {
        let ghost before = pair_views(entries@);
        assert(i < reach);
        match &rows[i].value {
            None => {
                proof {
                    assert(all.take(reach)[i as int].value is None);
                    lemma_readable(all, i as int);
                }
                return Err(merge_failed(rows[i].key.as_slice()));
            },
            Some(value) => {
                assert(entries@.len() == pair_views(entries@).len());
                if entries.len() == limit {
                    next_start = Some(bytes::copy(rows[i].key.as_slice()));
                } else {
                    entries.push(
                        (bytes::copy(rows[i].key.as_slice()), bytes::copy(value.as_slice())),
                    );
                    proof {
                        assert(pair_views(entries@) =~= before.push((all[i as int].key, value@)));
                        assert(pairs_of(all).take(i + 1) =~= pairs_of(all).take(i as int).push(
                            pairs_of(all)[i as int],
                        ));
                    }
                }
            },
        }
        i += 1;
    }
    proof {
        assert forall|j: int| 0 <= j < reach implies (#[trigger] all.take(reach)[j]).value
            is Some by {
            assert(all[j].value is Some);
        }
        if all.len() > limit {
            assert(pairs_of(all).take(limit as int) =~= pairs_of(all.take(limit as int)));
        } else {
            assert(pairs_of(all).take(i as int) =~= pairs_of(all));
        }
    }
    Ok(ScanPage { entries, next_start })
}

impl Db {
    /// What a point read of `key` in family `id` at `seq` answers.
    pub open spec fn point_read(self, id: u32, key: Seq<u8>, seq: u64) -> std::result::Result<
        Option<Seq<u8>>,
        Fault,
    > {
        if self.is_closed() {
            Err(Fault::Closed)
        } else {
            match self.reads(id, key, seq) {
                Read::Value(value) => Ok(value),
                Read::MergeFailed => Err(Fault::MergeFailed(key)),
            }
        }
    }

    /// What a point read through a handle answers: a closed database first,
    /// a dead handle next.
    pub open spec fn point_read_cf(
        self,
        cf: ColumnFamilyHandle,
        key: Seq<u8>,
        seq: u64,
    ) -> std::result::Result<Option<Seq<u8>>, Fault> {
        match self.read_fault(cf) {
            Some(fault) => Err(fault),
            None => self.point_read(cf.id_number(), key, seq),
        }
    }

    /// Read `key` in family `id` at `seq`.
    pub(crate) fn lookup_at(&self, id: u32, key: &[u8], seq: u64) -> (r: Result<Option<Vec<u8>>>)
        requires
            self.wf(),
        ensures
            got(r, self.point_read(id, key@, seq)),
    {
        let stored: Vec<u8> = prefix_key(id, key);
        match self.engine.read(stored.as_slice(), seq) {
            Ok(value) => Ok(value),
            Err(e) => {
                proof {
                    reveal_strlit("merge operator ");
                    let head = "merge operator "@;
                    let rest = e.message@.skip(head.len() as int);
                    if !self.is_closed() {
                        assert(merge_failure(self.operator()).take(head.len() as int) =~= head);
                        assert(head =~= e.message@.subrange(0, head.len() as int));
                        assert(is_merge_failure(e));
                    }
                }
                Err(map_point_read_error_for(e, key))
            },
        }
    }

    /// [`Db::lookup_at`] through a handle.
    pub(crate) fn lookup_cf_at(&self, cf: &ColumnFamilyHandle, key: &[u8], seq: u64) -> (r: Result<
        Option<Vec<u8>>,
    >)
        requires
            self.wf(),
        ensures
            got(r, self.point_read_cf(*cf, key@, seq)),
    {
        if let Err(e) = self.validate_cf_read(cf) {
            return Err(e);
        }
        self.lookup_at(cf.id(), key, seq)
    }

    /// How many of the keys come before the first whose merge fails.
    pub open spec fn readable_keys(self, id: u32, keys: Seq<Seq<u8>>, seq: u64) -> int
        decreases keys.len(),
    {
        if keys.len() == 0 || self.reads(id, keys[0], seq) == Read::MergeFailed {
            0
        } else {
            1 + self.readable_keys(id, keys.drop_first(), seq)
        }
    }

    /// The first key whose merge fails is the one that only readable keys
    /// come before.
    pub proof fn lemma_readable_keys(self, id: u32, keys: Seq<Seq<u8>>, seq: u64, n: int)
        requires
            0 <= n <= keys.len(),
            forall|i: int|
                0 <= i < n ==> self.reads(id, #[trigger] keys[i], seq) != Read::MergeFailed,
            n < keys.len() ==> self.reads(id, keys[n], seq) == Read::MergeFailed,
        ensures
            self.readable_keys(id, keys, seq) == n,
        decreases keys.len(),
    {
        if n > 0 {
            let rest = keys.drop_first();
            assert forall|i: int| 0 <= i < n - 1 implies self.reads(id, #[trigger] rest[i], seq)
                != Read::MergeFailed by {
                assert(rest[i] == keys[i + 1]);
            }
            self.lemma_readable_keys(id, rest, seq, n - 1);
            assert(self.reads(id, keys[0], seq) != Read::MergeFailed);
        }
    }

    /// What reading several keys at once answers: every value, or the
    /// failure of the first key that cannot be read.
    pub open spec fn multi_read(self, id: u32, keys: Seq<Seq<u8>>, seq: u64) -> std::result::Result<
        Seq<Option<Seq<u8>>>,
        Fault,
    > {
        let n = self.readable_keys(id, keys, seq);
        if self.is_closed() {
            Err(Fault::Closed)
        } else if n < keys.len() {
            Err(Fault::MergeFailed(keys[n]))
        } else {
            Ok(Seq::new(keys.len(), |i: int| self.reads(id, keys[i], seq)->Value_0))
        }
    }

    /// Read several keys of family `id` at `seq`.
    pub(crate) fn multi_lookup_at(&self, id: u32, keys: &[&[u8]], seq: u64) -> (r: Result<
        Vec<Option<Vec<u8>>>,
    >)
        requires
            self.wf(),
        ensures
            match self.multi_read(id, slice_views(keys@), seq) {
                Ok(values) => r matches Ok(v) && values_of(v@) == values,
                Err(fault) => r matches Err(e) && is_fault(e, fault),
            },
    {
        if let Err(e) = self.ensure_open() {
            return Err(e);
        }
        let ghost names = slice_views(keys@);
        let mut out: Vec<Option<Vec<u8>>> = Vec::new();
        let mut i: usize = 0;
        while i < keys.len()
            invariant
                self.wf(),
                !self.is_closed(),
                names == slice_views(keys@),
                i <= keys@.len(),
                out@.len() == i,
                forall|j: int|
                    0 <= j < i ==> self.reads(id, #[trigger] names[j], seq) == Read::Value(
                        values_of(out@)[j],
                    ),
            decreases keys@.len() - i,
        {
            let ghost before = values_of(out@);
            match self.lookup_at(id, keys[i], seq) {
                Err(e) => {
                    proof {
                        assert(self.reads(id, names[i as int], seq) == Read::MergeFailed);
                        self.lemma_readable_keys(id, names, seq, i as int);
                    }
                    return Err(e);
                },
                Ok(value) => {
                    out.push(value);
                    proof {
                        assert(values_of(out@) =~= before.push(opt_view(value)));
                        assert(self.reads(id, names[i as int], seq) == Read::Value(
                            opt_view(value),
                        ));
                    }
                },
            }
            i += 1;
        }
        proof {
            assert forall|j: int| 0 <= j < names.len() implies self.reads(
                id,
                #[trigger] names[j],
                seq,
            ) != Read::MergeFailed by {}
            self.lemma_readable_keys(id, names, seq, names.len() as int);
            assert(values_of(out@) =~= Seq::new(
                names.len(),
                |j: int| self.reads(id, names[j], seq)->Value_0,
            ));
        }
        Ok(out)
    }

    /// A live family's bounds can be scanned.
    pub proof fn lemma_live_id(self, cf: ColumnFamilyHandle)
        requires
            self.wf(),
            self.families().is_live(cf),
        ensures
            cf.id_number() < META_CF_ID,
    {
        self.cfs.lemma_ids(cf.name_text());
    }

    /// The stored rows of a scan of family `id`.
    fn stored_rows(
        &self,
        id: u32,
        start: Option<&[u8]>,
        end: Option<&[u8]>,
        seq: u64,
    ) -> (r: Vec<Row>)
        requires
            self.wf(),
            id < META_CF_ID,
        ensures
            is_scan(
                self.operator(),
                self.history(),
                stored_start(id, opt_slice_view(start)),
                stored_end(id, opt_slice_view(end)),
                seq,
                row_views(r@),
            ),
            stripped_rows(
                self.operator(),
                self.history(),
                id,
                opt_slice_view(start),
                opt_slice_view(end),
                seq,
                row_views(r@),
            ),
    {
        let lo: Vec<u8> = match start {
            Some(s) => prefix_key(id, s),
            None => cf_lower_bound(id),
        };
        let hi: Vec<u8> = match end {
            Some(e) => prefix_key(id, e),
            None => cf_upper_bound(id),
        };
        let rows: Vec<Row> = self.engine.scan(lo.as_slice(), hi.as_slice(), seq);
        proof {
            self.engine.lemma_keyed();
            lemma_rows_strip(
                self.operator(),
                self.history(),
                id,
                opt_slice_view(start),
                opt_slice_view(end),
                seq,
                row_views(rows@),
            );
        }
        rows
    }

    /// What a scan answers: the rows as keys and values, or the failure of
    /// the whole.
    pub open spec fn scanned(
        self,
        id: u32,
        start: Option<Seq<u8>>,
        end: Option<Seq<u8>>,
        seq: u64,
        r: Result<Vec<(Vec<u8>, Vec<u8>)>>,
    ) -> bool {
        if self.is_closed() {
            r matches Err(e) && e is Closed
        } else {
            exists|rows: Seq<RowView>| #[trigger]
                is_family_scan(self.operator(), self.history(), id, start, end, seq, rows) && (
                if any_failed(rows) {
                    r matches Err(e) && is_fault(e, Fault::MergeFailed(failed_key(rows)))
                } else {
                    r matches Ok(entries) && pair_views(entries@) == pairs_of(rows)
                })
        }
    }

    /// Scan family `id` between two bounds at `seq`.
    pub(crate) fn scan_at(
        &self,
        id: u32,
        start: Option<&[u8]>,
        end: Option<&[u8]>,
        seq: u64,
    ) -> (r: Result<Vec<(Vec<u8>, Vec<u8>)>>)
        requires
            self.wf(),
            id < META_CF_ID,
        ensures
            self.scanned(id, opt_slice_view(start), opt_slice_view(end), seq, r),
    {
        if let Err(e) = self.ensure_open() {
            return Err(e);
        }
        let rows: Vec<Row> = self.stored_rows(id, start, end, seq);
        let ghost stored = row_views(rows@);
        let ghost users = user_rows(stored);
        proof {
            lemma_failed_strip(stored);
        }
        let raw: Vec<(Vec<u8>, Vec<u8>)> = match collect_range(rows) {
            Ok(raw) => raw,
            Err(e) => {
                assert(is_family_scan(
                    self.operator(),
                    self.history(),
                    id,
                    opt_slice_view(start),
                    opt_slice_view(end),
                    seq,
                    users,
                ));
                return Err(e);
            },
        };
        proof {
            assert(pair_views(raw@) == pairs_of(stored));
            lemma_pairs_strip(stored);
            assert(is_family_scan(
                self.operator(),
                self.history(),
                id,
                opt_slice_view(start),
                opt_slice_view(end),
                seq,
                users,
            ));
        }
        strip_cf_prefix_entries(raw)
    }

    /// What a page request answers: at most `limit` rows, and where the next
    /// page begins.
    pub open spec fn paged(
        self,
        id: u32,
        start: Option<Seq<u8>>,
        end: Option<Seq<u8>>,
        limit: usize,
        seq: u64,
        r: Result<ScanPage>,
    ) -> bool {
        if self.is_closed() {
            r matches Err(e) && e is Closed
        } else if limit == 0 {
            r matches Err(e) && is_fault(
                e,
                Fault::InvalidArgument("scan page limit must be greater than zero"@),
            )
        } else {
            exists|rows: Seq<RowView>| #[trigger]
                is_family_scan(self.operator(), self.history(), id, start, end, seq, rows)
                    && page_of(rows, limit, r)
        }
    }

    /// Scan one page of family `id` at `seq`.
    pub(crate) fn scan_page_at(
        &self,
        id: u32,
        start: Option<&[u8]>,
        end: Option<&[u8]>,
        limit: usize,
        seq: u64,
    ) -> (r: Result<ScanPage>)
        requires
            self.wf(),
            id < META_CF_ID,
        ensures
            self.paged(id, opt_slice_view(start), opt_slice_view(end), limit, seq, r),
    {
        if let Err(e) = self.ensure_open() {
            return Err(e);
        }
        let rows: Vec<Row> = self.stored_rows(id, start, end, seq);
        let ghost stored = row_views(rows@);
        let ghost users = user_rows(stored);
        let ghost reach = page_reach(stored, limit);
        proof {
            assert(user_rows(stored.take(reach)) =~= users.take(reach));
            lemma_failed_strip(stored.take(reach));
            lemma_failed_strip(stored);
            if any_failed(stored.take(reach)) {
                let early = stored.take(reach);
                let i = choose|i: int| 0 <= i < early.len() && (#[trigger] early[i]).value is None;
                assert(stored[i].value is None);
            }
            assert(is_family_scan(
                self.operator(),
                self.history(),
                id,
                opt_slice_view(start),
                opt_slice_view(end),
                seq,
                users,
            ));
        }
        let page: ScanPage = match collect_page(rows, limit) {
            Ok(page) => page,
            Err(e) => {
                return Err(e);
            },
        };
        proof {
            if stored.len() > limit {
                lemma_pairs_strip(stored.take(limit as int));
                assert(user_rows(stored.take(limit as int)) =~= users.take(limit as int));
            } else {
                lemma_pairs_strip(stored);
            }
        }
        strip_cf_prefix_page(page)
    }

    /// What an iterator over family `id` at `seq` walks.
    pub open spec fn iterates(self, id: u32, seq: u64, it: CfIter) -> bool {
        &&& it.wf()
        &&& it.live()
        &&& it.was_closed() == self.is_closed()
        &&& it.cursor().at is None
        &&& !it.cursor().positioned
        &&& it.cursor().prefix is None
        &&& it.cursor().failed is None
        &&& self.is_closed() ==> it.cursor().rows == Seq::<RowView>::empty()
        &&& !self.is_closed() ==> is_family_scan(
            self.operator(),
            self.history(),
            id,
            None,
            None,
            seq,
            it.cursor().rows,
        )
    }

    /// What an iterator through a dead handle is.
    pub open spec fn iterates_nothing(cf: ColumnFamilyHandle, it: CfIter) -> bool {
        &&& it.wf()
        &&& !it.live()
        &&& it.cursor().rows == Seq::<RowView>::empty()
        &&& it.fault() == Some(
            Fault::InvalidColumnFamily(dead_handle_text(cf.name_text(), cf.id_number())),
        )
    }

    /// An iterator over family `id` at `seq`.
    pub(crate) fn iter_at(&self, id: u32, seq: u64) -> (r: CfIter)
        requires
            self.wf(),
            id < META_CF_ID,
        ensures
            self.iterates(id, seq, r),
    {
        if self.engine.is_closed() {
            return CfIter::closed();
        }
        let rows: Vec<Row> = self.stored_rows(id, None, None, seq);
        let users: Vec<Row> = strip_rows(rows);
        CfIter::new(users)
    }

    /// An iterator over the family of a handle at `seq`.
    pub(crate) fn iter_cf_at(&self, cf: &ColumnFamilyHandle, seq: u64) -> (r: CfIter)
        requires
            self.wf(),
        ensures
            if self.families().is_live(*cf) {
                self.iterates(cf.id_number(), seq, r)
            } else {
                Db::iterates_nothing(*cf, r)
            },
    {
        if self.is_live_cf_handle(cf) {
            proof {
                self.lemma_live_id(*cf);
            }
            self.iter_at(cf.id(), seq)
        } else {
            CfIter::invalid(cf)
        }
    }
}

impl Db {
    /// The value of `key` in the default column family, as it is now.
    pub fn get(&self, key: &[u8]) -> (r: Result<Option<Vec<u8>>>)
        requires
            self.wf(),
        ensures
            got(r, self.point_read(DEFAULT_CF_ID, key@, self.horizon())),
    {
        match self.get_slice(key) {
            Ok(Some(slice)) => Ok(Some(slice.into_vec())),
            Ok(None) => Ok(None),
            Err(e) => Err(e),
        }
    }

    /// [`Db::get`], as a slice that stays what it was.
    pub fn get_slice(&self, key: &[u8]) -> (r: Result<Option<DbSlice>>)
        requires
            self.wf(),
        ensures
            match self.point_read(DEFAULT_CF_ID, key@, self.horizon()) {
                Ok(Some(value)) => r matches Ok(Some(slice)) && slice@ == value,
                Ok(None) => r matches Ok(None),
                Err(fault) => r matches Err(e) && is_fault(e, fault),
            },
    {
        match self.lookup_at(DEFAULT_CF_ID, key, self.engine.snapshot_seq()) {
            Ok(Some(value)) => Ok(Some(DbSlice::from_vec(value))),
            Ok(None) => Ok(None),
            Err(e) => Err(e),
        }
    }

    /// Whether `key` has a value in the default column family, as it is now.
    pub fn has(&self, key: &[u8]) -> (r: Result<bool>)
        requires
            self.wf(),
        ensures
            match self.point_read(DEFAULT_CF_ID, key@, self.horizon()) {
                Ok(value) => r matches Ok(found) && found == (value is Some),
                Err(fault) => r matches Err(e) && is_fault(e, fault),
            },
    {
        match self.get_size(key) {
            Ok(size) => Ok(size.is_some()),
            Err(e) => Err(e),
        }
    }

    /// Length in bytes of the value of `key` in the default column family, as it is now.
    pub fn get_size(&self, key: &[u8]) -> (r: Result<Option<usize>>)
        requires
            self.wf(),
        ensures
            match self.point_read(DEFAULT_CF_ID, key@, self.horizon()) {
                Ok(Some(value)) => r matches Ok(Some(size)) && size == value.len(),
                Ok(None) => r matches Ok(None),
                Err(fault) => r matches Err(e) && is_fault(e, fault),
            },
    {
        match self.lookup_at(DEFAULT_CF_ID, key, self.engine.snapshot_seq()) {
            Ok(Some(value)) => Ok(Some(value.len())),
            Ok(None) => Ok(None),
            Err(e) => Err(e),
        }
    }

    /// The values of several keys of the default column family, as it is now, in the order
    /// of the keys. All are read at one point of the history.
    pub fn multi_get(&self, keys: &[&[u8]]) -> (r: Result<Vec<Option<Vec<u8>>>>)
        requires
            self.wf(),
        ensures
            match self.multi_read(DEFAULT_CF_ID, slice_views(keys@), self.horizon()) {
                    Ok(values) => r matches Ok(v) && values_of(v@) == values,
                    Err(fault) => r matches Err(e) && is_fault(e, fault),
                },
    {
        self.multi_lookup_at(DEFAULT_CF_ID, keys, self.engine.snapshot_seq())
    }

    /// Every key and value of the default column family with `start <= key < end`,
    /// as it is now.
    pub fn scan(&self, start: Option<&[u8]>, end: Option<&[u8]>) -> (r: Result<Vec<(Vec<u8>, Vec<u8>)>>)
        requires
            self.wf(),
        ensures
            self.scanned(DEFAULT_CF_ID, opt_slice_view(start), opt_slice_view(end), self.horizon(), r),
    {
        self.scan_at(DEFAULT_CF_ID, start, end, self.engine.snapshot_seq())
    }

    /// At most `limit` of what [`Db::scan`] returns, and where the next
    /// page begins.
    pub fn scan_page(&self, start: Option<&[u8]>, end: Option<&[u8]>, limit: usize) -> (r: Result<ScanPage>)
        requires
            self.wf(),
        ensures
            self.paged(
                    DEFAULT_CF_ID,
                    opt_slice_view(start),
                    opt_slice_view(end),
                    limit,
                    self.horizon(),
                    r,
                ),
    {
        self.scan_page_at(DEFAULT_CF_ID, start, end, limit, self.engine.snapshot_seq())
    }

    /// An iterator over the default column family, as it is now.
    pub fn iter(&self) -> (r: CfIter)
        requires
            self.wf(),
        ensures
            self.iterates(DEFAULT_CF_ID, self.horizon(), r),
    {
        self.iter_at(DEFAULT_CF_ID, self.engine.snapshot_seq())
    }

    /// The value of `key` in column family `cf`, as it is now.
    pub fn get_cf(&self, cf: &ColumnFamilyHandle, key: &[u8]) -> (r: Result<Option<Vec<u8>>>)
        requires
            self.wf(),
        ensures
            got(r, self.point_read_cf(*cf, key@, self.horizon())),
    {
        match self.get_slice_cf(cf, key) {
            Ok(Some(slice)) => Ok(Some(slice.into_vec())),
            Ok(None) => Ok(None),
            Err(e) => Err(e),
        }
    }

    /// [`Db::get_cf`], as a slice that stays what it was.
    pub fn get_slice_cf(&self, cf: &ColumnFamilyHandle, key: &[u8]) -> (r: Result<Option<DbSlice>>)
        requires
            self.wf(),
        ensures
            match self.point_read_cf(*cf, key@, self.horizon()) {
                Ok(Some(value)) => r matches Ok(Some(slice)) && slice@ == value,
                Ok(None) => r matches Ok(None),
                Err(fault) => r matches Err(e) && is_fault(e, fault),
            },
    {
        match self.lookup_cf_at(cf, key, self.engine.snapshot_seq()) {
            Ok(Some(value)) => Ok(Some(DbSlice::from_vec(value))),
            Ok(None) => Ok(None),
            Err(e) => Err(e),
        }
    }

    /// Whether `key` has a value in column family `cf`, as it is now.
    pub fn has_cf(&self, cf: &ColumnFamilyHandle, key: &[u8]) -> (r: Result<bool>)
        requires
            self.wf(),
        ensures
            match self.point_read_cf(*cf, key@, self.horizon()) {
                Ok(value) => r matches Ok(found) && found == (value is Some),
                Err(fault) => r matches Err(e) && is_fault(e, fault),
            },
    {
        match self.get_size_cf(cf, key) {
            Ok(size) => Ok(size.is_some()),
            Err(e) => Err(e),
        }
    }

    /// Length in bytes of the value of `key` in column family `cf`, as it is now.
    pub fn get_size_cf(&self, cf: &ColumnFamilyHandle, key: &[u8]) -> (r: Result<Option<usize>>)
        requires
            self.wf(),
        ensures
            match self.point_read_cf(*cf, key@, self.horizon()) {
                Ok(Some(value)) => r matches Ok(Some(size)) && size == value.len(),
                Ok(None) => r matches Ok(None),
                Err(fault) => r matches Err(e) && is_fault(e, fault),
            },
    {
        match self.lookup_cf_at(cf, key, self.engine.snapshot_seq()) {
            Ok(Some(value)) => Ok(Some(value.len())),
            Ok(None) => Ok(None),
            Err(e) => Err(e),
        }
    }

    /// The values of several keys of column family `cf`, as it is now, in the order
    /// of the keys. All are read at one point of the history.
    pub fn multi_get_cf(&self, cf: &ColumnFamilyHandle, keys: &[&[u8]]) -> (r: Result<Vec<Option<Vec<u8>>>>)
        requires
            self.wf(),
        ensures
            match self.read_fault(*cf) {
                Some(fault) => r matches Err(e) && is_fault(e, fault),
                None => match self.multi_read(cf.id_number(), slice_views(keys@), self.horizon()) {
                    Ok(values) => r matches Ok(v) && values_of(v@) == values,
                    Err(fault) => r matches Err(e) && is_fault(e, fault),
                },
            },
    {
        if let Err(e) = self.validate_cf_read(cf) {
            return Err(e);
        }
        self.multi_lookup_at(cf.id(), keys, self.engine.snapshot_seq())
    }

    /// Every key and value of column family `cf` with `start <= key < end`,
    /// as it is now.
    pub fn scan_cf(&self, cf: &ColumnFamilyHandle, start: Option<&[u8]>, end: Option<&[u8]>) -> (r: Result<Vec<(Vec<u8>, Vec<u8>)>>)
        requires
            self.wf(),
        ensures
            match self.read_fault(*cf) {
                Some(fault) => r matches Err(e) && is_fault(e, fault),
                None => self.scanned(cf.id_number(), opt_slice_view(start), opt_slice_view(end), self.horizon(), r),
            },
    {
        if let Err(e) = self.validate_cf_read(cf) {
            return Err(e);
        }
        proof {
            self.lemma_live_id(*cf);
        }
        self.scan_at(cf.id(), start, end, self.engine.snapshot_seq())
    }

    /// At most `limit` of what [`Db::scan_cf`] returns, and where the next
    /// page begins.
    pub fn scan_page_cf(&self, cf: &ColumnFamilyHandle, start: Option<&[u8]>, end: Option<&[u8]>, limit: usize) -> (r: Result<ScanPage>)
        requires
            self.wf(),
        ensures
            match self.read_fault(*cf) {
                Some(fault) => r matches Err(e) && is_fault(e, fault),
                None => self.paged(
                    cf.id_number(),
                    opt_slice_view(start),
                    opt_slice_view(end),
                    limit,
                    self.horizon(),
                    r,
                ),
            },
    {
        if let Err(e) = self.validate_cf_read(cf) {
            return Err(e);
        }
        proof {
            self.lemma_live_id(*cf);
        }
        self.scan_page_at(cf.id(), start, end, limit, self.engine.snapshot_seq())
    }

    /// An iterator over column family `cf`, as it is now.
    pub fn iter_cf(&self, cf: &ColumnFamilyHandle) -> (r: CfIter)
        requires
            self.wf(),
        ensures
            if self.families().is_live(*cf) {
                self.iterates(cf.id_number(), self.horizon(), r)
            } else {
                Db::iterates_nothing(*cf, r)
            },
    {
        self.iter_cf_at(cf, self.engine.snapshot_seq())
    }
}

/// The rows with the prefix stripped from every key.
pub open spec fn user_rows(rows: Seq<RowView>) -> Seq<RowView> {
    Seq::new(rows.len(), |i: int| RowView { key: unprefixed(rows[i].key), value: rows[i].value })
}

/// Stored rows whose stripped form is a scan of the family.
pub open spec fn stripped_rows(
    operator: Option<Arc<dyn MergeOperator>>,
    h: Seq<Logged>,
    id: u32,
    start: Option<Seq<u8>>,
    end: Option<Seq<u8>>,
    seq: u64,
    rows: Seq<RowView>,
) -> bool {
    &&& forall|i: int| 0 <= i < rows.len() ==> (#[trigger] rows[i]).key.len() >= CF_PREFIX_LEN
    &&& is_family_scan(operator, h, id, start, end, seq, user_rows(rows))
}

/// What a page holds of the rows of a scan.
pub open spec fn page_of(rows: Seq<RowView>, limit: usize, r: Result<ScanPage>) -> bool {
    if any_failed(rows.take(page_reach(rows, limit))) {
        r matches Err(e) && is_fault(e, Fault::MergeFailed(failed_key(rows)))
    } else if rows.len() > limit {
        r matches Ok(page) && pair_views(page.entries@) == pairs_of(rows.take(limit as int))
            && opt_view(page.next_start) == Some(rows[limit as int].key)
    } else {
        r matches Ok(page) && pair_views(page.entries@) == pairs_of(rows) && opt_view(
            page.next_start,
        ) is None
    }
}

proof fn lemma_failed_strip(rows: Seq<RowView>)
    ensures
        any_failed(user_rows(rows)) <==> any_failed(rows),
        readable(user_rows(rows)) == readable(rows),
        any_failed(rows) ==> 0 <= readable(rows) < rows.len(),
    decreases rows.len(),
{
    if rows.len() > 0 && rows[0].value is Some {
        let rest = rows.drop_first();
        lemma_failed_strip(rest);
        assert(user_rows(rows).drop_first() =~= user_rows(rest));
        if any_failed(rows) {
            let i = choose|i: int| 0 <= i < rows.len() && (#[trigger] rows[i]).value is None;
            assert(rest[i - 1].value is None);
        }
    }
    if any_failed(rows) {
        let i = choose|i: int| 0 <= i < rows.len() && (#[trigger] rows[i]).value is None;
        assert(user_rows(rows)[i].value is None);
    }
    if any_failed(user_rows(rows)) {
        let u = user_rows(rows);
        let i = choose|i: int| 0 <= i < u.len() && (#[trigger] u[i]).value is None;
        assert(rows[i].value is None);
    }
}

proof fn lemma_pairs_strip(rows: Seq<RowView>)
    requires
        forall|i: int| 0 <= i < rows.len() ==> (#[trigger] rows[i]).key.len() >= CF_PREFIX_LEN,
    ensures
        all_prefixed(pairs_of(rows)),
        stripped(pairs_of(rows)) == pairs_of(user_rows(rows)),
{
    assert forall|i: int| 0 <= i < pairs_of(rows).len() implies (#[trigger] pairs_of(rows)[i]).0.len()
        >= CF_PREFIX_LEN by {
        assert(rows[i].key.len() >= CF_PREFIX_LEN);
    }
    assert(stripped(pairs_of(rows)) =~= pairs_of(user_rows(rows)));
}

/// The stored rows of a family, stripped, are what a scan of the family
/// comes to.
proof fn lemma_rows_strip(
    operator: Option<Arc<dyn MergeOperator>>,
    h: Seq<Logged>,
    id: u32,
    start: Option<Seq<u8>>,
    end: Option<Seq<u8>>,
    seq: u64,
    rows: Seq<RowView>,
)
    requires
        id < META_CF_ID,
        crate::engine::store::all_storable(h),
        is_scan(operator, h, stored_start(id, start), stored_end(id, end), seq, rows),
    ensures
        stripped_rows(operator, h, id, start, end, seq, rows),
{
    let users = user_rows(rows);
    assert forall|i: int| 0 <= i < rows.len() implies (#[trigger] rows[i]).key.len()
        >= CF_PREFIX_LEN && prefixed(id, users[i].key) == rows[i].key && in_bounds(
        start,
        end,
        users[i].key,
    ) by {
        let k = rows[i].key;
        assert(read_at(operator, h, k, seq) != Read::Value(None));
        let w = lemma_found_was_written(h, k, seq);
        assert(keyed(h[w].op));
        assert(point_key(h[w].op) == Some(k));
        lemma_stored_key_parts(k);
        lemma_stored_bounds(id, start, end, family_of(k), unprefixed(k));
    }
    assert(rows_ascend(users)) by {
        assert forall|i: int, j: int| 0 <= i < j < users.len() implies bytes_lt(
            (#[trigger] users[i]).key,
            (#[trigger] users[j]).key,
        ) by {
            assert(bytes_lt(rows[i].key, rows[j].key));
            lemma_family_order(id, users[i].key, users[j].key);
        }
    }
    assert forall|i: int| 0 <= i < users.len() implies in_bounds(
        start,
        end,
        (#[trigger] users[i]).key,
    ) && row_holds(read_at(operator, h, prefixed(id, users[i].key), seq), users[i]) by {
        assert(rows[i].key.len() >= CF_PREFIX_LEN);
    }
    assert forall|key: Seq<u8>|
        in_bounds(start, end, key) && #[trigger] read_at(operator, h, prefixed(id, key), seq)
            != Read::Value(None) implies exists|i: int|
        0 <= i < users.len() && (#[trigger] users[i]).key == key by {
        lemma_stored_bounds(id, start, end, id, key);
        let i = choose|i: int| 0 <= i < rows.len() && (#[trigger] rows[i]).key == prefixed(id, key);
        lemma_prefixed_parts(id, key);
        assert(users[i].key == key);
    }
}

/// Strip the prefix from every row.
fn strip_rows(rows: Vec<Row>) -> (r: Vec<Row>)
    requires
        forall|i: int|
            0 <= i < row_views(rows@).len() ==> (#[trigger] row_views(rows@)[i]).key.len()
                >= CF_PREFIX_LEN,
    ensures
        row_views(r@) == user_rows(row_views(rows@)),
{
    let ghost all = row_views(rows@);
    let mut out: Vec<Row> = Vec::new();
    let mut i: usize = 0;
    while i < rows.len()
        invariant
            i <= rows@.len(),
            all == row_views(rows@),
            forall|j: int| 0 <= j < all.len() ==> (#[trigger] all[j]).key.len() >= CF_PREFIX_LEN,
            row_views(out@) == user_rows(all).take(i as int),
        decreases rows@.len() - i,
    {
        let ghost before = row_views(out@);
        assert(all[i as int].key.len() >= CF_PREFIX_LEN);
        let key = vstd::slice::slice_subrange(
            rows[i].key.as_slice(),
            CF_PREFIX_LEN,
            rows[i].key.len(),
        );
        assert(key@ =~= unprefixed(all[i as int].key));
        let value: Option<Vec<u8>> = match &rows[i].value {
            Some(value) => Some(bytes::copy(value.as_slice())),
            None => None,
        };
        out.push(Row { key: bytes::copy(key), value });
        proof {
            assert(row_views(out@) =~= before.push(user_rows(all)[i as int]));
            assert(user_rows(all).take(i + 1) =~= user_rows(all).take(i as int).push(
                user_rows(all)[i as int],
            ));
        }
        i += 1;
    }
    assert(user_rows(all).take(i as int) =~= user_rows(all));
    out
}

} // verus!
