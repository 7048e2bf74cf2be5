//! Cursors over the rows of a scan, and the iterators built on them.

use vstd::prelude::*;

use crate::bytes;
use crate::bytes::{bytes_lt, lemma_bytes_lt_transitive, opt_slice_view, opt_view};
use crate::column_family::ColumnFamilyHandle;
use crate::engine::read::{row_views, Row, RowView};
use crate::error::{checked, Error, Fault, Result};
use crate::slice::DbSlice;
use crate::text::{decimal, decimal_text, join5};

verus! {

// ── cursors ─────────────────────────────────────────────────────────────

/// Where a cursor over `rows` stands.
pub ghost struct Cursor {
    /// The rows, in key order.
    pub rows: Seq<RowView>,
    /// The row the cursor is on, if it is on one.
    pub at: Option<int>,
    /// Whether the cursor was ever placed.
    pub positioned: bool,
    /// What forward steps are confined to.
    pub prefix: Option<Seq<u8>>,
    /// The key of the row that could not be read, if the cursor ran into one.
    pub failed: Option<Seq<u8>>,
}

/// How many rows come before `target`.
pub open spec fn rows_below(rows: Seq<RowView>, target: Seq<u8>) -> int
    decreases rows.len(),
{
    if rows.len() == 0 {
        0
    } else if bytes_lt(rows.last().key, target) {
        rows.len() as int
    } else {
        rows_below(rows.drop_last(), target)
    }
}

/// How many rows come before or at `target`.
pub open spec fn rows_up_to(rows: Seq<RowView>, target: Seq<u8>) -> int
    decreases rows.len(),
{
    if rows.len() == 0 {
        0
    } else if !bytes_lt(target, rows.last().key) {
        rows.len() as int
    } else {
        rows_up_to(rows.drop_last(), target)
    }
}

/// The cursor put on row `i`: it stands there unless there is no such row, a
/// forward step left the prefix, or the row could not be read.
pub open spec fn landed(c: Cursor, i: int, forward: bool) -> Cursor {
    if !(0 <= i < c.rows.len()) {
        Cursor { at: None, ..c }
    } else if forward && c.prefix is Some && !c.prefix->0.is_prefix_of(c.rows[i].key) {
        Cursor { at: None, ..c }
    } else if c.rows[i].value is None {
        Cursor { at: None, failed: Some(c.rows[i].key), ..c }
    } else {
        Cursor { at: Some(i), ..c }
    }
}

/// The cursor about to be placed anew.
pub open spec fn lifted(c: Cursor) -> Cursor {
    Cursor { rows: c.rows, at: None, positioned: true, prefix: None, failed: None }
}

/// The cursor placed on the first row.
pub open spec fn at_first(c: Cursor) -> Cursor {
    landed(lifted(c), 0, true)
}

/// The cursor placed on the last row.
pub open spec fn at_last(c: Cursor) -> Cursor {
    landed(lifted(c), c.rows.len() - 1, false)
}

/// The cursor placed on the first row at or after `target`.
pub open spec fn sought(c: Cursor, target: Seq<u8>) -> Cursor {
    landed(lifted(c), rows_below(c.rows, target), true)
}

/// The cursor placed on the last row at or before `target`.
pub open spec fn sought_for_prev(c: Cursor, target: Seq<u8>) -> Cursor {
    landed(lifted(c), rows_up_to(c.rows, target) - 1, false)
}

/// The cursor placed on the first row that starts with `prefix`, and
/// confined to such rows.
pub open spec fn sought_prefix(c: Cursor, prefix: Seq<u8>) -> Cursor {
    landed(Cursor { prefix: Some(prefix), ..lifted(c) }, rows_below(c.rows, prefix), true)
}

/// The cursor one row on. One that is on no row stays so.
pub open spec fn stepped(c: Cursor) -> Cursor {
    match c.at {
        None => c,
        Some(i) => landed(c, i + 1, true),
    }
}

/// The cursor one row back.
pub open spec fn stepped_back(c: Cursor) -> Cursor {
    match c.at {
        None => c,
        Some(i) => landed(c, i - 1, false),
    }
}

/// Rows in key order, each key once.
pub open spec fn rows_ascend(rows: Seq<RowView>) -> bool {
    forall|i: int, j: int|
        0 <= i < j < rows.len() ==> bytes_lt((#[trigger] rows[i]).key, (#[trigger] rows[j]).key)
}

/// The rows below a target are the ones before the first at or after it.
pub proof fn lemma_rows_below(rows: Seq<RowView>, target: Seq<u8>)
    requires
        rows_ascend(rows),
    ensures
        0 <= rows_below(rows, target) <= rows.len(),
        forall|i: int|
            0 <= i < rows_below(rows, target) ==> bytes_lt((#[trigger] rows[i]).key, target),
        forall|i: int|
            rows_below(rows, target) <= i < rows.len() ==> !bytes_lt(
                (#[trigger] rows[i]).key,
                target,
            ),
    decreases rows.len(),
{
    if rows.len() > 0 {
        let n = rows.len() - 1;
        let rest = rows.drop_last();
        if bytes_lt(rows.last().key, target) {
            assert forall|i: int| 0 <= i < rows.len() implies bytes_lt(
                (#[trigger] rows[i]).key,
                target,
            ) by {
                if i < n {
                    lemma_bytes_lt_transitive(rows[i].key, rows[n].key, target);
                }
            }
        } else {
            assert(rows_ascend(rest)) by {
                assert forall|i: int, j: int| 0 <= i < j < rest.len() implies bytes_lt(
                    (#[trigger] rest[i]).key,
                    (#[trigger] rest[j]).key,
                ) by {
                    assert(rest[i] == rows[i] && rest[j] == rows[j]);
                }
            }
            lemma_rows_below(rest, target);
            assert forall|i: int| 0 <= i < rows_below(rows, target) implies bytes_lt(
                (#[trigger] rows[i]).key,
                target,
            ) by {
                assert(rest[i] == rows[i]);
            }
            assert forall|i: int| rows_below(rows, target) <= i < rows.len() implies !bytes_lt(
                (#[trigger] rows[i]).key,
                target,
            ) by {
                if i < n {
                    assert(rest[i] == rows[i]);
                }
            }
        }
    }
}

/// The rows up to a target are the ones before the first after it.
pub proof fn lemma_rows_up_to(rows: Seq<RowView>, target: Seq<u8>)
    requires
        rows_ascend(rows),
    ensures
        0 <= rows_up_to(rows, target) <= rows.len(),
        forall|i: int|
            0 <= i < rows_up_to(rows, target) ==> !bytes_lt(target, (#[trigger] rows[i]).key),
        forall|i: int|
            rows_up_to(rows, target) <= i < rows.len() ==> bytes_lt(
                target,
                (#[trigger] rows[i]).key,
            ),
    decreases rows.len(),
{
    if rows.len() > 0 {
        let n = rows.len() - 1;
        let rest = rows.drop_last();
        if !bytes_lt(target, rows.last().key) {
            assert forall|i: int| 0 <= i < rows.len() implies !bytes_lt(
                target,
                (#[trigger] rows[i]).key,
            ) by {
                if i < n && bytes_lt(target, rows[i].key) {
                    lemma_bytes_lt_transitive(target, rows[i].key, rows[n].key);
                }
            }
        } else {
            assert(rows_ascend(rest)) by {
                assert forall|i: int, j: int| 0 <= i < j < rest.len() implies bytes_lt(
                    (#[trigger] rest[i]).key,
                    (#[trigger] rest[j]).key,
                ) by {
                    assert(rest[i] == rows[i] && rest[j] == rows[j]);
                }
            }
            lemma_rows_up_to(rest, target);
            assert forall|i: int| 0 <= i < rows_up_to(rows, target) implies !bytes_lt(
                target,
                (#[trigger] rows[i]).key,
            ) by {
                assert(rest[i] == rows[i]);
            }
            assert forall|i: int| rows_up_to(rows, target) <= i < rows.len() implies bytes_lt(
                target,
                (#[trigger] rows[i]).key,
            ) by {
                if i < n {
                    assert(rest[i] == rows[i]);
                }
            }
        }
    }
}

/// A step forward and a step back lead to the same row, where both rows can
/// be read and no prefix confines the cursor.
pub proof fn lemma_step_back_undoes_step(c: Cursor)
    requires
        c.at matches Some(i) && 0 <= i < c.rows.len() && c.rows[i].value is Some,
        stepped(c).at is Some,
    ensures
        stepped_back(stepped(c)).at == c.at,
{
}

/// Streaming iterator over one column family, with the family's prefix
/// stripped from every key.
///
/// It holds the rows as they were when it was made: later writes do not
/// show, and dropping the data does not take them away. A fresh iterator is
/// not positioned; call one of the `seek` methods before reading.
pub struct CfIter {
    rows: Vec<Row>,
    at: Option<usize>,
    positioned: bool,
    prefix: Option<Vec<u8>>,
    // The key whose operands could not be merged, where the walk met one.
    failed: Option<Vec<u8>>,
    // Whether the database was closed when the iterator was made.
    closed: bool,
    // Why there is no column family to read, when there is none.
    invalid_cf: Option<String>,
}

/// How a handle that is not live is reported.
pub open spec fn dead_handle_text(name: Seq<char>, id: u32) -> Seq<char> {
    "column family handle '"@ + name + "' with id "@ + decimal_text(id as nat) + " is not live"@
}

/// How a handle that is not live is reported.
pub fn dead_handle_message(cf: &ColumnFamilyHandle) -> (r: String)
    ensures
        r@ == dead_handle_text(cf.name_text(), cf.id_number()),
{
    let id: String = decimal(cf.id() as u64);
    join5("column family handle '", cf.name(), "' with id ", id.as_str(), " is not live")
}

impl CfIter {
    /// Where the cursor stands.
    pub closed spec fn cursor(self) -> Cursor {
        Cursor {
            rows: row_views(self.rows@),
            at: match self.at {
                Some(i) => Some(i as int),
                None => None,
            },
            positioned: self.positioned,
            prefix: opt_view(self.prefix),
            failed: opt_view(self.failed),
        }
    }

    /// Whether there is a column family to read.
    pub closed spec fn live(self) -> bool {
        self.invalid_cf is None
    }

    /// Why the walk stopped short, if it did.
    pub closed spec fn fault(self) -> Option<Fault> {
        match self.invalid_cf {
            Some(reason) => Some(Fault::InvalidColumnFamily(reason@)),
            None => if self.closed {
                Some(Fault::Closed)
            } else {
                match self.failed {
                    Some(key) => Some(Fault::MergeFailed(key@)),
                    None => None,
                }
            },
        }
    }

    /// What moving the cursor does not change.
    pub closed spec fn same_source(self, before: Self) -> bool {
        &&& self.rows == before.rows
        &&& self.closed == before.closed
        &&& self.invalid_cf == before.invalid_cf
    }

    /// Whether the database was closed when the iterator was made.
    pub closed spec fn was_closed(self) -> bool {
        self.closed
    }

    /// A cursor that fails says so, and why; one of a closed database or a
    /// dead handle always does.
    pub proof fn lemma_fault(self)
        ensures
            self.live() && !self.was_closed() ==> self.fault() == (match self.cursor().failed {
                Some(key) => Some(Fault::MergeFailed(key)),
                None => None,
            }),
            self.live() && self.was_closed() ==> self.fault() == Some(Fault::Closed),
    {
    }

    /// Moving the cursor keeps what it reads and how it reports.
    pub proof fn lemma_same_source(self, before: Self)
        requires
            self.same_source(before),
        ensures
            self.live() == before.live(),
            self.was_closed() == before.was_closed(),
            !before.live() || before.was_closed() ==> self.fault() == before.fault(),
            self.cursor().rows == before.cursor().rows,
    {
    }

    /// The rows are in key order, and the cursor is on one of them that can
    /// be read, or on none.
    pub closed spec fn wf(self) -> bool {
        &&& rows_ascend(row_views(self.rows@))
        &&& self.at matches Some(i) ==> i < self.rows@.len() && self.rows@[i as int].value is Some
    }

    /// The cursor of a whole iterator is on a readable row or on none.
    pub proof fn lemma_cursor(self)
        requires
            self.wf(),
        ensures
            rows_ascend(self.cursor().rows),
            self.cursor().at matches Some(i) ==> 0 <= i < self.cursor().rows.len()
                && self.cursor().rows[i].value is Some,
    {
    }

    /// An iterator over `rows`.
    pub(crate) fn new(rows: Vec<Row>) -> (r: Self)
        requires
            rows_ascend(row_views(rows@)),
        ensures
            r.wf(),
            r.live(),
            !r.was_closed(),
            r.cursor() == (Cursor {
                rows: row_views(rows@),
                at: None,
                positioned: false,
                prefix: None,
                failed: None,
            }),
    {
        CfIter {
            rows,
            at: None,
            positioned: false,
            prefix: None,
            failed: None,
            closed: false,
            invalid_cf: None,
        }
    }

    /// The iterator a closed database gives: empty, and it says why.
    pub(crate) fn closed() -> (r: Self)
        ensures
            r.wf(),
            r.live(),
            r.was_closed(),
            r.fault() == Some(Fault::Closed),
            r.cursor() == (Cursor {
                rows: Seq::empty(),
                at: None,
                positioned: false,
                prefix: None,
                failed: None,
            }),
    {
        let r = CfIter {
            rows: Vec::new(),
            at: None,
            positioned: false,
            prefix: None,
            failed: None,
            closed: true,
            invalid_cf: None,
        };
        assert(row_views(r.rows@) =~= Seq::<RowView>::empty());
        r
    }

    /// The iterator a handle that is not live gives: empty, never
    /// positioned, and it says why.
    pub(crate) fn invalid(cf: &ColumnFamilyHandle) -> (r: Self)
        ensures
            r.wf(),
            !r.live(),
            r.fault() == Some(
                Fault::InvalidColumnFamily(dead_handle_text(cf.name_text(), cf.id_number())),
            ),
            r.cursor() == (Cursor {
                rows: Seq::empty(),
                at: None,
                positioned: false,
                prefix: None,
                failed: None,
            }),
    {
        let r = CfIter {
            rows: Vec::new(),
            at: None,
            positioned: false,
            prefix: None,
            failed: None,
            closed: false,
            invalid_cf: Some(dead_handle_message(cf)),
        };
        assert(row_views(r.rows@) =~= Seq::<RowView>::empty());
        r
    }

    /// Put the cursor on row `i`, which may be past the end.
    fn land(&mut self, i: usize, forward: bool)
        requires
            old(self).wf(),
        ensures
            final(self).wf(),
            final(self).same_source(*old(self)),
            final(self).cursor() == landed(old(self).cursor(), i as int, forward),
    {
        if i >= self.rows.len() {
            self.at = None;
            return;
        }
        let inside = match &self.prefix {
            Some(prefix) => !forward || bytes::starts_with(
                self.rows[i].key.as_slice(),
                prefix.as_slice(),
            ),
            None => true,
        };
        if !inside {
            self.at = None;
        } else if self.rows[i].value.is_none() {
            self.at = None;
            self.failed = Some(bytes::copy(self.rows[i].key.as_slice()));
        } else {
            self.at = Some(i);
        }
    }

    fn lift(&mut self)
        requires
            old(self).wf(),
        ensures
            final(self).wf(),
            final(self).same_source(*old(self)),
            final(self).cursor() == lifted(old(self).cursor()),
    {
        self.at = None;
        self.positioned = true;
        self.prefix = None;
        self.failed = None;
    }

    /// How many rows come before `target`.
    fn below(&self, target: &[u8]) -> (r: usize)
        requires
            self.wf(),
        ensures
            r == rows_below(self.cursor().rows, target@),
    {
        let ghost all = row_views(self.rows@);
        let mut n: usize = self.rows.len();
        assert(all.take(n as int) =~= all);
        while n > 0 && !bytes::lt(self.rows[n - 1].key.as_slice(), target)
            invariant
                n <= self.rows@.len(),
                all == row_views(self.rows@),
                rows_below(all, target@) == rows_below(all.take(n as int), target@),
            decreases n,
        {
            assert(all.take(n as int).drop_last() =~= all.take(n - 1));
            n -= 1;
        }
        n
    }

    /// How many rows come before or at `target`.
    fn up_to(&self, target: &[u8]) -> (r: usize)
        requires
            self.wf(),
        ensures
            r == rows_up_to(self.cursor().rows, target@),
    {
        let ghost all = row_views(self.rows@);
        let mut n: usize = self.rows.len();
        assert(all.take(n as int) =~= all);
        while n > 0 && bytes::lt(target, self.rows[n - 1].key.as_slice())
            invariant
                n <= self.rows@.len(),
                all == row_views(self.rows@),
                rows_up_to(all, target@) == rows_up_to(all.take(n as int), target@),
            decreases n,
        {
            assert(all.take(n as int).drop_last() =~= all.take(n - 1));
            n -= 1;
        }
        n
    }

    /// Position the cursor at the first key.
    pub fn seek_to_first(&mut self)
        requires
            old(self).wf(),
        ensures
            final(self).wf(),
            final(self).same_source(*old(self)),
            final(self).cursor() == (if old(self).live() {
                at_first(old(self).cursor())
            } else {
                old(self).cursor()
            }),
    {
        if self.invalid_cf.is_some() {
            return ;
        }
        self.lift();
        self.land(0, true);
    }

    /// Position the cursor at the last key.
    pub fn seek_to_last(&mut self)
        requires
            old(self).wf(),
        ensures
            final(self).wf(),
            final(self).same_source(*old(self)),
            final(self).cursor() == (if old(self).live() {
                at_last(old(self).cursor())
            } else {
                old(self).cursor()
            }),
    {
        if self.invalid_cf.is_some() {
            return ;
        }
        self.lift();
        let n: usize = self.rows.len();
        if n > 0 {
            self.land(n - 1, false);
        }
    }

    /// Position the cursor at the first key at or after `target`.
    pub fn seek(&mut self, target: &[u8])
        requires
            old(self).wf(),
        ensures
            final(self).wf(),
            final(self).same_source(*old(self)),
            final(self).cursor() == (if old(self).live() {
                sought(old(self).cursor(), target@)
            } else {
                old(self).cursor()
            }),
    {
        if self.invalid_cf.is_some() {
            return ;
        }
        self.lift();
        let n: usize = self.below(target);
        self.land(n, true);
    }

    /// Position the cursor at the last key at or before `target`.
    pub fn seek_for_prev(&mut self, target: &[u8])
        requires
            old(self).wf(),
        ensures
            final(self).wf(),
            final(self).same_source(*old(self)),
            final(self).cursor() == (if old(self).live() {
                sought_for_prev(old(self).cursor(), target@)
            } else {
                old(self).cursor()
            }),
    {
        if self.invalid_cf.is_some() {
            return ;
        }
        self.lift();
        let n: usize = self.up_to(target);
        if n > 0 {
            self.land(n - 1, false);
        }
    }

    /// Position the cursor at the first key that starts with `prefix`, and
    /// confine forward steps to that prefix.
    pub fn seek_prefix(&mut self, prefix: &[u8])
        requires
            old(self).wf(),
        ensures
            final(self).wf(),
            final(self).same_source(*old(self)),
            final(self).cursor() == (if old(self).live() {
                sought_prefix(old(self).cursor(), prefix@)
            } else {
                old(self).cursor()
            }),
    {
        if self.invalid_cf.is_some() {
            return ;
        }
        self.lift();
        self.prefix = Some(bytes::copy(prefix));
        let n: usize = self.below(prefix);
        self.land(n, true);
    }

    /// Advance the cursor forward.
    pub fn next(&mut self)
        requires
            old(self).wf(),
        ensures
            final(self).wf(),
            final(self).same_source(*old(self)),
            final(self).cursor() == (if old(self).live() {
                stepped(old(self).cursor())
            } else {
                old(self).cursor()
            }),
    {
        if self.invalid_cf.is_some() {
            return ;
        }
        if let Some(i) = self.at {
            let n: usize = self.rows.len();
            assert(i < n);
            self.land(i + 1, true);
        }
    }

    /// Move the cursor backward.
    pub fn prev(&mut self)
        requires
            old(self).wf(),
        ensures
            final(self).wf(),
            final(self).same_source(*old(self)),
            final(self).cursor() == (if old(self).live() {
                stepped_back(old(self).cursor())
            } else {
                old(self).cursor()
            }),
    {
        if self.invalid_cf.is_some() {
            return ;
        }
        if let Some(i) = self.at {
            if i == 0 {
                self.at = None;
            } else {
                self.land(i - 1, false);
            }
        }
    }

    /// Whether the caller has positioned this cursor at all.
    pub fn positioned(&self) -> (r: bool)
        ensures
            r == self.cursor().positioned,
    {
        self.positioned
    }

    /// Whether the cursor is positioned on a visible key.
    pub fn valid(&self) -> (r: bool)
        requires
            self.wf(),
        ensures
            r == (self.live() && self.cursor().at is Some),
    {
        self.invalid_cf.is_none() && self.at.is_some()
    }

    /// Current key, with the family's prefix stripped.
    pub fn key(&self) -> (r: Option<&[u8]>)
        requires
            self.wf(),
        ensures
            opt_slice_view(r) == (match self.cursor().at {
                Some(i) if self.live() => Some(self.cursor().rows[i].key),
                _ => None,
            }),
    {
        if !self.valid() {
            return None;
        }
        match self.at {
            Some(i) => Some(self.rows[i].key.as_slice()),
            None => None,
        }
    }

    /// Current value.
    pub fn value(&self) -> (r: Option<&[u8]>)
        requires
            self.wf(),
        ensures
            opt_slice_view(r) == (match self.cursor().at {
                Some(i) if self.live() => self.cursor().rows[i].value,
                _ => None,
            }),
    {
        if !self.valid() {
            return None;
        }
        match self.at {
            Some(i) => match &self.rows[i].value {
                Some(value) => Some(value.as_slice()),
                None => None,
            },
            None => None,
        }
    }

    /// Current value, in a form that outlives the cursor moving on.
    pub fn value_slice(&self) -> (r: Option<DbSlice>)
        requires
            self.wf(),
        ensures
            match (r, self.cursor().at) {
                (Some(slice), Some(i)) => self.live() && self.cursor().rows[i].value == Some(
                    slice@,
                ),
                (None, Some(_)) => !self.live(),
                (Some(_), None) => false,
                (None, None) => true,
            },
    {
        match self.value() {
            Some(value) => Some(DbSlice::from_vec(bytes::copy(value))),
            None => None,
        }
    }

    /// Why the walk stopped, or why it never started. A handle that is not
    /// live is reported here; without it a dropped column family would read
    /// as an empty one.
    pub fn status(&self) -> (r: Result<()>)
        ensures
            checked(r, self.fault()),
    {
        if let Some(reason) = &self.invalid_cf {
            return Err(Error::invalid_column_family(reason.as_str()));
        }
        if self.closed {
            return Err(Error::Closed);
        }
        if let Some(key) = &self.failed {
            return Err(Error::MergeFailed(bytes::copy(key.as_slice())));
        }
        Ok(())
    }
}

} // verus!
