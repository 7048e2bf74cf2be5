//! Owned iterators and streams over a snapshot.

use vstd::prelude::*;

use crate::bytes;
use crate::bytes::{bytes_le, opt_slice_view, opt_view};
use crate::column_family::DEFAULT_CF_ID;
use crate::db::snapshot::Snapshot;
use crate::db::Db;
use crate::engine::snapshot_registry::pinned;
use crate::error::{checked, Error, Fault, Result};
use crate::iter::{
    at_first, at_last, sought, sought_for_prev, sought_prefix, stepped, stepped_back, CfIter,
    Cursor,
};
use crate::options::{bool_text, bool_word};
use crate::slice::DbSlice;
use crate::text::join3;

verus! {

/// What a cursor must offer for its entries to be drained.
pub trait EntryCursor: Sized {
    /// Where the cursor stands.
    spec fn standing(&self) -> Cursor;

    /// Whether there is anything to walk.
    spec fn walkable(&self) -> bool;

    /// Whether the database was closed when the cursor was made.
    spec fn shut(&self) -> bool;

    /// The cursor is on a readable row or on none.
    spec fn whole(&self) -> bool;

    /// Why the walk stopped short, if it did.
    spec fn trouble(&self) -> Option<Fault>;

    /// Place the cursor on the first row.
    fn to_first(&mut self)
        requires
            old(self).whole(),
        ensures
            final(self).whole(),
            final(self).walkable() == old(self).walkable(),
            final(self).shut() == old(self).shut(),
            final(self).standing() == (if old(self).walkable() {
                at_first(old(self).standing())
            } else {
                old(self).standing()
            }),
    ;

    /// Place the cursor on the last row.
    fn to_last(&mut self)
        requires
            old(self).whole(),
        ensures
            final(self).whole(),
            final(self).walkable() == old(self).walkable(),
            final(self).shut() == old(self).shut(),
            final(self).standing() == (if old(self).walkable() {
                at_last(old(self).standing())
            } else {
                old(self).standing()
            }),
    ;

    /// Move the cursor one row on.
    fn step(&mut self)
        requires
            old(self).whole(),
        ensures
            final(self).whole(),
            final(self).walkable() == old(self).walkable(),
            final(self).shut() == old(self).shut(),
            final(self).standing() == (if old(self).walkable() {
                stepped(old(self).standing())
            } else {
                old(self).standing()
            }),
    ;

    /// Move the cursor one row back.
    fn step_back(&mut self)
        requires
            old(self).whole(),
        ensures
            final(self).whole(),
            final(self).walkable() == old(self).walkable(),
            final(self).shut() == old(self).shut(),
            final(self).standing() == (if old(self).walkable() {
                stepped_back(old(self).standing())
            } else {
                old(self).standing()
            }),
    ;

    /// Whether the cursor was ever placed.
    fn placed(&self) -> (r: bool)
        ensures
            r == self.standing().positioned,
    ;

    /// The entry the cursor is on.
    fn entry(&self) -> (r: Option<(Vec<u8>, DbSlice)>)
        requires
            self.whole(),
        ensures
            shows(self.standing(), self.walkable(), r),
    ;

    /// Why the walk stopped.
    fn why(&self) -> (r: Result<()>)
        ensures
            checked(r, self.trouble()),
    ;
}

/// `r` is the entry a cursor is on.
pub open spec fn shows(c: Cursor, walkable: bool, r: Option<(Vec<u8>, DbSlice)>) -> bool {
    match (c.at, r) {
        (Some(i), Some((key, value))) => walkable && key@ == c.rows[i].key && c.rows[i].value
            == Some(value@),
        (Some(_), None) => !walkable,
        (None, Some(_)) => false,
        (None, None) => true,
    }
}

impl EntryCursor for CfIter {
    open spec fn standing(&self) -> Cursor {
        self.cursor()
    }

    open spec fn walkable(&self) -> bool {
        self.live()
    }

    open spec fn shut(&self) -> bool {
        self.was_closed()
    }

    open spec fn whole(&self) -> bool {
        self.wf()
    }

    open spec fn trouble(&self) -> Option<Fault> {
        self.fault()
    }

    fn to_first(&mut self) {
        self.seek_to_first();
        proof {
            self.lemma_same_source(*old(self));
        }
    }

    fn to_last(&mut self) {
        self.seek_to_last();
        proof {
            self.lemma_same_source(*old(self));
        }
    }

    fn step(&mut self) {
        self.next();
        proof {
            self.lemma_same_source(*old(self));
        }
    }

    fn step_back(&mut self) {
        self.prev();
        proof {
            self.lemma_same_source(*old(self));
        }
    }

    fn placed(&self) -> (r: bool) {
        self.positioned()
    }

    fn entry(&self) -> (r: Option<(Vec<u8>, DbSlice)>) {
        proof {
            self.lemma_cursor();
        }
        match (self.key(), self.value_slice()) {
            (Some(key), Some(value)) => Some((bytes::copy(key), value)),
            _ => None,
        }
    }

    fn why(&self) -> (r: Result<()>) {
        self.status()
    }
}

/// Owned streaming iterator over a snapshot of the default column family.
/// The snapshot stays pinned until it is taken back out.
pub struct OwnedSnapshotIter {
    inner: CfIter,
    snapshot: Snapshot,
}

impl OwnedSnapshotIter {
    /// The iterator inside.
    pub closed spec fn walker(self) -> CfIter {
        self.inner
    }

    /// The sequence number the iterator reads at.
    pub closed spec fn number(self) -> u64 {
        self.snapshot.number()
    }

    /// The iterator is whole.
    pub open spec fn wf(self) -> bool {
        self.walker().wf()
    }

    /// What an iterator over a snapshot of `db` walks.
    pub open spec fn walks(self, db: Db) -> bool {
        db.iterates(DEFAULT_CF_ID, self.number(), self.walker())
    }

    fn new(db: &Db, snapshot: Snapshot) -> (r: Self)
        requires
            db.wf(),
        ensures
            r.wf(),
            r.number() == snapshot.number(),
            r.walks(*db),
    {
        let inner: CfIter = snapshot.iter(db);
        OwnedSnapshotIter { inner, snapshot }
    }

    /// Take the snapshot back out, to be released.
    pub fn into_snapshot(self) -> (r: Snapshot)
        ensures
            r.number() == self.number(),
    {
        self.snapshot
    }

    /// Position the cursor at the first key.
    pub fn seek_to_first(&mut self)
        requires
            old(self).wf(),
        ensures
            final(self).wf(),
            final(self).number() == old(self).number(),
            final(self).walker().same_source(old(self).walker()),
            final(self).walker().cursor() == (if old(self).walker().live() {
                at_first(old(self).walker().cursor())
            } else {
                old(self).walker().cursor()
            }),
    {
        self.inner.seek_to_first();
    }

    /// Position the cursor at the last key.
    pub fn seek_to_last(&mut self)
        requires
            old(self).wf(),
        ensures
            final(self).wf(),
            final(self).number() == old(self).number(),
            final(self).walker().same_source(old(self).walker()),
            final(self).walker().cursor() == (if old(self).walker().live() {
                at_last(old(self).walker().cursor())
            } else {
                old(self).walker().cursor()
            }),
    {
        self.inner.seek_to_last();
    }

    /// Position the cursor at the first key at or after `target`.
    pub fn seek(&mut self, target: &[u8])
        requires
            old(self).wf(),
        ensures
            final(self).wf(),
            final(self).number() == old(self).number(),
            final(self).walker().same_source(old(self).walker()),
            final(self).walker().cursor() == (if old(self).walker().live() {
                sought(old(self).walker().cursor(), target@)
            } else {
                old(self).walker().cursor()
            }),
    {
        self.inner.seek(target);
    }

    /// Position the cursor at the last key at or before `target`.
    pub fn seek_for_prev(&mut self, target: &[u8])
        requires
            old(self).wf(),
        ensures
            final(self).wf(),
            final(self).number() == old(self).number(),
            final(self).walker().same_source(old(self).walker()),
            final(self).walker().cursor() == (if old(self).walker().live() {
                sought_for_prev(old(self).walker().cursor(), target@)
            } else {
                old(self).walker().cursor()
            }),
    {
        self.inner.seek_for_prev(target);
    }

    /// Position the cursor at the first key with `prefix`.
    pub fn seek_prefix(&mut self, prefix: &[u8])
        requires
            old(self).wf(),
        ensures
            final(self).wf(),
            final(self).number() == old(self).number(),
            final(self).walker().same_source(old(self).walker()),
            final(self).walker().cursor() == (if old(self).walker().live() {
                sought_prefix(old(self).walker().cursor(), prefix@)
            } else {
                old(self).walker().cursor()
            }),
    {
        self.inner.seek_prefix(prefix);
    }

    /// Advance the cursor forward.
    pub fn next(&mut self)
        requires
            old(self).wf(),
        ensures
            final(self).wf(),
            final(self).number() == old(self).number(),
            final(self).walker().same_source(old(self).walker()),
            final(self).walker().cursor() == (if old(self).walker().live() {
                stepped(old(self).walker().cursor())
            } else {
                old(self).walker().cursor()
            }),
    {
        self.inner.next();
    }

    /// Move the cursor backward.
    pub fn prev(&mut self)
        requires
            old(self).wf(),
        ensures
            final(self).wf(),
            final(self).number() == old(self).number(),
            final(self).walker().same_source(old(self).walker()),
            final(self).walker().cursor() == (if old(self).walker().live() {
                stepped_back(old(self).walker().cursor())
            } else {
                old(self).walker().cursor()
            }),
    {
        self.inner.prev();
    }

    /// Whether the caller has positioned this cursor at all.
    pub fn positioned(&self) -> (r: bool)
        ensures
            r == self.walker().cursor().positioned,
    {
        self.inner.positioned()
    }

    /// Whether the cursor is positioned on a visible key.
    pub fn valid(&self) -> (r: bool)
        requires
            self.wf(),
        ensures
            r == (self.walker().live() && self.walker().cursor().at is Some),
    {
        self.inner.valid()
    }

    /// Current key.
    pub fn key(&self) -> (r: Option<&[u8]>)
        requires
            self.wf(),
        ensures
            opt_slice_view(r) == (match self.walker().cursor().at {
                Some(i) if self.walker().live() => Some(self.walker().cursor().rows[i].key),
                _ => None,
            }),
    {
        self.inner.key()
    }

    /// Current value.
    pub fn value(&self) -> (r: Option<&[u8]>)
        requires
            self.wf(),
        ensures
            opt_slice_view(r) == (match self.walker().cursor().at {
                Some(i) if self.walker().live() => self.walker().cursor().rows[i].value,
                _ => None,
            }),
    {
        self.inner.value()
    }

    /// Current value, in a form that outlives the cursor moving on.
    pub fn value_slice(&self) -> (r: Option<DbSlice>)
        requires
            self.wf(),
        ensures
            match (r, self.walker().cursor().at) {
                (Some(slice), Some(i)) => self.walker().live()
                    && self.walker().cursor().rows[i].value == Some(slice@),
                (None, Some(_)) => !self.walker().live(),
                (Some(_), None) => false,
                (None, None) => true,
            },
    {
        self.inner.value_slice()
    }

    /// Why the walk stopped short, if it did.
    pub fn status(&self) -> (r: Result<()>)
        ensures
            checked(r, self.walker().fault()),
    {
        self.inner.status()
    }

    /// Iterate forward from the cursor's current position.
    pub fn entries(self) -> (r: Entries<Self>)
        requires
            self.wf(),
        ensures
            r.of() == self,
            !r.has_started(),
            !r.is_reverse(),
    {
        Entries::new(self, false)
    }

    /// Iterate backward from the cursor's current position.
    pub fn entries_rev(self) -> (r: Entries<Self>)
        requires
            self.wf(),
        ensures
            r.of() == self,
            !r.has_started(),
            r.is_reverse(),
    {
        Entries::new(self, true)
    }
}

impl EntryCursor for OwnedSnapshotIter {
    open spec fn standing(&self) -> Cursor {
        self.walker().cursor()
    }

    open spec fn walkable(&self) -> bool {
        self.walker().live()
    }

    open spec fn shut(&self) -> bool {
        self.walker().was_closed()
    }

    open spec fn whole(&self) -> bool {
        self.wf()
    }

    open spec fn trouble(&self) -> Option<Fault> {
        self.walker().fault()
    }

    fn to_first(&mut self) {
        self.inner.to_first();
    }

    fn to_last(&mut self) {
        self.inner.to_last();
    }

    fn step(&mut self) {
        self.inner.step();
    }

    fn step_back(&mut self) {
        self.inner.step_back();
    }

    fn placed(&self) -> (r: bool) {
        self.inner.positioned()
    }

    fn entry(&self) -> (r: Option<(Vec<u8>, DbSlice)>) {
        self.inner.entry()
    }

    fn why(&self) -> (r: Result<()>) {
        self.inner.status()
    }
}

impl CfIter {
    /// Iterate forward from the cursor's current position.
    pub fn entries(self) -> (r: Entries<Self>)
        requires
            self.wf(),
        ensures
            r.of() == self,
            !r.has_started(),
            !r.is_reverse(),
    {
        Entries::new(self, false)
    }

    /// Iterate backward from the cursor's current position.
    pub fn entries_rev(self) -> (r: Entries<Self>)
        requires
            self.wf(),
        ensures
            r.of() == self,
            !r.has_started(),
            r.is_reverse(),
    {
        Entries::new(self, true)
    }
}

/// Ordered entries drained from a cursor, from its current position on.
pub struct Entries<C> {
    cursor: C,
    started: bool,
    reverse: bool,
}

/// Where a drained cursor goes next: a cursor that was placed before the
/// first step stays where it is, one that was not goes to the end it starts
/// from.
pub open spec fn advanced(c: Cursor, walkable: bool, started: bool, reverse: bool) -> Cursor {
    if !walkable {
        c
    } else if started {
        if reverse {
            stepped_back(c)
        } else {
            stepped(c)
        }
    } else if c.positioned {
        c
    } else if reverse {
        at_last(c)
    } else {
        at_first(c)
    }
}

impl<C> Entries<C> {
    /// The cursor.
    pub closed spec fn of(self) -> C {
        self.cursor
    }

    /// Whether the first step was taken.
    pub closed spec fn has_started(self) -> bool {
        self.started
    }

    /// Whether the steps go backward.
    pub closed spec fn is_reverse(self) -> bool {
        self.reverse
    }

    fn new(cursor: C, reverse: bool) -> (r: Self)
        ensures
            r.of() == cursor,
            !r.has_started(),
            r.is_reverse() == reverse,
    {
        Entries { cursor, started: false, reverse }
    }

    /// Give the cursor back, positioned wherever iteration stopped.
    pub fn into_cursor(self) -> (r: C)
        ensures
            r == self.of(),
    {
        self.cursor
    }
}

impl<C: EntryCursor> Entries<C> {
    /// The next entry. `None` means that the range ended or that the walk
    /// failed; [`Entries::status`] tells which.
    pub fn next(&mut self) -> (r: Option<(Vec<u8>, DbSlice)>)
        requires
            old(self).of().whole(),
        ensures
            final(self).of().whole(),
            final(self).of().walkable() == old(self).of().walkable(),
            final(self).of().shut() == old(self).of().shut(),
            final(self).has_started(),
            final(self).is_reverse() == old(self).is_reverse(),
            final(self).of().standing() == advanced(
                old(self).of().standing(),
                old(self).of().walkable(),
                old(self).has_started(),
                old(self).is_reverse(),
            ),
            shows(final(self).of().standing(), final(self).of().walkable(), r),
    {
        if self.started {
            if self.reverse {
                self.cursor.step_back();
            } else {
                self.cursor.step();
            }
        } else {
            self.started = true;
            // Placed, not valid: a cursor the caller seeked past the end of
            // the range is invalid but placed, and seeking it again would
            // hand back the very rows the caller seeked away from.
            if !self.cursor.placed() {
                if self.reverse {
                    self.cursor.to_last();
                } else {
                    self.cursor.to_first();
                }
            }
        }
        self.cursor.entry()
    }

    /// Why the walk stopped: `Ok` means the range ended, an error that the
    /// entries handed out are a prefix of it.
    pub fn status(&self) -> (r: Result<()>)
        ensures
            checked(r, self.of().trouble()),
    {
        self.cursor.why()
    }
}

/// A lazy, bounded scan over a key range of a snapshot.
pub struct ScanStream {
    entries: Entries<OwnedSnapshotIter>,
    // Exclusive upper bound, or `None` for the end of the column family.
    end: Option<Vec<u8>>,
    done: bool,
}

impl ScanStream {
    /// The entries the stream draws from.
    pub closed spec fn source(self) -> Entries<OwnedSnapshotIter> {
        self.entries
    }

    /// The exclusive upper bound.
    pub closed spec fn bound(self) -> Option<Seq<u8>> {
        opt_view(self.end)
    }

    /// Whether the bound was reached.
    pub closed spec fn is_done(self) -> bool {
        self.done
    }

    /// The stream is whole.
    pub open spec fn wf(self) -> bool {
        self.source().of().wf()
    }

    /// What drawing from a stream leaves, and what it hands out: the next row
    /// before the bound.
    pub open spec fn drew(self, before: Self, r: Option<(Vec<u8>, DbSlice)>) -> bool {
        if before.is_done() {
            r is None && self == before
        } else {
            let walkable = before.source().of().walker().live();
            let c = advanced(
                before.source().of().walker().cursor(),
                walkable,
                before.source().has_started(),
                before.source().is_reverse(),
            );
            let past = c.at is Some && walkable && (before.bound() matches Some(end) && bytes_le(
                end,
                c.rows[c.at->0].key,
            ));
            &&& self.bound() == before.bound()
            &&& self.source().of().walker().cursor() == c
            &&& self.source().of().walker().live() == walkable
            &&& self.source().of().walker().was_closed()
                == before.source().of().walker().was_closed()
            &&& self.source().has_started()
            &&& self.source().is_reverse() == before.source().is_reverse()
            &&& self.is_done() == past
            &&& if past {
                r is None
            } else {
                shows(c, walkable, r)
            }
        }
    }

    /// The stream as text, for people.
    pub fn to_text(&self) -> (r: String)
        ensures
            r@ == "ScanStream { done: "@ + bool_text(self.is_done()) + ", .. }"@,
    {
        join3("ScanStream { done: ", bool_word(self.done), ", .. }")
    }

    /// The next key and value. The first key at or past the bound ends the
    /// scan; keys come out ascending, so nothing after it can be in range.
    pub fn next(&mut self) -> (r: Option<(Vec<u8>, DbSlice)>)
        requires
            old(self).wf(),
        ensures
            final(self).wf(),
            final(self).drew(*old(self), r),
    {
        if self.done {
            return None;
        }
        match self.entries.next() {
            None => None,
            Some((key, value)) => {
                if let Some(end) = &self.end {
                    if !bytes::lt(key.as_slice(), end.as_slice()) {
                        self.done = true;
                        return None;
                    }
                }
                Some((key, value))
            },
        }
    }

    /// Why the scan stopped short of its range, if it did. A row at or past
    /// the bound that could not be read is none of its range.
    pub open spec fn trouble(self) -> Option<Fault> {
        match (self.source().of().walker().fault(), self.bound()) {
            (Some(Fault::MergeFailed(key)), Some(end)) if bytes_le(end, key) => None,
            (fault, _) => fault,
        }
    }

    /// Why the scan stopped: `Ok` means the range ended, an error that what
    /// the stream yielded is a prefix of it.
    pub fn status(&self) -> (r: Result<()>)
        ensures
            checked(r, self.trouble()),
    {
        match (self.entries.status(), &self.end) {
            (Err(Error::MergeFailed(key)), Some(end)) => {
                if bytes::lt(key.as_slice(), end.as_slice()) {
                    Err(Error::MergeFailed(key))
                } else {
                    Ok(())
                }
            },
            (told, _) => told,
        }
    }

    /// Take the snapshot back out, to be released.
    pub fn into_snapshot(self) -> (r: Snapshot)
        ensures
            r.number() == self.source().of().number(),
    {
        self.entries.into_cursor().into_snapshot()
    }
}

impl Snapshot {
    /// Consume this snapshot and make an owned iterator of it.
    pub fn into_owned_iter(self, db: &Db) -> (r: OwnedSnapshotIter)
        requires
            db.wf(),
        ensures
            r.wf(),
            r.number() == self.number(),
            r.walks(*db),
    {
        OwnedSnapshotIter::new(db, self)
    }

    /// An owned iterator at this snapshot's point, with a pin of its own.
    pub fn owned_iter(&self, db: &mut Db) -> (r: OwnedSnapshotIter)
        requires
            old(db).wf(),
            old(db).live_snapshots() < u64::MAX,
        ensures
            final(db).wf(),
            final(db).same_data(*old(db)),
            final(db).pins() == pinned(old(db).pins(), self.number(), old(db).store().clock()),
            r.wf(),
            r.number() == self.number(),
            r.walks(*final(db)),
    {
        let pin: Snapshot = db.clone_pin(self);
        OwnedSnapshotIter::new(db, pin)
    }

    /// Consume this snapshot and make a stream over `[start, end)` of it.
    pub fn into_scan_stream(self, db: &Db, start: Option<&[u8]>, end: Option<&[u8]>) -> (r:
        ScanStream)
        requires
            db.wf(),
        ensures
            r.streams(*db, self.number(), opt_slice_view(start), opt_slice_view(end)),
    {
        let end: Option<Vec<u8>> = match end {
            Some(end) => Some(bytes::copy(end)),
            None => None,
        };
        let mut cursor: OwnedSnapshotIter = self.into_owned_iter(db);
        let ghost fresh = cursor.walker();
        match start {
            Some(start) => cursor.seek(start),
            None => cursor.seek_to_first(),
        }
        let r = ScanStream { entries: Entries::new(cursor, false), end, done: false };
        proof {
            assert(db.iterates(DEFAULT_CF_ID, self.number(), fresh));
        }
        r
    }

    /// A stream over `[start, end)` of this snapshot, with a pin of its own.
    pub fn scan_stream(&self, db: &mut Db, start: Option<&[u8]>, end: Option<&[u8]>) -> (r:
        ScanStream)
        requires
            old(db).wf(),
            old(db).live_snapshots() < u64::MAX,
        ensures
            final(db).wf(),
            final(db).same_data(*old(db)),
            final(db).pins() == pinned(old(db).pins(), self.number(), old(db).store().clock()),
            r.streams(*final(db), self.number(), opt_slice_view(start), opt_slice_view(end)),
    {
        let pin: Snapshot = db.clone_pin(self);
        pin.into_scan_stream(db, start, end)
    }
}

impl ScanStream {
    /// A stream that has not been drawn from: over the default column
    /// family of `db` at `seq`, placed at `start`.
    pub open spec fn streams(
        self,
        db: Db,
        seq: u64,
        start: Option<Seq<u8>>,
        end: Option<Seq<u8>>,
    ) -> bool {
        &&& self.wf()
        &&& !self.is_done()
        &&& !self.source().has_started()
        &&& !self.source().is_reverse()
        &&& self.bound() == end
        &&& self.source().of().number() == seq
        &&& exists|fresh: CfIter| #[trigger]
            db.iterates(DEFAULT_CF_ID, seq, fresh) && self.source().of().walker().same_source(fresh)
                && self.source().of().walker().cursor() == (match start {
                Some(s) => sought(fresh.cursor(), s),
                None => at_first(fresh.cursor()),
            })
    }
}

impl Db {
    /// Scan a key range of the default column family lazily, from a snapshot
    /// pinned now.
    pub fn scan_stream(&mut self, start: Option<&[u8]>, end: Option<&[u8]>) -> (r: Result<
        ScanStream,
    >)
        requires
            old(self).wf(),
            old(self).live_snapshots() < u64::MAX,
        ensures
            final(self).wf(),
            if old(self).is_closed() {
                &&& r matches Err(e) && e is Closed
                &&& *final(self) == *old(self)
            } else {
                &&& final(self).same_data(*old(self))
                &&& final(self).pins() == pinned(
                    old(self).pins(),
                    old(self).horizon(),
                    old(self).store().clock(),
                )
                &&& r matches Ok(stream) && stream.streams(
                    *final(self),
                    old(self).horizon(),
                    opt_slice_view(start),
                    opt_slice_view(end),
                )
            },
    {
        if let Err(e) = self.ensure_open() {
            return Err(e);
        }
        let snapshot: Snapshot = self.snapshot();
        Ok(snapshot.into_scan_stream(self, start, end))
    }
}

} // verus!
