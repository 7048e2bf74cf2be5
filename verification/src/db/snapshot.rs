//! Snapshots: reads as of the moment they were taken.

use vstd::prelude::*;

use crate::bytes::{opt_slice_view, slice_views};
use crate::column_family::{ColumnFamilyHandle, DEFAULT_CF_ID};
use crate::db::read::{got, values_of};
use crate::db::{Db, ScanPage};
use crate::engine::snapshot_registry::{pinned, unpinned, Pin};
use crate::error::{is_fault, Result};
use crate::iter::CfIter;
use crate::slice::DbSlice;
use crate::text::{decimal, decimal_text, join3};

verus! {

/// A point-in-time snapshot for consistent reads: every write with a
/// sequence number at or below it shows, and no later one does. It pins that
/// point until it is given back with [`Db::release`].
#[derive(Debug)]
pub struct Snapshot {
    seq: u64,
}

impl Snapshot {
    /// The sequence number this snapshot reads at.
    pub closed spec fn number(self) -> u64 {
        self.seq
    }

    /// The sequence number this snapshot reads at.
    pub fn sequence(&self) -> (r: u64)
        ensures
            r == self.number(),
    {
        self.seq
    }

    /// The snapshot as text, for people.
    pub fn to_text(&self) -> (r: String)
        ensures
            r@ == "Snapshot { seq: "@ + decimal_text(self.number() as nat) + ", .. }"@,
    {
        join3("Snapshot { seq: ", decimal(self.seq).as_str(), ", .. }")
    }

    /// The value of `key` in the default column family, at this snapshot.
    pub fn get(&self, db: &Db, key: &[u8]) -> (r: Result<Option<Vec<u8>>>)
        requires
            db.wf(),
        ensures
            got(r, db.point_read(DEFAULT_CF_ID, key@, self.number())),
    {
        match self.get_slice(db, key) {
            Ok(Some(slice)) => Ok(Some(slice.into_vec())),
            Ok(None) => Ok(None),
            Err(e) => Err(e),
        }
    }

    /// [`Snapshot::get`], as a slice that stays what it was.
    pub fn get_slice(&self, db: &Db, key: &[u8]) -> (r: Result<Option<DbSlice>>)
        requires
            db.wf(),
        ensures
            match db.point_read(DEFAULT_CF_ID, key@, self.number()) {
                Ok(Some(value)) => r matches Ok(Some(slice)) && slice@ == value,
                Ok(None) => r matches Ok(None),
                Err(fault) => r matches Err(e) && is_fault(e, fault),
            },
    {
        match db.lookup_at(DEFAULT_CF_ID, key, self.seq) {
            Ok(Some(value)) => Ok(Some(DbSlice::from_vec(value))),
            Ok(None) => Ok(None),
            Err(e) => Err(e),
        }
    }

    /// Whether `key` has a value in the default column family, at this snapshot.
    pub fn has(&self, db: &Db, key: &[u8]) -> (r: Result<bool>)
        requires
            db.wf(),
        ensures
            match db.point_read(DEFAULT_CF_ID, key@, self.number()) {
                Ok(value) => r matches Ok(found) && found == (value is Some),
                Err(fault) => r matches Err(e) && is_fault(e, fault),
            },
    {
        match self.get_size(db, key) {
            Ok(size) => Ok(size.is_some()),
            Err(e) => Err(e),
        }
    }

    /// Length in bytes of the value of `key` in the default column family, at this snapshot.
    pub fn get_size(&self, db: &Db, key: &[u8]) -> (r: Result<Option<usize>>)
        requires
            db.wf(),
        ensures
            match db.point_read(DEFAULT_CF_ID, key@, self.number()) {
                Ok(Some(value)) => r matches Ok(Some(size)) && size == value.len(),
                Ok(None) => r matches Ok(None),
                Err(fault) => r matches Err(e) && is_fault(e, fault),
            },
    {
        match db.lookup_at(DEFAULT_CF_ID, key, self.seq) {
            Ok(Some(value)) => Ok(Some(value.len())),
            Ok(None) => Ok(None),
            Err(e) => Err(e),
        }
    }

    /// The values of several keys of the default column family, at this snapshot, in the order
    /// of the keys. All are read at one point of the history.
    pub fn multi_get(&self, db: &Db, keys: &[&[u8]]) -> (r: Result<Vec<Option<Vec<u8>>>>)
        requires
            db.wf(),
        ensures
            match db.multi_read(DEFAULT_CF_ID, slice_views(keys@), self.number()) {
                    Ok(values) => r matches Ok(v) && values_of(v@) == values,
                    Err(fault) => r matches Err(e) && is_fault(e, fault),
                },
    {
        db.multi_lookup_at(DEFAULT_CF_ID, keys, self.seq)
    }

    /// Every key and value of the default column family with `start <= key < end`,
    /// at this snapshot.
    pub fn scan(&self, db: &Db, start: Option<&[u8]>, end: Option<&[u8]>) -> (r: Result<Vec<(Vec<u8>, Vec<u8>)>>)
        requires
            db.wf(),
        ensures
            db.scanned(DEFAULT_CF_ID, opt_slice_view(start), opt_slice_view(end), self.number(), r),
    {
        db.scan_at(DEFAULT_CF_ID, start, end, self.seq)
    }

    /// At most `limit` of what [`Snapshot::scan`] returns, and where the next
    /// page begins.
    pub fn scan_page(&self, db: &Db, start: Option<&[u8]>, end: Option<&[u8]>, limit: usize) -> (r: Result<ScanPage>)
        requires
            db.wf(),
        ensures
            db.paged(
                    DEFAULT_CF_ID,
                    opt_slice_view(start),
                    opt_slice_view(end),
                    limit,
                    self.number(),
                    r,
                ),
    {
        db.scan_page_at(DEFAULT_CF_ID, start, end, limit, self.seq)
    }

    /// An iterator over the default column family, at this snapshot.
    pub fn iter(&self, db: &Db) -> (r: CfIter)
        requires
            db.wf(),
        ensures
            db.iterates(DEFAULT_CF_ID, self.number(), r),
    {
        db.iter_at(DEFAULT_CF_ID, self.seq)
    }

    /// The value of `key` in column family `cf`, at this snapshot.
    pub fn get_cf(&self, db: &Db, cf: &ColumnFamilyHandle, key: &[u8]) -> (r: Result<Option<Vec<u8>>>)
        requires
            db.wf(),
        ensures
            got(r, db.point_read_cf(*cf, key@, self.number())),
    {
        match self.get_slice_cf(db, cf, key) {
            Ok(Some(slice)) => Ok(Some(slice.into_vec())),
            Ok(None) => Ok(None),
            Err(e) => Err(e),
        }
    }

    /// [`Snapshot::get_cf`], as a slice that stays what it was.
    pub fn get_slice_cf(&self, db: &Db, cf: &ColumnFamilyHandle, key: &[u8]) -> (r: Result<Option<DbSlice>>)
        requires
            db.wf(),
        ensures
            match db.point_read_cf(*cf, key@, self.number()) {
                Ok(Some(value)) => r matches Ok(Some(slice)) && slice@ == value,
                Ok(None) => r matches Ok(None),
                Err(fault) => r matches Err(e) && is_fault(e, fault),
            },
    {
        match db.lookup_cf_at(cf, key, self.seq) {
            Ok(Some(value)) => Ok(Some(DbSlice::from_vec(value))),
            Ok(None) => Ok(None),
            Err(e) => Err(e),
        }
    }

    /// Whether `key` has a value in column family `cf`, at this snapshot.
    pub fn has_cf(&self, db: &Db, cf: &ColumnFamilyHandle, key: &[u8]) -> (r: Result<bool>)
        requires
            db.wf(),
        ensures
            match db.point_read_cf(*cf, key@, self.number()) {
                Ok(value) => r matches Ok(found) && found == (value is Some),
                Err(fault) => r matches Err(e) && is_fault(e, fault),
            },
    {
        match self.get_size_cf(db, cf, key) {
            Ok(size) => Ok(size.is_some()),
            Err(e) => Err(e),
        }
    }

    /// Length in bytes of the value of `key` in column family `cf`, at this snapshot.
    pub fn get_size_cf(&self, db: &Db, cf: &ColumnFamilyHandle, key: &[u8]) -> (r: Result<Option<usize>>)
        requires
            db.wf(),
        ensures
            match db.point_read_cf(*cf, key@, self.number()) {
                Ok(Some(value)) => r matches Ok(Some(size)) && size == value.len(),
                Ok(None) => r matches Ok(None),
                Err(fault) => r matches Err(e) && is_fault(e, fault),
            },
    {
        match db.lookup_cf_at(cf, key, self.seq) {
            Ok(Some(value)) => Ok(Some(value.len())),
            Ok(None) => Ok(None),
            Err(e) => Err(e),
        }
    }

    /// The values of several keys of column family `cf`, at this snapshot, in the order
    /// of the keys. All are read at one point of the history.
    pub fn multi_get_cf(&self, db: &Db, cf: &ColumnFamilyHandle, keys: &[&[u8]]) -> (r: Result<Vec<Option<Vec<u8>>>>)
        requires
            db.wf(),
        ensures
            match db.read_fault(*cf) {
                Some(fault) => r matches Err(e) && is_fault(e, fault),
                None => match db.multi_read(cf.id_number(), slice_views(keys@), self.number()) {
                    Ok(values) => r matches Ok(v) && values_of(v@) == values,
                    Err(fault) => r matches Err(e) && is_fault(e, fault),
                },
            },
    {
        if let Err(e) = db.validate_cf_read(cf) {
            return Err(e);
        }
        db.multi_lookup_at(cf.id(), keys, self.seq)
    }

    /// Every key and value of column family `cf` with `start <= key < end`,
    /// at this snapshot.
    pub fn scan_cf(&self, db: &Db, cf: &ColumnFamilyHandle, start: Option<&[u8]>, end: Option<&[u8]>) -> (r: Result<Vec<(Vec<u8>, Vec<u8>)>>)
        requires
            db.wf(),
        ensures
            match db.read_fault(*cf) {
                Some(fault) => r matches Err(e) && is_fault(e, fault),
                None => db.scanned(cf.id_number(), opt_slice_view(start), opt_slice_view(end), self.number(), r),
            },
    {
        if let Err(e) = db.validate_cf_read(cf) {
            return Err(e);
        }
        proof {
            db.lemma_live_id(*cf);
        }
        db.scan_at(cf.id(), start, end, self.seq)
    }

    /// At most `limit` of what [`Snapshot::scan_cf`] returns, and where the next
    /// page begins.
    pub fn scan_page_cf(&self, db: &Db, cf: &ColumnFamilyHandle, start: Option<&[u8]>, end: Option<&[u8]>, limit: usize) -> (r: Result<ScanPage>)
        requires
            db.wf(),
        ensures
            match db.read_fault(*cf) {
                Some(fault) => r matches Err(e) && is_fault(e, fault),
                None => db.paged(
                    cf.id_number(),
                    opt_slice_view(start),
                    opt_slice_view(end),
                    limit,
                    self.number(),
                    r,
                ),
            },
    {
        if let Err(e) = db.validate_cf_read(cf) {
            return Err(e);
        }
        proof {
            db.lemma_live_id(*cf);
        }
        db.scan_page_at(cf.id(), start, end, limit, self.seq)
    }

    /// An iterator over column family `cf`, at this snapshot.
    pub fn iter_cf(&self, db: &Db, cf: &ColumnFamilyHandle) -> (r: CfIter)
        requires
            db.wf(),
        ensures
            if db.families().is_live(*cf) {
                db.iterates(cf.id_number(), self.number(), r)
            } else {
                Db::iterates_nothing(*cf, r)
            },
    {
        db.iter_cf_at(cf, self.seq)
    }
}

impl Db {
    /// The database holds what it held: only its snapshots may differ.
    pub open spec fn same_data(self, before: Self) -> bool {
        &&& self.same_handle(before)
        &&& self.families() == before.families()
        &&& self.history() == before.history()
        &&& self.durable() == before.durable()
        &&& self.horizon() == before.horizon()
        &&& self.is_closed() == before.is_closed()
        &&& self.store().settings() == before.store().settings()
        &&& self.store().clock() == before.store().clock()
        &&& self.store().log() == before.store().log()
        &&& self.store().log_name() == before.store().log_name()
        &&& self.store().owes_sync() == before.store().owes_sync()
        &&& self.store().files() == before.store().files()
        &&& self.store().active() == before.store().active()
    }

    /// The pinned sequence numbers.
    pub open spec fn pins(self) -> Map<u64, Pin> {
        self.store().registry().pins()
    }

    /// How many snapshots are live.
    pub open spec fn live_snapshots(self) -> nat {
        self.store().registry().live()
    }

    /// Take a point-in-time snapshot. While it lives, nothing it can read is
    /// dropped.
    pub fn snapshot(&mut self) -> (r: Snapshot)
        requires
            old(self).wf(),
            old(self).live_snapshots() < u64::MAX,
        ensures
            final(self).wf(),
            r.number() == old(self).horizon(),
            final(self).same_data(*old(self)),
            final(self).live_snapshots() == old(self).live_snapshots() + 1,
            final(self).pins() == pinned(
                old(self).pins(),
                r.number(),
                old(self).store().clock(),
            ),
            final(self).store().registry().wakes() == old(self).store().registry().wakes(),
            final(self).store().registry().waiters() == old(self).store().registry().waiters(),
    {
        let seq: u64 = self.engine.register_snapshot_at_horizon();
        Snapshot { seq }
    }

    /// Give a snapshot back: its pin is released.
    pub fn release(&mut self, snapshot: Snapshot)
        requires
            old(self).wf(),
            old(self).store().registry().wakes() < u64::MAX,
        ensures
            final(self).wf(),
            final(self).same_data(*old(self)),
            final(self).pins() == unpinned(old(self).pins(), snapshot.number()),
            final(self).live_snapshots() == (if old(self).pins().dom().contains(
                snapshot.number(),
            ) {
                (old(self).live_snapshots() - 1) as nat
            } else {
                old(self).live_snapshots()
            }),
            final(self).store().registry().waiters() == old(self).store().registry().waiters(),
            final(self).store().registry().wakes() == old(self).store().registry().wakes() + (if final(self).live_snapshots() == 0 && old(self).store().registry().waiters() > 0 {
                1nat
            } else {
                0nat
            }),
    {
        self.engine.release_snapshot(snapshot.seq);
    }

    /// Take a second pin on the point a snapshot reads at.
    pub fn clone_pin(&mut self, snapshot: &Snapshot) -> (r: Snapshot)
        requires
            old(self).wf(),
            old(self).live_snapshots() < u64::MAX,
        ensures
            final(self).wf(),
            r.number() == snapshot.number(),
            final(self).same_data(*old(self)),
            final(self).live_snapshots() == old(self).live_snapshots() + 1,
            final(self).pins() == pinned(
                old(self).pins(),
                r.number(),
                old(self).store().clock(),
            ),
            final(self).store().registry().wakes() == old(self).store().registry().wakes(),
            final(self).store().registry().waiters() == old(self).store().registry().waiters(),
    {
        self.engine.register_snapshot(snapshot.seq);
        Snapshot { seq: snapshot.seq }
    }
}

} // verus!
