//! Flushing, compacting and closing, what the host is told, and estimates of
//! what the database holds.

use vstd::prelude::*;

use crate::bytes;
use crate::bytes::{bytes_lt, opt_slice_view};
use crate::column_family::{
    cf_lower_bound, cf_upper_bound, prefix_key, prefixed, ColumnFamilyHandle, DEFAULT_CF_ID,
};
use crate::db::read::{stored_end, stored_start};
use crate::db::{first_fault, Db, MemTableStats, Range};
use crate::engine::memtable::{at_most_u64, tally};
use crate::engine::store::levels::CompactionOutcome;
use crate::engine::store::{recovered, stacked_size_in, RegolithEngine, Stored};
use crate::engine::wal::{clean_from, stamp_of, WAL_STAMP_LEN};
use crate::env::Capabilities;
use crate::error::{checked, is_fault, Fault, Result};
use crate::history::Logged;

verus! {

impl Db {
    /// The handle is the same, whatever became of the engine.
    pub open spec fn same_families(self, before: Self) -> bool {
        &&& self.same_handle(before)
        &&& self.families() == before.families()
    }

    // ── flush, close ────────────────────────────────────────────────────

    /// Finish the active memtable: its writes become a level-0 table. Does
    /// nothing when the memtable holds no writes.
    pub fn flush(&mut self) -> (r: Result<()>)
        requires
            old(self).wf(),
        ensures
            final(self).wf(),
            checked(r, old(self).gate()),
            r is Err ==> *final(self) == *old(self),
            r is Ok ==> final(self).same_families(*old(self)) && final(self).store().is_flush_of(
                old(self).store(),
            ),
    {
        if let Err(e) = self.ensure_writable() {
            return Err(e);
        }
        self.engine.flush_active_memtable();
        proof {
            self.engine.lemma_history_parts();
        }
        Ok(())
    }

    /// Finish the active memtable and take no more requests: from here on
    /// operations fail with [`Error::Closed`]. Closing twice is closing once.
    pub fn close(&mut self) -> (r: Result<()>)
        requires
            old(self).wf(),
        ensures
            final(self).wf(),
            r is Ok,
            final(self).same_families(*old(self)),
            final(self).is_closed(),
            final(self).history() == old(self).history(),
            final(self).durable() == final(self).history(),
            final(self).horizon() == old(self).horizon(),
            final(self).store().settings() == old(self).store().settings(),
            final(self).store().registry() == old(self).store().registry(),
            final(self).store().clock() == old(self).store().clock(),
            final(self).store().log_name() == old(self).store().log_name(),
            final(self).store().owes_sync() == old(self).store().owes_sync(),
            final(self).store().active() == Seq::<Logged>::empty(),
            if old(self).store().active().len() == 0 {
                final(self).store().files() == old(self).store().files()
            } else {
                final(self).store().finished_onto(
                    old(self).store().files(),
                    old(self).store().active(),
                )
            },
    {
        self.engine.close();
        Ok(())
    }

    /// What the database leaves behind when it stops here: a crash, unless
    /// it was closed first.
    pub fn into_stored(self) -> (r: Stored)
        requires
            self.wf(),
        ensures
            r.wf(),
            recovered(r, self.store().log_name()) == Ok::<Seq<Logged>, Seq<char>>(self.durable()),
            stamp_of(r.log()) == Ok::<Option<int>, Seq<char>>(Some(WAL_STAMP_LEN as int)),
            clean_from(r.log(), self.store().log_name(), WAL_STAMP_LEN as int),
            r.mark() <= self.horizon(),
            self.store().active().len() == 0 ==> r.mark() == self.horizon(),
            r.was_opened(),
            r.files() == self.store().files(),
    {
        self.engine.into_stored()
    }

    /// A copy of the database as it stands, for the host to keep elsewhere:
    /// the active memtable is finished first, so that nothing is missing.
    pub fn checkpoint(&mut self) -> (r: Result<Stored>)
        requires
            old(self).wf(),
        ensures
            final(self).wf(),
            match old(self).gate() {
                Some(fault) => *final(self) == *old(self) && (r matches Err(e) && is_fault(
                    e,
                    fault,
                )),
                None => {
                    &&& final(self).same_families(*old(self))
                    &&& final(self).store().is_flush_of(old(self).store())
                    &&& r matches Ok(copy)
                    &&& copy.wf()
                    &&& copy.was_opened()
                    &&& copy.finished() == old(self).history()
                    &&& copy.log() == Seq::<u8>::empty()
                    &&& copy.mark() == old(self).horizon()
                },
            },
    {
        if let Err(e) = self.flush() {
            return Err(e);
        }
        Ok(self.engine.copy_finished())
    }

    // ── compaction ──────────────────────────────────────────────────────

    /// Why a compaction of a range is refused, if it is.
    pub open spec fn compact_fault(self, start: Option<Seq<u8>>, end: Option<Seq<u8>>) -> Option<
        Fault,
    > {
        first_fault(
            self.gate(),
            first_fault(
                match start {
                    Some(s) => self.key_fault(s.len() as int),
                    None => None,
                },
                match end {
                    Some(e) => self.key_fault(e.len() as int),
                    None => None,
                },
            ),
        )
    }

    /// Compact the default column family between `start` and `end`, either
    /// of which may be missing. The active memtable is finished first.
    pub fn compact_range(&mut self, start: Option<&[u8]>, end: Option<&[u8]>) -> (r: Result<()>)
        requires
            old(self).wf(),
        ensures
            final(self).wf(),
            checked(r, old(self).compact_fault(opt_slice_view(start), opt_slice_view(end))),
            r is Err ==> *final(self) == *old(self),
            r is Ok ==> final(self).same_families(*old(self)) && exists|flushed: RegolithEngine|
                #[trigger]
                flushed.is_flush_of(old(self).store()) && final(self).store().range_compacted(
                    flushed,
                    stored_start(DEFAULT_CF_ID, opt_slice_view(start)),
                    stored_end(DEFAULT_CF_ID, opt_slice_view(end)),
                ),
    {
        if let Err(e) = self.ensure_writable() {
            return Err(e);
        }
        if let Some(start) = start {
            if let Err(e) = self.validate_key_size(start) {
                return Err(e);
            }
        }
        if let Some(end) = end {
            if let Err(e) = self.validate_key_size(end) {
                return Err(e);
            }
        }
        let lower: Vec<u8> = match start {
            Some(s) => prefix_key(DEFAULT_CF_ID, s),
            None => cf_lower_bound(DEFAULT_CF_ID),
        };
        let upper: Vec<u8> = match end {
            Some(e) => prefix_key(DEFAULT_CF_ID, e),
            None => cf_upper_bound(DEFAULT_CF_ID),
        };
        self.engine.compact_range(lower.as_slice(), upper.as_slice());
        Ok(())
    }

    /// Perform at most one pending compaction job. Stop on
    /// [`CompactionOutcome::Idle`]: a job that ran leaves less to do, so
    /// that calling this over and over comes to an end.
    pub fn compact_step(&mut self) -> (r: Result<CompactionOutcome>)
        requires
            old(self).wf(),
        ensures
            final(self).wf(),
            final(self).same_families(*old(self)),
            match old(self).gate() {
                Some(fault) => *final(self) == *old(self) && (r matches Err(e) && is_fault(
                    e,
                    fault,
                )),
                None => if old(self).store().compaction_due() {
                    &&& r matches Ok(outcome) && outcome == CompactionOutcome::DidWork
                    &&& final(self).store().pass_done(old(self).store())
                } else {
                    &&& r matches Ok(outcome) && outcome == CompactionOutcome::Idle
                    &&& *final(self) == *old(self)
                },
            },
    {
        if let Err(e) = self.ensure_writable() {
            return Err(e);
        }
        Ok(self.engine.run_one_compaction_pass())
    }

    // ── the host ────────────────────────────────────────────────────────

    /// The engine behind the handle.
    pub fn engine(&self) -> (r: &RegolithEngine)
        requires
            self.wf(),
        ensures
            *r == self.store(),
            r.wf(),
    {
        &self.engine
    }

    /// What the environment this database was opened on can actually do.
    pub fn capabilities(&self) -> (r: Capabilities)
        ensures
            r == self.store().settings().env.capabilities,
    {
        self.engine.capabilities()
    }

    /// One turn of the wait until no snapshot is live: how many pins are
    /// outstanding once none is or the time is up, and `None` while the wait
    /// goes on. Zero means the wait succeeded.
    pub fn wait_for_snapshots(&self, time_is_up: bool) -> (r: Option<u64>)
        requires
            self.wf(),
        ensures
            r == (if self.live_snapshots() == 0 || time_is_up {
                Some(self.live_snapshots() as u64)
            } else {
                None
            }),
    {
        let live: u64 = self.engine.live_snapshot_count();
        if live == 0 || time_is_up {
            Some(live)
        } else {
            None
        }
    }

    /// Take note of the host's clock, in seconds since the epoch.
    pub fn report_time(&mut self, unix_secs: u64)
        requires
            old(self).wf(),
        ensures
            final(self).wf(),
            final(self).same_families(*old(self)),
            final(self).store().clock() == Some(unix_secs),
            final(self).history() == old(self).history(),
            final(self).durable() == old(self).durable(),
            final(self).horizon() == old(self).horizon(),
            final(self).is_closed() == old(self).is_closed(),
            final(self).store().settings() == old(self).store().settings(),
            final(self).store().registry() == old(self).store().registry(),
            final(self).store().log() == old(self).store().log(),
            final(self).store().log_name() == old(self).store().log_name(),
            final(self).store().owes_sync() == old(self).store().owes_sync(),
            final(self).store().files() == old(self).store().files(),
            final(self).store().active() == old(self).store().active(),
    {
        self.engine.report_time(unix_secs);
    }

    /// The bytes of the log, for the host to write.
    pub fn log_bytes(&self) -> (r: &[u8])
        ensures
            r@ == self.store().log(),
    {
        self.engine.log_bytes()
    }

    /// Whether a write asked for a sync that was not reported done.
    pub fn sync_due(&self) -> (r: bool)
        ensures
            r == self.store().owes_sync(),
    {
        self.engine.sync_due()
    }

    /// Take note that the host synced the log.
    pub fn report_synced(&mut self)
        requires
            old(self).wf(),
        ensures
            final(self).wf(),
            final(self).same_families(*old(self)),
            !final(self).store().owes_sync(),
            final(self).store().same_setting(old(self).store()),
            final(self).history() == old(self).history(),
            final(self).durable() == old(self).durable(),
            final(self).horizon() == old(self).horizon(),
            final(self).store().log() == old(self).store().log(),
            final(self).store().files() == old(self).store().files(),
            final(self).store().active() == old(self).store().active(),
    {
        self.engine.report_synced();
    }

    // ── estimates ───────────────────────────────────────────────────────

    /// Bytes the finished tables hold on a range of one family. An empty or
    /// inverted range holds none.
    pub open spec fn size_in(self, id: u32, start: Seq<u8>, end: Seq<u8>) -> u64 {
        if bytes_lt(start, end) {
            stacked_size_in(self.store().files(), prefixed(id, start), prefixed(id, end)) as u64
        } else {
            0
        }
    }

    fn approximate_size_in_range(&self, id: u32, range: &Range<'_>) -> (r: u64)
        requires
            self.wf(),
        ensures
            r == self.size_in(id, range.start@, range.end@),
    {
        if !bytes::lt(range.start, range.end) {
            return 0;
        }
        let lo: Vec<u8> = prefix_key(id, range.start);
        let hi: Vec<u8> = prefix_key(id, range.end);
        self.engine.approximate_size_in_range(lo.as_slice(), hi.as_slice())
    }

    fn sizes_in(&self, id: u32, ranges: &[Range<'_>]) -> (r: Vec<u64>)
        requires
            self.wf(),
        ensures
            r@.len() == ranges@.len(),
            forall|i: int|
                0 <= i < r@.len() ==> #[trigger] r@[i] == self.size_in(
                    id,
                    ranges@[i].start@,
                    ranges@[i].end@,
                ),
    {
        let mut out: Vec<u64> = Vec::new();
        let mut i: usize = 0;
        while i < ranges.len()
            invariant
                self.wf(),
                i <= ranges@.len(),
                out@.len() == i,
                forall|j: int|
                    0 <= j < i ==> #[trigger] out@[j] == self.size_in(
                        id,
                        ranges@[j].start@,
                        ranges@[j].end@,
                    ),
            decreases ranges@.len() - i,
        {
            out.push(self.approximate_size_in_range(id, &ranges[i]));
            i += 1;
        }
        out
    }

    /// The approximate bytes in each of the given ranges of the default
    /// column family, in the order of the ranges. What the active memtable
    /// holds is not counted.
    pub fn get_approximate_sizes(&self, ranges: &[Range<'_>]) -> (r: Vec<u64>)
        requires
            self.wf(),
        ensures
            r@.len() == ranges@.len(),
            forall|i: int|
                0 <= i < r@.len() ==> #[trigger] r@[i] == self.size_in(
                    DEFAULT_CF_ID,
                    ranges@[i].start@,
                    ranges@[i].end@,
                ),
    {
        self.sizes_in(DEFAULT_CF_ID, ranges)
    }

    /// [`Db::get_approximate_sizes`] in column family `cf`. A family that is
    /// not live holds nothing.
    pub fn get_approximate_sizes_cf(&self, cf: &ColumnFamilyHandle, ranges: &[Range<'_>]) -> (r:
        Vec<u64>)
        requires
            self.wf(),
        ensures
            r@.len() == ranges@.len(),
            forall|i: int|
                0 <= i < r@.len() ==> #[trigger] r@[i] == (if self.families().is_live(*cf) {
                    self.size_in(cf.id_number(), ranges@[i].start@, ranges@[i].end@)
                } else {
                    0
                }),
    {
        if !self.is_live_cf_handle(cf) {
            let n: usize = ranges.len();
            return vec![0u64; n];
        }
        self.sizes_in(cf.id(), ranges)
    }

    /// What the active memtable holds of a range of one family.
    pub open spec fn memtable_stats(self, id: u32, start: Seq<u8>, end: Seq<u8>) -> MemTableStats {
        if bytes_lt(start, end) {
            let t = tally(self.store().active(), prefixed(id, start), prefixed(id, end));
            MemTableStats { count: t.count as u64, size: at_most_u64(t.size) as u64 }
        } else {
            MemTableStats { count: 0, size: 0 }
        }
    }

    fn memtable_stats_in(&self, id: u32, range: &Range<'_>) -> (r: MemTableStats)
        requires
            self.wf(),
        ensures
            r == self.memtable_stats(id, range.start@, range.end@),
    {
        if !bytes::lt(range.start, range.end) {
            return MemTableStats::default();
        }
        let lo: Vec<u8> = prefix_key(id, range.start);
        let hi: Vec<u8> = prefix_key(id, range.end);
        let (count, size): (u64, u64) = self.engine.approximate_memtable_stats(
            lo.as_slice(),
            hi.as_slice(),
        );
        MemTableStats { count, size }
    }

    /// Exact count and approximate size of the entries of the active
    /// memtable whose user key falls in `range`, in the default column
    /// family.
    pub fn get_approximate_memtable_stats(&self, range: Range<'_>) -> (r: MemTableStats)
        requires
            self.wf(),
        ensures
            r == self.memtable_stats(DEFAULT_CF_ID, range.start@, range.end@),
    {
        self.memtable_stats_in(DEFAULT_CF_ID, &range)
    }

    /// [`Db::get_approximate_memtable_stats`] in column family `cf`. A family
    /// that is not live holds nothing.
    pub fn get_approximate_memtable_stats_cf(&self, cf: &ColumnFamilyHandle, range: Range<'_>) -> (r:
        MemTableStats)
        requires
            self.wf(),
        ensures
            r == (if self.families().is_live(*cf) {
                self.memtable_stats(cf.id_number(), range.start@, range.end@)
            } else {
                (MemTableStats { count: 0, size: 0 })
            }),
    {
        if !self.is_live_cf_handle(cf) {
            return MemTableStats::default();
        }
        self.memtable_stats_in(cf.id(), &range)
    }
}

} // verus!
