//! Compaction: what it may drop, and what a filter does to what it keeps.

use std::sync::Arc;

use vstd::prelude::*;

use crate::bytes::opt_slice_view;
use crate::calls::reads::alike;
use crate::column_family::{prefixed, ColumnFamilyHandle, DEFAULT_CF_ID};
use crate::db::laws::{law_compaction_keeps_reads, law_flush_keeps_reads, law_pass_keeps_reads};
use crate::db::read::{stored_end, stored_start};
use crate::db::snapshot::Snapshot;
use crate::db::Db;
use crate::engine::compaction::{
    all_revised, compact_entries, is_pruned, lemma_compacted_plain, lemma_survivor_was_there,
    lemma_survivors_read, lemma_unpruned_was_there, settles, superseded, survivors,
};
use crate::engine::memtable::{point_key, MemTable};
use crate::engine::store::{all_storable, RegolithEngine};
use crate::engine::store::levels::CompactionOutcome;
use crate::engine::wal::{logged, WalEntry};
use crate::error::Result;
use crate::history::{effect, ordered, probe, Logged, Op};
use crate::options::{CompactionFilter, Decision};

verus! {

/// Without a filter, compacting a run of writes changes no read at the pin or
/// after it, of any key.
pub proof fn law_compact_entries_keeps_reads(
    entries: Vec<WalEntry>,
    level: usize,
    pin: u64,
    table: MemTable,
    key: Seq<u8>,
    seq: u64,
)
    requires
        ordered(logged(entries@)),
        all_storable(logged(entries@)),
        call_ensures(compact_entries, (entries, &None, level, pin), table),
        pin <= seq,
    ensures
        probe(table.history(), key, seq) == probe(logged(entries@), key, seq),
        forall|i: int|
            0 <= i < table.history().len() ==> logged(entries@).contains(
                #[trigger] table.history()[i],
            ),
{
    let h = logged(entries@);
    lemma_compacted_plain(level, pin, h, table.history());
    lemma_survivors_read(h, pin, key, seq);
    assert forall|i: int| 0 <= i < table.history().len() implies h.contains(
        #[trigger] table.history()[i],
    ) by {
        lemma_survivor_was_there(h, pin, i);
    }
}

/// The user's part of a stored key.
pub open spec fn users(key: Seq<u8>) -> Seq<u8> {
    if key.len() >= 4 {
        key.skip(4)
    } else {
        key
    }
}

/// What a filter leaves of a write: of a put what the filter decides for its
/// key and value, of every other write the write.
pub open spec fn filtered(
    filter: Option<Arc<dyn CompactionFilter>>,
    level: usize,
    before: Logged,
    after: Logged,
) -> bool {
    &&& after.seq == before.seq
    &&& match (filter, before.op) {
        (Some(f), Op::Put { key, value }) => match f.verdict(level, users(key), value) {
            Decision::Keep => after.op == before.op,
            Decision::Remove => after.op == (Op::Delete { key }),
            Decision::Change(new) => if new.len() <= u32::MAX {
                after.op == (Op::Put { key, value: new })
            } else {
                after.op == before.op
            },
        },
        _ => after.op == before.op,
    }
}

/// `l` is one of the writes of `h` as the filter leaves it.
pub open spec fn comes_from(
    filter: Option<Arc<dyn CompactionFilter>>,
    level: usize,
    h: Seq<Logged>,
    l: Logged,
) -> bool {
    exists|j: int| 0 <= j < h.len() && #[trigger] filtered(filter, level, h[j], l)
}

/// Under a filter, everything kept of a run of writes is one of its writes as
/// the filter leaves it; and every point write is kept whose key no later
/// write at or before the pin puts or deletes.
pub proof fn law_compact_entries_filters(
    entries: Vec<WalEntry>,
    filter: &Option<Arc<dyn CompactionFilter>>,
    level: usize,
    pin: u64,
    table: MemTable,
)
    requires
        ordered(logged(entries@)),
        all_storable(logged(entries@)),
        *filter is Some,
        call_ensures(compact_entries, (entries, filter, level, pin), table),
    ensures
        forall|i: int|
            0 <= i < table.history().len() ==> comes_from(
                *filter,
                level,
                logged(entries@),
                #[trigger] table.history()[i],
            ),
        forall|j: int|
            #![trigger logged(entries@)[j]]
            0 <= j < logged(entries@).len() && !(logged(entries@)[j].op is DeleteRange)
                && untouched_after(logged(entries@), j, pin) ==> exists|i: int|
                0 <= i < table.history().len() && #[trigger] filtered(
                    *filter,
                    level,
                    logged(entries@)[j],
                    table.history()[i],
                ),
{
    let h = logged(entries@);
    let out = table.history();
    let g = choose|g: Seq<Logged>| #[trigger]
        is_pruned(*filter, level, h, g) && out == all_revised(*filter, level, survivors(g, pin));
    let kept = survivors(g, pin);
    assert forall|i: int| 0 <= i < out.len() implies comes_from(
        *filter,
        level,
        h,
        #[trigger] out[i],
    ) by {
        lemma_survivor_was_there(g, pin, i);
        let k = choose|k: int| 0 <= k < g.len() && g[k] == kept[i];
        lemma_unpruned_was_there(*filter, level, h, g, k);
        let j = choose|j: int| 0 <= j < h.len() && h[j] == g[k];
        assert(filtered(*filter, level, h[j], out[i]));
    }
    assert forall|j: int|
        #![trigger h[j]]
        0 <= j < h.len() && !(h[j].op is DeleteRange) && untouched_after(h, j, pin) implies exists|
        i: int,
    | 0 <= i < out.len() && #[trigger] filtered(*filter, level, h[j], out[i]) by {
        lemma_kept(*filter, level, h, g, pin, j);
        let i = choose|i: int| 0 <= i < kept.len() && kept[i] == h[j];
        assert(filtered(*filter, level, h[j], out[i]));
    }
}

/// No write after write `j`, at or before the pin, puts or deletes its key.
pub open spec fn untouched_after(h: Seq<Logged>, j: int, pin: u64) -> bool {
    point_key(h[j].op) matches Some(key) ==> forall|k: int|
        j < k < h.len() && (#[trigger] h[k]).seq <= pin ==> !(effect(h[k].op, key) is Value)
            && !(effect(h[k].op, key) is Gone)
}

proof fn lemma_kept(
    filter: Option<Arc<dyn CompactionFilter>>,
    level: usize,
    h: Seq<Logged>,
    g: Seq<Logged>,
    pin: u64,
    j: int,
)
    requires
        filter is Some,
        is_pruned(filter, level, h, g),
        0 <= j < h.len(),
        !(h[j].op is DeleteRange),
        untouched_after(h, j, pin),
    ensures
        survivors(g, pin).contains(h[j]),
    decreases h.len(),
{
    let rest = h.drop_first();
    let first = g.len() > 0 && g[0] == h[0] && is_pruned(filter, level, rest, g.drop_first());
    if j > 0 {
        assert(rest[j - 1] == h[j]);
        assert(untouched_after(rest, j - 1, pin)) by {
            if point_key(rest[j - 1].op) is Some {
                let key = point_key(rest[j - 1].op)->0;
                assert forall|k: int| j - 1 < k < rest.len() && (#[trigger] rest[k]).seq
                    <= pin implies !(effect(rest[k].op, key) is Value) && !(effect(
                    rest[k].op,
                    key,
                ) is Gone) by {
                    assert(rest[k] == h[k + 1]);
                }
            }
        }
    }
    if first {
        let tail = g.drop_first();
        if j == 0 {
            let key = point_key(h[0].op)->0;
            if superseded(g, pin) {
                let m = choose|m: int|
                    0 <= m < tail.len() && (#[trigger] tail[m]).seq <= pin
                        && settles(tail[m].op, key);
                lemma_unpruned_was_there(filter, level, rest, tail, m);
                let k = choose|k: int| 0 <= k < rest.len() && rest[k] == tail[m];
                assert(h[k + 1] == rest[k]);
            }
            assert(survivors(g, pin)[0] == h[0]);
        } else {
            lemma_kept(filter, level, rest, tail, pin, j - 1);
            let i = choose|i: int| 0 <= i < survivors(tail, pin).len() && survivors(tail, pin)[i] == h[j];
            if superseded(g, pin) {
                assert(survivors(g, pin)[i] == h[j]);
            } else {
                assert(survivors(g, pin)[i + 1] == h[j]);
            }
        }
    } else {
        lemma_kept(filter, level, rest, g, pin, j - 1);
    }
}

/// A snapshot that is held reads the same through a compaction of any range,
/// where no filter runs and old tables are not dropped for their age.
pub proof fn law_snapshot_survives_compact_range(
    s: Snapshot,
    db: &mut Db,
    start: Option<&[u8]>,
    end: Option<&[u8]>,
    r: Result<()>,
    after: Db,
    cf: &ColumnFamilyHandle,
    key: &[u8],
    earlier: Result<Option<Vec<u8>>>,
    later: Result<Option<Vec<u8>>>,
)
    requires
        old(db).wf(),
        old(db).pins().dom().contains(s.number()),
        old(db).store().settings().compaction_filter is None || old(db).live_snapshots() > 0,
        !(old(db).store().settings().compaction_style is Fifo),
        call_ensures(Db::compact_range, (db, start, end), r),
        *final(db) == after,
        call_ensures(Snapshot::get_cf, (&s, &*old(db), cf, key), earlier),
        call_ensures(Snapshot::get_cf, (&s, &after, cf, key), later),
    ensures
        alike(earlier, later),
{
    if r is Ok {
        let before = *old(db);
        before.lemma_parts();
        let (lo, hi) = (
            stored_start(DEFAULT_CF_ID, opt_slice_view(start)),
            stored_end(DEFAULT_CF_ID, opt_slice_view(end)),
        );
        let flushed = choose|flushed: RegolithEngine| #[trigger]
            flushed.is_flush_of(before.store()) && after.store().range_compacted(flushed, lo, hi);
        law_compaction_keeps_reads(
            before.store(),
            flushed,
            after.store(),
            lo,
            hi,
            prefixed(cf.id_number(), key@),
            s.number(),
        );
    }
}

/// [`law_snapshot_survives_compact_range`] of a step of compaction.
pub proof fn law_snapshot_survives_compact_step(
    s: Snapshot,
    db: &mut Db,
    r: Result<CompactionOutcome>,
    after: Db,
    cf: &ColumnFamilyHandle,
    key: &[u8],
    earlier: Result<Option<Vec<u8>>>,
    later: Result<Option<Vec<u8>>>,
)
    requires
        old(db).wf(),
        old(db).pins().dom().contains(s.number()),
        old(db).store().settings().compaction_filter is None || old(db).live_snapshots() > 0,
        !(old(db).store().settings().compaction_style is Fifo),
        call_ensures(Db::compact_step, (db,), r),
        *final(db) == after,
        call_ensures(Snapshot::get_cf, (&s, &*old(db), cf, key), earlier),
        call_ensures(Snapshot::get_cf, (&s, &after, cf, key), later),
    ensures
        alike(earlier, later),
{
    let before = *old(db);
    before.lemma_parts();
    if r is Ok && before.store().compaction_due() {
        law_pass_keeps_reads(
            before.store(),
            after.store(),
            prefixed(cf.id_number(), key@),
            s.number(),
        );
    }
}

/// A snapshot reads the same through a flush.
pub proof fn law_snapshot_survives_flush(
    s: Snapshot,
    db: &mut Db,
    r: Result<()>,
    after: Db,
    cf: &ColumnFamilyHandle,
    key: &[u8],
    earlier: Result<Option<Vec<u8>>>,
    later: Result<Option<Vec<u8>>>,
)
    requires
        old(db).wf(),
        call_ensures(Db::flush, (db,), r),
        *final(db) == after,
        call_ensures(Snapshot::get_cf, (&s, &*old(db), cf, key), earlier),
        call_ensures(Snapshot::get_cf, (&s, &after, cf, key), later),
    ensures
        alike(earlier, later),
{
    if r is Ok {
        law_flush_keeps_reads(*old(db), after, cf.id_number(), key@, s.number());
    }
}

/// A snapshot that was taken is held until it is let go of as often as it was
/// taken or copied.
pub proof fn law_snapshot_is_held(db: &mut Db, s: Snapshot, again: &mut Db, copy: Snapshot, third: &mut Db)
    requires
        old(db).wf(),
        call_ensures(Db::snapshot, (db,), s),
        *old(again) == *final(db),
        call_ensures(Db::clone_pin, (again, &s), copy),
        *old(third) == *final(again),
        call_ensures(Db::release, (third, s), ()),
    ensures
        final(db).pins().dom().contains(s.number()),
        final(again).pins().dom().contains(s.number()),
        final(third).pins().dom().contains(copy.number()),
        copy.number() == s.number(),
        final(third).live_snapshots() == old(db).live_snapshots() + 1,
        forall|other: u64|
            other != s.number() ==> (#[trigger] final(third).pins().dom().contains(other)
                <==> old(db).pins().dom().contains(other)),
{
    old(db).lemma_parts();
    old(db).store().lemma_registry_whole();
    old(db).store().registry().lemma_held();
}

} // verus!
