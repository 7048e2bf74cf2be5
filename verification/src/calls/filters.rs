//! Compaction filters: what a compaction leaves of a key that the filter
//! decides on.

use std::sync::Arc;

use vstd::prelude::*;

use crate::bytes::opt_slice_view;
use crate::calls::reads::law_get_answers_the_read;
use crate::column_family::{lemma_family_bounds, lemma_prefixed_parts, prefixed, DEFAULT_CF_ID};
use crate::db::read::{stored_end, stored_start};
use crate::db::Db;
use crate::engine::compaction::{all_revised, is_pruned, lemma_survivors_read, revised, survivors};
use crate::engine::memtable::point_key;
use crate::engine::store::levels::{any_touches, touches};
use crate::engine::store::{stacked, RegolithEngine};
use crate::error::Result;
use crate::history::{lemma_found_was_written, probe, End, Logged, Probe};
use crate::options::{CompactionFilter, Decision};

verus! {

/// A filter runs while no snapshot is held, and is the one the options name;
/// while a snapshot is held none does.
pub proof fn law_filter_waits_for_snapshots(db: Db)
    requires
        db.wf(),
    ensures
        db.live_snapshots() > 0 ==> db.store().filter() is None,
        db.live_snapshots() == 0 ==> db.store().filter()
            == db.store().settings().compaction_filter,
{
}

/// What a filter leaves of a key that ends in a value.
pub open spec fn end_after(
    filter: Option<Arc<dyn CompactionFilter>>,
    level: usize,
    key: Seq<u8>,
    end: End,
) -> End {
    match (filter, end) {
        (Some(f), End::Value(value)) => match f.verdict(level, key, value) {
            Decision::Keep => end,
            Decision::Remove => End::Gone,
            Decision::Change(new) => if new.len() <= u32::MAX {
                End::Value(new)
            } else {
                end
            },
        },
        _ => end,
    }
}

proof fn lemma_probe_revised(
    filter: Option<Arc<dyn CompactionFilter>>,
    level: usize,
    h: Seq<Logged>,
    key: Seq<u8>,
    seq: u64,
)
    requires
        key.len() >= 4,
    ensures
        ({
            let found = probe(h, key, seq);
            probe(all_revised(filter, level, h), key, seq) == (Probe {
                operands: found.operands,
                end: end_after(filter, level, key.skip(4), found.end),
            })
        }),
    decreases h.len(),
{
    let all = all_revised(filter, level, h);
    if h.len() > 0 {
        let rest = h.drop_last();
        lemma_probe_revised(filter, level, rest, key, seq);
        assert(all.drop_last() =~= all_revised(filter, level, rest));
        assert(all.last() == revised(filter, level, h.last()));
    }
}

proof fn lemma_nothing_pruned(
    filter: Option<Arc<dyn CompactionFilter>>,
    level: usize,
    h: Seq<Logged>,
    g: Seq<Logged>,
)
    requires
        is_pruned(filter, level, h, g),
        filter matches Some(f) && forall|l: usize, s: Seq<u8>, e: Seq<u8>|
            !(#[trigger] f.prunes(l, s, e)),
    ensures
        g == h,
    decreases h.len(),
{
    if h.len() > 0 {
        lemma_nothing_pruned(filter, level, h.drop_first(), g.drop_first());
        assert(g =~= seq![g[0]] + g.drop_first());
        assert(h =~= seq![h[0]] + h.drop_first());
    }
}

/// Where no snapshot is held, a compaction of everything leaves of a key that
/// had a value what the filter decides: the value where it keeps it, nothing
/// where it removes it, the new value where it changes it. A key that had
/// none has none afterwards.
pub proof fn law_filter_decides(
    db: &mut Db,
    r: Result<()>,
    after: Db,
    key: &[u8],
    decision: Decision,
    earlier: Result<Option<Vec<u8>>>,
    later: Result<Option<Vec<u8>>>,
)
    requires
        old(db).wf(),
        old(db).operator() is None,
        old(db).live_snapshots() == 0,
        !(old(db).store().settings().compaction_style is Fifo),
        old(db).store().settings().compaction_filter matches Some(f) && (forall|
            l: usize,
            s: Seq<u8>,
            e: Seq<u8>,
        |
            !(#[trigger] f.prunes(l, s, e))) && (earlier matches Ok(Some(v)) ==> forall|l: usize| #[trigger]
            f.verdict(l, key@, v@) == decision),
        call_ensures(Db::get, (&*old(db), key), earlier),
        earlier is Ok,
        call_ensures(Db::compact_range, (db, None, None), r),
        r is Ok,
        *final(db) == after,
        call_ensures(Db::get, (&after, key), later),
    ensures
        match earlier {
            Ok(Some(v)) => match decision {
                Decision::Keep => later matches Ok(Some(w)) && w@ == v@,
                Decision::Remove => later matches Ok(None),
                Decision::Change(new) => if new.len() <= u32::MAX {
                    later matches Ok(Some(w)) && w@ == new
                } else {
                    later matches Ok(Some(w)) && w@ == v@
                },
            },
            _ => later matches Ok(None),
        },
{
    let before = *old(db);
    let stored = prefixed(DEFAULT_CF_ID, key@);
    let none: Option<&[u8]> = None;
    let (lo, hi) = (
        stored_start(DEFAULT_CF_ID, opt_slice_view(none)),
        stored_end(DEFAULT_CF_ID, opt_slice_view(none)),
    );
    let seq = before.horizon();
    before.lemma_parts();
    lemma_prefixed_parts(DEFAULT_CF_ID, key@);
    law_get_answers_the_read(before, key, earlier);
    let flushed = choose|flushed: RegolithEngine| #[trigger]
        flushed.is_flush_of(before.store()) && after.store().range_compacted(flushed, lo, hi);
    let h = stacked(flushed.files());
    assert(h == before.history());
    let found = probe(h, stored, seq);
    assert(found.operands.len() == 0);
    if any_touches(h, lo, hi) {
        let level = flushed.merge_level();
        let out = stacked(after.store().files());
        assert(flushed.files().skip(0) =~= flushed.files());
        assert(after.store().files().skip(0) =~= after.store().files());
        assert(after.history() =~= out);
        let filter = flushed.filter();
        let g = choose|g: Seq<Logged>| #[trigger]
            is_pruned(filter, level, h, g) && out == all_revised(
                filter,
                level,
                survivors(g, flushed.pin()),
            );
        lemma_nothing_pruned(filter, level, h, g);
        lemma_survivors_read(h, flushed.pin(), stored, seq);
        lemma_probe_revised(filter, level, survivors(h, flushed.pin()), stored, seq);
        assert(stored.skip(4) == key@);
    } else if found.end is Value {
        let i = lemma_found_was_written(h, stored, seq);
        assert(point_key(h[i].op) == Some(stored));
        lemma_family_bounds(DEFAULT_CF_ID, DEFAULT_CF_ID, key@);
        assert(touches(h[i].op, lo, hi));
    }
    law_get_answers_the_read(after, key, later);
}

} // verus!
