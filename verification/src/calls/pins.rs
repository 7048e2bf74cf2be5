//! The registry of snapshots: how often each point of the history is held,
//! and which is the oldest.

use vstd::prelude::*;

use crate::engine::snapshot_registry::SnapshotRegistry;

verus! {

/// How often `seq` is held.
pub open spec fn times_held(r: SnapshotRegistry, seq: u64) -> nat {
    if r.pins().dom().contains(seq) {
        r.pins()[seq].refcount
    } else {
        0
    }
}

/// Registering holds a point once more, and no other point more or less; the
/// oldest point held is then no newer than it. The first one to hold a point
/// says since when it is held.
pub proof fn law_register(
    r: &mut SnapshotRegistry,
    seq: u64,
    now: Option<u64>,
    other: u64,
    count: u64,
    later: u64,
    oldest: u64,
    newest_oldest: u64,
)
    requires
        old(r).wf(),
        call_ensures(SnapshotRegistry::live_count, (&*old(r),), count),
        call_ensures(SnapshotRegistry::oldest_live_seq, (&*old(r),), oldest),
        call_ensures(SnapshotRegistry::register, (r, seq, now), ()),
        call_ensures(SnapshotRegistry::live_count, (&*final(r),), later),
        call_ensures(SnapshotRegistry::oldest_live_seq, (&*final(r),), newest_oldest),
    ensures
        final(r).wf(),
        times_held(*final(r), seq) == times_held(*old(r), seq) + 1,
        other != seq ==> times_held(*final(r), other) == times_held(*old(r), other),
        later == count + 1,
        newest_oldest == (if seq < oldest {
            seq
        } else {
            oldest
        }),
        final(r).pins()[seq].registered_at_unix == (if times_held(*old(r), seq) == 0 {
            now
        } else {
            old(r).pins()[seq].registered_at_unix
        }),
{
    old(r).lemma_held();
    final(r).lemma_held();
    assert(final(r).pins().dom().contains(seq));
    old(r).lemma_drained();
    final(r).lemma_drained();
    if oldest != u64::MAX || count > 0 {
        assert(count > 0 ==> old(r).pins().dom().contains(oldest));
        assert(count > 0 ==> final(r).pins().dom().contains(oldest));
    }
    assert(final(r).pins().dom().contains(newest_oldest));
    if newest_oldest != seq {
        assert(old(r).pins().dom().contains(newest_oldest));
    }
}

/// Registering at the horizon gives the horizon, and holds it.
pub proof fn law_register_at(
    r: &mut SnapshotRegistry,
    horizon: u64,
    now: Option<u64>,
    number: u64,
    other: u64,
)
    requires
        old(r).wf(),
        call_ensures(SnapshotRegistry::register_at, (r, horizon, now), number),
    ensures
        number == horizon,
        times_held(*final(r), horizon) == times_held(*old(r), horizon) + 1,
        other != horizon ==> times_held(*final(r), other) == times_held(*old(r), other),
{
    old(r).lemma_held();
}

/// Releasing holds a point once less where it is held, and changes nothing
/// where it is not; no other point is held more or less.
pub proof fn law_release_one(
    r: &mut SnapshotRegistry,
    seq: u64,
    other: u64,
    count: u64,
    later: u64,
)
    requires
        old(r).wf(),
        call_ensures(SnapshotRegistry::live_count, (&*old(r),), count),
        call_ensures(SnapshotRegistry::release, (r, seq), ()),
        call_ensures(SnapshotRegistry::live_count, (&*final(r),), later),
    ensures
        final(r).wf(),
        times_held(*old(r), seq) > 0 ==> times_held(*final(r), seq) == times_held(*old(r), seq) - 1
            && later == count - 1,
        times_held(*old(r), seq) == 0 ==> times_held(*final(r), seq) == 0 && later == count,
        other != seq ==> times_held(*final(r), other) == times_held(*old(r), other),
{
    old(r).lemma_held();
    old(r).lemma_drained();
    if old(r).pins().dom().contains(seq) && count == 0 {
        assert(!Set::<u64>::empty().contains(seq));
    }
}

/// Releasing what was just registered leaves the registry holding what it
/// held.
pub proof fn law_release_undoes_register(
    r: &mut SnapshotRegistry,
    seq: u64,
    now: Option<u64>,
    again: &mut SnapshotRegistry,
    other: u64,
)
    requires
        old(r).wf(),
        call_ensures(SnapshotRegistry::register, (r, seq, now), ()),
        *old(again) == *final(r),
        call_ensures(SnapshotRegistry::release, (again, seq), ()),
    ensures
        times_held(*final(again), other) == times_held(*old(r), other),
        final(again).live() == old(r).live(),
{
    old(r).lemma_held();
    old(again).lemma_held();
    assert(final(r).pins().dom().contains(seq));
}

/// A wait is over when nothing is held, or time is up; the last release while
/// someone waits wakes them, and no other does.
pub proof fn law_wait(
    r: &mut SnapshotRegistry,
    seq: u64,
    over: bool,
    time_is_up: bool,
    waiting: usize,
    wakes: u64,
    later: u64,
    held: u64,
)
    requires
        old(r).wf(),
        call_ensures(SnapshotRegistry::waiting, (&*old(r),), waiting),
        call_ensures(SnapshotRegistry::wakes_issued, (&*old(r),), wakes),
        call_ensures(SnapshotRegistry::release, (r, seq), ()),
        call_ensures(SnapshotRegistry::wakes_issued, (&*final(r),), later),
        call_ensures(SnapshotRegistry::live_count, (&*final(r),), held),
        call_ensures(SnapshotRegistry::wait_over, (&*final(r), time_is_up), over),
    ensures
        over <==> held == 0 || time_is_up,
        held == 0 && waiting > 0 ==> later == wakes + 1,
        held > 0 || waiting == 0 ==> later == wakes,
{
}

} // verus!
