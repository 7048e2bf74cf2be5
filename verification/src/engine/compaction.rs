//! Compaction: which writes of a history still matter, and rewriting the
//! rest away.

use std::sync::Arc;

use vstd::prelude::*;
use vstd::slice::slice_subrange;

use crate::column_family::CF_PREFIX_LEN;
use crate::engine::memtable::{point_key, storable, Found, FoundEnd, MemTable};
use crate::engine::read::user_key_of;
use crate::engine::store::{all_storable, keyed};
use crate::engine::wal::{logged, WalEntry};
use crate::history::{
    beyond, effect, lemma_probe_layers, lemma_untouched, ordered, probe, within, Effect, Logged, Op,
};
use crate::options::{CompactionDecision, CompactionFilter, Decision};

verus! {

/// Whether `op` settles `key`: what came before no longer shows.
pub open spec fn settles(op: Op, key: Seq<u8>) -> bool {
    effect(op, key) is Value || effect(op, key) is Gone
}

/// Some write of `h` that a read at `pin` sees settles `key`.
pub open spec fn settled_in(h: Seq<Logged>, pin: u64, key: Seq<u8>) -> bool {
    exists|j: int| 0 <= j < h.len() && (#[trigger] h[j]).seq <= pin && settles(h[j].op, key)
}

/// The first write of `h` shows to no read at `pin` or above: it is a point
/// write that a later one, itself at or below `pin`, settles.
pub open spec fn superseded(h: Seq<Logged>, pin: u64) -> bool {
    &&& h[0].seq <= pin
    &&& point_key(h[0].op) matches Some(key) && settled_in(h.drop_first(), pin, key)
}

/// The writes of `h` that a read at `pin` or above may still need.
pub open spec fn survivors(h: Seq<Logged>, pin: u64) -> Seq<Logged>
    decreases h.len(),
{
    if h.len() == 0 {
        h
    } else if superseded(h, pin) {
        survivors(h.drop_first(), pin)
    } else {
        seq![h[0]] + survivors(h.drop_first(), pin)
    }
}

/// A read looks no further back than a write that settles the key.
pub proof fn lemma_settled_ends(h: Seq<Logged>, key: Seq<u8>, seq: u64)
    ensures
        probe(h, key, seq).end !is Open <==> settled_in(h, seq, key),
    decreases h.len(),
{
    if h.len() > 0 {
        let rest = h.drop_last();
        let n = h.len() - 1;
        lemma_settled_ends(rest, key, seq);
        assert(h[n] == h.last());
        if settled_in(rest, seq, key) {
            let j = choose|j: int|
                0 <= j < rest.len() && (#[trigger] rest[j]).seq <= seq && settles(rest[j].op, key);
            assert(h[j] == rest[j]);
        }
        if settled_in(h, seq, key) {
            let j = choose|j: int|
                0 <= j < h.len() && (#[trigger] h[j]).seq <= seq && settles(h[j].op, key);
            if j < n {
                assert(rest[j] == h[j]);
            }
        }
    }
}

/// Dropping what is superseded changes no read at `pin` or above: every live
/// snapshot, and every new read, sees what it saw.
pub proof fn lemma_survivors_read(h: Seq<Logged>, pin: u64, key: Seq<u8>, seq: u64)
    requires
        pin <= seq,
    ensures
        probe(survivors(h, pin), key, seq) == probe(h, key, seq),
    decreases h.len(),
{
    if h.len() > 0 {
        let tail = h.drop_first();
        let kept = survivors(tail, pin);
        let one = seq![h[0]];
        lemma_survivors_read(tail, pin, key, seq);
        assert(h =~= one + tail);
        lemma_probe_layers(one, tail, key, seq);
        lemma_probe_layers(one, kept, key, seq);
        if superseded(h, pin) {
            let own = point_key(h[0].op)->0;
            if own == key {
                let j = choose|j: int|
                    0 <= j < tail.len() && (#[trigger] tail[j]).seq <= pin && settles(
                        tail[j].op,
                        own,
                    );
                assert(tail[j].seq <= seq);
                assert(settled_in(tail, seq, key));
                lemma_settled_ends(tail, key, seq);
            } else {
                assert(effect(h[0].op, key) == Effect::Nothing);
                lemma_untouched(one, key, seq);
                let p = probe(tail, key, seq);
                assert(Seq::<Seq<u8>>::empty() + p.operands =~= p.operands);
            }
        }
    }
}

/// What survives is in order, lies where the history lay, and can be stored.
pub proof fn lemma_survivors_whole(h: Seq<Logged>, pin: u64, low: u64, high: u64)
    requires
        ordered(h),
        beyond(h, low),
        within(h, high),
        all_storable(h),
    ensures
        ordered(survivors(h, pin)),
        beyond(survivors(h, pin), low),
        within(survivors(h, pin), high),
        all_storable(survivors(h, pin)),
        survivors(h, pin).len() <= h.len(),
    decreases h.len(),
{
    if h.len() > 0 {
        let tail = h.drop_first();
        let kept = survivors(tail, pin);
        assert(h =~= seq![h[0]] + tail);
        lemma_tail_whole(h);
        assert(beyond(tail, h[0].seq));
        lemma_survivors_whole(tail, pin, h[0].seq, high);
        let s = survivors(h, pin);
        assert forall|i: int| 0 <= i < s.len() implies (#[trigger] s[i]).seq > low && s[i].seq
            <= high && s[i].seq >= 1 && storable(s[i].op) && keyed(s[i].op) by {
            if superseded(h, pin) {
                assert(s[i] == kept[i]);
                assert(kept[i].seq > h[0].seq);
            } else if i == 0 {
                assert(s[i] == h[0]);
            } else {
                assert(s[i] == kept[i - 1]);
                assert(kept[i - 1].seq > h[0].seq);
            }
        }
        assert forall|i: int, j: int| 0 <= i < j < s.len() implies (#[trigger] s[i]).seq < (
        #[trigger] s[j]).seq by {
            if superseded(h, pin) {
                assert(s[i] == kept[i] && s[j] == kept[j]);
            } else {
                assert(s[j] == kept[j - 1]);
                if i == 0 {
                    assert(s[i] == h[0]);
                } else {
                    assert(s[i] == kept[i - 1]);
                }
            }
        }
    }
}

/// The rest of a whole history is whole, and beyond its first write.
proof fn lemma_tail_whole(h: Seq<Logged>)
    requires
        ordered(h),
        all_storable(h),
        h.len() > 0,
    ensures
        ordered(h.drop_first()),
        all_storable(h.drop_first()),
        beyond(h.drop_first(), h[0].seq),
{
    let tail = h.drop_first();
    assert forall|i: int| 0 <= i < tail.len() implies (#[trigger] tail[i]).seq >= 1
        && tail[i].seq > h[0].seq && storable(tail[i].op) && keyed(tail[i].op) by {
        assert(tail[i] == h[i + 1]);
    }
    assert forall|i: int, j: int| 0 <= i < j < tail.len() implies (#[trigger] tail[i]).seq < (
    #[trigger] tail[j]).seq by {
        assert(tail[i] == h[i + 1]);
        assert(tail[j] == h[j + 1]);
    }
}

// ── the filter ──────────────────────────────────────────────────────────

/// A filter that is shown the range deletion on `[start, end)` may decide
/// `decision`.
pub open spec fn may_decide<F: CompactionFilter + ?Sized>(
    filter: &F,
    level: usize,
    start: &[u8],
    end: &[u8],
    decision: CompactionDecision,
) -> bool {
    call_ensures(F::filter_range_delete, (filter, level, start, end), decision)
}

/// The filter was shown the range deletion on `[start, end)`, by user keys,
/// and `dropped` is whether it said to remove it.
pub open spec fn was_shown<F: CompactionFilter + ?Sized>(
    filter: &F,
    level: usize,
    start: Seq<u8>,
    end: Seq<u8>,
    dropped: bool,
) -> bool {
    exists|s: &[u8], e: &[u8], decision: CompactionDecision| #[trigger]
        may_decide(filter, level, s, e, decision) && s@ == start && e@
            == end && dropped == (decision is Remove)
}

/// `g` is `h` without the range deletions that the filter, shown each of
/// them, said to remove; with no filter it is `h`.
pub open spec fn is_pruned(
    filter: Option<Arc<dyn CompactionFilter>>,
    level: usize,
    h: Seq<Logged>,
    g: Seq<Logged>,
) -> bool
    decreases h.len(),
{
    match filter {
        None => g == h,
        Some(f) => if h.len() == 0 {
            g == h
        } else {
            ||| (g.len() > 0 && g[0] == h[0] && (h[0].op matches Op::DeleteRange { start, end }
                ==> was_shown(&*f, level, user_key_of(start), user_key_of(end), false)) && is_pruned(
                filter,
                level,
                h.drop_first(),
                g.drop_first(),
            ))
            ||| (h[0].op matches Op::DeleteRange { start, end } && was_shown(
                &*f,
                level,
                user_key_of(start),
                user_key_of(end),
                true,
            ) && f.prunes(level, user_key_of(start), user_key_of(end)) && is_pruned(
                filter,
                level,
                h.drop_first(),
                g,
            ))
        },
    }
}

/// What the filter makes of a surviving write: a value it removes leaves a
/// deletion in its place, a value it changes is replaced. A value too large
/// to store changes nothing.
pub open spec fn revised(
    filter: Option<Arc<dyn CompactionFilter>>,
    level: usize,
    l: Logged,
) -> Logged {
    match (filter, l.op) {
        (Some(f), Op::Put { key, value }) => match f.verdict(level, user_key_of(key), value) {
            Decision::Keep => l,
            Decision::Remove => Logged { seq: l.seq, op: Op::Delete { key } },
            Decision::Change(value) => if value.len() <= u32::MAX {
                Logged { seq: l.seq, op: Op::Put { key, value } }
            } else {
                l
            },
        },
        _ => l,
    }
}

/// What the filter makes of a run of writes.
pub open spec fn all_revised(
    filter: Option<Arc<dyn CompactionFilter>>,
    level: usize,
    h: Seq<Logged>,
) -> Seq<Logged> {
    Seq::new(h.len(), |i: int| revised(filter, level, h[i]))
}

/// `out` is what compacting `h` into `level` comes to.
pub open spec fn is_compacted(
    filter: Option<Arc<dyn CompactionFilter>>,
    level: usize,
    pin: u64,
    h: Seq<Logged>,
    out: Seq<Logged>,
) -> bool {
    exists|g: Seq<Logged>| #[trigger]
        is_pruned(filter, level, h, g) && out == all_revised(filter, level, survivors(g, pin))
}

/// With no filter, compaction drops what is superseded and nothing else.
pub proof fn lemma_compacted_plain(level: usize, pin: u64, h: Seq<Logged>, out: Seq<Logged>)
    requires
        is_compacted(None, level, pin, h, out),
    ensures
        out == survivors(h, pin),
{
    assert(all_revised(None, level, survivors(h, pin)) =~= survivors(h, pin));
}

proof fn lemma_pruned_whole(
    filter: Option<Arc<dyn CompactionFilter>>,
    level: usize,
    h: Seq<Logged>,
    g: Seq<Logged>,
    low: u64,
    high: u64,
)
    requires
        is_pruned(filter, level, h, g),
        ordered(h),
        beyond(h, low),
        within(h, high),
        all_storable(h),
    ensures
        ordered(g),
        beyond(g, low),
        within(g, high),
        all_storable(g),
        g.len() <= h.len(),
    decreases h.len(),
{
    if filter is Some && h.len() > 0 {
        let tail = h.drop_first();
        lemma_tail_whole(h);
        assert forall|i: int| 0 <= i < tail.len() implies (#[trigger] tail[i]).seq <= high by {
            assert(tail[i] == h[i + 1]);
        }
        if g.len() > 0 && g[0] == h[0] && is_pruned(filter, level, tail, g.drop_first()) {
            let rest = g.drop_first();
            lemma_pruned_whole(filter, level, tail, rest, h[0].seq, high);
            assert(g =~= seq![h[0]] + rest);
            assert forall|i: int| 0 <= i < g.len() implies (#[trigger] g[i]).seq > low && g[i].seq
                <= high && g[i].seq >= 1 && storable(g[i].op) && keyed(g[i].op) by {
                if i > 0 {
                    assert(g[i] == rest[i - 1]);
                    assert(rest[i - 1].seq > h[0].seq);
                }
            }
            assert forall|i: int, j: int| 0 <= i < j < g.len() implies (#[trigger] g[i]).seq < (
            #[trigger] g[j]).seq by {
                assert(g[j] == rest[j - 1]);
                if i > 0 {
                    assert(g[i] == rest[i - 1]);
                }
            }
        } else {
            lemma_pruned_whole(filter, level, tail, g, h[0].seq, high);
            assert forall|i: int| 0 <= i < g.len() implies (#[trigger] g[i]).seq > low by {
                assert(g[i].seq > h[0].seq);
            }
        }
    }
}

proof fn lemma_revised_whole(
    filter: Option<Arc<dyn CompactionFilter>>,
    level: usize,
    h: Seq<Logged>,
    low: u64,
    high: u64,
)
    requires
        ordered(h),
        beyond(h, low),
        within(h, high),
        all_storable(h),
    ensures
        ordered(all_revised(filter, level, h)),
        beyond(all_revised(filter, level, h), low),
        within(all_revised(filter, level, h), high),
        all_storable(all_revised(filter, level, h)),
{
    let g = all_revised(filter, level, h);
    assert forall|i: int| 0 <= i < g.len() implies (#[trigger] g[i]).seq > low && g[i].seq >= 1
        && g[i].seq <= high && storable(g[i].op) && keyed(g[i].op) && g[i].seq == h[i].seq by {
        assert(h[i].seq >= 1);
        assert(storable(h[i].op) && keyed(h[i].op));
    }
    assert forall|i: int, j: int| 0 <= i < j < g.len() implies (#[trigger] g[i]).seq < (
    #[trigger] g[j]).seq by {
        assert(h[i].seq < h[j].seq);
    }
}

/// A compacted history is whole.
pub proof fn lemma_compacted_whole(
    filter: Option<Arc<dyn CompactionFilter>>,
    level: usize,
    pin: u64,
    h: Seq<Logged>,
    out: Seq<Logged>,
    low: u64,
    high: u64,
)
    requires
        is_compacted(filter, level, pin, h, out),
        ordered(h),
        beyond(h, low),
        within(h, high),
        all_storable(h),
    ensures
        ordered(out),
        beyond(out, low),
        within(out, high),
        all_storable(out),
        out.len() <= h.len(),
{
    let g = choose|g: Seq<Logged>| #[trigger]
        is_pruned(filter, level, h, g) && out == all_revised(filter, level, survivors(g, pin));
    lemma_pruned_whole(filter, level, h, g, low, high);
    lemma_survivors_whole(g, pin, low, high);
    lemma_revised_whole(filter, level, survivors(g, pin), low, high);
}

/// What survives was there.
pub proof fn lemma_survivor_was_there(h: Seq<Logged>, pin: u64, i: int)
    requires
        0 <= i < survivors(h, pin).len(),
    ensures
        h.contains(survivors(h, pin)[i]),
    decreases h.len(),
{
    if h.len() > 0 {
        let rest = h.drop_first();
        let kept = survivors(rest, pin);
        let k = if superseded(h, pin) {
            i
        } else {
            i - 1
        };
        if k < 0 {
            assert(h[0] == survivors(h, pin)[i]);
        } else {
            assert(survivors(h, pin)[i] == kept[k]);
            lemma_survivor_was_there(rest, pin, k);
            let j = choose|j: int| 0 <= j < rest.len() && rest[j] == kept[k];
            assert(h[j + 1] == kept[k]);
        }
    }
}

/// What pruning leaves was there.
pub proof fn lemma_unpruned_was_there(
    filter: Option<Arc<dyn CompactionFilter>>,
    level: usize,
    h: Seq<Logged>,
    g: Seq<Logged>,
    i: int,
)
    requires
        is_pruned(filter, level, h, g),
        0 <= i < g.len(),
    ensures
        h.contains(g[i]),
    decreases h.len(),
{
    if filter is None || h.len() == 0 {
        assert(h[i] == g[i]);
    } else {
        let rest = h.drop_first();
        if g[0] == h[0] && is_pruned(filter, level, rest, g.drop_first()) {
            if i == 0 {
                assert(h[0] == g[i]);
            } else {
                lemma_unpruned_was_there(filter, level, rest, g.drop_first(), i - 1);
                let j = choose|j: int| 0 <= j < rest.len() && rest[j] == g[i];
                assert(h[j + 1] == g[i]);
            }
        } else {
            lemma_unpruned_was_there(filter, level, rest, g, i);
            let j = choose|j: int| 0 <= j < rest.len() && rest[j] == g[i];
            assert(h[j + 1] == g[i]);
        }
    }
}

/// Compaction writes no key that was not written: each point write it leaves
/// is on the key of one that was there.
pub proof fn lemma_compacted_key_was_there(
    filter: Option<Arc<dyn CompactionFilter>>,
    level: usize,
    pin: u64,
    h: Seq<Logged>,
    out: Seq<Logged>,
    i: int,
) -> (j: int)
    requires
        is_compacted(filter, level, pin, h, out),
        0 <= i < out.len(),
    ensures
        0 <= j < h.len(),
        point_key(h[j].op) == point_key(out[i].op),
{
    let g = choose|g: Seq<Logged>| #[trigger]
        is_pruned(filter, level, h, g) && out == all_revised(filter, level, survivors(g, pin));
    let kept = survivors(g, pin);
    lemma_survivor_was_there(g, pin, i);
    let k = choose|k: int| 0 <= k < g.len() && g[k] == kept[i];
    lemma_unpruned_was_there(filter, level, h, g, k);
    choose|j: int| 0 <= j < h.len() && h[j] == g[k]
}

// ── doing it ────────────────────────────────────────────────────────────

proof fn lemma_settled_cons(a: Logged, g: Seq<Logged>, pin: u64, key: Seq<u8>)
    ensures
        settled_in(seq![a] + g, pin, key) <==> (a.seq <= pin && settles(a.op, key)) || settled_in(
            g,
            pin,
            key,
        ),
{
    let s = seq![a] + g;
    assert(s[0] == a);
    if settled_in(g, pin, key) {
        let j = choose|j: int|
            0 <= j < g.len() && (#[trigger] g[j]).seq <= pin && settles(g[j].op, key);
        assert(s[j + 1] == g[j]);
    }
    if settled_in(s, pin, key) {
        let j = choose|j: int|
            0 <= j < s.len() && (#[trigger] s[j]).seq <= pin && settles(s[j].op, key);
        if j > 0 {
            assert(s[j] == g[j - 1]);
        }
    }
}

proof fn lemma_settled_push(h: Seq<Logged>, l: Logged, key: Seq<u8>)
    ensures
        settled_in(h.push(l), u64::MAX, key) <==> settled_in(h, u64::MAX, key) || settles(
            l.op,
            key,
        ),
{
    let s = h.push(l);
    assert(s[h.len() as int] == l);
    if settled_in(h, u64::MAX, key) {
        let j = choose|j: int|
            0 <= j < h.len() && (#[trigger] h[j]).seq <= u64::MAX && settles(h[j].op, key);
        assert(s[j] == h[j]);
    }
    if settled_in(s, u64::MAX, key) {
        let j = choose|j: int|
            0 <= j < s.len() && (#[trigger] s[j]).seq <= u64::MAX && settles(s[j].op, key);
        if j < h.len() {
            assert(s[j] == h[j]);
        }
    }
}

/// The user key of a stored key.
pub(crate) fn user_part(key: &[u8]) -> (r: &[u8])
    ensures
        r@ == user_key_of(key@),
{
    if key.len() >= CF_PREFIX_LEN {
        let user = slice_subrange(key, CF_PREFIX_LEN, key.len());
        assert(user@ =~= user_key_of(key@));
        user
    } else {
        key
    }
}

/// Show a filter the range deletion on `[start, end)`.
fn show_range<F: CompactionFilter + ?Sized>(
    filter: &F,
    level: usize,
    start: &[u8],
    end: &[u8],
) -> (r: CompactionDecision)
    ensures
        may_decide(filter, level, start, end, r),
        r is Remove ==> filter.prunes(level, start@, end@),
{
    filter.filter_range_delete(level, start, end)
}

/// Whether the filter drops a range deletion.
fn prunes_range(
    filter: &Option<Arc<dyn CompactionFilter>>,
    level: usize,
    start: &[u8],
    end: &[u8],
) -> (r: bool)
    ensures
        match *filter {
            None => !r,
            Some(f) => {
                &&& was_shown(&*f, level, user_key_of(start@), user_key_of(end@), r)
                &&& r ==> f.prunes(level, user_key_of(start@), user_key_of(end@))
            },
        },
{
    match filter {
        None => false,
        Some(f) => {
            let decision: CompactionDecision = show_range(
                &**f,
                level,
                user_part(start),
                user_part(end),
            );
            matches!(decision, CompactionDecision::Remove)
        },
    }
}

/// The keys that the writes looked at so far settle.
struct Settled {
    table: MemTable,
    count: u64,
}

impl Settled {
    spec fn wf(self) -> bool {
        &&& self.table.wf()
        &&& within(self.table.history(), self.count)
    }

    spec fn keys_of(self, g: Seq<Logged>, pin: u64) -> bool {
        forall|key: Seq<u8>| #[trigger]
            settled_in(self.table.history(), u64::MAX, key) <==> settled_in(g, pin, key)
    }

    fn new(pin: u64) -> (r: Self)
        ensures
            r.wf(),
            r.count == 0,
            r.keys_of(Seq::empty(), pin),
    {
        Settled { table: MemTable::new(), count: 0 }
    }

    /// Whether `key` is settled.
    fn has(&self, key: &[u8]) -> (r: bool)
        requires
            self.wf(),
        ensures
            r == settled_in(self.table.history(), u64::MAX, key@),
    {
        proof {
            lemma_settled_ends(self.table.history(), key@, u64::MAX);
        }
        let found: Found = self.table.lookup(key, u64::MAX);
        !matches!(found.end, FoundEnd::Open)
    }

    /// Take note of one more write, older than those noted before.
    fn note(&mut self, entry: &WalEntry, pin: u64, g: Ghost<Seq<Logged>>)
        requires
            old(self).wf(),
            old(self).count < u64::MAX,
            old(self).keys_of(g@, pin),
            storable(entry@.op),
        ensures
            final(self).wf(),
            final(self).count <= old(self).count + 1,
            final(self).keys_of(seq![entry@] + g@, pin),
    {
        let ghost before = self.table.history();
        let ghost a = entry@;
        let seq: u64 = self.count + 1;
        let (visible, settling): (bool, bool) = match entry {
            WalEntry::Put { key, seq: at, .. } => {
                if *at <= pin {
                    let none: Vec<u8> = Vec::new();
                    assert(none@.len() == 0);
                    self.table.put(seq, key.as_slice(), none.as_slice());
                }
                (*at <= pin, true)
            },
            WalEntry::Delete { key, seq: at } => {
                if *at <= pin {
                    self.table.delete(seq, key.as_slice());
                }
                (*at <= pin, true)
            },
            WalEntry::DeleteRange { start, end, seq: at } => {
                if *at <= pin {
                    self.table.delete_range(seq, start.as_slice(), end.as_slice());
                }
                (*at <= pin, true)
            },
            WalEntry::Merge { .. } => (false, false),
        };
        if visible && settling {
            self.count = seq;
        }
        proof {
            let after = self.table.history();
            assert forall|key: Seq<u8>| #[trigger] settled_in(after, u64::MAX, key) <==> settled_in(
                seq![a] + g@,
                pin,
                key,
            ) by {
                lemma_settled_cons(a, g@, pin, key);
                assert(settled_in(before, u64::MAX, key) <==> settled_in(g@, pin, key));
                if visible && settling {
                    lemma_settled_push(before, after.last(), key);
                    assert(after =~= before.push(after.last()));
                }
            }
            assert forall|i: int| 0 <= i < after.len() implies (#[trigger] after[i]).seq
                <= self.count by {
                if i < before.len() {
                    assert(after[i] == before[i]);
                    assert(before[i].seq <= old(self).count);
                }
            }
        }
    }
}

/// The entries that survive, newest first.
fn surviving(
    entries: Vec<WalEntry>,
    filter: &Option<Arc<dyn CompactionFilter>>,
    level: usize,
    pin: u64,
) -> (r: (Vec<WalEntry>, Ghost<Seq<Logged>>))
    requires
        all_storable(logged(entries@)),
    ensures
        is_pruned(*filter, level, logged(entries@), r.1@),
        logged(r.0@).reverse() == survivors(r.1@, pin),
{
    let ghost h = logged(entries@);
    let ghost mut g: Seq<Logged> = Seq::empty();
    let total: usize = entries.len();
    let mut rest: Vec<WalEntry> = entries;
    let mut out: Vec<WalEntry> = Vec::new();
    let mut seen: Settled = Settled::new(pin);
    let mut looked: usize = 0;
    proof {
        assert(h.take(h.len() as int) =~= h);
        assert(h.skip(h.len() as int) =~= Seq::<Logged>::empty());
        assert(logged(out@).reverse() =~= Seq::<Logged>::empty());
    }
    while rest.len() > 0
        invariant
            all_storable(h),
            h.len() == total,
            logged(rest@) == h.take(rest@.len() as int),
            rest@.len() <= h.len(),
            looked + rest@.len() == h.len(),
            seen.wf(),
            seen.count <= looked,
            seen.keys_of(g, pin),
            is_pruned(*filter, level, h.skip(rest@.len() as int), g),
            logged(out@).reverse() == survivors(g, pin),
        decreases rest@.len(),
    {
        let ghost n = rest@.len() as int;
        let ghost l = h[n - 1];
        let ghost held = logged(out@);
        let ghost tail = h.skip(n);
        let ghost all = rest@;
        let last: Option<WalEntry> = rest.pop();
        match last {
            None => {},
            Some(entry) => {
                proof {
                    assert(logged(all)[n - 1] == l);
                    assert(entry@ == l);
                    assert(logged(rest@) =~= h.take(n - 1));
                    assert(h.skip(n - 1) =~= seq![l] + tail);
                    assert(h.skip(n - 1).drop_first() =~= tail);
                    assert(storable(l.op));
                }
                let dropped: bool = match &entry {
                    WalEntry::DeleteRange { start, end, .. } => prunes_range(
                        filter,
                        level,
                        start.as_slice(),
                        end.as_slice(),
                    ),
                    _ => false,
                };
                if !dropped {
                    let (key, at): (Option<&[u8]>, u64) = match &entry {
                        WalEntry::Put { key, seq, .. } => (Some(key.as_slice()), *seq),
                        WalEntry::Delete { key, seq } => (Some(key.as_slice()), *seq),
                        WalEntry::Merge { key, seq, .. } => (Some(key.as_slice()), *seq),
                        WalEntry::DeleteRange { seq, .. } => (None, *seq),
                    };
                    let hidden: bool = at <= pin && match key {
                        Some(key) => seen.has(key),
                        None => false,
                    };
                    let ghost grown = seq![l] + g;
                    seen.note(&entry, pin, Ghost(g));
                    proof {
                        assert(grown.drop_first() =~= g);
                        assert(hidden == superseded(grown, pin));
                        g = grown;
                    }
                    if !hidden {
                        out.push(entry);
                        proof {
                            assert(logged(out@) =~= held.push(l));
                            assert(held.push(l).reverse() =~= seq![l] + held.reverse());
                        }
                    }
                }
                looked += 1;
            },
        }
    }
    assert(h.skip(0) =~= h);
    (out, Ghost(g))
}

/// Store one entry as the filter revises it.
fn store_revised(
    table: &mut MemTable,
    entry: WalEntry,
    filter: &Option<Arc<dyn CompactionFilter>>,
    level: usize,
)
    requires
        old(table).wf(),
        entry@.seq >= 1,
        within(old(table).history(), (entry@.seq - 1) as u64),
        storable(entry@.op),
    ensures
        final(table).wf(),
        final(table).history() == old(table).history().push(revised(*filter, level, entry@)),
{
    match &entry {
        WalEntry::Put { key, value, seq } => {
            let decision: CompactionDecision = match filter {
                None => CompactionDecision::Keep,
                Some(f) => f.filter(level, user_part(key.as_slice()), value.as_slice()),
            };
            match decision {
                CompactionDecision::Keep => table.put(*seq, key.as_slice(), value.as_slice()),
                CompactionDecision::Remove => table.delete(*seq, key.as_slice()),
                CompactionDecision::Change(changed) => {
                    if changed.len() as u64 <= 0xFFFF_FFFF {
                        table.put(*seq, key.as_slice(), changed.as_slice());
                    } else {
                        table.put(*seq, key.as_slice(), value.as_slice());
                    }
                },
            }
        },
        WalEntry::Delete { key, seq } => table.delete(*seq, key.as_slice()),
        WalEntry::Merge { key, operand, seq } => table.merge(
            *seq,
            key.as_slice(),
            operand.as_slice(),
        ),
        WalEntry::DeleteRange { start, end, seq } => table.delete_range(
            *seq,
            start.as_slice(),
            end.as_slice(),
        ),
    }
}

/// Compact entries into one table for `level`: what a read at `pin` or above
/// may still need, as the filter revises it.
pub fn compact_entries(
    entries: Vec<WalEntry>,
    filter: &Option<Arc<dyn CompactionFilter>>,
    level: usize,
    pin: u64,
) -> (r: MemTable)
    requires
        ordered(logged(entries@)),
        all_storable(logged(entries@)),
    ensures
        r.wf(),
        is_compacted(*filter, level, pin, logged(entries@), r.history()),
{
    let ghost h = logged(entries@);
    let (kept, Ghost(g)): (Vec<WalEntry>, Ghost<Seq<Logged>>) = surviving(
        entries,
        filter,
        level,
        pin,
    );
    let ghost s = survivors(g, pin);
    proof {
        assert(beyond(h, 0));
        lemma_pruned_whole(*filter, level, h, g, 0, u64::MAX);
        lemma_survivors_whole(g, pin, 0, u64::MAX);
        assert(logged(kept@).len() == s.len());
    }
    let mut rest: Vec<WalEntry> = kept;
    let mut table: MemTable = MemTable::new();
    proof {
        assert(logged(rest@) =~= s.skip(0).reverse());
        assert(all_revised(*filter, level, s).take(0) =~= Seq::<Logged>::empty());
    }
    while rest.len() > 0
        invariant
            ordered(s),
            all_storable(s),
            rest@.len() <= s.len(),
            logged(rest@) == s.skip(s.len() - rest@.len()).reverse(),
            table.wf(),
            table.history() == all_revised(*filter, level, s).take(s.len() - rest@.len()),
        decreases rest@.len(),
    {
        let ghost done = s.len() - rest@.len();
        let ghost l = s[done];
        let ghost all = rest@;
        let last: Option<WalEntry> = rest.pop();
        match last {
            None => {},
            Some(entry) => {
                proof {
                    assert(logged(all)[all.len() - 1] == s.skip(done)[0]);
                    assert(entry@ == l);
                    let held = table.history();
                    assert forall|x: int| 0 <= x < held.len() implies (#[trigger] held[x]).seq <= (
                    l.seq - 1) as u64 by {
                        assert(held[x] == revised(*filter, level, s[x]));
                        assert(s[x].seq < s[done].seq);
                    }
                    assert(l.seq >= 1);
                    assert(storable(l.op));
                }
                store_revised(&mut table, entry, filter, level);
                proof {
                    assert(all_revised(*filter, level, s).take(done + 1) =~= all_revised(
                        *filter,
                        level,
                        s,
                    ).take(done).push(revised(*filter, level, l)));
                    assert forall|x: int| 0 <= x < rest@.len() implies logged(rest@)[x] == s.skip(
                        done + 1,
                    ).reverse()[x] by {
                        assert(logged(rest@)[x] == logged(all)[x]);
                        assert(logged(all)[x] == s.skip(done).reverse()[x]);
                    }
                    assert(logged(rest@) =~= s.skip(done + 1).reverse());
                }
            },
        }
    }
    proof {
        assert(all_revised(*filter, level, s).take(s.len() as int) =~= all_revised(
            *filter,
            level,
            s,
        ));
        assert(is_pruned(*filter, level, h, g));
    }
    table
}

} // verus!
