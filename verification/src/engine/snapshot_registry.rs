//! Tracks the sequence numbers of every live snapshot, so that it is known
//! which older versions of a key some reader may still ask for.
//!
//! # Pin semantics
//!
//! Every snapshot registers a sequence number and releases it when it is
//! done. Several snapshots can pin the same number; the registry counts
//! them and forgets the number when the count reaches zero.
//!
//! [`SnapshotRegistry::oldest_live_seq`] is the smallest pinned number, or
//! `u64::MAX` when nothing is pinned.

use vstd::prelude::*;

verus! {

/// One pinned sequence number: how many snapshots hold it, and when the
/// first of them was taken, where the host has a clock.
pub ghost struct Pin {
    pub refcount: nat,
    pub registered_at_unix: Option<u64>,
}

/// What taking one more pin at `seq` leaves.
pub open spec fn pinned(pins: Map<u64, Pin>, seq: u64, now: Option<u64>) -> Map<u64, Pin> {
    pins.insert(
        seq,
        if pins.dom().contains(seq) {
            Pin {
                refcount: pins[seq].refcount + 1,
                registered_at_unix: pins[seq].registered_at_unix,
            }
        } else {
            Pin { refcount: 1, registered_at_unix: now }
        },
    )
}

/// What giving one pin at `seq` back leaves.
pub open spec fn unpinned(pins: Map<u64, Pin>, seq: u64) -> Map<u64, Pin> {
    if !pins.dom().contains(seq) {
        pins
    } else if pins[seq].refcount == 1 {
        pins.remove(seq)
    } else {
        pins.insert(
            seq,
            Pin {
                refcount: (pins[seq].refcount - 1) as nat,
                registered_at_unix: pins[seq].registered_at_unix,
            },
        )
    }
}

/// How many snapshots hold `seq`.
pub open spec fn held(pins: Map<u64, Pin>, seq: u64) -> nat {
    if pins.dom().contains(seq) {
        pins[seq].refcount
    } else {
        0
    }
}

/// The state kept of one pinned number.
struct Slot {
    seq: u64,
    refcount: u64,
    registered_at_unix: Option<u64>,
}

/// Registry of live snapshot sequence numbers.
pub struct SnapshotRegistry {
    // Ascending by sequence number, so the oldest is in front.
    active: Vec<Slot>,
    // Callers waiting for the last pin to go. A release that empties the
    // registry wakes them only when there are some.
    waiters: usize,
    // Wakes issued so far.
    wakes: u64,
}

/// How many pins the slots hold together.
spec fn count_of(s: Seq<Slot>) -> nat
    decreases s.len(),
{
    if s.len() == 0 {
        0
    } else {
        count_of(s.drop_last()) + s.last().refcount as nat
    }
}

/// One slot's count is part of the whole, and changing it changes the whole
/// by as much.
proof fn lemma_count_update(s: Seq<Slot>, i: int, slot: Slot)
    requires
        0 <= i < s.len(),
    ensures
        count_of(s.update(i, slot)) + s[i].refcount == count_of(s) + slot.refcount,
        s[i].refcount <= count_of(s),
    decreases s.len(),
{
    let n = s.len() - 1;
    if i < n {
        lemma_count_update(s.drop_last(), i, slot);
        assert(s.update(i, slot).drop_last() =~= s.drop_last().update(i, slot));
    } else {
        assert(s.update(i, slot).drop_last() =~= s.drop_last());
    }
}

proof fn lemma_count_insert(s: Seq<Slot>, i: int, slot: Slot)
    requires
        0 <= i <= s.len(),
    ensures
        count_of(s.insert(i, slot)) == count_of(s) + slot.refcount,
    decreases s.len(),
{
    if i == s.len() {
        assert(s.insert(i, slot).drop_last() =~= s);
    } else {
        lemma_count_insert(s.drop_last(), i, slot);
        assert(s.insert(i, slot).drop_last() =~= s.drop_last().insert(i, slot));
    }
}

proof fn lemma_count_remove(s: Seq<Slot>, i: int)
    requires
        0 <= i < s.len(),
    ensures
        count_of(s.remove(i)) + s[i].refcount == count_of(s),
    decreases s.len(),
{
    if i == s.len() - 1 {
        assert(s.remove(i) =~= s.drop_last());
    } else {
        lemma_count_remove(s.drop_last(), i);
        assert(s.remove(i).drop_last() =~= s.drop_last().remove(i));
    }
}

proof fn lemma_count_positive(s: Seq<Slot>)
    requires
        s.len() > 0,
        forall|i: int| 0 <= i < s.len() ==> (#[trigger] s[i]).refcount > 0,
    ensures
        count_of(s) > 0,
{
    assert(s[s.len() - 1].refcount > 0);
}

impl SnapshotRegistry {
    spec fn slot_of(self, seq: u64) -> int {
        choose|i: int| 0 <= i < self.active@.len() && (#[trigger] self.active@[i]).seq == seq
    }

    /// The pins by sequence number.
    pub closed spec fn pins(self) -> Map<u64, Pin> {
        Map::new(
            |seq: u64|
                exists|i: int| 0 <= i < self.active@.len() && (#[trigger] self.active@[i]).seq == seq,
            |seq: u64|
                Pin {
                    refcount: self.active@[self.slot_of(seq)].refcount as nat,
                    registered_at_unix: self.active@[self.slot_of(seq)].registered_at_unix,
                },
        )
    }

    /// How many snapshots are live: pins, not distinct numbers.
    pub closed spec fn live(self) -> nat {
        count_of(self.active@)
    }

    /// How many callers wait for the last pin to go.
    pub closed spec fn waiters(self) -> nat {
        self.waiters as nat
    }

    /// How many times waiting callers were woken.
    pub closed spec fn wakes(self) -> nat {
        self.wakes as nat
    }

    /// Every pinned number is held once, in order, by at least one
    /// snapshot.
    pub closed spec fn wf(self) -> bool {
        &&& forall|i: int, j: int|
            0 <= i < j < self.active@.len() ==> (#[trigger] self.active@[i]).seq < (
            #[trigger] self.active@[j]).seq
        &&& forall|i: int| 0 <= i < self.active@.len() ==> (#[trigger] self.active@[i]).refcount > 0
        &&& count_of(self.active@) <= u64::MAX
    }

    /// The slots of distinct numbers are what the map shows.
    proof fn lemma_slot(self, i: int)
        requires
            self.wf(),
            0 <= i < self.active@.len(),
        ensures
            self.pins().dom().contains(self.active@[i].seq),
            self.pins()[self.active@[i].seq] == (Pin {
                refcount: self.active@[i].refcount as nat,
                registered_at_unix: self.active@[i].registered_at_unix,
            }),
    {
        let seq = self.active@[i].seq;
        let j = self.slot_of(seq);
        assert(0 <= j < self.active@.len() && self.active@[j].seq == seq);
        if i < j {
            assert(self.active@[i].seq < self.active@[j].seq);
        }
        if j < i {
            assert(self.active@[j].seq < self.active@[i].seq);
        }
    }

    /// A pinned number has a slot.
    proof fn lemma_pinned(self, seq: u64) -> (i: int)
        requires
            self.wf(),
            self.pins().dom().contains(seq),
        ensures
            0 <= i < self.active@.len(),
            self.active@[i].seq == seq,
    {
        self.slot_of(seq)
    }

    /// A pinned number is held by at least one snapshot.
    pub proof fn lemma_held(self)
        requires
            self.wf(),
        ensures
            forall|seq: u64| #[trigger]
                self.pins().dom().contains(seq) <==> held(self.pins(), seq) > 0,
    {
        assert forall|seq: u64| #[trigger] self.pins().dom().contains(seq) implies held(
            self.pins(),
            seq,
        ) > 0 by {
            let i = self.lemma_pinned(seq);
            self.lemma_slot(i);
        }
    }

    /// No pin means no snapshot, and the other way round.
    pub proof fn lemma_drained(self)
        requires
            self.wf(),
        ensures
            self.live() == 0 <==> self.pins().dom() =~= Set::<u64>::empty(),
    {
        if self.active@.len() > 0 {
            lemma_count_positive(self.active@);
            self.lemma_slot(0);
            assert(self.pins().dom().contains(self.active@[0].seq));
        } else {
            assert(self.pins().dom() =~= Set::<u64>::empty());
        }
    }

    /// An empty registry.
    pub fn new() -> (r: Self)
        ensures
            r.wf(),
            r.pins() == Map::<u64, Pin>::empty(),
            r.live() == 0,
            r.waiters() == 0,
            r.wakes() == 0,
    {
        let r = SnapshotRegistry { active: Vec::new(), waiters: 0, wakes: 0 };
        assert(r.pins() =~= Map::<u64, Pin>::empty());
        r
    }

    /// The first slot at or after `seq`.
    fn position(&self, seq: u64) -> (r: usize)
        requires
            self.wf(),
        ensures
            r <= self.active@.len(),
            forall|i: int| 0 <= i < r ==> (#[trigger] self.active@[i]).seq < seq,
            r < self.active@.len() ==> self.active@[r as int].seq >= seq,
    {
        let mut i: usize = 0;
        while i < self.active.len() && self.active[i].seq < seq
            invariant
                i <= self.active@.len(),
                forall|j: int| 0 <= j < i ==> (#[trigger] self.active@[j]).seq < seq,
            decreases self.active@.len() - i,
        {
            i += 1;
        }
        i
    }

    /// Register a new pin at `seq`, taken at `now` where the host has a
    /// clock. The time of the first pin at a number stays while the number
    /// is pinned. Must be balanced by a later release.
    pub fn register(&mut self, seq: u64, now: Option<u64>)
        requires
            old(self).wf(),
            old(self).live() < u64::MAX,
        ensures
            final(self).wf(),
            final(self).pins() == pinned(old(self).pins(), seq, now),
            final(self).live() == old(self).live() + 1,
            final(self).waiters() == old(self).waiters(),
            final(self).wakes() == old(self).wakes(),
    {
        let at: usize = self.position(seq);
        let ghost before = *self;
        if at < self.active.len() && self.active[at].seq == seq {
            proof {
                lemma_count_update(self.active@, at as int, self.active@[at as int]);
            }
            let held = Slot {
                seq,
                refcount: self.active[at].refcount + 1,
                registered_at_unix: self.active[at].registered_at_unix,
            };
            self.active.set(at, held);
            proof {
                lemma_count_update(before.active@, at as int, held);
                Self::lemma_set(before, *self, at as int, held);
            }
        } else {
            let fresh = Slot { seq, refcount: 1, registered_at_unix: now };
            self.active.insert(at, fresh);
            proof {
                lemma_count_insert(before.active@, at as int, fresh);
                Self::lemma_inserted(before, *self, at as int, fresh);
            }
        }
    }

    /// What replacing a slot's count does to the pins.
    proof fn lemma_set(before: Self, after: Self, at: int, held: Slot)
        requires
            before.wf(),
            0 <= at < before.active@.len(),
            held.seq == before.active@[at].seq,
            held.refcount > 0,
            held.registered_at_unix == before.active@[at].registered_at_unix,
            after.active@ == before.active@.update(at, held),
            count_of(after.active@) <= u64::MAX,
        ensures
            after.wf(),
            before.pins().dom().contains(held.seq),
            before.pins()[held.seq] == (Pin {
                refcount: before.active@[at].refcount as nat,
                registered_at_unix: held.registered_at_unix,
            }),
            after.pins() == before.pins().insert(
                held.seq,
                Pin {
                    refcount: held.refcount as nat,
                    registered_at_unix: held.registered_at_unix,
                },
            ),
    {
        let s = before.active@;
        let r = after.active@;
        before.lemma_slot(at);
        after.lemma_slot(at);
        after.lemma_same_but(before, held.seq, |i: int| i, |j: int| j);
        assert(after.pins() =~= before.pins().insert(held.seq, after.pins()[held.seq]));
    }

    /// A new slot in its place leaves the slots in order.
    proof fn lemma_inserted_wf(before: Self, after: Self, at: int, fresh: Slot)
        requires
            before.wf(),
            0 <= at <= before.active@.len(),
            forall|i: int| 0 <= i < at ==> (#[trigger] before.active@[i]).seq < fresh.seq,
            at < before.active@.len() ==> before.active@[at].seq > fresh.seq,
            fresh.refcount > 0,
            after.active@ == before.active@.insert(at, fresh),
            count_of(after.active@) <= u64::MAX,
        ensures
            after.wf(),
            forall|i: int| at <= i < before.active@.len() ==> (#[trigger] before.active@[i]).seq
                > fresh.seq,
    {
        let s = before.active@;
        let r = after.active@;
        let seq = fresh.seq;
        assert forall|i: int| at <= i < s.len() implies (#[trigger] s[i]).seq > seq by {
            if i > at {
                assert(s[at].seq < s[i].seq);
            }
        }
        assert forall|i: int, j: int| 0 <= i < j < r.len() implies (#[trigger] r[i]).seq < (
        #[trigger] r[j]).seq by {
            if i < at && j < at {
                assert(r[i] == s[i] && r[j] == s[j]);
            } else if i < at && j > at {
                assert(r[i] == s[i] && r[j] == s[j - 1]);
            } else if i < at {
                assert(r[i] == s[i]);
            } else if i == at {
                assert(r[j] == s[j - 1]);
            } else {
                assert(r[i] == s[i - 1] && r[j] == s[j - 1]);
            }
        }
        assert forall|i: int| 0 <= i < r.len() implies (#[trigger] r[i]).refcount > 0 by {
            if i < at {
                assert(r[i] == s[i]);
            } else if i > at {
                assert(r[i] == s[i - 1]);
            }
        }
    }

    /// What a new slot does to the pins.
    proof fn lemma_inserted(before: Self, after: Self, at: int, fresh: Slot)
        requires
            before.wf(),
            0 <= at <= before.active@.len(),
            forall|i: int| 0 <= i < at ==> (#[trigger] before.active@[i]).seq < fresh.seq,
            at < before.active@.len() ==> before.active@[at].seq > fresh.seq,
            fresh.refcount > 0,
            after.active@ == before.active@.insert(at, fresh),
            count_of(after.active@) <= u64::MAX,
        ensures
            after.wf(),
            !before.pins().dom().contains(fresh.seq),
            after.pins() == before.pins().insert(
                fresh.seq,
                Pin {
                    refcount: fresh.refcount as nat,
                    registered_at_unix: fresh.registered_at_unix,
                },
            ),
    {
        let s = before.active@;
        let r = after.active@;
        let seq = fresh.seq;
        Self::lemma_inserted_wf(before, after, at, fresh);
        assert(!before.pins().dom().contains(seq)) by {
            if before.pins().dom().contains(seq) {
                let i = before.lemma_pinned(seq);
                assert(s[i].seq == seq);
            }
        }
        after.lemma_same_but(
            before,
            seq,
            |i: int|
                if i < at {
                    i
                } else {
                    i + 1
                },
            |j: int|
                if j < at {
                    j
                } else {
                    j - 1
                },
        );
        after.lemma_slot(at);
        assert(after.pins() =~= before.pins().insert(seq, after.pins()[seq]));
    }

    /// What removing a slot does to the pins.
    proof fn lemma_removed(before: Self, after: Self, at: int)
        requires
            before.wf(),
            0 <= at < before.active@.len(),
            after.active@ == before.active@.remove(at),
            count_of(after.active@) <= u64::MAX,
        ensures
            after.wf(),
            before.pins().dom().contains(before.active@[at].seq),
            after.pins() == before.pins().remove(before.active@[at].seq),
    {
        let s = before.active@;
        let r = after.active@;
        let seq = s[at].seq;
        before.lemma_slot(at);
        assert forall|i: int, j: int| 0 <= i < j < r.len() implies (#[trigger] r[i]).seq < (
        #[trigger] r[j]).seq by {
            let x = if i < at {
                i
            } else {
                i + 1
            };
            let y = if j < at {
                j
            } else {
                j + 1
            };
            assert(r[i] == s[x] && r[j] == s[y]);
        }
        assert forall|i: int| 0 <= i < r.len() implies (#[trigger] r[i]).refcount > 0
            && r[i].seq != seq by {
            let x = if i < at {
                i
            } else {
                i + 1
            };
            assert(r[i] == s[x]);
            if x < at {
                assert(s[x].seq < s[at].seq);
            } else {
                assert(s[at].seq < s[x].seq);
            }
        }
        after.lemma_same_but(
            before,
            seq,
            |i: int|
                if i < at {
                    i
                } else {
                    i - 1
                },
            |j: int|
                if j < at {
                    j
                } else {
                    j + 1
                },
        );
        assert(!after.pins().dom().contains(seq)) by {
            if after.pins().dom().contains(seq) {
                let j = after.lemma_pinned(seq);
                assert(r[j].seq != seq);
            }
        }
        assert(after.pins() =~= before.pins().remove(seq));
    }

    /// Slots of other numbers than `seq` show as they did: `down` and `up`
    /// say where each went and came from.
    proof fn lemma_same_but(
        self,
        before: Self,
        seq: u64,
        down: spec_fn(int) -> int,
        up: spec_fn(int) -> int,
    )
        requires
            self.wf(),
            before.wf(),
            forall|i: int|
                0 <= i < before.active@.len() && before.active@[i].seq != seq ==> 0
                    <= #[trigger] down(i) < self.active@.len() && self.active@[down(i)]
                    == before.active@[i],
            forall|j: int|
                0 <= j < self.active@.len() && self.active@[j].seq != seq ==> 0 <= #[trigger] up(j)
                    < before.active@.len() && before.active@[up(j)] == self.active@[j],
        ensures
            forall|other: u64|
                other != seq ==> (self.pins().dom().contains(other)
                    <==> before.pins().dom().contains(other)),
            forall|other: u64|
                other != seq && before.pins().dom().contains(other) ==> self.pins()[other]
                    == before.pins()[other],
    {
        assert forall|other: u64| other != seq implies (self.pins().dom().contains(other)
            <==> before.pins().dom().contains(other)) by {
            if self.pins().dom().contains(other) {
                let j = self.lemma_pinned(other);
                before.lemma_slot(up(j));
            }
            if before.pins().dom().contains(other) {
                let i = before.lemma_pinned(other);
                self.lemma_slot(down(i));
            }
        }
        assert forall|other: u64|
            other != seq && before.pins().dom().contains(other) implies self.pins()[other]
            == before.pins()[other] by {
            let i = before.lemma_pinned(other);
            before.lemma_slot(i);
            self.lemma_slot(down(i));
        }
    }

    /// Register a pin at the read horizon `horizon` and return the number
    /// pinned. Sampling the horizon and pinning it are one step: nothing
    /// can be dropped between the two.
    pub fn register_at(&mut self, horizon: u64, now: Option<u64>) -> (r: u64)
        requires
            old(self).wf(),
            old(self).live() < u64::MAX,
        ensures
            r == horizon,
            final(self).wf(),
            final(self).pins() == pinned(old(self).pins(), horizon, now),
            final(self).live() == old(self).live() + 1,
            final(self).waiters() == old(self).waiters(),
            final(self).wakes() == old(self).wakes(),
    {
        self.register(horizon, now);
        horizon
    }

    /// Release one pin at `seq`. Nothing happens if none is registered
    /// there. Where the last pin of all is gone and somebody waits for
    /// that, they are woken.
    pub fn release(&mut self, seq: u64)
        requires
            old(self).wf(),
            old(self).wakes() < u64::MAX,
        ensures
            final(self).wf(),
            final(self).pins() == unpinned(old(self).pins(), seq),
            final(self).live() == (if old(self).pins().dom().contains(seq) {
                (old(self).live() - 1) as nat
            } else {
                old(self).live()
            }),
            final(self).waiters() == old(self).waiters(),
            final(self).wakes() == old(self).wakes() + (if final(self).live() == 0
                && old(self).waiters() > 0 {
                1nat
            } else {
                0nat
            }),
    {
        let at: usize = self.position(seq);
        let ghost before = *self;
        if at < self.active.len() && self.active[at].seq == seq {
            proof {
                lemma_count_update(before.active@, at as int, before.active@[at as int]);
                lemma_count_remove(before.active@, at as int);
                before.lemma_slot(at as int);
            }
            let left: u64 = self.active[at].refcount - 1;
            if left == 0 {
                self.active.remove(at);
                proof {
                    Self::lemma_removed(before, *self, at as int);
                }
            } else {
                let held = Slot {
                    seq,
                    refcount: left,
                    registered_at_unix: self.active[at].registered_at_unix,
                };
                self.active.set(at, held);
                proof {
                    lemma_count_update(before.active@, at as int, held);
                    Self::lemma_set(before, *self, at as int, held);
                }
            }
        } else {
            proof {
                if before.pins().dom().contains(seq) {
                    let i = before.lemma_pinned(seq);
                    if i > at {
                        assert(before.active@[at as int].seq < before.active@[i].seq);
                    }
                }
            }
        }
        proof {
            if self.active@.len() > 0 {
                lemma_count_positive(self.active@);
            }
        }
        let ghost settled = *self;
        if self.active.len() == 0 && self.waiters > 0 {
            self.wakes = self.wakes + 1;
            assert(self.pins() =~= settled.pins());
        }
    }

    /// A caller starts waiting for the last pin to go.
    pub fn begin_wait(&mut self)
        requires
            old(self).wf(),
            old(self).waiters() < usize::MAX,
        ensures
            final(self).wf(),
            final(self).pins() == old(self).pins(),
            final(self).live() == old(self).live(),
            final(self).waiters() == old(self).waiters() + 1,
            final(self).wakes() == old(self).wakes(),
    {
        self.waiters = self.waiters + 1;
        assert(self.pins() =~= old(self).pins());
    }

    /// Whether a waiting caller is done: nothing is pinned any more, or its
    /// time is up.
    pub fn wait_over(&self, time_is_up: bool) -> (r: bool)
        requires
            self.wf(),
        ensures
            r == (self.live() == 0 || time_is_up),
    {
        proof {
            if self.active@.len() > 0 {
                lemma_count_positive(self.active@);
            }
        }
        self.active.len() == 0 || time_is_up
    }

    /// A waiting caller leaves, and learns how many pins are still live:
    /// zero means the wait succeeded.
    pub fn end_wait(&mut self) -> (r: u64)
        requires
            old(self).wf(),
            old(self).waiters() > 0,
        ensures
            final(self).wf(),
            r == old(self).live(),
            final(self).pins() == old(self).pins(),
            final(self).live() == old(self).live(),
            final(self).waiters() == old(self).waiters() - 1,
            final(self).wakes() == old(self).wakes(),
    {
        self.waiters = self.waiters - 1;
        assert(self.pins() =~= old(self).pins());
        self.live_count()
    }

    /// The smallest pinned sequence number, or `u64::MAX` if nothing is
    /// pinned.
    pub closed spec fn oldest(self) -> u64 {
        if self.active@.len() == 0 {
            u64::MAX
        } else {
            self.active@[0].seq
        }
    }

    /// No pinned sequence number is below the oldest.
    pub proof fn lemma_oldest(self)
        requires
            self.wf(),
        ensures
            self.live() == 0 ==> self.oldest() == u64::MAX,
            self.live() > 0 ==> self.pins().dom().contains(self.oldest()),
            forall|seq: u64| #[trigger] self.pins().dom().contains(seq) ==> self.oldest() <= seq,
    {
        if self.active@.len() > 0 {
            self.lemma_slot(0);
            assert forall|seq: u64| #[trigger] self.pins().dom().contains(seq) implies self.oldest()
                <= seq by {
                let i = self.lemma_pinned(seq);
                if i > 0 {
                    assert(self.active@[0].seq < self.active@[i].seq);
                }
            }
            lemma_count_positive(self.active@);
        }
    }

    /// The smallest pinned sequence number, or `u64::MAX` if nothing is
    /// pinned.
    pub fn oldest_live_seq(&self) -> (r: u64)
        requires
            self.wf(),
        ensures
            r == self.oldest(),
            self.live() == 0 ==> r == u64::MAX,
            self.live() > 0 ==> self.pins().dom().contains(r),
            forall|seq: u64| #[trigger] self.pins().dom().contains(seq) ==> r <= seq,
    {
        proof {
            self.lemma_oldest();
        }
        if self.active.len() == 0 {
            u64::MAX
        } else {
            self.active[0].seq
        }
    }

    /// How many snapshots are live. Counts pins: two snapshots taken at the
    /// same number contribute two.
    pub fn live_count(&self) -> (r: u64)
        requires
            self.wf(),
        ensures
            r == self.live(),
    {
        let mut total: u64 = 0;
        let mut i: usize = 0;
        assert(self.active@.take(0) =~= Seq::<Slot>::empty());
        while i < self.active.len()
            invariant
                self.wf(),
                i <= self.active@.len(),
                total == count_of(self.active@.take(i as int)),
            decreases self.active@.len() - i,
        {
            proof {
                let more = self.active@.take(i + 1);
                assert(more.drop_last() =~= self.active@.take(i as int));
                lemma_count_prefix(self.active@, i + 1);
            }
            total = total + self.active[i].refcount;
            i += 1;
        }
        assert(self.active@.take(i as int) =~= self.active@);
        total
    }

    /// When the oldest live snapshot was taken, in seconds since the epoch.
    /// `None` when nothing is pinned, and where the host has no clock.
    pub fn oldest_snapshot_time_unix(&self) -> (r: Option<u64>)
        requires
            self.wf(),
        ensures
            self.live() == 0 ==> r is None,
            self.live() > 0 ==> exists|oldest: u64|
                #[trigger] self.pins().dom().contains(oldest) && (forall|seq: u64| #[trigger]
                    self.pins().dom().contains(seq) ==> oldest <= seq) && r
                    == self.pins()[oldest].registered_at_unix,
    {
        if self.active.len() == 0 {
            None
        } else {
            proof {
                let oldest = self.active@[0].seq;
                self.lemma_slot(0);
                assert forall|seq: u64| #[trigger] self.pins().dom().contains(seq) implies oldest
                    <= seq by {
                    let i = self.lemma_pinned(seq);
                    if i > 0 {
                        assert(self.active@[0].seq < self.active@[i].seq);
                    }
                }
                lemma_count_positive(self.active@);
                assert(self.pins().dom().contains(oldest));
            }
            self.active[0].registered_at_unix
        }
    }

    /// How many distinct numbers are pinned.
    pub fn pin_count(&self) -> (r: usize)
        requires
            self.wf(),
        ensures
            r == self.pins().dom().len(),
            self.pins().dom().finite(),
    {
        proof {
            self.lemma_distinct(self.active@.len() as int);
            assert(self.pins().dom() =~= self.seqs_before(self.active@.len() as int));
        }
        self.active.len()
    }

    spec fn seqs_before(self, n: int) -> Set<u64> {
        Set::new(
            |seq: u64| exists|i: int| 0 <= i < n && (#[trigger] self.active@[i]).seq == seq,
        )
    }

    proof fn lemma_distinct(self, n: int)
        requires
            self.wf(),
            0 <= n <= self.active@.len(),
        ensures
            self.seqs_before(n).finite(),
            self.seqs_before(n).len() == n,
        decreases n,
    {
        if n == 0 {
            assert(self.seqs_before(0) =~= Set::<u64>::empty());
        } else {
            self.lemma_distinct(n - 1);
            let last = self.active@[n - 1].seq;
            assert(!self.seqs_before(n - 1).contains(last)) by {
                if self.seqs_before(n - 1).contains(last) {
                    let i = choose|i: int|
                        0 <= i < n - 1 && (#[trigger] self.active@[i]).seq == last;
                    assert(self.active@[i].seq < self.active@[n - 1].seq);
                }
            }
            assert(self.seqs_before(n) =~= self.seqs_before(n - 1).insert(last)) by {
                assert forall|seq: u64| self.seqs_before(n).contains(seq) implies self.seqs_before(
                    n - 1,
                ).insert(last).contains(seq) by {
                    let i = choose|i: int| 0 <= i < n && (#[trigger] self.active@[i]).seq == seq;
                    if i < n - 1 {
                        assert(self.active@[i].seq == seq);
                    }
                }
            }
        }
    }

    /// How many callers are waiting for the last pin to go.
    pub fn waiting(&self) -> (r: usize)
        ensures
            r == self.waiters(),
    {
        self.waiters
    }

    /// How many times waiting callers were woken.
    pub fn wakes_issued(&self) -> (r: u64)
        ensures
            r == self.wakes(),
    {
        self.wakes
    }
}

proof fn lemma_count_prefix(s: Seq<Slot>, n: int)
    requires
        0 <= n <= s.len(),
    ensures
        count_of(s.take(n)) <= count_of(s),
    decreases s.len() - n,
{
    if n < s.len() {
        lemma_count_prefix(s, n + 1);
        assert(s.take(n + 1).drop_last() =~= s.take(n));
    } else {
        assert(s.take(n) =~= s);
    }
}

/// The pin counts of all the numbers, added up.
pub open spec fn pin_total(pins: Map<u64, Pin>) -> nat
    decreases pins.dom().len(),
    when pins.dom().finite()
{
    if pins.dom().len() == 0 {
        0
    } else {
        let seq = pins.dom().choose();
        pins[seq].refcount + pin_total(pins.remove(seq))
    }
}

/// Any number's count can be added last.
pub proof fn lemma_pin_total(pins: Map<u64, Pin>, seq: u64)
    requires
        pins.dom().finite(),
        pins.dom().contains(seq),
    ensures
        pin_total(pins) == pins[seq].refcount + pin_total(pins.remove(seq)),
    decreases pins.dom().len(),
{
    let first = pins.dom().choose();
    assert(pins.dom().contains(first));
    assert(pins.remove(first).dom() =~= pins.dom().remove(first));
    assert(pins.remove(seq).dom() =~= pins.dom().remove(seq));
    if first != seq {
        lemma_pin_total(pins.remove(first), seq);
        lemma_pin_total(pins.remove(seq), first);
        assert(pins.remove(first).remove(seq) =~= pins.remove(seq).remove(first));
    }
}

/// The pins that slots stand for.
spec fn pins_of(s: Seq<Slot>) -> Map<u64, Pin>
    decreases s.len(),
{
    if s.len() == 0 {
        Map::empty()
    } else {
        pins_of(s.drop_last()).insert(
            s.last().seq,
            Pin {
                refcount: s.last().refcount as nat,
                registered_at_unix: s.last().registered_at_unix,
            },
        )
    }
}

proof fn lemma_pins_of(s: Seq<Slot>)
    requires
        forall|i: int, j: int|
            0 <= i < j < s.len() ==> (#[trigger] s[i]).seq < (#[trigger] s[j]).seq,
    ensures
        pins_of(s).dom().finite(),
        pin_total(pins_of(s)) == count_of(s),
        forall|seq: u64| #[trigger]
            pins_of(s).dom().contains(seq) ==> exists|i: int|
                0 <= i < s.len() && (#[trigger] s[i]).seq == seq,
        forall|i: int|
            0 <= i < s.len() ==> pins_of(s).dom().contains((#[trigger] s[i]).seq) && pins_of(
                s,
            )[s[i].seq] == (Pin {
                refcount: s[i].refcount as nat,
                registered_at_unix: s[i].registered_at_unix,
            }),
    decreases s.len(),
{
    if s.len() > 0 {
        let rest = s.drop_last();
        let n = s.len() - 1;
        assert forall|i: int, j: int| 0 <= i < j < rest.len() implies (#[trigger] rest[i]).seq < (
        #[trigger] rest[j]).seq by {
            assert(rest[i] == s[i] && rest[j] == s[j]);
        }
        lemma_pins_of(rest);
        let seq = s.last().seq;
        if pins_of(rest).dom().contains(seq) {
            let i = choose|i: int| 0 <= i < rest.len() && (#[trigger] rest[i]).seq == seq;
            assert(s[i].seq < s[n].seq);
        }
        lemma_pin_total(pins_of(s), seq);
        assert(pins_of(s).remove(seq) =~= pins_of(rest));
        assert forall|other: u64| #[trigger] pins_of(s).dom().contains(other) implies exists|i: int|
            0 <= i < s.len() && (#[trigger] s[i]).seq == other by {
            if other == seq {
                assert(s[n].seq == other);
            } else {
                let i = choose|i: int| 0 <= i < rest.len() && (#[trigger] rest[i]).seq == other;
                assert(s[i].seq == other);
            }
        }
        assert forall|i: int| 0 <= i < s.len() implies pins_of(s).dom().contains(
            (#[trigger] s[i]).seq,
        ) && pins_of(s)[s[i].seq] == (Pin {
            refcount: s[i].refcount as nat,
            registered_at_unix: s[i].registered_at_unix,
        }) by {
            if i < n {
                assert(rest[i] == s[i]);
                assert(s[i].seq < s[n].seq);
            }
        }
    } else {
        assert(pins_of(s).dom() =~= Set::<u64>::empty());
    }
}

impl SnapshotRegistry {
    /// The number of live snapshots is the sum of the pin counts over all
    /// sequence numbers.
    pub proof fn lemma_live_total(self)
        requires
            self.wf(),
        ensures
            self.pins().dom().finite(),
            self.live() == pin_total(self.pins()),
    {
        let s = self.active@;
        lemma_pins_of(s);
        assert forall|seq: u64| #[trigger] self.pins().dom().contains(seq)
            <==> pins_of(s).dom().contains(seq) by {
            if pins_of(s).dom().contains(seq) {
                let i = choose|i: int| 0 <= i < s.len() && (#[trigger] s[i]).seq == seq;
                self.lemma_slot(i);
            }
            if self.pins().dom().contains(seq) {
                let i = self.lemma_pinned(seq);
                assert(pins_of(s).dom().contains(s[i].seq));
            }
        }
        assert forall|seq: u64| #[trigger] self.pins().dom().contains(seq) implies self.pins()[seq]
            == pins_of(s)[seq] by {
            let i = self.lemma_pinned(seq);
            self.lemma_slot(i);
        }
        assert(self.pins() =~= pins_of(s));
    }
}

/// A pin taken and given back leaves the registry as it was.
pub proof fn lemma_register_release(before: Map<u64, Pin>, seq: u64, now: Option<u64>)
    requires
        before.dom().contains(seq) ==> before[seq].refcount > 0,
    ensures
        unpinned(pinned(before, seq, now), seq) == before,
{
    let during = pinned(before, seq, now);
    if before.dom().contains(seq) {
        assert(during.insert(seq, before[seq]) =~= before);
    } else {
        assert(during.remove(seq) =~= before);
    }
}

/// Something done with the registry.
pub ghost enum PinAct {
    Register(u64, Option<u64>),
    Release(u64),
}

/// What an act leaves of the pins.
pub open spec fn acted(pins: Map<u64, Pin>, act: PinAct) -> Map<u64, Pin> {
    match act {
        PinAct::Register(seq, now) => pinned(pins, seq, now),
        PinAct::Release(seq) => unpinned(pins, seq),
    }
}

/// What a run of acts leaves of a registry that held nothing.
pub open spec fn pins_after(acts: Seq<PinAct>) -> Map<u64, Pin>
    decreases acts.len(),
{
    if acts.len() == 0 {
        Map::empty()
    } else {
        acted(pins_after(acts.drop_last()), acts.last())
    }
}

/// How many of the pins taken at `seq` were not given back. A release where
/// nothing is pinned gives nothing back.
pub open spec fn balance(acts: Seq<PinAct>, seq: u64) -> nat
    decreases acts.len(),
{
    if acts.len() == 0 {
        0
    } else {
        let before = balance(acts.drop_last(), seq);
        match acts.last() {
            PinAct::Register(at, _) if at == seq => before + 1,
            PinAct::Release(at) if at == seq && before > 0 => (before - 1) as nat,
            _ => before,
        }
    }
}

/// A registry holds of each number the pins that were taken and not given
/// back, and a number all of whose pins were given back is not in it.
pub proof fn law_pins_balance(acts: Seq<PinAct>, seq: u64)
    ensures
        held(pins_after(acts), seq) == balance(acts, seq),
        pins_after(acts).dom().contains(seq) <==> balance(acts, seq) > 0,
    decreases acts.len(),
{
    if acts.len() > 0 {
        law_pins_balance(acts.drop_last(), seq);
    }
}

/// The oldest live sequence number is the least one of which more pins were
/// taken than given back, and `u64::MAX` where there is none.
pub proof fn law_oldest_is_least_held(registry: SnapshotRegistry, acts: Seq<PinAct>)
    requires
        registry.wf(),
        registry.pins() == pins_after(acts),
    ensures
        forall|seq: u64| #[trigger] balance(acts, seq) > 0 ==> registry.oldest() <= seq,
        registry.live() > 0 ==> balance(acts, registry.oldest()) > 0,
        registry.live() == 0 ==> registry.oldest() == u64::MAX,
        registry.live() == 0 <==> forall|seq: u64| #[trigger] balance(acts, seq) == 0,
{
    registry.lemma_oldest();
    registry.lemma_drained();
    assert forall|seq: u64| #[trigger] balance(acts, seq) > 0 implies registry.oldest() <= seq
        && registry.live() > 0 by {
        law_pins_balance(acts, seq);
        assert(registry.pins().dom().contains(seq));
    }
    law_pins_balance(acts, registry.oldest());
}

/// Giving a pin back takes one from the count of its number, where there is
/// one to take, and leaves every other number's count. The live count is the
/// sum of the counts, and the oldest live number the least one whose count is
/// not zero, `u64::MAX` where all are. A pin taken and given back leaves all
/// of that as it was.
pub proof fn law_release(before: SnapshotRegistry, after: SnapshotRegistry, seq: u64)
    requires
        before.wf(),
        after.wf(),
        after.pins() == unpinned(before.pins(), seq),
    ensures
        held(after.pins(), seq) == (if held(before.pins(), seq) > 0 {
            (held(before.pins(), seq) - 1) as nat
        } else {
            0
        }),
        forall|other: u64|
            other != seq ==> #[trigger] held(after.pins(), other) == held(before.pins(), other),
        after.pins().dom().finite() && after.live() == pin_total(after.pins()),
        forall|other: u64| #[trigger]
            held(after.pins(), other) > 0 ==> after.oldest() <= other && after.live() > 0,
        after.live() > 0 ==> held(after.pins(), after.oldest()) > 0,
        after.live() == 0 ==> after.oldest() == u64::MAX,
        forall|now: Option<u64>| #[trigger]
            unpinned(pinned(before.pins(), seq, now), seq) == before.pins(),
{
    before.lemma_held();
    after.lemma_held();
    after.lemma_live_total();
    after.lemma_oldest();
    after.lemma_drained();
    assert(before.pins().dom().contains(seq) <==> held(before.pins(), seq) > 0);
    assert forall|other: u64| #[trigger] held(after.pins(), other) > 0 implies after.oldest()
        <= other && after.live() > 0 by {
        assert(after.pins().dom().contains(other));
    }
    assert forall|now: Option<u64>| #[trigger]
        unpinned(pinned(before.pins(), seq, now), seq) == before.pins() by {
        lemma_register_release(before.pins(), seq, now);
    }
}

} // verus!
