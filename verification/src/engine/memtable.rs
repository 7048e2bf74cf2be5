//! The memtable: recent writes in key order, every version kept.

use vstd::prelude::*;

use crate::bytes;
use crate::bytes::{
    bytes_le, bytes_lt, lemma_bytes_le_lt, lemma_bytes_lt_asymmetric, lemma_bytes_lt_irreflexive, lemma_bytes_lt_total,
    lemma_bytes_lt_transitive, views,
};
use crate::engine::internal_key::{
    encode_internal_key, internal_key_of, key_lt, lemma_internal_key_decodes,
    lemma_internal_key_order, sequence_of, user_key, user_part, INTERNAL_KEY_SUFFIX_LEN,
    VALUE_TYPE_DELETION, VALUE_TYPE_MERGE, VALUE_TYPE_VALUE,
};
use crate::engine::skiplist::{lemma_rank_parts, parts_at, rank, ArenaSkipList, Entry, NodeRef};
use crate::engine::wal::{logged, WalEntry};
use crate::history::{
    covers, effect, lemma_probe_at, lemma_probe_lower, lemma_untouched, ordered, probe, within,
    Effect, End, Logged, Op, Probe,
};

verus! {

/// A range deletion held by the memtable.
pub struct Tombstone {
    pub start: Vec<u8>,
    pub end: Vec<u8>,
    pub seq: u64,
}

impl View for Tombstone {
    type V = Logged;

    open spec fn view(&self) -> Logged {
        Logged { seq: self.seq, op: Op::DeleteRange { start: self.start@, end: self.end@ } }
    }
}

/// What a table holds of one key.
pub enum FoundEnd {
    /// Nothing that settles it.
    Open,
    /// A deletion.
    Gone,
    /// A value.
    Value(Vec<u8>),
}

/// What a table holds of one key: its operands, oldest first, and what they
/// are layered on.
pub struct Found {
    pub operands: Vec<Vec<u8>>,
    pub end: FoundEnd,
}

impl View for Found {
    type V = Probe;

    open spec fn view(&self) -> Probe {
        Probe {
            operands: views(self.operands@),
            end: match self.end {
                FoundEnd::Open => End::Open,
                FoundEnd::Gone => End::Gone,
                FoundEnd::Value(value) => End::Value(value@),
            },
        }
    }
}

/// The key of a point operation.
pub open spec fn point_key(op: Op) -> Option<Seq<u8>> {
    match op {
        Op::Put { key, .. } => Some(key),
        Op::Delete { key } => Some(key),
        Op::Merge { key, .. } => Some(key),
        Op::DeleteRange { .. } => None,
    }
}

/// The value type a point operation is stored under.
pub open spec fn point_type(op: Op) -> u8 {
    match op {
        Op::Put { .. } => VALUE_TYPE_VALUE,
        Op::Merge { .. } => VALUE_TYPE_MERGE,
        _ => VALUE_TYPE_DELETION,
    }
}

/// The value bytes a point operation is stored with.
pub open spec fn point_value(op: Op) -> Seq<u8> {
    match op {
        Op::Put { value, .. } => value,
        Op::Merge { operand, .. } => operand,
        _ => Seq::empty(),
    }
}

/// Whether a list entry is the stored form of a logged point operation.
pub open spec fn stands_for(entry: Entry, l: Logged) -> bool {
    &&& point_key(l.op) is Some
    &&& entry.key == internal_key_of(point_key(l.op)->0, l.seq, point_type(l.op))
    &&& entry.value == point_value(l.op)
}

/// Whether the operation's key and value can be stored.
pub open spec fn storable(op: Op) -> bool {
    match point_key(op) {
        Some(key) => {
            &&& key.len() + INTERNAL_KEY_SUFFIX_LEN <= u32::MAX
            &&& point_value(op).len() <= u32::MAX
        },
        None => true,
    }
}

/// The memtable.
pub struct MemTable {
    points: ArenaSkipList,
    tombs: Vec<Tombstone>,
    // Of each write, in order, whether it was a point write.
    kinds: Vec<bool>,
    // Bytes the writes hold.
    bytes: u64,
    history: Ghost<Seq<Logged>>,
}

/// The stored forms of the point writes of a history, in order.
pub open spec fn records_of(h: Seq<Logged>) -> Seq<(Seq<u8>, Seq<u8>)>
    decreases h.len(),
{
    if h.len() == 0 {
        Seq::empty()
    } else {
        let rest = records_of(h.drop_last());
        match point_key(h.last().op) {
            Some(key) => rest.push(
                (
                    internal_key_of(key, h.last().seq, point_type(h.last().op)),
                    point_value(h.last().op),
                ),
            ),
            None => rest,
        }
    }
}

/// The range deletions of a history, in order.
pub open spec fn ranges_of(h: Seq<Logged>) -> Seq<Logged>
    decreases h.len(),
{
    if h.len() == 0 {
        Seq::empty()
    } else if h.last().op is DeleteRange {
        ranges_of(h.drop_last()).push(h.last())
    } else {
        ranges_of(h.drop_last())
    }
}

/// Bytes a write takes in the table: a point write's internal key and
/// value, a range deletion's bounds.
pub open spec fn weight(op: Op) -> nat {
    match op {
        Op::DeleteRange { start, end } => start.len() + end.len(),
        _ => point_key(op)->0.len() + INTERNAL_KEY_SUFFIX_LEN as nat + point_value(op).len(),
    }
}

/// Bytes a history takes in the table.
pub open spec fn weight_of(h: Seq<Logged>) -> nat
    decreases h.len(),
{
    if h.len() == 0 {
        0
    } else {
        weight_of(h.drop_last()) + weight(h.last().op)
    }
}

/// A size, or the largest one that can be told.
pub open spec fn at_most_u64(n: nat) -> nat {
    if n <= u64::MAX {
        n
    } else {
        u64::MAX as nat
    }
}

/// How many entries, and how many bytes in them.
pub ghost struct Tally {
    pub count: nat,
    pub size: nat,
}

/// Count the point writes of a history on keys in `[lo, hi)`: every version,
/// deletions too.
pub open spec fn tally(h: Seq<Logged>, lo: Seq<u8>, hi: Seq<u8>) -> Tally
    decreases h.len(),
{
    if h.len() == 0 {
        Tally { count: 0, size: 0 }
    } else {
        let rest = tally(h.drop_last(), lo, hi);
        match point_key(h.last().op) {
            Some(key) if covers(lo, hi, key) => Tally {
                count: rest.count + 1,
                size: rest.size + weight(h.last().op),
            },
            _ => rest,
        }
    }
}

/// The same count over list entries.
spec fn tally_entries(s: Seq<Entry>, lo: Seq<u8>, hi: Seq<u8>) -> Tally
    decreases s.len(),
{
    if s.len() == 0 {
        Tally { count: 0, size: 0 }
    } else {
        let rest = tally_entries(s.drop_last(), lo, hi);
        let e = s.last();
        if covers(lo, hi, user_part(e.key)) {
            Tally { count: rest.count + 1, size: rest.size + e.key.len() + e.value.len() }
        } else {
            rest
        }
    }
}

proof fn lemma_tally_insert(s: Seq<Entry>, at: int, e: Entry, lo: Seq<u8>, hi: Seq<u8>)
    requires
        0 <= at <= s.len(),
    ensures
        tally_entries(s.insert(at, e), lo, hi) == (if covers(lo, hi, user_part(e.key)) {
            Tally {
                count: tally_entries(s, lo, hi).count + 1,
                size: tally_entries(s, lo, hi).size + e.key.len() + e.value.len(),
            }
        } else {
            tally_entries(s, lo, hi)
        }),
    decreases s.len(),
{
    let t = s.insert(at, e);
    if at == s.len() {
        assert(t.drop_last() =~= s);
        assert(t.last() == e);
    } else {
        assert(t.drop_last() =~= s.drop_last().insert(at, e));
        assert(t.last() == s.last());
        lemma_tally_insert(s.drop_last(), at, e, lo, hi);
    }
}

/// The views of a run of tombstones.
pub open spec fn tomb_views(v: Seq<Tombstone>) -> Seq<Logged> {
    Seq::new(v.len(), |i: int| v[i]@)
}

/// Strictly ascending keys.
pub open spec fn ascending(keys: Seq<Seq<u8>>) -> bool {
    forall|i: int, j: int|
        0 <= i < j < keys.len() ==> bytes_lt(#[trigger] keys[i], #[trigger] keys[j])
}

/// Some write of the history is to `key` itself.
pub open spec fn names(h: Seq<Logged>, key: Seq<u8>) -> bool {
    exists|i: int| 0 <= i < h.len() && point_key((#[trigger] h[i]).op) == Some(key)
}

/// The key of the write, where it is a point write in `[lo, hi)`, is among
/// `keys`.
pub open spec fn names_within(l: Logged, lo: Seq<u8>, hi: Seq<u8>, keys: Seq<Seq<u8>>) -> bool {
    point_key(l.op) matches Some(key) ==> covers(lo, hi, key) ==> keys.contains(key)
}

impl MemTable {
    /// The writes the table holds, in the order they were made.
    pub closed spec fn history(self) -> Seq<Logged> {
        self.history@
    }

    spec fn entries(self) -> Seq<Entry> {
        self.points.entries()
    }

    /// The entry at `p` is some write of the history.
    spec fn sourced(self, p: int) -> bool {
        exists|i: int|
            0 <= i < self.history@.len() && #[trigger] stands_for(
                self.entries()[p],
                self.history@[i],
            )
    }

    /// Write `i` of the history, where it is a point write, has an entry.
    spec fn placed(self, i: int) -> bool {
        point_key(self.history@[i].op) is Some ==> exists|p: int|
            0 <= p < self.entries().len() && #[trigger] stands_for(
                self.entries()[p],
                self.history@[i],
            )
    }

    /// Write `i` of the history, where it is a range deletion, has a
    /// tombstone.
    spec fn buried(self, i: int) -> bool {
        self.history@[i].op is DeleteRange ==> exists|t: int|
            0 <= t < self.tombs@.len() && (#[trigger] self.tombs@[t])@ == self.history@[i]
    }

    spec fn dug(self, t: int) -> bool {
        exists|i: int|
            0 <= i < self.history@.len() && self.tombs@[t]@ == #[trigger] self.history@[i]
    }

    /// The table is whole: its list and its tombstones hold the writes of
    /// its history and nothing else.
    pub closed spec fn wf(self) -> bool {
        &&& self.points.wf()
        &&& ordered(self.history@)
        &&& forall|i: int, j: int|
            0 <= i < j < self.entries().len() ==> key_lt(
                (#[trigger] self.entries()[i]).key,
                (#[trigger] self.entries()[j]).key,
            )
        &&& forall|p: int| 0 <= p < self.entries().len() ==> #[trigger] self.sourced(p)
        &&& forall|i: int| 0 <= i < self.history@.len() ==> #[trigger] self.placed(i)
        &&& forall|i: int| 0 <= i < self.history@.len() ==> #[trigger] self.buried(i)
        &&& forall|t: int| 0 <= t < self.tombs@.len() ==> #[trigger] self.dug(t)
        &&& self.recorded()
    }

    /// The table can tell its writes back in order, and how much they
    /// weigh.
    spec fn recorded(self) -> bool {
        let h = self.history@;
        &&& self.kinds@.len() == h.len()
        &&& forall|i: int|
            0 <= i < h.len() ==> #[trigger] self.kinds@[i] == (point_key(h[i].op) is Some)
        &&& self.points.arrivals() == records_of(h)
        &&& tomb_views(self.tombs@) == ranges_of(h)
        &&& self.bytes == at_most_u64(weight_of(h))
        &&& forall|lo: Seq<u8>, hi: Seq<u8>| #[trigger]
            tally_entries(self.entries(), lo, hi) == tally(h, lo, hi)
    }

    /// The writes of a whole table have growing sequence numbers.
    pub proof fn lemma_ordered(self)
        requires
            self.wf(),
        ensures
            ordered(self.history()),
    {
    }

    /// The write behind the entry at `p`.
    proof fn source(self, p: int) -> (i: int)
        requires
            self.wf(),
            0 <= p < self.entries().len(),
        ensures
            0 <= i < self.history@.len(),
            stands_for(self.entries()[p], self.history@[i]),
    {
        assert(self.sourced(p));
        choose|i: int|
            0 <= i < self.history@.len() && #[trigger] stands_for(
                self.entries()[p],
                self.history@[i],
            )
    }

    /// The entry of write `i`.
    proof fn place(self, i: int) -> (p: int)
        requires
            self.wf(),
            0 <= i < self.history@.len(),
            point_key(self.history@[i].op) is Some,
        ensures
            0 <= p < self.entries().len(),
            stands_for(self.entries()[p], self.history@[i]),
    {
        assert(self.placed(i));
        choose|p: int|
            0 <= p < self.entries().len() && #[trigger] stands_for(
                self.entries()[p],
                self.history@[i],
            )
    }

    /// An empty table.
    pub fn new() -> (r: Self)
        ensures
            r.wf(),
            r.history() == Seq::<Logged>::empty(),
    {
        let r = MemTable {
            points: ArenaSkipList::new(),
            tombs: Vec::new(),
            kinds: Vec::new(),
            bytes: 0,
            history: Ghost(Seq::<Logged>::empty()),
        };
        assert(tomb_views(r.tombs@) =~= ranges_of(r.history@));
        r
    }

    /// A newer point entry slots in without disturbing what is there.
    proof fn lemma_insert(before: Self, after: Self, key: Seq<u8>, l: Logged)
        requires
            before.wf(),
            point_key(l.op) == Some(key),
            l.seq >= 1,
            within(before.history@, (l.seq - 1) as u64),
            after.points.wf(),
            after.tombs == before.tombs,
            after.history@ == before.history@.push(l),
            after.kinds@ == before.kinds@.push(true),
            after.bytes == at_most_u64((before.bytes + weight(l.op)) as nat),
            after.points.arrivals() == before.points.arrivals().push(
                (internal_key_of(key, l.seq, point_type(l.op)), point_value(l.op)),
            ),
            exists|e: Entry|
                stands_for(e, l) && #[trigger] after.points.entries()
                    == before.points.entries().insert(
                    rank(
                        before.points.entries(),
                        internal_key_of(key, l.seq, point_type(l.op)),
                    ) as int,
                    e,
                ),
        ensures
            after.wf(),
    {
        let ikey = internal_key_of(key, l.seq, point_type(l.op));
        let s = before.entries();
        let r = after.entries();
        let at = rank(s, ikey) as int;
        let e = choose|e: Entry| stands_for(e, l) && #[trigger] after.points.entries() == s.insert(at, e);
        before.points.lemma_entries_sorted();
        lemma_rank_parts(s, ikey);
        assert(parts_at(s, ikey, at));
        assert(e.key == ikey);
        assert forall|q: int| 0 <= q < s.len() implies (#[trigger] s[q]).key != ikey by {
            let i = before.source(q);
            let k = point_key(before.history@[i].op)->0;
            lemma_internal_key_decodes(k, before.history@[i].seq, point_type(before.history@[i].op));
            lemma_internal_key_decodes(key, l.seq, point_type(l.op));
            assert(before.history@[i].seq < l.seq);
        }
        assert forall|i: int, j: int| 0 <= i < j < r.len() implies key_lt(
            (#[trigger] r[i]).key,
            (#[trigger] r[j]).key,
        ) by {
            if i == at {
                assert(r[j] == s[j - 1]);
                assert(!key_lt(s[j - 1].key, ikey));
                crate::engine::internal_key::lemma_key_lt_total(ikey, s[j - 1].key);
            } else if j == at {
                assert(r[i] == s[i]);
            } else if i < at && j > at {
                assert(r[i] == s[i]);
                assert(r[j] == s[j - 1]);
            } else if j < at {
                assert(r[i] == s[i] && r[j] == s[j]);
            } else {
                assert(r[i] == s[i - 1] && r[j] == s[j - 1]);
            }
        }
        let h = before.history@;
        let g = after.history@;
        assert(ordered(g)) by {
            assert forall|i: int| 0 <= i < g.len() implies (#[trigger] g[i]).seq >= 1 by {
                if i < h.len() {
                    assert(g[i] == h[i]);
                }
            }
            assert forall|i: int, j: int| 0 <= i < j < g.len() implies (#[trigger] g[i]).seq < (
            #[trigger] g[j]).seq by {
                assert(g[i] == h[i]);
                if j < h.len() {
                    assert(g[j] == h[j]);
                }
            }
        }
        assert forall|p: int| 0 <= p < r.len() implies #[trigger] after.sourced(p) by {
            if p == at {
                assert(stands_for(r[p], g[h.len() as int]));
            } else {
                let q = if p < at { p } else { p - 1 };
                let i = before.source(q);
                assert(r[p] == s[q]);
                assert(stands_for(r[p], g[i]));
            }
        }
        assert forall|i: int| 0 <= i < g.len() implies #[trigger] after.placed(i) by {
            if i == h.len() {
                assert(stands_for(r[at], g[i]));
            } else if point_key(g[i].op) is Some {
                assert(g[i] == h[i]);
                let q = before.place(i);
                let p = if q < at { q } else { q + 1 };
                assert(r[p] == s[q]);
                assert(stands_for(r[p], g[i]));
            }
        }
        assert forall|i: int| 0 <= i < g.len() implies #[trigger] after.buried(i) by {
            if i < h.len() {
                assert(before.buried(i));
                assert(g[i] == h[i]);
            }
        }
        assert forall|t: int| 0 <= t < after.tombs@.len() implies #[trigger] after.dug(t) by {
            assert(before.dug(t));
            let i = choose|i: int| 0 <= i < h.len() && before.tombs@[t]@ == #[trigger] h[i];
            assert(g[i] == h[i]);
        }
        assert(after.recorded()) by {
            assert(g.drop_last() =~= h);
            assert forall|i: int| 0 <= i < g.len() implies #[trigger] after.kinds@[i] == (point_key(
                g[i].op,
            ) is Some) by {
                if i < h.len() {
                    assert(before.kinds@[i] == (point_key(h[i].op) is Some));
                }
            }
            assert forall|lo: Seq<u8>, hi: Seq<u8>| #[trigger]
                tally_entries(after.entries(), lo, hi) == tally(g, lo, hi) by {
                lemma_tally_insert(s, at, e, lo, hi);
                lemma_internal_key_decodes(key, l.seq, point_type(l.op));
                assert(tally_entries(before.entries(), lo, hi) == tally(h, lo, hi));
            }
        }
    }

    /// Store one point write under a sequence number newer than every
    /// other.
    fn add_point(&mut self, seq: u64, key: &[u8], value_type: u8, value: &[u8], op: Ghost<Op>)
        requires
            old(self).wf(),
            seq >= 1,
            within(old(self).history(), (seq - 1) as u64),
            storable(op@),
            point_key(op@) == Some(key@),
            point_type(op@) == value_type,
            point_value(op@) == value@,
        ensures
            final(self).wf(),
            final(self).history() == old(self).history().push(Logged { seq, op: op@ }),
    {
        let ghost before = *self;
        let ghost l = Logged { seq, op: op@ };
        let ghost e = self.points.entry_for(key@, seq, value_type, value@);
        let stored = self.points.insert(key, seq, value_type, value);
        assert(stored);
        self.kinds.push(true);
        let size: u64 = (key.len() as u64).saturating_add(
            INTERNAL_KEY_SUFFIX_LEN as u64,
        ).saturating_add(value.len() as u64);
        self.bytes = self.bytes.saturating_add(size);
        let ghost grown = self.history@.push(l);
        self.history = Ghost(grown);
        proof {
            assert(stands_for(e, l));
            Self::lemma_insert(before, *self, key@, l);
        }
    }

    /// Store `key -> value`.
    pub fn put(&mut self, seq: u64, key: &[u8], value: &[u8])
        requires
            old(self).wf(),
            seq >= 1,
            within(old(self).history(), (seq - 1) as u64),
            storable(Op::Put { key: key@, value: value@ }),
        ensures
            final(self).wf(),
            final(self).history() == old(self).history().push(
                Logged { seq, op: Op::Put { key: key@, value: value@ } },
            ),
    {
        let ghost op = Op::Put { key: key@, value: value@ };
        self.add_point(seq, key, VALUE_TYPE_VALUE, value, Ghost(op));
    }

    /// Store a deletion of `key`.
    pub fn delete(&mut self, seq: u64, key: &[u8])
        requires
            old(self).wf(),
            seq >= 1,
            within(old(self).history(), (seq - 1) as u64),
            storable(Op::Delete { key: key@ }),
        ensures
            final(self).wf(),
            final(self).history() == old(self).history().push(
                Logged { seq, op: Op::Delete { key: key@ } },
            ),
    {
        let ghost op = Op::Delete { key: key@ };
        let none: Vec<u8> = Vec::new();
        assert(none@ =~= Seq::<u8>::empty());
        self.add_point(seq, key, VALUE_TYPE_DELETION, none.as_slice(), Ghost(op));
    }

    /// Store a merge operand for `key`.
    pub fn merge(&mut self, seq: u64, key: &[u8], operand: &[u8])
        requires
            old(self).wf(),
            seq >= 1,
            within(old(self).history(), (seq - 1) as u64),
            storable(Op::Merge { key: key@, operand: operand@ }),
        ensures
            final(self).wf(),
            final(self).history() == old(self).history().push(
                Logged { seq, op: Op::Merge { key: key@, operand: operand@ } },
            ),
    {
        let ghost op = Op::Merge { key: key@, operand: operand@ };
        self.add_point(seq, key, VALUE_TYPE_MERGE, operand, Ghost(op));
    }

    /// Store a deletion of every key in `[start, end)`.
    pub fn delete_range(&mut self, seq: u64, start: &[u8], end: &[u8])
        requires
            old(self).wf(),
            seq >= 1,
            within(old(self).history(), (seq - 1) as u64),
        ensures
            final(self).wf(),
            final(self).history() == old(self).history().push(
                Logged { seq, op: Op::DeleteRange { start: start@, end: end@ } },
            ),
    {
        let ghost before = *self;
        let ghost l = Logged { seq, op: Op::DeleteRange { start: start@, end: end@ } };
        self.tombs.push(Tombstone { start: bytes::copy(start), end: bytes::copy(end), seq });
        self.kinds.push(false);
        let size: u64 = (start.len() as u64).saturating_add(end.len() as u64);
        self.bytes = self.bytes.saturating_add(size);
        let ghost grown = self.history@.push(l);
        self.history = Ghost(grown);
        proof {
            let h = before.history@;
            let g = self.history@;
            assert(ordered(g)) by {
                assert forall|i: int| 0 <= i < g.len() implies (#[trigger] g[i]).seq >= 1 by {
                    if i < h.len() {
                        assert(g[i] == h[i]);
                    }
                }
                assert forall|i: int, j: int| 0 <= i < j < g.len() implies (#[trigger] g[i]).seq < (
                #[trigger] g[j]).seq by {
                    assert(g[i] == h[i]);
                    if j < h.len() {
                        assert(g[j] == h[j]);
                    }
                }
            }
            assert(self.entries() == before.entries());
            assert forall|p: int| 0 <= p < self.entries().len() implies #[trigger] self.sourced(
                p,
            ) by {
                let i = before.source(p);
                assert(stands_for(self.entries()[p], g[i]));
            }
            assert forall|i: int| 0 <= i < g.len() implies #[trigger] self.placed(i) by {
                if i < h.len() && point_key(g[i].op) is Some {
                    assert(g[i] == h[i]);
                    let p = before.place(i);
                    assert(stands_for(self.entries()[p], g[i]));
                }
            }
            let last = before.tombs@.len() as int;
            assert(self.tombs@[last]@ == l);
            assert forall|i: int| 0 <= i < g.len() implies #[trigger] self.buried(i) by {
                if i < h.len() {
                    assert(before.buried(i));
                    assert(g[i] == h[i]);
                    if g[i].op is DeleteRange {
                        let t = choose|t: int|
                            0 <= t < before.tombs@.len() && (#[trigger] before.tombs@[t])@ == h[i];
                        assert(self.tombs@[t]@ == g[i]);
                    }
                } else {
                    assert(g[i] == l);
                }
            }
            assert forall|t: int| 0 <= t < self.tombs@.len() implies #[trigger] self.dug(t) by {
                if t < last {
                    assert(before.dug(t));
                    let i = choose|i: int| 0 <= i < h.len() && before.tombs@[t]@ == #[trigger] h[i];
                    assert(g[i] == h[i]);
                    assert(self.tombs@[t] == before.tombs@[t]);
                } else {
                    assert(g[h.len() as int] == l);
                }
            }
            assert(self.recorded()) by {
                assert(g.drop_last() =~= h);
                assert forall|i: int| 0 <= i < g.len() implies #[trigger] self.kinds@[i] == (
                point_key(g[i].op) is Some) by {
                    if i < h.len() {
                        assert(before.kinds@[i] == (point_key(h[i].op) is Some));
                    }
                }
                assert(tomb_views(self.tombs@) =~= ranges_of(h).push(l));
                assert forall|lo: Seq<u8>, hi: Seq<u8>| #[trigger]
                    tally_entries(self.entries(), lo, hi) == tally(g, lo, hi) by {
                    assert(tally_entries(before.entries(), lo, hi) == tally(h, lo, hi));
                }
            }
        }
    }

    /// Bytes the table's writes hold.
    pub fn size(&self) -> (r: u64)
        requires
            self.wf(),
        ensures
            r == at_most_u64(weight_of(self.history())),
    {
        self.bytes
    }

    /// The sequence number of the table's newest write.
    pub fn newest_seq(&self) -> (r: Option<u64>)
        requires
            self.wf(),
        ensures
            r is Some <==> self.history().len() > 0,
            r matches Some(seq) ==> seq == self.history().last().seq,
    {
        let n: usize = self.kinds.len();
        let ghost h = self.history@;
        if n == 0 {
            return None;
        }
        assert(self.kinds@[n - 1] == (point_key(h[n - 1].op) is Some));
        if self.kinds[n - 1] {
            proof {
                let l = h.last();
                assert(self.points.arrivals().last() == (
                    internal_key_of(point_key(l.op)->0, l.seq, point_type(l.op)),
                    point_value(l.op),
                ));
                lemma_internal_key_decodes(point_key(l.op)->0, l.seq, point_type(l.op));
                self.points.lemma_arrivals_len();
            }
            let (ikey, _) = self.points.arrival(self.points.len() - 1);
            Some(sequence_of(ikey))
        } else {
            proof {
                assert(tomb_views(self.tombs@).last() == h.last());
            }
            Some(self.tombs[self.tombs.len() - 1].seq)
        }
    }

    /// How many writes the table holds.
    pub fn len(&self) -> (r: usize)
        requires
            self.wf(),
        ensures
            r == self.history().len(),
    {
        self.kinds.len()
    }

    /// How many point entries the table holds.
    pub fn num_entries(&self) -> (r: usize)
        requires
            self.wf(),
        ensures
            r == records_of(self.history()).len(),
    {
        proof {
            self.points.lemma_arrivals_len();
        }
        self.points.len()
    }
}

/// Whether write `i` of `h` is a range deletion of `key` no newer than
/// `seq`.
pub open spec fn range_gone(h: Seq<Logged>, i: int, key: Seq<u8>, seq: u64) -> bool {
    &&& h[i].seq <= seq
    &&& h[i].op matches Op::DeleteRange { start, end }
    &&& covers(start, end, key)
}

/// `cover` is the newest range deletion of `key` at or below `seq`; zero
/// when there is none.
pub open spec fn newest_range(h: Seq<Logged>, key: Seq<u8>, seq: u64, cover: u64) -> bool {
    &&& forall|i: int|
        0 <= i < h.len() && #[trigger] range_gone(h, i, key, seq) ==> h[i].seq <= cover
    &&& cover > 0 ==> exists|i: int|
        0 <= i < h.len() && #[trigger] range_gone(h, i, key, seq) && h[i].seq == cover
}

/// The operands in the other order.
fn oldest_first(newest_first: Vec<Vec<u8>>) -> (r: Vec<Vec<u8>>)
    ensures
        views(r@) == views(newest_first@).reverse(),
{
    let mut from: Vec<Vec<u8>> = newest_first;
    let mut out: Vec<Vec<u8>> = Vec::new();
    let ghost all = views(from@);
    while from.len() > 0
        invariant
            from@.len() + out@.len() == all.len(),
            views(from@) == all.take(from@.len() as int),
            views(out@) == all.skip(from@.len() as int).reverse(),
        decreases from@.len(),
    {
        let ghost n = from@.len() as int;
        let ghost before = views(out@);
        match from.pop() {
            Some(item) => {
                assert(item@ == all[n - 1]) by {
                    assert(all.take(n)[n - 1] == all[n - 1]);
                }
                out.push(item);
                assert(views(out@) =~= before.push(item@));
                assert(all.skip(n - 1).reverse() =~= all.skip(n).reverse().push(all[n - 1]));
                assert(views(from@) =~= all.take(n).take(n - 1));
                assert(all.take(n).take(n - 1) =~= all.take(n - 1));
            },
            None => {},
        }
    }
    assert(all.skip(0) =~= all);
    out
}

impl MemTable {
    /// The newest tombstone over `key` that a read at `seq` sees.
    fn newest_cover(&self, key: &[u8], seq: u64) -> (r: u64)
        requires
            self.wf(),
        ensures
            newest_range(self.history@, key@, seq, r),
    {
        let mut cover: u64 = 0;
        let mut t: usize = 0;
        let ghost h = self.history@;
        while t < self.tombs.len()
            invariant
                self.wf(),
                h == self.history@,
                t <= self.tombs@.len(),
                forall|u: int|
                    0 <= u < t && (#[trigger] self.tombs@[u]).seq <= seq && covers(
                        self.tombs@[u].start@,
                        self.tombs@[u].end@,
                        key@,
                    ) ==> self.tombs@[u].seq <= cover,
                cover > 0 ==> exists|i: int|
                    0 <= i < h.len() && #[trigger] range_gone(h, i, key@, seq) && h[i].seq == cover,
            decreases self.tombs@.len() - t,
        {
            let tomb = &self.tombs[t];
            if tomb.seq <= seq && tomb.seq > cover && !bytes::lt(key, tomb.start.as_slice())
                && bytes::lt(key, tomb.end.as_slice()) {
                cover = tomb.seq;
                proof {
                    lemma_bytes_lt_total(tomb.start@, key@);
                    assert(self.dug(t as int));
                    let i = choose|i: int|
                        0 <= i < h.len() && self.tombs@[t as int]@ == #[trigger] h[i];
                    assert(range_gone(h, i, key@, seq));
                }
            } else {
                proof {
                    lemma_bytes_lt_irreflexive(key@);
                    if bytes_lt(key@, tomb.start@) && bytes_lt(tomb.start@, key@) {
                        lemma_bytes_lt_transitive(key@, tomb.start@, key@);
                    }
                }
            }
            t += 1;
        }
        proof {
            assert forall|i: int|
                0 <= i < h.len() && #[trigger] range_gone(h, i, key@, seq) implies h[i].seq
                <= cover by {
                assert(self.buried(i));
                let u = choose|u: int|
                    0 <= u < self.tombs@.len() && (#[trigger] self.tombs@[u])@ == h[i];
                assert(self.tombs@[u].seq <= cover);
            }
        }
        cover
    }

    /// Every write of `key` that a read at `b` sees has its entry at or
    /// after the parting point `p`, and the entry there is the newest.
    proof fn lemma_newest_first(self, key: Seq<u8>, b: u64, p: int, j: int)
        requires
            self.wf(),
            parts_at(self.entries(), internal_key_of(key, b, 0), p),
            0 <= j < self.history@.len(),
            point_key(self.history@[j].op) == Some(key),
            self.history@[j].seq <= b,
        ensures
            p < self.entries().len(),
            forall|i: int|
                0 <= i < self.history@.len() && #[trigger] stands_for(
                    self.entries()[p],
                    self.history@[i],
                ) ==> point_key(self.history@[i].op) == Some(key) && self.history@[j].seq
                    <= self.history@[i].seq <= b,
    {
        let h = self.history@;
        let s = self.entries();
        let target = internal_key_of(key, b, 0);
        let q = self.place(j);
        lemma_internal_key_order(key, h[j].seq, point_type(h[j].op), key, b, 0);
        lemma_bytes_lt_irreflexive(key);
        assert(!key_lt(s[q].key, target));
        assert(q >= p);
        assert forall|i: int|
            0 <= i < h.len() && #[trigger] stands_for(s[p], h[i]) implies point_key(h[i].op)
            == Some(key) && h[j].seq <= h[i].seq <= b by {
            let k = point_key(h[i].op)->0;
            lemma_internal_key_order(k, h[i].seq, point_type(h[i].op), key, b, 0);
            lemma_bytes_lt_total(k, key);
            assert(!key_lt(s[p].key, target));
            if p < q {
                assert(key_lt(s[p].key, s[q].key));
                lemma_internal_key_order(
                    k,
                    h[i].seq,
                    point_type(h[i].op),
                    key,
                    h[j].seq,
                    point_type(h[j].op),
                );
            } else {
                lemma_internal_key_decodes(k, h[i].seq, point_type(h[i].op));
                lemma_internal_key_decodes(key, h[j].seq, point_type(h[j].op));
            }
        }
    }

    /// Between a read point and the newest write of the key below it
    /// nothing happens to the key.
    proof fn lemma_quiet(self, key: Seq<u8>, b: u64, p: int, to: u64, cover: u64, seq: u64)
        requires
            self.wf(),
            parts_at(self.entries(), internal_key_of(key, b, 0), p),
            newest_range(self.history@, key, seq, cover),
            b <= seq,
            cover <= to <= b,
            p < self.entries().len() ==> forall|i: int|
                0 <= i < self.history@.len() && #[trigger] stands_for(
                    self.entries()[p],
                    self.history@[i],
                ) && point_key(self.history@[i].op) == Some(key) ==> self.history@[i].seq <= to,
        ensures
            probe(self.history@, key, b) == probe(self.history@, key, to),
    {
        let h = self.history@;
        assert forall|j: int| 0 <= j < h.len() && to < (#[trigger] h[j]).seq <= b implies effect(
            h[j].op,
            key,
        ) == Effect::Nothing by {
            if point_key(h[j].op) == Some(key) {
                self.lemma_newest_first(key, b, p, j);
                let i = self.source(p);
                assert(stands_for(self.entries()[p], h[i]));
            }
            if h[j].op is DeleteRange {
                if range_gone(h, j, key, seq) {
                    assert(h[j].seq <= cover);
                }
            }
        }
        lemma_probe_lower(h, key, b, to);
    }

    /// A read at the newest covering range deletion finds the key gone; at
    /// zero it finds nothing.
    proof fn lemma_at_cover(self, key: Seq<u8>, cover: u64, seq: u64)
        requires
            self.wf(),
            newest_range(self.history@, key, seq, cover),
        ensures
            probe(self.history@, key, cover) == (Probe {
                operands: Seq::empty(),
                end: if cover > 0 {
                    End::Gone
                } else {
                    End::Open
                },
            }),
    {
        let h = self.history@;
        if cover > 0 {
            let i = choose|i: int|
                0 <= i < h.len() && #[trigger] range_gone(h, i, key, seq) && h[i].seq == cover;
            assert(range_gone(h, i, key, seq));
            lemma_probe_at(h, key, i);
        } else {
            lemma_untouched(h, key, 0);
        }
    }

    /// Past the entry at `p`, a merge operand numbered `e`, the read goes
    /// on below `e` at the next entry.
    proof fn lemma_step(self, key: Seq<u8>, e: u64, value_type: u8, p: int)
        requires
            self.wf(),
            e >= 1,
            0 <= p < self.entries().len(),
            self.entries()[p].key == internal_key_of(key, e, value_type),
        ensures
            parts_at(self.entries(), internal_key_of(key, (e - 1) as u64, 0), p + 1),
    {
        let s = self.entries();
        let h = self.history@;
        let below = internal_key_of(key, (e - 1) as u64, 0);
        lemma_internal_key_order(key, e, value_type, key, (e - 1) as u64, 0);
        assert forall|q: int| 0 <= q < p + 1 implies key_lt((#[trigger] s[q]).key, below) by {
            if q < p {
                assert(key_lt(s[q].key, s[p].key));
                crate::engine::internal_key::lemma_key_lt_transitive(s[q].key, s[p].key, below);
            }
        }
        assert forall|q: int| p + 1 <= q < s.len() implies !key_lt((#[trigger] s[q]).key, below) by {
            let i = self.source(q);
            let k = point_key(h[i].op)->0;
            let t = point_type(h[i].op);
            lemma_internal_key_order(k, h[i].seq, t, key, (e - 1) as u64, 0);
            lemma_internal_key_order(key, e, value_type, k, h[i].seq, t);
            assert(key_lt(s[p].key, s[q].key));
            if bytes_lt(key, k) && bytes_lt(k, key) {
                lemma_bytes_lt_transitive(key, k, key);
            }
            lemma_bytes_lt_irreflexive(key);
            let ip = self.source(p);
            let kp = point_key(h[ip].op)->0;
            lemma_internal_key_decodes(kp, h[ip].seq, point_type(h[ip].op));
            lemma_internal_key_decodes(key, e, value_type);
            assert(h[ip].seq == e);
            if k == key && h[i].seq == e {
                assert(i == ip) by {
                    if i < ip {
                        assert(h[i].seq < h[ip].seq);
                    }
                    if ip < i {
                        assert(h[ip].seq < h[i].seq);
                    }
                }
                crate::engine::internal_key::lemma_key_lt_irreflexive(s[p].key);
            }
        }
    }

    /// What the table holds of `key` as a read at `seq` sees it.
    pub fn lookup(&self, key: &[u8], seq: u64) -> (r: Found)
        requires
            self.wf(),
        ensures
            r@ == probe(self.history(), key@, seq),
    {
        let cover: u64 = self.newest_cover(key, seq);
        let target: Vec<u8> = encode_internal_key(key, seq, 0);
        let mut cursor: Option<NodeRef> = self.points.seek_ge(target.as_slice());
        // Newest first while the walk goes on.
        let mut collected: Vec<Vec<u8>> = Vec::new();
        let ghost h = self.history@;
        let ghost mut b: u64 = seq;
        let ghost mut p: int = rank(self.entries(), target@) as int;
        proof {
            self.points.lemma_entries_sorted();
            lemma_rank_parts(self.entries(), target@);
            assert(Seq::<Seq<u8>>::empty() =~= views(collected@).reverse());
            assert(probe(h, key@, b).operands + views(collected@).reverse() =~= probe(
                h,
                key@,
                b,
            ).operands);
        }
        let end: FoundEnd;
        loop
            invariant
                self.wf(),
                h == self.history@,
                b <= seq,
                cover <= b,
                newest_range(h, key@, seq, cover),
                parts_at(self.entries(), internal_key_of(key@, b, 0), p),
                cursor is Some <==> p < self.entries().len(),
                cursor matches Some(node) ==> node.wf() && node.of() == self.points
                    && node.position() == p,
                probe(h, key@, seq).end == probe(h, key@, b).end,
                probe(h, key@, seq).operands == probe(h, key@, b).operands + views(
                    collected@,
                ).reverse(),
            ensures
                probe(h, key@, seq).operands == views(collected@).reverse(),
                probe(h, key@, seq).end == (match end {
                    FoundEnd::Open => End::Open,
                    FoundEnd::Gone => End::Gone,
                    FoundEnd::Value(value) => End::Value(value@),
                }),
            decreases self.entries().len() - p,
        {
            let settled: Option<FoundEnd> = match cursor {
                None => {
                    proof {
                        self.lemma_quiet(key@, b, p, cover, cover, seq);
                    }
                    None
                },
                Some(node) => {
                    let ikey = node.key();
                    let ghost i = self.source(p);
                    let ghost op = h[i].op;
                    proof {
                        lemma_internal_key_decodes(
                            point_key(op)->0,
                            h[i].seq,
                            point_type(op),
                        );
                        assert forall|x: int|
                            0 <= x < h.len() && #[trigger] stands_for(
                                self.entries()[p],
                                h[x],
                            ) implies x == i by {
                            lemma_internal_key_decodes(
                                point_key(h[x].op)->0,
                                h[x].seq,
                                point_type(h[x].op),
                            );
                            if x < i {
                                assert(h[x].seq < h[i].seq);
                            }
                            if i < x {
                                assert(h[i].seq < h[x].seq);
                            }
                        }
                    }
                    let ours = bytes::same(user_key(ikey), key);
                    let e: u64 = sequence_of(ikey);
                    if !ours || e < cover {
                        proof {
                            self.lemma_quiet(key@, b, p, cover, cover, seq);
                        }
                        None
                    } else {
                        proof {
                            assert(point_key(op) == Some(key@));
                            assert(h[i].seq == e);
                            lemma_internal_key_order(key@, e, point_type(op), key@, b, 0);
                            assert(!key_lt(
                                self.entries()[p].key,
                                internal_key_of(key@, b, 0),
                            ));
                            assert(e <= b);
                            self.lemma_quiet(key@, b, p, e, cover, seq);
                            lemma_probe_at(h, key@, i);
                        }
                        let value_type: u8 = ikey[ikey.len() - 1];
                        if value_type == VALUE_TYPE_VALUE {
                            Some(FoundEnd::Value(bytes::copy(node.value())))
                        } else if value_type == VALUE_TYPE_DELETION {
                            Some(FoundEnd::Gone)
                        } else {
                            let ghost before = views(collected@).reverse();
                            let ghost rest = probe(h, key@, (e - 1) as u64).operands;
                            let operand: Vec<u8> = bytes::copy(node.value());
                            collected.push(operand);
                            proof {
                                assert(op is Merge);
                                assert(views(collected@).reverse() =~= seq![operand@] + before);
                                assert(rest.push(operand@) + before =~= rest + views(
                                    collected@,
                                ).reverse());
                                self.lemma_step(key@, e, point_type(op), p);
                                assert(cover < e) by {
                                    if cover == e {
                                        let x = choose|x: int|
                                            0 <= x < h.len() && #[trigger] range_gone(
                                                h,
                                                x,
                                                key@,
                                                seq,
                                            ) && h[x].seq == cover;
                                        if x < i {
                                            assert(h[x].seq < h[i].seq);
                                        }
                                        if i < x {
                                            assert(h[i].seq < h[x].seq);
                                        }
                                    }
                                }
                                b = (e - 1) as u64;
                                p = p + 1;
                            }
                            cursor = node.next();
                            continue ;
                        }
                    }
                },
            };
            match settled {
                Some(found) => {
                    end = found;
                    proof {
                        assert(probe(h, key@, b).operands =~= Seq::<Seq<u8>>::empty());
                        assert(Seq::<Seq<u8>>::empty() + views(collected@).reverse() =~= views(
                            collected@,
                        ).reverse());
                    }
                    break ;
                },
                None => {
                    proof {
                        self.lemma_at_cover(key@, cover, seq);
                        assert(Seq::<Seq<u8>>::empty() + views(collected@).reverse() =~= views(
                            collected@,
                        ).reverse());
                    }
                    end = if cover > 0 {
                        FoundEnd::Gone
                    } else {
                        FoundEnd::Open
                    };
                    break ;
                },
            }
        }
        let operands = oldest_first(collected);
        Found { operands, end }
    }

    /// The keys in `[lo, hi)` that point writes of the table name, each
    /// once, in order.
    pub fn keys_in(&self, lo: &[u8], hi: &[u8]) -> (r: Vec<Vec<u8>>)
        requires
            self.wf(),
        ensures
            ascending(views(r@)),
            forall|k: int| 0 <= k < r@.len() ==> covers(lo@, hi@, (#[trigger] views(r@)[k])),
            forall|k: int| 0 <= k < r@.len() ==> names(self.history(), #[trigger] views(r@)[k]),
            forall|i: int|
                0 <= i < self.history().len() ==> names_within(
                    #[trigger] self.history()[i],
                    lo@,
                    hi@,
                    views(r@),
                ),
    {
        let target: Vec<u8> = encode_internal_key(lo, u64::MAX, 0);
        let mut cursor: Option<NodeRef> = self.points.seek_ge(target.as_slice());
        let mut out: Vec<Vec<u8>> = Vec::new();
        let ghost h = self.history@;
        let ghost s = self.entries();
        let ghost mut p: int = rank(s, target@) as int;
        proof {
            self.points.lemma_entries_sorted();
            lemma_rank_parts(s, target@);
            self.lemma_from(lo@, p);
            assert forall|q: int| 0 <= q < p && covers(
                lo@,
                hi@,
                user_part((#[trigger] s[q]).key),
            ) implies views(out@).contains(user_part(s[q].key)) by {}
        }
        loop
            invariant
                self.wf(),
                h == self.history@,
                s == self.entries(),
                0 <= p <= s.len(),
                cursor is Some <==> p < s.len(),
                cursor matches Some(node) ==> node.wf() && node.of() == self.points
                    && node.position() == p,
                forall|q: int| p <= q < s.len() ==> bytes_le(lo@, user_part((#[trigger] s[q]).key)),
                ascending(views(out@)),
                forall|k: int| 0 <= k < out@.len() ==> covers(lo@, hi@, (#[trigger] views(out@)[k])),
                forall|k: int| 0 <= k < out@.len() ==> names(h, #[trigger] views(out@)[k]),
                forall|q: int|
                    0 <= q < p && covers(lo@, hi@, user_part((#[trigger] s[q]).key)) ==> views(
                        out@,
                    ).contains(user_part(s[q].key)),
                out@.len() > 0 ==> p > 0 && views(out@).last() == user_part(s[p - 1].key),
            ensures
                ascending(views(out@)),
                forall|k: int| 0 <= k < out@.len() ==> covers(lo@, hi@, (#[trigger] views(out@)[k])),
                forall|k: int| 0 <= k < out@.len() ==> names(h, #[trigger] views(out@)[k]),
                forall|q: int|
                    0 <= q < s.len() && covers(lo@, hi@, user_part((#[trigger] s[q]).key)) ==> views(
                        out@,
                    ).contains(user_part(s[q].key)),
            decreases s.len() - p,
        {
            match cursor {
                None => {
                    break ;
                },
                Some(node) => {
                    let found = user_key(node.key());
                    if !bytes::lt(found, hi) {
                        proof {
                            assert forall|q: int| p <= q < s.len() implies !covers(
                                lo@,
                                hi@,
                                user_part((#[trigger] s[q]).key),
                            ) by {
                                self.lemma_user_order(p, q);
                                if bytes_lt(user_part(s[q].key), hi@) {
                                    lemma_bytes_le_lt(found@, user_part(s[q].key), hi@);
                                }
                            }
                        }
                        break ;
                    }
                    let ghost before = views(out@);
                    let n: usize = out.len();
                    let fresh = n == 0 || !bytes::same(out[n - 1].as_slice(), found);
                    if fresh {
                        out.push(bytes::copy(found));
                        proof {
                            assert(views(out@) =~= before.push(found@));
                            if before.len() > 0 {
                                self.lemma_user_order(p - 1, p);
                            }
                            assert forall|x: int, y: int|
                                0 <= x < y < views(out@).len() implies bytes_lt(
                                #[trigger] views(out@)[x],
                                #[trigger] views(out@)[y],
                            ) by {
                                if y == before.len() {
                                    assert(bytes_lt(before.last(), found@));
                                    if x < before.len() - 1 {
                                        assert(bytes_lt(before[x], before[before.len() - 1]));
                                        lemma_bytes_lt_transitive(before[x], before.last(), found@);
                                    }
                                } else {
                                    assert(bytes_lt(before[x], before[y]));
                                }
                            }
                            assert forall|k: int| 0 <= k < out@.len() implies covers(
                                lo@,
                                hi@,
                                (#[trigger] views(out@)[k]),
                            ) by {
                                if k < before.len() {
                                    assert(before[k] == views(out@)[k]);
                                }
                            }
                            assert(views(out@)[before.len() as int] == found@);
                            assert forall|k: int| 0 <= k < out@.len() implies names(
                                h,
                                #[trigger] views(out@)[k],
                            ) by {
                                if k < before.len() {
                                    assert(before[k] == views(out@)[k]);
                                } else {
                                    assert(self.sourced(p));
                                    let i = choose|i: int|
                                        0 <= i < h.len() && #[trigger] stands_for(s[p], h[i]);
                                    lemma_internal_key_decodes(
                                        point_key(h[i].op)->0,
                                        h[i].seq,
                                        point_type(h[i].op),
                                    );
                                    assert(point_key(h[i].op) == Some(found@));
                                }
                            }
                            assert forall|q: int|
                                0 <= q < p + 1 && covers(
                                    lo@,
                                    hi@,
                                    user_part((#[trigger] s[q]).key),
                                ) implies views(out@).contains(user_part(s[q].key)) by {
                                if q < p {
                                    let x = choose|x: int|
                                        0 <= x < before.len() && before[x] == user_part(s[q].key);
                                    assert(views(out@)[x] == before[x]);
                                }
                            }
                        }
                    } else {
                        assert(views(out@)[n - 1] == found@);
                    }
                    proof {
                        p = p + 1;
                    }
                    cursor = node.next();
                },
            }
        }
        proof {
            assert forall|i: int| 0 <= i < h.len() implies names_within(
                #[trigger] h[i],
                lo@,
                hi@,
                views(out@),
            ) by {
                if point_key(h[i].op) is Some {
                    let q = self.place(i);
                    lemma_internal_key_decodes(
                        point_key(h[i].op)->0,
                        h[i].seq,
                        point_type(h[i].op),
                    );
                    assert(user_part(s[q].key) == point_key(h[i].op)->0);
                }
            }
        }
        out
    }

    /// The parting point of the newest possible entry of `lo` is where keys
    /// from `lo` on begin.
    proof fn lemma_from(self, lo: Seq<u8>, p: int)
        requires
            self.wf(),
            parts_at(self.entries(), internal_key_of(lo, u64::MAX, 0), p),
        ensures
            forall|q: int|
                0 <= q < self.entries().len() ==> (q >= p <==> bytes_le(
                    lo,
                    user_part((#[trigger] self.entries()[q]).key),
                )),
    {
        let s = self.entries();
        let h = self.history@;
        let target = internal_key_of(lo, u64::MAX, 0);
        assert forall|q: int| 0 <= q < s.len() implies (q >= p <==> bytes_le(
            lo,
            user_part((#[trigger] s[q]).key),
        )) by {
            let i = self.source(q);
            let k = point_key(h[i].op)->0;
            lemma_internal_key_decodes(k, h[i].seq, point_type(h[i].op));
            lemma_internal_key_order(k, h[i].seq, point_type(h[i].op), lo, u64::MAX, 0);
            lemma_bytes_lt_total(k, lo);
            lemma_bytes_lt_irreflexive(k);
            if bytes_lt(k, lo) && bytes_lt(lo, k) {
                lemma_bytes_lt_transitive(k, lo, k);
            }
            assert((q < p) ==> key_lt(s[q].key, target));
            assert((q >= p) ==> !key_lt(s[q].key, target));
        }
    }

    /// Entries come in user-key order.
    proof fn lemma_user_order(self, p: int, q: int)
        requires
            self.wf(),
            0 <= p <= q < self.entries().len(),
        ensures
            bytes_le(user_part(self.entries()[p].key), user_part(self.entries()[q].key)),
    {
        let a = user_part(self.entries()[p].key);
        let b = user_part(self.entries()[q].key);
        lemma_bytes_lt_irreflexive(a);
        if p < q {
            assert(key_lt(self.entries()[p].key, self.entries()[q].key));
            if bytes_lt(a, b) {
                lemma_bytes_lt_asymmetric(a, b);
            }
        }
    }
}

/// The first writes of a history have the first records and the first range
/// deletions.
proof fn lemma_kinds_prefix(h: Seq<Logged>, n: int)
    requires
        0 <= n <= h.len(),
    ensures
        records_of(h.take(n)).is_prefix_of(records_of(h)),
        ranges_of(h.take(n)).is_prefix_of(ranges_of(h)),
    decreases h.len() - n,
{
    if n < h.len() {
        lemma_kinds_prefix(h, n + 1);
        assert(h.take(n + 1).drop_last() =~= h.take(n));
    } else {
        assert(h.take(n) =~= h);
    }
}

/// Entries outside the range count for nothing.
proof fn lemma_tally_outside(s: Seq<Entry>, lo: Seq<u8>, hi: Seq<u8>, from: int, to: int)
    requires
        0 <= from <= to <= s.len(),
        forall|q: int|
            from <= q < to ==> !covers(lo, hi, user_part((#[trigger] s[q]).key)),
    ensures
        tally_entries(s.take(to), lo, hi) == tally_entries(s.take(from), lo, hi),
    decreases to - from,
{
    if from < to {
        lemma_tally_outside(s, lo, hi, from, to - 1);
        assert(s.take(to).drop_last() =~= s.take(to - 1));
        assert(s.take(to).last() == s[to - 1]);
    }
}

impl MemTable {
    /// The writes the table holds, in order.
    pub fn export(&self) -> (r: Vec<WalEntry>)
        requires
            self.wf(),
        ensures
            logged(r@) == self.history(),
    {
        let ghost h = self.history@;
        let mut out: Vec<WalEntry> = Vec::new();
        let mut n: usize = 0;
        let mut i: usize = 0;
        let mut t: usize = 0;
        proof {
            assert(h.take(0) =~= Seq::<Logged>::empty());
            assert(logged(out@) =~= h.take(0));
        }
        while n < self.kinds.len()
            invariant
                self.wf(),
                h == self.history@,
                n <= h.len(),
                i <= n,
                t <= n,
                i == records_of(h.take(n as int)).len(),
                t == ranges_of(h.take(n as int)).len(),
                logged(out@) == h.take(n as int),
            decreases h.len() - n,
        {
            let ghost before = out@;
            let ghost l = h[n as int];
            proof {
                assert(h.take(n + 1).drop_last() =~= h.take(n as int));
                assert(h.take(n + 1).last() == l);
                lemma_kinds_prefix(h, n + 1);
            }
            if self.kinds[n] {
                assert(self.points.arrivals()[i as int] == records_of(h.take(n + 1))[i as int]);
                let (ikey, value) = self.points.arrival(i);
                proof {
                    lemma_internal_key_decodes(point_key(l.op)->0, l.seq, point_type(l.op));
                }
                let key: Vec<u8> = bytes::copy(user_key(ikey));
                let seq: u64 = sequence_of(ikey);
                let value_type: u8 = ikey[ikey.len() - 1];
                if value_type == VALUE_TYPE_VALUE {
                    out.push(WalEntry::Put { key, value: bytes::copy(value), seq });
                } else if value_type == VALUE_TYPE_MERGE {
                    out.push(WalEntry::Merge { key, operand: bytes::copy(value), seq });
                } else {
                    out.push(WalEntry::Delete { key, seq });
                }
                i += 1;
            } else {
                proof {
                    assert(l.op is DeleteRange);
                    assert(tomb_views(self.tombs@)[t as int] == ranges_of(h.take(n + 1))[t as int]);
                }
                let tomb = &self.tombs[t];
                out.push(
                    WalEntry::DeleteRange {
                        start: bytes::copy(tomb.start.as_slice()),
                        end: bytes::copy(tomb.end.as_slice()),
                        seq: tomb.seq,
                    },
                );
                t += 1;
            }
            proof {
                assert(out@[n as int]@ == l);
                assert(logged(out@) =~= h.take(n + 1)) by {
                    assert forall|x: int| 0 <= x < n + 1 implies logged(out@)[x]
                        == #[trigger] h.take(n + 1)[x] by {
                        if x < n {
                            assert(out@[x] == before[x]);
                            assert(logged(before)[x] == h.take(n as int)[x]);
                        }
                    }
                }
            }
            n += 1;
        }
        assert(h.take(n as int) =~= h);
        out
    }

    /// How many entries, and how many bytes in them, the table holds on keys
    /// in `[lo, hi)`: every version counts, deletions too.
    pub fn stats_in(&self, lo: &[u8], hi: &[u8]) -> (r: (u64, u64))
        requires
            self.wf(),
        ensures
            r.0 == tally(self.history(), lo@, hi@).count,
            r.1 == at_most_u64(tally(self.history(), lo@, hi@).size),
    {
        let target: Vec<u8> = encode_internal_key(lo, u64::MAX, 0);
        let mut cursor: Option<NodeRef> = self.points.seek_ge(target.as_slice());
        let ghost s = self.entries();
        let ghost mut p: int = rank(s, target@) as int;
        let mut count: u64 = 0;
        let mut size: u64 = 0;
        proof {
            self.points.lemma_entries_sorted();
            lemma_rank_parts(s, target@);
            self.lemma_from(lo@, p);
            lemma_tally_outside(s, lo@, hi@, 0, p);
            assert(s.take(0) =~= Seq::<Entry>::empty());
        }
        loop
            invariant
                self.wf(),
                s == self.entries(),
                0 <= p <= s.len(),
                cursor is Some <==> p < s.len(),
                cursor matches Some(node) ==> node.wf() && node.of() == self.points
                    && node.position() == p,
                forall|q: int|
                    p <= q < s.len() ==> bytes_le(lo@, user_part((#[trigger] s[q]).key)),
                count <= p,
                count == tally_entries(s.take(p), lo@, hi@).count,
                size == at_most_u64(tally_entries(s.take(p), lo@, hi@).size),
            ensures
                count == tally_entries(s, lo@, hi@).count,
                size == at_most_u64(tally_entries(s, lo@, hi@).size),
            decreases s.len() - p,
        {
            match cursor {
                None => {
                    assert(s.take(p) =~= s);
                    break ;
                },
                Some(node) => {
                    let ikey = node.key();
                    let found = user_key(ikey);
                    if !bytes::lt(found, hi) {
                        proof {
                            assert forall|q: int| p <= q < s.len() implies !covers(
                                lo@,
                                hi@,
                                user_part((#[trigger] s[q]).key),
                            ) by {
                                self.lemma_user_order(p, q);
                                if bytes_lt(user_part(s[q].key), hi@) {
                                    lemma_bytes_le_lt(found@, user_part(s[q].key), hi@);
                                }
                            }
                            lemma_tally_outside(s, lo@, hi@, p, s.len() as int);
                            assert(s.take(s.len() as int) =~= s);
                        }
                        break ;
                    }
                    let value = node.value();
                    proof {
                        assert(s.take(p + 1).drop_last() =~= s.take(p));
                        assert(s.take(p + 1).last() == s[p]);
                        assert(covers(lo@, hi@, user_part(s[p].key)));
                    }
                    let held: usize = self.points.len();
                    assert(count < held);
                    count = count + 1;
                    size = size.saturating_add(ikey.len() as u64).saturating_add(
                        value.len() as u64,
                    );
                    proof {
                        p = p + 1;
                    }
                    cursor = node.next();
                },
            }
        }
        proof {
            assert(tally_entries(self.entries(), lo@, hi@) == tally(self.history@, lo@, hi@));
        }
        (count, size)
    }
}

impl MemTable {
    /// The smallest and the largest key that point writes of the table name.
    pub fn key_range(&self) -> (r: Option<(Vec<u8>, Vec<u8>)>)
        requires
            self.wf(),
        ensures
            r is None <==> forall|i: int|
                0 <= i < self.history().len() ==> point_key((#[trigger] self.history()[i]).op)
                    is None,
            r matches Some((smallest, largest)) ==> {
                &&& exists|i: int|
                    0 <= i < self.history().len() && point_key((#[trigger] self.history()[i]).op)
                        == Some(smallest@)
                &&& exists|i: int|
                    0 <= i < self.history().len() && point_key((#[trigger] self.history()[i]).op)
                        == Some(largest@)
                &&& forall|i: int|
                    0 <= i < self.history().len() && point_key((#[trigger] self.history()[i]).op)
                        is Some ==> bytes_le(smallest@, point_key(self.history()[i].op)->0)
                        && bytes_le(point_key(self.history()[i].op)->0, largest@)
            },
    {
        let ghost h = self.history@;
        let ghost s = self.entries();
        let smallest: Option<Vec<u8>> = match self.points.first() {
            Some(node) => Some(bytes::copy(user_key(node.key()))),
            None => None,
        };
        let largest: Option<Vec<u8>> = match self.points.last() {
            Some(node) => Some(bytes::copy(user_key(node.key()))),
            None => None,
        };
        proof {
            assert forall|i: int|
                0 <= i < h.len() && point_key((#[trigger] h[i]).op) is Some implies s.len() > 0
                && bytes_le(user_part(s[0].key), point_key(h[i].op)->0) && bytes_le(
                point_key(h[i].op)->0,
                user_part(s.last().key),
            ) by {
                let p = self.place(i);
                lemma_internal_key_decodes(point_key(h[i].op)->0, h[i].seq, point_type(h[i].op));
                self.lemma_user_order(0, p);
                self.lemma_user_order(p, s.len() - 1);
            }
            if s.len() > 0 {
                let i = self.source(0);
                let j = self.source(s.len() - 1);
                lemma_internal_key_decodes(point_key(h[i].op)->0, h[i].seq, point_type(h[i].op));
                lemma_internal_key_decodes(point_key(h[j].op)->0, h[j].seq, point_type(h[j].op));
                assert(point_key(h[i].op) == Some(user_part(s[0].key)));
                assert(point_key(h[j].op) == Some(user_part(s.last().key)));
            }
        }
        match (smallest, largest) {
            (Some(a), Some(b)) => Some((a, b)),
            _ => None,
        }
    }
}

impl MemTable {
    /// A table of its own that holds the same writes.
    pub fn duplicate(&self) -> (r: Self)
        requires
            self.wf(),
            forall|j: int|
                0 <= j < self.history().len() ==> storable((#[trigger] self.history()[j]).op),
        ensures
            r.wf(),
            r.history() == self.history(),
    {
        let entries: Vec<WalEntry> = self.export();
        let ghost h = self.history();
        let mut out: MemTable = MemTable::new();
        let mut i: usize = 0;
        proof {
            self.lemma_ordered();
            assert(h.take(0) =~= Seq::<Logged>::empty());
        }
        while i < entries.len()
            invariant
                h == logged(entries@),
                ordered(h),
                forall|j: int| 0 <= j < h.len() ==> storable((#[trigger] h[j]).op),
                i <= entries@.len(),
                out.wf(),
                out.history() == h.take(i as int),
            decreases entries@.len() - i,
        {
            proof {
                let l = h[i as int];
                assert(storable(l.op) && l.seq >= 1);
                assert forall|x: int| 0 <= x < i implies (#[trigger] h.take(i as int)[x]).seq <= (
                l.seq - 1) as u64 by {
                    assert(h[x].seq < h[i as int].seq);
                }
                assert(h.take(i + 1) =~= h.take(i as int).push(l));
            }
            match &entries[i] {
                WalEntry::Put { key, value, seq } => out.put(
                    *seq,
                    key.as_slice(),
                    value.as_slice(),
                ),
                WalEntry::Delete { key, seq } => out.delete(*seq, key.as_slice()),
                WalEntry::Merge { key, operand, seq } => out.merge(
                    *seq,
                    key.as_slice(),
                    operand.as_slice(),
                ),
                WalEntry::DeleteRange { start, end, seq } => out.delete_range(
                    *seq,
                    start.as_slice(),
                    end.as_slice(),
                ),
            }
            i += 1;
        }
        assert(h.take(i as int) =~= h);
        out
    }
}

} // verus!
