//! Insert-only skip list over a growing run of nodes.
//!
//! Every node keeps its internal key, its value, and a tower of forward
//! links, level 0 first; node 0 is the head sentinel, whose tower has every
//! level and whose key is never read. A link is the index of a node, and 0
//! at the end of a level. No node is ever removed, so an index stays good
//! for the life of the list.

use vstd::prelude::*;

use super::internal_key::{
    encode_internal_key, internal_key_lt, internal_key_of, key_lt, lemma_key_le_lt,
    lemma_key_lt_irreflexive, lemma_key_lt_transitive, INTERNAL_KEY_SUFFIX_LEN,
};
use crate::bytes;

verus! {

/// Maximum tower height. With [`BRANCHING`] 4, height 12 indexes about
/// 16.7M entries.
pub const MAX_HEIGHT: usize = 12;

/// Expected fan-out between adjacent levels.
pub const BRANCHING: u64 = 4;

/// Bytes before the tower: two lengths, the height, and padding.
pub const NODE_HEADER: usize = 16;

/// Size of one tower slot.
pub const LINK_SIZE: usize = 8;

/// Alignment every node is accounted at.
pub const NODE_ALIGN: usize = 8;

/// First state of the height draw. Any nonzero seed works; a fixed one
/// keeps the heights reproducible across runs.
pub const HEIGHT_SEED: u64 = 0x2545_F491_4F6C_DD1D;

/// One entry of the list, as a reader sees it.
pub ghost struct Entry {
    pub key: Seq<u8>,
    pub value: Seq<u8>,
    pub height: nat,
}

/// One step of the xorshift generator behind the height draw.
pub open spec fn xorshift(x: u64) -> u64 {
    let a = x ^ (x << 13);
    let b = a ^ (a >> 7);
    b ^ (b << 17)
}

/// The height a draw stands for: one level, and one more for every factor
/// of [`BRANCHING`] in it.
pub open spec fn drawn_height(draw: nat, height: nat) -> nat
    decreases MAX_HEIGHT - height,
{
    if height < MAX_HEIGHT && draw % (BRANCHING as nat) == 0 {
        drawn_height(draw / (BRANCHING as nat), height + 1)
    } else {
        height
    }
}

/// How many leading entries sort before `key`: the position of the first
/// entry at or after it.
pub open spec fn rank(s: Seq<Entry>, key: Seq<u8>) -> nat
    decreases s.len(),
{
    if s.len() == 0 || !key_lt(s[0].key, key) {
        0
    } else {
        1 + rank(s.drop_first(), key)
    }
}

/// How many leading entries do not sort after `key`: the position of the
/// first entry above it.
pub open spec fn rank_past(s: Seq<Entry>, key: Seq<u8>) -> nat
    decreases s.len(),
{
    if s.len() == 0 || key_lt(key, s[0].key) {
        0
    } else {
        1 + rank_past(s.drop_first(), key)
    }
}

/// The position that parts the entries not above `key` from those above it
/// is the rank past it.
pub proof fn lemma_rank_past(s: Seq<Entry>, key: Seq<u8>, p: int)
    requires
        0 <= p <= s.len(),
        forall|q: int| 0 <= q < p ==> !key_lt(key, (#[trigger] s[q]).key),
        p < s.len() ==> key_lt(key, s[p].key),
    ensures
        rank_past(s, key) == p,
    decreases s.len(),
{
    if p > 0 {
        let rest = s.drop_first();
        assert forall|q: int| 0 <= q < p - 1 implies !key_lt(key, (#[trigger] rest[q]).key) by {
            assert(rest[q] == s[q + 1]);
        }
        lemma_rank_past(rest, key, p - 1);
        assert(!key_lt(key, s[0].key));
    }
}

/// Entries in internal-key order; of equal keys the latest comes first.
pub open spec fn sorted(s: Seq<Entry>) -> bool {
    forall|i: int, j: int|
        0 <= i < j < s.len() ==> !key_lt((#[trigger] s[j]).key, (#[trigger] s[i]).key)
}

/// `p` parts the entries below `key` from those at or above it.
pub open spec fn parts_at(s: Seq<Entry>, key: Seq<u8>, p: int) -> bool {
    &&& 0 <= p <= s.len()
    &&& forall|q: int| 0 <= q < p ==> key_lt((#[trigger] s[q]).key, key)
    &&& forall|q: int| p <= q < s.len() ==> !key_lt((#[trigger] s[q]).key, key)
}

/// The parting position is the rank.
pub proof fn lemma_parts_at_rank(s: Seq<Entry>, key: Seq<u8>, p: int)
    requires
        parts_at(s, key, p),
    ensures
        rank(s, key) == p,
    decreases s.len(),
{
    if p > 0 {
        let rest = s.drop_first();
        assert(parts_at(rest, key, p - 1)) by {
            assert forall|q: int| 0 <= q < p - 1 implies key_lt((#[trigger] rest[q]).key, key) by {
                assert(rest[q] == s[q + 1]);
            }
            assert forall|q: int| p - 1 <= q < rest.len() implies !key_lt(
                (#[trigger] rest[q]).key,
                key,
            ) by {
                assert(rest[q] == s[q + 1]);
            }
        }
        lemma_parts_at_rank(rest, key, p - 1);
        assert(key_lt(s[0].key, key));
    } else if s.len() > 0 {
        assert(!key_lt(s[0].key, key));
    }
}

/// Of sorted entries, the rank parts those below `key` from the rest.
pub proof fn lemma_rank_parts(s: Seq<Entry>, key: Seq<u8>)
    requires
        sorted(s),
    ensures
        parts_at(s, key, rank(s, key) as int),
    decreases s.len(),
{
    if s.len() > 0 {
        let rest = s.drop_first();
        if key_lt(s[0].key, key) {
            assert(sorted(rest)) by {
                assert forall|i: int, j: int| 0 <= i < j < rest.len() implies !key_lt(
                    (#[trigger] rest[j]).key,
                    (#[trigger] rest[i]).key,
                ) by {
                    assert(rest[i] == s[i + 1]);
                    assert(rest[j] == s[j + 1]);
                }
            }
            lemma_rank_parts(rest, key);
            let p = rank(s, key) as int;
            assert forall|q: int| 0 <= q < p implies key_lt((#[trigger] s[q]).key, key) by {
                if q > 0 {
                    assert(rest[q - 1] == s[q]);
                }
            }
            assert forall|q: int| p <= q < s.len() implies !key_lt((#[trigger] s[q]).key, key) by {
                assert(rest[q - 1] == s[q]);
            }
        } else {
            assert forall|q: int| 0 <= q < s.len() implies !key_lt((#[trigger] s[q]).key, key) by {
                if q > 0 && key_lt(s[q].key, key) {
                    assert(!key_lt(s[q].key, s[0].key));
                    lemma_key_le_lt(s[0].key, s[q].key, key);
                }
            }
        }
    }
}

/// Bytes one node of the given shape is accounted at.
pub open spec fn node_size_of(key_len: int, value_len: int, height: int) -> int {
    let raw = NODE_HEADER + LINK_SIZE * height + key_len + value_len;
    (raw + (NODE_ALIGN - 1)) / (NODE_ALIGN as int) * NODE_ALIGN
}

/// Bytes one node occupies for the given shape: its header, its tower, its
/// key and its value, rounded up to the node alignment.
pub fn node_size(key_len: usize, value_len: usize, height: usize) -> (r: usize)
    requires
        height <= MAX_HEIGHT,
        key_len + value_len + NODE_HEADER + LINK_SIZE * MAX_HEIGHT + NODE_ALIGN <= usize::MAX,
    ensures
        r == node_size_of(key_len as int, value_len as int, height as int),
        r % NODE_ALIGN == 0,
        NODE_HEADER + LINK_SIZE * height + key_len + value_len <= r < NODE_HEADER + LINK_SIZE
            * height + key_len + value_len + NODE_ALIGN,
{
    let raw: usize = NODE_HEADER + LINK_SIZE * height + key_len + value_len;
    (raw + (NODE_ALIGN - 1)) / NODE_ALIGN * NODE_ALIGN
}

/// Most bytes an entry of this shape can take: its height is drawn only at
/// insert time, so this assumes the tallest tower.
pub fn max_node_size(internal_key_len: usize, value_len: usize) -> (r: usize)
    requires
        internal_key_len + value_len + NODE_HEADER + LINK_SIZE * MAX_HEIGHT + NODE_ALIGN
            <= usize::MAX,
    ensures
        r == node_size_of(internal_key_len as int, value_len as int, MAX_HEIGHT as int),
        forall|h: int|
            0 <= h <= MAX_HEIGHT ==> #[trigger] node_size_of(
                internal_key_len as int,
                value_len as int,
                h,
            ) <= r,
{
    node_size(internal_key_len, value_len, MAX_HEIGHT)
}

/// One node: an entry and its tower of links.
pub struct Node {
    key: Vec<u8>,
    value: Vec<u8>,
    tower: Vec<usize>,
}

/// Insert-only skip list.
pub struct ArenaSkipList {
    nodes: Vec<Node>,
    /// State of the height draw.
    rnd: u64,
    /// The node at each position of level 0, the head first.
    order: Ghost<Seq<int>>,
    /// The position of each node in `order`.
    pos: Ghost<Seq<int>>,
}

/// A borrowed view of one node.
#[derive(Clone, Copy)]
pub struct NodeRef<'a> {
    list: &'a ArenaSkipList,
    index: usize,
}

/// Where the previous insert through it landed: the predecessor and the
/// successor at every level, so that an insert of a key that sorts after
/// that position starts its descent there instead of at the head.
///
/// A hint can only save work, never misplace a node: every level taken from
/// it is compared with the live links before it is used.
pub struct InsertHint {
    /// Whether an insert has left a position here yet.
    bound: bool,
    prev: Vec<usize>,
    next: Vec<usize>,
}

impl ArenaSkipList {
    spec fn n(self) -> int {
        self.nodes@.len() as int
    }

    spec fn height(self, i: int) -> int {
        self.nodes@[i].tower@.len() as int
    }

    spec fn key(self, i: int) -> Seq<u8> {
        self.nodes@[i].key@
    }

    spec fn link(self, i: int, level: int) -> int {
        self.nodes@[i].tower@[level] as int
    }

    /// The position a link leads to: one past the last at the end.
    spec fn link_pos(self, t: int) -> int {
        if t == 0 {
            self.n()
        } else {
            self.pos@[t]
        }
    }

    /// Node `i`'s link at `level` leads to the next node that has it.
    spec fn linked(self, i: int, level: int) -> bool {
        let t = self.link(i, level);
        &&& 0 <= t < self.n()
        &&& self.link_pos(t) > self.pos@[i]
        &&& t != 0 ==> self.height(t) > level
        &&& forall|q: int|
            self.pos@[i] < q < self.link_pos(t) ==> self.height(#[trigger] self.order@[q]) <= level
    }

    /// `order` and `pos` are inverse permutations that keep the head first.
    spec fn permuted(self) -> bool {
        &&& self.n() >= 1
        &&& self.order@.len() == self.n()
        &&& self.pos@.len() == self.n()
        &&& self.order@[0] == 0
        &&& self.pos@[0] == 0
        &&& forall|p: int|
            0 <= p < self.n() ==> 0 <= #[trigger] self.order@[p] < self.n()
                && self.pos@[self.order@[p]] == p
        &&& forall|i: int|
            0 <= i < self.n() ==> 0 <= #[trigger] self.pos@[i] < self.n()
                && self.order@[self.pos@[i]] == i
    }

    spec fn tall(self) -> bool {
        &&& self.height(0) == MAX_HEIGHT
        &&& forall|i: int| 0 <= i < self.n() ==> 1 <= #[trigger] self.height(i) <= MAX_HEIGHT
    }

    spec fn in_order(self) -> bool {
        forall|p: int, q: int|
            1 <= p < q < self.n() ==> !key_lt(
                self.key(#[trigger] self.order@[q]),
                self.key(#[trigger] self.order@[p]),
            )
    }

    spec fn all_linked(self) -> bool {
        forall|i: int, l: int|
            0 <= i < self.n() && 0 <= l < self.height(i) ==> #[trigger] self.linked(i, l)
    }

    /// Level 0 is the chain of all the nodes, in key order.
    pub closed spec fn chained(self) -> bool {
        &&& self.permuted()
        &&& self.tall()
        &&& self.in_order()
        &&& forall|i: int| 0 <= i < self.n() ==> #[trigger] self.linked(i, 0)
    }

    /// Every level is the chain of exactly the nodes tall enough for it.
    pub closed spec fn consistent(self) -> bool {
        self.all_linked()
    }

    /// The list is whole: level 0 is in key order, and every level is the
    /// chain of exactly the nodes tall enough for it.
    pub open spec fn wf(self) -> bool {
        &&& self.chained()
        &&& self.consistent()
    }

    spec fn entry(self, i: int) -> Entry {
        Entry {
            key: self.nodes@[i].key@,
            value: self.nodes@[i].value@,
            height: self.nodes@[i].tower@.len(),
        }
    }

    /// The entries in internal-key order.
    pub closed spec fn entries(self) -> Seq<Entry> {
        Seq::new((self.n() - 1) as nat, |p: int| self.entry(self.order@[p + 1]))
    }

    /// Keys and values in the order they were inserted.
    pub closed spec fn arrivals(self) -> Seq<(Seq<u8>, Seq<u8>)> {
        Seq::new(
            (self.n() - 1) as nat,
            |i: int| (self.nodes@[i + 1].key@, self.nodes@[i + 1].value@),
        )
    }

    /// The state of the height draw.
    pub closed spec fn draw_state(self) -> u64 {
        self.rnd
    }

    /// The height the next entry will have.
    pub open spec fn next_height(self) -> nat {
        drawn_height(xorshift(self.draw_state()) as nat, 1)
    }

    /// The entry that [`ArenaSkipList::insert`] would add.
    pub open spec fn entry_for(self, user_key: Seq<u8>, seq: u64, value_type: u8, value: Seq<u8>) -> Entry {
        Entry {
            key: internal_key_of(user_key, seq, value_type),
            value,
            height: self.next_height(),
        }
    }

    /// The position after `p` that level `level` links to; -1 is the head.
    pub closed spec fn successor(self, p: int, level: int) -> int {
        self.link_pos(self.link(self.order@[p + 1], level)) - 1
    }

    spec fn below(self, i: int, key: Seq<u8>) -> bool {
        i == 0 || key_lt(self.key(i), key)
    }

    spec fn at_or_above(self, t: int, key: Seq<u8>) -> bool {
        t == 0 || !key_lt(self.key(t), key)
    }

    /// `prev` and `next` bracket `key` at `level`.
    spec fn brackets(self, prev: int, next: int, level: int, key: Seq<u8>) -> bool {
        &&& 0 <= prev < self.n()
        &&& self.height(prev) > level
        &&& self.below(prev, key)
        &&& 0 <= next < self.n()
        &&& next != 0 ==> self.height(next) > level
        &&& self.at_or_above(next, key)
    }

    /// An earlier node than one below `key` is below it too.
    proof fn lemma_below_earlier(self, i: int, j: int, key: Seq<u8>)
        requires
            self.wf(),
            0 <= i < self.n(),
            0 <= j < self.n(),
            self.below(i, key),
            self.pos@[j] <= self.pos@[i],
        ensures
            self.below(j, key),
    {
        if j != 0 && j != i {
            assert(self.order@[self.pos@[j]] == j);
            assert(self.order@[self.pos@[i]] == i);
            lemma_key_le_lt(self.key(j), self.key(i), key);
        }
    }

    /// A later node than one at or above `key` is at or above it too.
    proof fn lemma_above_later(self, t: int, u: int, key: Seq<u8>)
        requires
            self.wf(),
            0 <= t < self.n(),
            0 <= u < self.n(),
            self.at_or_above(t, key),
            self.link_pos(t) <= self.link_pos(u),
        ensures
            self.at_or_above(u, key),
    {
        if u != 0 && u != t {
            assert(t != 0);
            assert(self.order@[self.pos@[u]] == u);
            assert(self.order@[self.pos@[t]] == t);
            if key_lt(self.key(u), key) {
                lemma_key_le_lt(self.key(t), self.key(u), key);
            }
        }
    }

    /// The level-0 bracket of `key` parts the whole list.
    proof fn lemma_parts(self, prev: int, key: Seq<u8>)
        requires
            self.wf(),
            self.brackets(prev, self.link(prev, 0), 0, key),
        ensures
            self.link_pos(self.link(prev, 0)) == self.pos@[prev] + 1,
            forall|q: int|
                1 <= q <= self.pos@[prev] ==> key_lt(self.key(#[trigger] self.order@[q]), key),
            forall|q: int|
                self.pos@[prev] < q < self.n() ==> !key_lt(
                    self.key(#[trigger] self.order@[q]),
                    key,
                ),
            parts_at(self.entries(), key, self.pos@[prev]),
    {
        let next = self.link(prev, 0);
        assert(self.linked(prev, 0));
        if self.pos@[prev] + 1 < self.link_pos(next) {
            let q = self.pos@[prev] + 1;
            assert(self.height(self.order@[q]) <= 0);
        }
        assert forall|q: int| 1 <= q <= self.pos@[prev] implies key_lt(
            self.key(#[trigger] self.order@[q]),
            key,
        ) by {
            self.lemma_below_earlier(prev, self.order@[q], key);
        }
        assert forall|q: int| self.pos@[prev] < q < self.n() implies !key_lt(
            self.key(#[trigger] self.order@[q]),
            key,
        ) by {
            self.lemma_above_later(next, self.order@[q], key);
        }
        let s = self.entries();
        let p = self.pos@[prev];
        assert forall|q: int| 0 <= q < p implies key_lt((#[trigger] s[q]).key, key) by {
            assert(s[q] == self.entry(self.order@[q + 1]));
        }
        assert forall|q: int| p <= q < s.len() implies !key_lt((#[trigger] s[q]).key, key) by {
            assert(s[q] == self.entry(self.order@[q + 1]));
        }
    }

    /// A bracket of `key` at any level stands on both sides of its position.
    proof fn lemma_bracket_positions(self, prev: int, next: int, level: int, key: Seq<u8>, at: int)
        requires
            self.wf(),
            self.brackets(at, self.link(at, 0), 0, key),
            self.brackets(prev, next, level, key),
        ensures
            self.pos@[prev] <= self.pos@[at],
            self.link_pos(next) > self.pos@[at],
    {
        self.lemma_parts(at, key);
        assert(self.order@[self.pos@[prev]] == prev);
        if next != 0 {
            assert(self.order@[self.pos@[next]] == next);
        }
    }

    /// Entries come out in key order.
    pub proof fn lemma_entries_sorted(self)
        requires
            self.wf(),
        ensures
            sorted(self.entries()),
    {
        let s = self.entries();
        assert forall|i: int, j: int| 0 <= i < j < s.len() implies !key_lt(
            (#[trigger] s[j]).key,
            (#[trigger] s[i]).key,
        ) by {
            assert(s[i] == self.entry(self.order@[i + 1]));
            assert(s[j] == self.entry(self.order@[j + 1]));
        }
    }

    /// Every entry's tower reaches level 0, and none is taller than the most.
    pub proof fn lemma_tower_height(self, p: int)
        requires
            self.wf(),
            0 <= p < self.entries().len(),
        ensures
            1 <= self.entries()[p].height <= MAX_HEIGHT,
    {
        assert(self.entries()[p] == self.entry(self.order@[p + 1]));
        assert(1 <= self.height(self.order@[p + 1]) <= MAX_HEIGHT);
    }

    /// Every level is level 0 less the entries too short for it: the link at
    /// `level` of the entry at `p` (or of the head, -1) leads to the next
    /// entry whose tower reaches `level`, and to the end when there is none.
    pub proof fn lemma_towers_consistent(self, p: int, level: int)
        requires
            self.wf(),
            -1 <= p < self.entries().len(),
            0 <= level < MAX_HEIGHT,
            p >= 0 ==> level < self.entries()[p].height,
        ensures
            p < self.successor(p, level) <= self.entries().len(),
            self.successor(p, level) < self.entries().len() ==> self.entries()[self.successor(
                p,
                level,
            )].height > level,
            forall|q: int|
                p < q < self.successor(p, level) ==> (#[trigger] self.entries()[q]).height <= level,
    {
        let i = self.order@[p + 1];
        let s = self.entries();
        assert(p >= 0 ==> s[p] == self.entry(i));
        assert(self.height(i) > level);
        assert(self.linked(i, level));
        let t = self.link(i, level);
        if t != 0 {
            assert(s[self.pos@[t] - 1] == self.entry(self.order@[self.pos@[t]]));
        }
        assert forall|q: int| p < q < self.successor(p, level) implies (
        #[trigger] s[q]).height <= level by {
            assert(s[q] == self.entry(self.order@[q + 1]));
            assert(self.height(self.order@[q + 1]) <= level);
        }
    }
}

/// `b` is `a` with node `n` linked in at position `p`, after `prev` at each
/// level of its tower.
spec fn spliced(a: ArenaSkipList, b: ArenaSkipList, p: int, prev: Seq<usize>) -> bool {
    let n = a.n();
    let h = b.height(n);
    &&& b.n() == n + 1
    &&& 1 <= p <= n
    &&& prev.len() >= h
    &&& 1 <= h <= MAX_HEIGHT
    &&& b.order@ == a.order@.insert(p, n)
    &&& b.pos@ == Seq::new(
        (n + 1) as nat,
        |i: int|
            if i == n {
                p
            } else if a.pos@[i] < p {
                a.pos@[i]
            } else {
                a.pos@[i] + 1
            },
    )
    &&& forall|i: int|
        0 <= i < n ==> {
            &&& (#[trigger] b.nodes@[i]).key == a.nodes@[i].key
            &&& b.nodes@[i].value == a.nodes@[i].value
            &&& b.nodes@[i].tower@.len() == a.nodes@[i].tower@.len()
        }
    &&& forall|i: int, l: int|
        0 <= i < n && 0 <= l < a.height(i) ==> #[trigger] b.link(i, l) == if l < h && prev[l] == i {
            n
        } else {
            a.link(i, l)
        }
}

/// Splicing a node in where its key belongs keeps the list whole.
proof fn lemma_spliced_wf(a: ArenaSkipList, b: ArenaSkipList, p: int, prev: Seq<usize>)
    requires
        a.wf(),
        spliced(a, b, p, prev),
        forall|l: int|
            0 <= l < b.height(a.n()) ==> {
                &&& 0 <= #[trigger] prev[l] < a.n()
                &&& a.height(prev[l] as int) > l
                &&& a.pos@[prev[l] as int] < p
                &&& b.link(a.n(), l) == a.link(prev[l] as int, l)
                &&& a.link_pos(a.link(prev[l] as int, l)) >= p
            },
        forall|q: int|
            1 <= q < p ==> !key_lt(b.key(a.n()), a.key(#[trigger] a.order@[q])),
        forall|q: int|
            p <= q < a.n() ==> !key_lt(a.key(#[trigger] a.order@[q]), b.key(a.n())),
    ensures
        b.wf(),
        b.entries() == a.entries().insert(p - 1, b.entry(a.n())),
{
    let n = a.n();
    let h = b.height(n);
    assert(b.permuted()) by {
        assert forall|q: int| 0 <= q < b.n() implies 0 <= #[trigger] b.order@[q] < b.n()
            && b.pos@[b.order@[q]] == q by {
            if q < p {
                assert(b.order@[q] == a.order@[q]);
            } else if q > p {
                assert(b.order@[q] == a.order@[q - 1]);
            }
        }
        assert forall|i: int| 0 <= i < b.n() implies 0 <= #[trigger] b.pos@[i] < b.n()
            && b.order@[b.pos@[i]] == i by {
            if i < n {
                assert(a.order@[a.pos@[i]] == i);
            }
        }
    }
    assert(b.tall()) by {
        assert forall|i: int| 0 <= i < b.n() implies 1 <= #[trigger] b.height(i) <= MAX_HEIGHT by {
            if i < n {
                assert(a.height(i) == b.height(i));
            }
        }
        assert(a.height(0) == b.height(0));
    }
    assert forall|q: int| 0 <= q < b.n() implies #[trigger] b.order@[q] == (if q < p {
        a.order@[q]
    } else if q == p {
        n
    } else {
        a.order@[q - 1]
    }) by {}
    assert(b.in_order()) by {
        assert forall|q: int, r: int| 1 <= q < r < b.n() implies !key_lt(
            b.key(#[trigger] b.order@[r]),
            b.key(#[trigger] b.order@[q]),
        ) by {
            let qa = if q < p { q } else { q - 1 };
            let ra = if r < p { r } else { r - 1 };
            assert(q != p ==> b.key(b.order@[q]) == a.key(a.order@[qa]));
            assert(r != p ==> b.key(b.order@[r]) == a.key(a.order@[ra]));
        }
    }
    assert(b.all_linked()) by {
        assert forall|i: int, l: int|
            0 <= i < b.n() && 0 <= l < b.height(i) implies #[trigger] b.linked(i, l) by {
            lemma_spliced_link(a, b, p, prev, i, l);
        }
    }
    assert(b.entries() =~= a.entries().insert(p - 1, b.entry(n))) by {
        assert forall|q: int| 0 <= q < b.entries().len() implies #[trigger] b.entries()[q]
            == a.entries().insert(p - 1, b.entry(n))[q] by {
            let i = b.order@[q + 1];
            if q < p - 1 {
                assert(a.entries()[q] == a.entry(a.order@[q + 1]));
                assert(b.nodes@[i].key == a.nodes@[i].key);
            } else if q > p - 1 {
                assert(a.entries()[q - 1] == a.entry(a.order@[q]));
                assert(b.nodes@[i].key == a.nodes@[i].key);
            }
        }
    }
}

/// Each link of the spliced list leads to the next node of its level.
proof fn lemma_spliced_link(
    a: ArenaSkipList,
    b: ArenaSkipList,
    p: int,
    prev: Seq<usize>,
    i: int,
    l: int,
)
    requires
        a.wf(),
        spliced(a, b, p, prev),
        0 <= i < b.n(),
        0 <= l < b.height(i),
        forall|l: int|
            0 <= l < b.height(a.n()) ==> {
                &&& 0 <= #[trigger] prev[l] < a.n()
                &&& a.height(prev[l] as int) > l
                &&& a.pos@[prev[l] as int] < p
                &&& b.link(a.n(), l) == a.link(prev[l] as int, l)
                &&& a.link_pos(a.link(prev[l] as int, l)) >= p
            },
    ensures
        b.linked(i, l),
{
    let n = a.n();
    let h = b.height(n);
    let t = b.link(i, l);
    if i == n {
        let pi = prev[l] as int;
        assert(a.linked(pi, l));
        assert(0 <= t < n);
        if t != 0 {
            assert(b.height(t) == a.height(t)) by {
                assert(b.nodes@[t].key == a.nodes@[t].key);
            }
        }
        assert forall|q: int| b.pos@[i] < q < b.link_pos(t) implies b.height(
            #[trigger] b.order@[q],
        ) <= l by {
            assert(b.order@[q] == a.order@[q - 1]);
            assert(a.height(a.order@[q - 1]) <= l);
            assert(b.nodes@[b.order@[q]].key == a.nodes@[b.order@[q]].key);
        }
    } else {
        assert(b.nodes@[i].key == a.nodes@[i].key);
        assert(a.height(i) == b.height(i));
        assert(a.linked(i, l));
        let u = a.link(i, l);
        if l < h && prev[l] == i {
            assert(t == n);
            assert forall|q: int| b.pos@[i] < q < b.link_pos(t) implies b.height(
                #[trigger] b.order@[q],
            ) <= l by {
                assert(b.order@[q] == a.order@[q]);
                assert(a.height(a.order@[q]) <= l);
                assert(b.nodes@[b.order@[q]].key == a.nodes@[b.order@[q]].key);
            }
        } else {
            assert(t == u);
            if t != 0 {
                assert(b.nodes@[t].key == a.nodes@[t].key);
            }
            if l < h && a.pos@[i] < p && a.link_pos(u) >= p {
                // The last node before `p` with this level is `prev[l]`.
                let pi = prev[l] as int;
                assert(a.linked(pi, l));
                if a.pos@[pi] < a.pos@[i] {
                    assert(a.height(a.order@[a.pos@[i]]) <= l);
                } else if a.pos@[i] < a.pos@[pi] {
                    assert(a.height(a.order@[a.pos@[pi]]) <= l);
                } else {
                    assert(a.order@[a.pos@[pi]] == pi);
                    assert(a.order@[a.pos@[i]] == i);
                }
                assert(false);
            }
            assert forall|q: int| b.pos@[i] < q < b.link_pos(t) implies b.height(
                #[trigger] b.order@[q],
            ) <= l by {
                if q != p {
                    let qa = if q < p { q } else { q - 1 };
                    assert(b.order@[q] == a.order@[qa]);
                    assert(a.height(a.order@[qa]) <= l);
                    assert(b.nodes@[b.order@[q]].key == a.nodes@[b.order@[q]].key);
                }
            }
        }
    }
}

impl InsertHint {
    /// An insert has left a position here.
    pub closed spec fn is_bound(self) -> bool {
        self.bound
    }

    /// The position in `list` of the hint's predecessor at `level`; -1 is
    /// the head.
    pub closed spec fn prev_at(self, list: ArenaSkipList, level: int) -> int {
        list.pos@[self.prev@[level] as int] - 1
    }

    /// The position in `list` of the hint's successor at `level`; the number
    /// of entries is the end.
    pub closed spec fn next_at(self, list: ArenaSkipList, level: int) -> int {
        list.link_pos(self.next@[level] as int) - 1
    }

    /// The hint stands at the entry at `p`: at every level its predecessor
    /// is that entry or an earlier one, its successor a later one, and both
    /// reach the level. At the levels of that entry's own tower they are the
    /// entry and the one its link leads to.
    pub open spec fn stands_at(self, list: ArenaSkipList, p: int) -> bool {
        let s = list.entries();
        &&& self.is_bound()
        &&& 0 <= p < s.len()
        &&& forall|l: int|
            #![trigger self.prev_at(list, l)]
            #![trigger self.next_at(list, l)]
            0 <= l < MAX_HEIGHT ==> {
                &&& -1 <= self.prev_at(list, l) <= p
                &&& self.prev_at(list, l) >= 0 ==> s[self.prev_at(list, l)].height > l
                &&& p < self.next_at(list, l) <= s.len()
                &&& self.next_at(list, l) < s.len() ==> s[self.next_at(list, l)].height > l
            }
        &&& forall|l: int|
            #![trigger self.prev_at(list, l)]
            #![trigger self.next_at(list, l)]
            0 <= l < s[p].height ==> {
                &&& self.prev_at(list, l) == p
                &&& self.next_at(list, l) == list.successor(p, l)
            }
    }

    /// The hint is unbound, or each of its levels is a place of `list`:
    /// a predecessor and a successor that reach the level, the successor
    /// later, and going up the levels the predecessors never later and the
    /// successors never earlier.
    pub closed spec fn fits(self, list: ArenaSkipList) -> bool {
        self.bound ==> {
            &&& self.prev@.len() == MAX_HEIGHT
            &&& self.next@.len() == MAX_HEIGHT
            &&& forall|l: int|
                0 <= l < MAX_HEIGHT ==> {
                    &&& 0 <= (#[trigger] self.prev@[l]) < list.n()
                    &&& list.height(self.prev@[l] as int) > l
                }
            &&& forall|l: int|
                0 <= l < MAX_HEIGHT ==> {
                    &&& 0 <= (#[trigger] self.next@[l]) < list.n()
                    &&& self.next@[l] != 0 ==> list.height(self.next@[l] as int) > l
                }
            &&& forall|l: int, k: int|
                0 <= l <= k < MAX_HEIGHT ==> list.pos@[(#[trigger] self.prev@[k]) as int]
                    <= list.pos@[(#[trigger] self.prev@[l]) as int]
            &&& forall|l: int, k: int|
                0 <= l <= k < MAX_HEIGHT ==> list.link_pos((#[trigger] self.next@[k]) as int)
                    >= list.link_pos((#[trigger] self.next@[l]) as int)
        }
    }
}

impl ArenaSkipList {
    /// `self` still holds every node of `before`, in the same order.
    pub closed spec fn extends(self, before: ArenaSkipList) -> bool {
        &&& self.n() >= before.n()
        &&& forall|i: int| 0 <= i < before.n() ==> #[trigger] self.height(i) == before.height(i)
        &&& forall|i: int, j: int|
            0 <= i < before.n() && 0 <= j < before.n() && before.pos@[i] <= before.pos@[j] ==> (
            #[trigger] self.pos@[i]) <= (#[trigger] self.pos@[j])
    }

    /// A hint stays good while the list it was made for grows.
    pub proof fn lemma_hint_survives(before: ArenaSkipList, after: ArenaSkipList, hint: InsertHint)
        requires
            before.wf(),
            after.wf(),
            after.extends(before),
            hint.fits(before),
        ensures
            hint.fits(after),
    {
        if hint.bound {
            assert forall|l: int| 0 <= l < MAX_HEIGHT implies {
                &&& 0 <= (#[trigger] hint.prev@[l]) < after.n()
                &&& after.height(hint.prev@[l] as int) > l
            } by {
                assert(after.height(hint.prev@[l] as int) == before.height(hint.prev@[l] as int));
            }
            assert forall|l: int| 0 <= l < MAX_HEIGHT implies {
                &&& 0 <= (#[trigger] hint.next@[l]) < after.n()
                &&& hint.next@[l] != 0 ==> after.height(hint.next@[l] as int) > l
            } by {
                assert(after.height(hint.next@[l] as int) == before.height(hint.next@[l] as int));
            }
            assert forall|l: int, k: int| 0 <= l <= k < MAX_HEIGHT implies after.link_pos(
                (#[trigger] hint.next@[k]) as int,
            ) >= after.link_pos((#[trigger] hint.next@[l]) as int) by {
                assert(before.link_pos(hint.next@[k] as int) >= before.link_pos(
                    hint.next@[l] as int,
                ));
                if hint.next@[k] != 0 {
                    assert(after.pos@[hint.next@[l] as int] <= after.pos@[hint.next@[k] as int]);
                } else {
                    assert(0 <= after.pos@[hint.next@[l] as int] < after.n());
                }
            }
        }
    }

    /// A new, empty list.
    pub fn new() -> (r: Self)
        ensures
            r.wf(),
            r.entries() == Seq::<Entry>::empty(),
            r.arrivals() == Seq::<(Seq<u8>, Seq<u8>)>::empty(),
            r.draw_state() == HEIGHT_SEED,
    {
        let head = Node { key: Vec::new(), value: Vec::new(), tower: vec![0usize; MAX_HEIGHT] };
        let mut nodes: Vec<Node> = Vec::new();
        nodes.push(head);
        let ghost alone: Seq<int> = seq![0int];
        let r = ArenaSkipList { nodes, rnd: HEIGHT_SEED, order: Ghost(alone), pos: Ghost(alone) };
        assert(r.entries() =~= Seq::<Entry>::empty());
        assert(r.arrivals() =~= Seq::<(Seq<u8>, Seq<u8>)>::empty());
        assert forall|i: int, l: int|
            0 <= i < r.n() && 0 <= l < r.height(i) implies #[trigger] r.linked(i, l) by {}
        r
    }

    /// Whether the list holds no entries.
    pub fn is_empty(&self) -> (r: bool)
        requires
            self.wf(),
        ensures
            r == (self.entries().len() == 0),
    {
        self.first().is_none()
    }

    /// Number of entries inserted.
    pub fn len(&self) -> (r: usize)
        requires
            self.wf(),
        ensures
            r == self.entries().len(),
    {
        self.nodes.len() - 1
    }

    /// Draw the height of the next node.
    fn random_height(&mut self) -> (r: usize)
        ensures
            r == old(self).next_height(),
            1 <= r <= MAX_HEIGHT,
            final(self).rnd == xorshift(old(self).rnd),
            final(self).nodes == old(self).nodes,
            final(self).order == old(self).order,
            final(self).pos == old(self).pos,
    {
        let mut x: u64 = self.rnd;
        x = x ^ (x << 13);
        x = x ^ (x >> 7);
        x = x ^ (x << 17);
        self.rnd = x;
        let mut height: usize = 1;
        let mut draw: u64 = x;
        while height < MAX_HEIGHT && draw % BRANCHING == 0
            invariant
                1 <= height <= MAX_HEIGHT,
                drawn_height(x as nat, 1) == drawn_height(draw as nat, height as nat),
            decreases MAX_HEIGHT - height,
        {
            height += 1;
            draw = draw / BRANCHING;
        }
        height
    }

    /// A fresh, unbound hint for a run of inserts into this list.
    pub fn insert_hint(&self) -> (r: InsertHint)
        ensures
            !r.is_bound(),
            forall|list: ArenaSkipList| #[trigger] r.fits(list),
    {
        InsertHint { bound: false, prev: Vec::new(), next: Vec::new() }
    }

    /// Walk level `level` forward from `from` to the last node whose key is
    /// below `key`; returns it and its successor.
    fn walk_level(&self, from: usize, level: usize, key: &[u8]) -> (r: (usize, usize))
        requires
            self.wf(),
            from < self.n(),
            level < self.height(from as int),
            self.below(from as int, key@),
        ensures
            self.brackets(r.0 as int, r.1 as int, level as int, key@),
            self.link(r.0 as int, level as int) == r.1,
            self.pos@[r.0 as int] >= self.pos@[from as int],
    {
        let mut cursor: usize = from;
        loop
            invariant
                self.wf(),
                cursor < self.n(),
                level < self.height(cursor as int),
                self.below(cursor as int, key@),
                self.pos@[cursor as int] >= self.pos@[from as int],
            decreases self.n() - self.pos@[cursor as int],
        {
            let next: usize = self.nodes[cursor].tower[level];
            assert(self.linked(cursor as int, level as int));
            if next == 0 {
                return (cursor, next);
            }
            if internal_key_lt(self.nodes[next].key.as_slice(), key) {
                cursor = next;
            } else {
                return (cursor, next);
            }
        }
    }

    /// Of two entries the one with the lesser key comes first.
    proof fn lemma_key_order(self, i: int, j: int)
        requires
            self.wf(),
            0 <= i < self.n(),
            0 <= j < self.n(),
        ensures
            0 <= self.pos@[i] < self.n(),
            0 <= self.pos@[j] < self.n(),
            self.pos@[0] == 0,
            i != 0 && j != 0 && key_lt(self.key(i), self.key(j)) ==> self.pos@[i] < self.pos@[j],
    {
        if i != 0 && j != 0 && key_lt(self.key(i), self.key(j)) && self.pos@[i] >= self.pos@[j] {
            let (p, q) = (self.pos@[i], self.pos@[j]);
            assert(self.order@[p] == i);
            assert(self.order@[q] == j);
            lemma_key_lt_irreflexive(self.key(i));
            if p == q {
                assert(i == j);
            }
        }
    }

    /// The hint is bound, and the key sorts after its predecessor at level 0.
    pub open spec fn hint_precedes(self, hint: InsertHint, key: Seq<u8>) -> bool {
        let p = hint.prev_at(self, 0);
        hint.is_bound() && (p >= 0 ==> key_lt(self.entries()[p].key, key))
    }

    /// At this level the hint's two entries are still neighbours, and the key
    /// sorts no later than the second.
    pub open spec fn hint_settles(self, hint: InsertHint, level: int, key: Seq<u8>) -> bool {
        let next = hint.next_at(self, level);
        &&& self.successor(hint.prev_at(self, level), level) == next
        &&& next < self.entries().len() ==> !key_lt(self.entries()[next].key, key)
    }

    /// [`ArenaSkipList::hint_precedes`], by nodes.
    spec fn node_precedes(self, hint: InsertHint, key: Seq<u8>) -> bool {
        hint.bound && (hint.prev@[0] != 0 ==> key_lt(self.key(hint.prev@[0] as int), key))
    }

    /// [`ArenaSkipList::hint_settles`], by nodes.
    spec fn node_settles(self, hint: InsertHint, level: int, key: Seq<u8>) -> bool {
        &&& self.link(hint.prev@[level] as int, level) == hint.next@[level]
        &&& hint.next@[level] != 0 ==> !key_lt(self.key(hint.next@[level] as int), key)
    }

    /// A place of the hint, told by nodes and by positions.
    proof fn lemma_hint_place(self, hint: InsertHint, level: int, key: Seq<u8>)
        requires
            self.wf(),
            hint.bound,
            hint.fits(self),
            0 <= level < MAX_HEIGHT,
        ensures
            self.hint_precedes(hint, key) == self.node_precedes(hint, key),
            self.hint_settles(hint, level, key) == self.node_settles(hint, level, key),
    {
        let s = self.entries();
        let first = hint.prev@[0] as int;
        assert(self.order@[self.pos@[first]] == first);
        if first != 0 {
            assert(s[self.pos@[first] - 1] == self.entry(first));
        }
        let prev = hint.prev@[level] as int;
        let next = hint.next@[level] as int;
        assert(self.order@[self.pos@[prev]] == prev);
        assert(self.linked(prev, level));
        let t = self.link(prev, level);
        assert(self.order@[self.pos@[t]] == t);
        assert(self.order@[self.pos@[next]] == next);
        if next != 0 {
            assert(s[self.pos@[next] - 1] == self.entry(next));
        }
    }

    /// From this level up the hint brackets the key.
    pub closed spec fn hint_brackets(self, hint: InsertHint, level: int, key: Seq<u8>) -> bool {
        forall|l: int|
            #![trigger hint.prev@[l]]
            level <= l < MAX_HEIGHT ==> self.brackets(
                hint.prev@[l] as int,
                hint.next@[l] as int,
                l,
                key,
            )
    }

    /// Number of levels that an insert of `key` must recompute by walking
    /// forward from the hint's position, or [`MAX_HEIGHT`] (a full descent
    /// from the head) when the hint cannot help: the first level at which the
    /// hint settles where the key goes.
    ///
    /// Level 0 decides the direction: a key at or before the hinted
    /// predecessor restarts from the head. A key after the hinted successor
    /// climbs, skipping the levels that share the successor it already
    /// compared against, until a level whose successor is at or past it.
    pub fn hint_start_level(&self, hint: &InsertHint, key: &[u8]) -> (r: usize)
        requires
            self.wf(),
            hint.fits(*self),
        ensures
            r <= MAX_HEIGHT,
            !self.hint_precedes(*hint, key@) ==> r == MAX_HEIGHT,
            r < MAX_HEIGHT ==> self.hint_settles(*hint, r as int, key@),
            self.hint_precedes(*hint, key@) ==> forall|l: int|
                0 <= l < r ==> !(#[trigger] self.hint_settles(*hint, l, key@)),
            self.hint_brackets(*hint, r as int, key@),
    {
        if !hint.bound {
            return MAX_HEIGHT;
        }
        proof {
            assert forall|l: int| 0 <= l < MAX_HEIGHT implies #[trigger] self.hint_settles(
                *hint,
                l,
                key@,
            ) == self.node_settles(*hint, l, key@) by {
                self.lemma_hint_place(*hint, l, key@);
            }
            self.lemma_hint_place(*hint, 0, key@);
        }
        let first: usize = hint.prev[0];
        if first != 0 && !internal_key_lt(self.nodes[first].key.as_slice(), key) {
            return MAX_HEIGHT;
        }
        let mut level: usize = 0;
        while level < MAX_HEIGHT
            invariant
                self.wf(),
                hint.bound,
                hint.fits(*self),
                self.below(hint.prev@[0] as int, key@),
                self.node_precedes(*hint, key@),
                forall|l: int|
                    0 <= l < MAX_HEIGHT ==> #[trigger] self.hint_settles(*hint, l, key@)
                        == self.node_settles(*hint, l, key@),
                level <= MAX_HEIGHT,
                forall|l: int| 0 <= l < level ==> !(#[trigger] self.node_settles(*hint, l, key@)),
            decreases MAX_HEIGHT - level,
        {
            let prev: usize = hint.prev[level];
            let next: usize = hint.next[level];
            if self.nodes[prev].tower[level] != next {
                level += 1;
                continue;
            }
            if next != 0 && internal_key_lt(self.nodes[next].key.as_slice(), key) {
                let was: usize = level;
                while level < MAX_HEIGHT && hint.next[level] == next
                    invariant
                        hint.bound,
                        hint.next@.len() == MAX_HEIGHT,
                        was <= level <= MAX_HEIGHT,
                        level == was ==> was < MAX_HEIGHT && hint.next@[was as int] == next,
                        next != 0,
                        key_lt(self.key(next as int), key@),
                        forall|l: int|
                            0 <= l < level ==> !(#[trigger] self.node_settles(*hint, l, key@)),
                    ensures
                        was < level <= MAX_HEIGHT,
                        forall|l: int|
                            0 <= l < level ==> !(#[trigger] self.node_settles(*hint, l, key@)),
                    decreases MAX_HEIGHT - level,
                {
                    level += 1;
                }
                continue;
            }
            proof {
                assert forall|l: int|
                    #![trigger hint.prev@[l]]
                    level <= l < MAX_HEIGHT implies self.brackets(
                    hint.prev@[l] as int,
                    hint.next@[l] as int,
                    l,
                    key@,
                ) by {
                    assert(hint.prev@[0] < self.n());
                    assert(hint.next@[l] < self.n());
                    self.lemma_below_earlier(hint.prev@[0] as int, hint.prev@[l] as int, key@);
                    self.lemma_above_later(next as int, hint.next@[l] as int, key@);
                }
            }
            return level;
        }
        MAX_HEIGHT
    }

    /// The hint's nodes at `level` are nodes of this list that reach it. The
    /// predecessor is the head, the one of the level below, or has a key
    /// before that one's; the successor is the end, the one of the level
    /// below, or has a key after that one's.
    spec fn knows_level(self, hint: InsertHint, level: int) -> bool {
        let prev = hint.prev@[level] as int;
        let next = hint.next@[level] as int;
        &&& prev < self.n() && self.height(prev) > level
        &&& next < self.n() && (next != 0 ==> self.height(next) > level)
        &&& level > 0 ==> {
            let prev_below = hint.prev@[level - 1] as int;
            let next_below = hint.next@[level - 1] as int;
            &&& prev == 0 || prev == prev_below || (prev_below != 0 && key_lt(
                self.key(prev),
                self.key(prev_below),
            ))
            &&& next == 0 || next == next_below || (next_below != 0 && key_lt(
                self.key(next_below),
                self.key(next),
            ))
        }
    }

    /// The hint is unbound, or all of its levels are known to this list.
    spec fn knows(self, hint: InsertHint) -> bool {
        hint.bound ==> {
            &&& hint.prev@.len() == MAX_HEIGHT
            &&& hint.next@.len() == MAX_HEIGHT
            &&& forall|l: int| 0 <= l < MAX_HEIGHT ==> #[trigger] self.knows_level(hint, l)
        }
    }

    /// Whether every level of a bound hint is a place of this list: a hint
    /// that was left by inserts into another list is not trusted.
    fn recognises(&self, hint: &InsertHint) -> (r: bool)
        requires
            self.wf(),
        ensures
            r == self.knows(*hint),
            r ==> hint.fits(*self),
    {
        if !hint.bound {
            return true;
        }
        if hint.prev.len() != MAX_HEIGHT || hint.next.len() != MAX_HEIGHT {
            return false;
        }
        let mut level: usize = 0;
        while level < MAX_HEIGHT
            invariant
                self.wf(),
                level <= MAX_HEIGHT,
                hint.bound,
                hint.prev@.len() == MAX_HEIGHT,
                hint.next@.len() == MAX_HEIGHT,
                forall|l: int| 0 <= l < level ==> #[trigger] self.knows_level(*hint, l),
                forall|l: int|
                    0 <= l < level ==> {
                        &&& 0 <= (#[trigger] hint.prev@[l]) < self.n()
                        &&& self.height(hint.prev@[l] as int) > l
                    },
                forall|l: int|
                    0 <= l < level ==> {
                        &&& 0 <= (#[trigger] hint.next@[l]) < self.n()
                        &&& hint.next@[l] != 0 ==> self.height(hint.next@[l] as int) > l
                    },
                forall|l: int, k: int|
                    0 <= l <= k < level ==> self.pos@[(#[trigger] hint.prev@[k]) as int]
                        <= self.pos@[(#[trigger] hint.prev@[l]) as int],
                forall|l: int, k: int|
                    0 <= l <= k < level ==> self.link_pos((#[trigger] hint.next@[k]) as int)
                        >= self.link_pos((#[trigger] hint.next@[l]) as int),
            decreases MAX_HEIGHT - level,
        {
            let prev: usize = hint.prev[level];
            let next: usize = hint.next[level];
            if prev >= self.nodes.len() || self.nodes[prev].tower.len() <= level {
                assert(!self.knows_level(*hint, level as int));
                return false;
            }
            if next >= self.nodes.len() || (next != 0 && self.nodes[next].tower.len() <= level) {
                assert(!self.knows_level(*hint, level as int));
                return false;
            }
            if level > 0 {
                let prev_below: usize = hint.prev[level - 1];
                let next_below: usize = hint.next[level - 1];
                if prev != prev_below && prev != 0 && (prev_below == 0 || !internal_key_lt(
                    self.nodes[prev].key.as_slice(),
                    self.nodes[prev_below].key.as_slice(),
                )) {
                    assert(!self.knows_level(*hint, level as int));
                    return false;
                }
                if next != next_below && next != 0 && (next_below == 0 || !internal_key_lt(
                    self.nodes[next_below].key.as_slice(),
                    self.nodes[next].key.as_slice(),
                )) {
                    assert(!self.knows_level(*hint, level as int));
                    return false;
                }
                proof {
                    self.lemma_key_order(prev as int, prev_below as int);
                    self.lemma_key_order(next_below as int, next as int);
                }
            }
            assert(self.knows_level(*hint, level as int));
            level += 1;
        }
        true
    }

    /// Link `node` in after `prev` at each level of its tower.
    fn link_node(&mut self, node: Node, prev: &Vec<usize>, at: Ghost<int>)
        requires
            old(self).wf(),
            1 <= node.tower@.len() <= MAX_HEIGHT,
            prev@.len() == MAX_HEIGHT,
            1 <= at@ <= old(self).n(),
            forall|l: int|
                0 <= l < node.tower@.len() ==> {
                    &&& 0 <= #[trigger] prev@[l] < old(self).n()
                    &&& old(self).height(prev@[l] as int) > l
                    &&& old(self).pos@[prev@[l] as int] < at@
                    &&& node.tower@[l] == old(self).link(prev@[l] as int, l)
                    &&& old(self).link_pos(old(self).link(prev@[l] as int, l)) >= at@
                },
            forall|q: int|
                1 <= q < at@ ==> !key_lt(node.key@, old(self).key(#[trigger] old(self).order@[q])),
            forall|q: int|
                at@ <= q < old(self).n() ==> !key_lt(
                    old(self).key(#[trigger] old(self).order@[q]),
                    node.key@,
                ),
        ensures
            final(self).wf(),
            spliced(*old(self), *final(self), at@, prev@),
            final(self).nodes@[old(self).n()] == node,
            final(self).rnd == old(self).rnd,
            final(self).extends(*old(self)),
            final(self).entries() == old(self).entries().insert(
                at@ - 1,
                Entry { key: node.key@, value: node.value@, height: node.tower@.len() },
            ),
            final(self).arrivals() == old(self).arrivals().push((node.key@, node.value@)),
    {
        let index: usize = self.nodes.len();
        let height: usize = node.tower.len();
        let ghost before = *self;
        self.nodes.push(node);
        let mut level: usize = 0;
        while level < height
            invariant
                level <= height <= MAX_HEIGHT,
                height == node.tower@.len(),
                prev@.len() == MAX_HEIGHT,
                before.wf(),
                index == before.n(),
                forall|l: int|
                    0 <= l < height ==> 0 <= #[trigger] prev@[l] < before.n() && before.height(
                        prev@[l] as int,
                    ) > l,
                self.nodes@.len() == index + 1,
                self.nodes@[index as int] == node,
                self.rnd == before.rnd,
                self.order == before.order,
                self.pos == before.pos,
                forall|i: int|
                    0 <= i < index ==> {
                        &&& (#[trigger] self.nodes@[i]).key == before.nodes@[i].key
                        &&& self.nodes@[i].value == before.nodes@[i].value
                        &&& self.nodes@[i].tower@.len() == before.nodes@[i].tower@.len()
                    },
                forall|i: int, l: int|
                    0 <= i < index && 0 <= l < before.height(i) ==> #[trigger] self.link(i, l)
                        == if l < level && prev@[l] == i {
                        index as int
                    } else {
                        before.link(i, l)
                    },
            decreases height - level,
        {
            let i: usize = prev[level];
            let ghost was = *self;
            assert(before.height(i as int) > level);
            assert(self.nodes@[i as int].tower@.len() == before.nodes@[i as int].tower@.len());
            self.nodes[i].tower[level] = index;
            assert forall|j: int, l: int|
                0 <= j < index && 0 <= l < before.height(j) implies #[trigger] self.link(j, l)
                == if l < level + 1 && prev@[l] == j {
                index as int
            } else {
                before.link(j, l)
            } by {
                assert(was.nodes@[j].tower@.len() == before.nodes@[j].tower@.len());
                assert(was.link(j, l) == if l < level && prev@[l] == j {
                    index as int
                } else {
                    before.link(j, l)
                });
            }
            level += 1;
        }
        proof {
            let n = before.n();
            let p = at@;
            let done = *self;
            self.order@ = before.order@.insert(p, n);
            self.pos@ = Seq::new(
                (n + 1) as nat,
                |i: int|
                    if i == n {
                        p
                    } else if before.pos@[i] < p {
                        before.pos@[i]
                    } else {
                        before.pos@[i] + 1
                    },
            );
            assert forall|i: int, l: int|
                0 <= i < n && 0 <= l < before.height(i) implies #[trigger] self.link(i, l) == (
            if l < height && prev@[l] == i {
                n
            } else {
                before.link(i, l)
            }) by {
                assert(self.link(i, l) == done.link(i, l));
            }
            assert forall|l: int| 0 <= l < height implies self.link(n, l) == before.link(
                #[trigger] prev@[l] as int,
                l,
            ) by {
                assert(self.nodes@[n] == node);
            }
            assert(spliced(before, *self, p, prev@));
            lemma_spliced_wf(before, *self, p, prev@);
            assert(self.arrivals() =~= before.arrivals().push((node.key@, node.value@))) by {
                assert forall|i: int| 0 <= i < n - 1 implies #[trigger] self.arrivals()[i]
                    == before.arrivals()[i] by {
                    assert(self.nodes@[i + 1].key == before.nodes@[i + 1].key);
                }
            }
            assert(self.extends(before)) by {
                assert forall|i: int| 0 <= i < n implies #[trigger] self.height(i)
                    == before.height(i) by {
                    assert(self.nodes@[i].key == before.nodes@[i].key);
                }
            }
        }
    }

    /// Shared body of [`ArenaSkipList::insert`] and
    /// [`ArenaSkipList::insert_with_hint`].
    fn insert_inner(
        &mut self,
        user_key: &[u8],
        seq: u64,
        value_type: u8,
        value: &[u8],
        hint: &mut InsertHint,
    ) -> (r: bool)
        requires
            old(self).wf(),
            old(hint).fits(*old(self)),
        ensures
            final(self).wf(),
            final(hint).fits(*final(self)),
            final(self).extends(*old(self)),
            r == (user_key@.len() + INTERNAL_KEY_SUFFIX_LEN <= u32::MAX && value@.len()
                <= u32::MAX),
            !r ==> *final(self) == *old(self),
            r ==> final(self).draw_state() == xorshift(old(self).draw_state()),
            r ==> final(self).entries() == old(self).entries().insert(
                rank(old(self).entries(), internal_key_of(user_key@, seq, value_type)) as int,
                old(self).entry_for(user_key@, seq, value_type, value@),
            ),
            r ==> final(hint).stands_at(
                *final(self),
                rank(old(self).entries(), internal_key_of(user_key@, seq, value_type)) as int,
            ),
            !r ==> *final(hint) == *old(hint),
            r ==> final(self).arrivals() == old(self).arrivals().push(
                (internal_key_of(user_key@, seq, value_type), value@),
            ),
    {
        if user_key.len() > u32::MAX as usize - INTERNAL_KEY_SUFFIX_LEN || value.len()
            > u32::MAX as usize {
            return false;
        }
        let ghost start = *self;
        let key: Vec<u8> = encode_internal_key(user_key, seq, value_type);
        let height: usize = self.random_height();
        let ghost drawn = *self;
        proof {
            lemma_draw_only(start, drawn);
            Self::lemma_hint_survives(start, drawn, *hint);
        }
        let mut prev: Vec<usize> = vec![0usize; MAX_HEIGHT];
        let mut next: Vec<usize> = vec![0usize; MAX_HEIGHT];
        let recompute: usize = self.hint_start_level(hint, key.as_slice());
        let mut cursor: usize = 0;
        if recompute < MAX_HEIGHT {
            let mut l: usize = recompute;
            while l < MAX_HEIGHT
                invariant
                    recompute <= l <= MAX_HEIGHT,
                    prev@.len() == MAX_HEIGHT,
                    next@.len() == MAX_HEIGHT,
                    hint.prev@.len() == MAX_HEIGHT,
                    hint.next@.len() == MAX_HEIGHT,
                    forall|k: int| recompute <= k < l ==> prev@[k] == hint.prev@[k],
                    forall|k: int| recompute <= k < l ==> next@[k] == hint.next@[k],
                decreases MAX_HEIGHT - l,
            {
                prev.set(l, hint.prev[l]);
                next.set(l, hint.next[l]);
                l += 1;
            }
            cursor = prev[recompute];
        }
        let ghost kept_prev = prev@;
        let ghost kept_next = next@;
        let ghost was = *hint;
        assert(recompute < MAX_HEIGHT ==> was.bound);
        assert forall|l: int| recompute <= l < MAX_HEIGHT implies #[trigger] kept_prev[l]
            == was.prev@[l] && kept_next[l] == was.next@[l] by {
            assert(prev@[l] == was.prev@[l]);
            assert(next@[l] == was.next@[l]);
        }
        assert forall|l: int| #![trigger prev@[l]] recompute <= l < MAX_HEIGHT implies self.brackets(
            prev@[l] as int,
            next@[l] as int,
            l,
            key@,
        ) by {
            assert(prev@[l] == hint.prev@[l]);
        }
        // Descend the levels the hint did not already bracket.
        let mut level: usize = recompute;
        while level > 0
            invariant
                self.wf(),
                *self == drawn,
                level <= recompute <= MAX_HEIGHT,
                prev@.len() == MAX_HEIGHT,
                next@.len() == MAX_HEIGHT,
                cursor < self.n(),
                level > 0 ==> level - 1 < self.height(cursor as int),
                self.below(cursor as int, key@),
                forall|l: int|
                    #![trigger prev@[l]]
                    level <= l < MAX_HEIGHT ==> self.brackets(
                        prev@[l] as int,
                        next@[l] as int,
                        l,
                        key@,
                    ),
                forall|l: int|
                    #![trigger prev@[l]]
                    level <= l < recompute ==> self.link(prev@[l] as int, l) == next@[l],
                forall|l: int| recompute <= l < MAX_HEIGHT ==> prev@[l] == kept_prev[l],
                forall|l: int| recompute <= l < MAX_HEIGHT ==> next@[l] == kept_next[l],
            decreases level,
        {
            level -= 1;
            let (p, n) = self.walk_level(cursor, level, key.as_slice());
            prev.set(level, p);
            next.set(level, n);
            cursor = p;
        }
        // A level taken from the hint counts only while its link is live; one
        // that is not is walked forward from where the hint stood.
        let mut level: usize = recompute;
        while level < height
            invariant
                self.wf(),
                *self == drawn,
                height <= MAX_HEIGHT,
                recompute <= MAX_HEIGHT,
                recompute <= level,
                level <= height || level == recompute,
                prev@.len() == MAX_HEIGHT,
                next@.len() == MAX_HEIGHT,
                forall|l: int|
                    #![trigger prev@[l]]
                    0 <= l < MAX_HEIGHT ==> self.brackets(prev@[l] as int, next@[l] as int, l, key@),
                forall|l: int|
                    #![trigger prev@[l]]
                    0 <= l < level ==> self.link(prev@[l] as int, l) == next@[l],
                forall|l: int| level <= l < MAX_HEIGHT ==> prev@[l] == kept_prev[l],
                forall|l: int| level <= l < MAX_HEIGHT ==> next@[l] == kept_next[l],
            decreases height - level,
        {
            let from: usize = prev[level];
            assert(self.brackets(prev@[level as int] as int, next@[level as int] as int, level as int, key@));
            if self.nodes[from].tower[level] != next[level] {
                let (p, n) = self.walk_level(from, level, key.as_slice());
                prev.set(level, p);
                next.set(level, n);
            }
            level += 1;
        }
        let mut tower: Vec<usize> = Vec::new();
        let mut l: usize = 0;
        while l < height
            invariant
                l <= height <= MAX_HEIGHT,
                next@.len() == MAX_HEIGHT,
                tower@.len() == l,
                forall|k: int| 0 <= k < l ==> tower@[k] == next@[k],
            decreases height - l,
        {
            tower.push(next[l]);
            l += 1;
        }
        let ghost at = self.pos@[prev@[0] as int] + 1;
        let ghost node_key = key@;
        proof {
            assert(self.brackets(prev@[0] as int, next@[0] as int, 0, key@));
            assert(self.link(prev@[0] as int, 0) == next@[0]);
            self.lemma_parts(prev@[0] as int, key@);
            lemma_parts_at_rank(self.entries(), key@, at - 1);
            assert forall|l: int| 0 <= l < MAX_HEIGHT implies {
                &&& self.pos@[#[trigger] prev@[l] as int] < at
                &&& self.link_pos(next@[l] as int) >= at
            } by {
                assert(self.brackets(prev@[l] as int, next@[l] as int, l, key@));
                self.lemma_bracket_positions(
                    prev@[l] as int,
                    next@[l] as int,
                    l,
                    key@,
                    prev@[0] as int,
                );
            }
            assert forall|q: int| 1 <= q < at implies !key_lt(
                key@,
                self.key(#[trigger] self.order@[q]),
            ) by {
                if key_lt(key@, self.key(self.order@[q])) {
                    lemma_key_lt_irreflexive(key@);
                    lemma_key_lt_transitive(key@, self.key(self.order@[q]), key@);
                }
            }
            assert forall|l: int| 0 <= l < height implies {
                &&& 0 <= #[trigger] prev@[l] < self.n()
                &&& self.height(prev@[l] as int) > l
                &&& self.pos@[prev@[l] as int] < at
                &&& tower@[l] == self.link(prev@[l] as int, l)
                &&& self.link_pos(self.link(prev@[l] as int, l)) >= at
            } by {
                assert(self.brackets(prev@[l] as int, next@[l] as int, l, key@));
                assert(self.link(prev@[l] as int, l) == next@[l]);
                assert(tower@[l] == next@[l]);
            }
        }
        let index: usize = self.nodes.len();
        self.link_node(Node { key, value: bytes::copy(value), tower }, &prev, Ghost(at));
        let ghost after = *self;
        proof {
            if recompute < MAX_HEIGHT && height < MAX_HEIGHT {
                let exact = if recompute > height {
                    recompute as int
                } else {
                    height as int
                };
                assert forall|l: int, k: int| exact <= l <= k < MAX_HEIGHT implies drawn.pos@[(
                #[trigger] prev@[k]) as int] <= drawn.pos@[(#[trigger] prev@[l]) as int] by {
                    assert(kept_prev[k] == was.prev@[k] && kept_prev[l] == was.prev@[l]);
                    assert(prev@[k] == was.prev@[k] && prev@[l] == was.prev@[l]);
                }
                assert forall|l: int, k: int| exact <= l <= k < MAX_HEIGHT implies drawn.link_pos(
                    (#[trigger] next@[k]) as int,
                ) >= drawn.link_pos((#[trigger] next@[l]) as int) by {
                    assert(kept_prev[k] == was.prev@[k] && kept_prev[l] == was.prev@[l]);
                    assert(next@[k] == was.next@[k] && next@[l] == was.next@[l]);
                }
            }
            lemma_levels_monotone(
                drawn,
                prev@,
                next@,
                if recompute > height {
                    recompute as int
                } else {
                    height as int
                },
                node_key,
            );
        }
        let mut hint_prev: Vec<usize> = Vec::new();
        let mut l: usize = 0;
        while l < MAX_HEIGHT
            invariant
                l <= MAX_HEIGHT,
                prev@.len() == MAX_HEIGHT,
                hint_prev@.len() == l,
                forall|k: int|
                    0 <= k < l ==> hint_prev@[k] == if k < height {
                        index
                    } else {
                        prev@[k]
                    },
            decreases MAX_HEIGHT - l,
        {
            if l < height {
                hint_prev.push(index);
            } else {
                hint_prev.push(prev[l]);
            }
            l += 1;
        }
        *hint = InsertHint { bound: true, prev: hint_prev, next };
        proof {
            lemma_hint_after(drawn, after, at, prev@, *hint, height as int, node_key);
        }
        true
    }
}

/// A list that differs in its height draw alone is the same list.
proof fn lemma_draw_only(a: ArenaSkipList, b: ArenaSkipList)
    requires
        a.wf(),
        a.nodes == b.nodes,
        a.order == b.order,
        a.pos == b.pos,
    ensures
        b.wf(),
        b.extends(a),
        b.entries() == a.entries(),
        b.arrivals() == a.arrivals(),
{
    assert(b.arrivals() =~= a.arrivals());
    assert forall|i: int, l: int| 0 <= i < b.n() && 0 <= l < b.height(i) implies #[trigger] b.linked(
        i,
        l,
    ) by {
        assert(a.height(i) == b.height(i));
        assert(a.linked(i, l));
        assert forall|q: int|
            b.pos@[i] < q < b.link_pos(b.link(i, l)) implies b.height(#[trigger] b.order@[q])
            <= l by {
            assert(a.height(a.order@[q]) <= l);
        }
    }
    assert forall|i: int| 0 <= i < b.n() implies 1 <= #[trigger] b.height(i) <= MAX_HEIGHT by {
        assert(a.height(i) == b.height(i));
    }
    assert(a.height(0) == b.height(0));
    assert(b.entries() =~= a.entries()) by {
        assert forall|q: int| 0 <= q < b.entries().len() implies b.entries()[q]
            == #[trigger] a.entries()[q] by {
            assert(a.entry(a.order@[q + 1]) == b.entry(b.order@[q + 1]));
        }
    }
}

/// Brackets of one key stand in order across the levels, where those from
/// `exact` up were already in order.
proof fn lemma_levels_monotone(
    list: ArenaSkipList,
    prev: Seq<usize>,
    next: Seq<usize>,
    exact: int,
    key: Seq<u8>,
)
    requires
        list.wf(),
        prev.len() == MAX_HEIGHT,
        next.len() == MAX_HEIGHT,
        1 <= exact <= MAX_HEIGHT,
        forall|l: int|
            #![trigger prev[l]]
            0 <= l < MAX_HEIGHT ==> list.brackets(prev[l] as int, next[l] as int, l, key),
        forall|l: int|
            #![trigger prev[l]]
            0 <= l < exact ==> list.link(prev[l] as int, l) == next[l],
        exact < MAX_HEIGHT ==> (forall|l: int, k: int|
            exact <= l <= k < MAX_HEIGHT ==> list.pos@[(#[trigger] prev[k]) as int] <= list.pos@[(
            #[trigger] prev[l]) as int]),
        exact < MAX_HEIGHT ==> (forall|l: int, k: int|
            exact <= l <= k < MAX_HEIGHT ==> list.link_pos((#[trigger] next[k]) as int)
                >= list.link_pos((#[trigger] next[l]) as int)),
    ensures
        forall|l: int, k: int|
            0 <= l <= k < MAX_HEIGHT ==> list.pos@[(#[trigger] prev[k]) as int] <= list.pos@[(
            #[trigger] prev[l]) as int],
        forall|l: int, k: int|
            0 <= l <= k < MAX_HEIGHT ==> list.link_pos((#[trigger] next[k]) as int)
                >= list.link_pos((#[trigger] next[l]) as int),
{
    let at = prev[0] as int;
    assert(list.brackets(prev[0] as int, next[0] as int, 0, key));
    assert(list.link(prev[0] as int, 0) == next[0]);
    assert forall|l: int, k: int| 0 <= l <= k < MAX_HEIGHT implies list.pos@[(
    #[trigger] prev[k]) as int] <= list.pos@[(#[trigger] prev[l]) as int] && list.link_pos(
        next[k] as int,
    ) >= list.link_pos(next[l] as int) by {
        if l < exact {
            let pl = prev[l] as int;
            let pk = prev[k] as int;
            assert(list.brackets(prev[l] as int, next[l] as int, l, key));
            assert(list.brackets(prev[k] as int, next[k] as int, k, key));
            list.lemma_bracket_positions(pl, next[l] as int, l, key, at);
            list.lemma_bracket_positions(pk, next[k] as int, k, key, at);
            assert(list.linked(pl, l));
            if list.pos@[pk] > list.pos@[pl] {
                assert(list.height(list.order@[list.pos@[pk]]) <= l);
            }
            if next[k] != 0 && list.link_pos(next[k] as int) < list.link_pos(next[l] as int) {
                assert(list.height(list.order@[list.pos@[next[k] as int]]) <= l);
            }
        } else {
            assert(list.link_pos(next[k] as int) >= list.link_pos(next[l] as int));
        }
    }
    assert forall|l: int, k: int| 0 <= l <= k < MAX_HEIGHT implies list.link_pos(
        (#[trigger] next[k]) as int,
    ) >= list.link_pos((#[trigger] next[l]) as int) by {
        assert(list.pos@[prev[k] as int] <= list.pos@[prev[l] as int]);
    }
}

/// The hint an insert leaves behind is a place of the grown list.
proof fn lemma_hint_after(
    a: ArenaSkipList,
    b: ArenaSkipList,
    p: int,
    prev: Seq<usize>,
    hint: InsertHint,
    height: int,
    key: Seq<u8>,
)
    requires
        a.wf(),
        b.wf(),
        spliced(a, b, p, prev),
        b.height(a.n()) == height,
        prev.len() == MAX_HEIGHT,
        hint.bound,
        hint.prev@.len() == MAX_HEIGHT,
        hint.next@.len() == MAX_HEIGHT,
        forall|l: int|
            0 <= l < MAX_HEIGHT ==> #[trigger] hint.prev@[l] == if l < height {
                a.n()
            } else {
                prev[l] as int
            },
        forall|l: int|
            #![trigger prev[l]]
            0 <= l < MAX_HEIGHT ==> a.brackets(prev[l] as int, hint.next@[l] as int, l, key),
        forall|l: int|
            #![trigger prev[l]]
            0 <= l < MAX_HEIGHT ==> a.pos@[prev[l] as int] < p && a.link_pos(hint.next@[l] as int)
                >= p,
        forall|l: int, k: int|
            0 <= l <= k < MAX_HEIGHT ==> a.pos@[(#[trigger] prev[k]) as int] <= a.pos@[(
            #[trigger] prev[l]) as int],
        forall|l: int, k: int|
            0 <= l <= k < MAX_HEIGHT ==> a.link_pos((#[trigger] hint.next@[k]) as int)
                >= a.link_pos((#[trigger] hint.next@[l]) as int),
        forall|l: int| 0 <= l < height ==> b.link(a.n(), l) == #[trigger] hint.next@[l],
    ensures
        hint.fits(b),
        hint.stands_at(b, p - 1),
{
    let n = a.n();
    let s = b.entries();
    assert(b.order@[b.pos@[n]] == n);
    assert(s[p - 1] == b.entry(n));
    assert forall|l: int|
        #![trigger hint.prev_at(b, l)]
        #![trigger hint.next_at(b, l)]
        0 <= l < MAX_HEIGHT implies {
        &&& -1 <= hint.prev_at(b, l) <= p - 1
        &&& hint.prev_at(b, l) >= 0 ==> s[hint.prev_at(b, l)].height > l
        &&& p - 1 < hint.next_at(b, l) <= s.len()
        &&& hint.next_at(b, l) < s.len() ==> s[hint.next_at(b, l)].height > l
        &&& l < height ==> hint.prev_at(b, l) == p - 1 && hint.next_at(b, l) == b.successor(
            p - 1,
            l,
        )
    } by {
        let before = hint.prev@[l] as int;
        let after = hint.next@[l] as int;
        assert(a.brackets(prev[l] as int, after, l, key));
        assert(a.pos@[prev[l] as int] < p);
        assert(b.nodes@[prev[l] as int].key == a.nodes@[prev[l] as int].key);
        assert(b.nodes@[after].key == a.nodes@[after].key);
        assert(b.order@[b.pos@[before]] == before);
        if b.pos@[before] > 0 {
            assert(s[b.pos@[before] - 1] == b.entry(before));
        }
        assert(b.order@[b.pos@[after]] == after);
        if after != 0 {
            assert(b.pos@[after] > 0);
            assert(s[b.pos@[after] - 1] == b.entry(after));
        }
    }
    assert forall|l: int| 0 <= l < MAX_HEIGHT implies {
        &&& 0 <= (#[trigger] hint.prev@[l]) < b.n()
        &&& b.height(hint.prev@[l] as int) > l
    } by {
        assert(a.brackets(prev[l] as int, hint.next@[l] as int, l, key));
        assert(b.nodes@[prev[l] as int].key == a.nodes@[prev[l] as int].key);
    }
    assert forall|l: int| 0 <= l < MAX_HEIGHT implies {
        &&& 0 <= (#[trigger] hint.next@[l]) < b.n()
        &&& hint.next@[l] != 0 ==> b.height(hint.next@[l] as int) > l
    } by {
        assert(a.brackets(prev[l] as int, hint.next@[l] as int, l, key));
        assert(b.nodes@[hint.next@[l] as int].key == a.nodes@[hint.next@[l] as int].key);
    }
    assert forall|l: int, k: int| 0 <= l <= k < MAX_HEIGHT implies b.pos@[(
    #[trigger] hint.prev@[k]) as int] <= b.pos@[(#[trigger] hint.prev@[l]) as int] by {
        assert(a.pos@[prev[k] as int] <= a.pos@[prev[l] as int]);
        assert(a.brackets(prev[l] as int, hint.next@[l] as int, l, key));
        assert(a.brackets(prev[k] as int, hint.next@[k] as int, k, key));
    }
    assert forall|l: int, k: int| 0 <= l <= k < MAX_HEIGHT implies b.link_pos(
        (#[trigger] hint.next@[k]) as int,
    ) >= b.link_pos((#[trigger] hint.next@[l]) as int) by {
        assert(a.brackets(prev[l] as int, hint.next@[l] as int, l, key));
        assert(a.brackets(prev[k] as int, hint.next@[k] as int, k, key));
        assert(a.pos@[prev[k] as int] < p);
        assert(a.pos@[prev[l] as int] < p);
    }
}

impl ArenaSkipList {
    /// Insert `user_key || !seq || value_type -> value`.
    ///
    /// Returns `false` without inserting when the entry cannot be
    /// represented: an internal key or value of 4 GiB or more.
    pub fn insert(&mut self, user_key: &[u8], seq: u64, value_type: u8, value: &[u8]) -> (r: bool)
        requires
            old(self).wf(),
        ensures
            final(self).wf(),
            final(self).extends(*old(self)),
            r == (user_key@.len() + INTERNAL_KEY_SUFFIX_LEN <= u32::MAX && value@.len()
                <= u32::MAX),
            !r ==> *final(self) == *old(self),
            r ==> final(self).draw_state() == xorshift(old(self).draw_state()),
            r ==> final(self).entries() == old(self).entries().insert(
                rank(old(self).entries(), internal_key_of(user_key@, seq, value_type)) as int,
                old(self).entry_for(user_key@, seq, value_type, value@),
            ),
            r ==> final(self).arrivals() == old(self).arrivals().push(
                (internal_key_of(user_key@, seq, value_type), value@),
            ),
    {
        let mut hint: InsertHint = self.insert_hint();
        self.insert_inner(user_key, seq, value_type, value, &mut hint)
    }

    /// Insert as [`ArenaSkipList::insert`], starting the descent where
    /// `hint` says the previous insert landed when the new key sorts after
    /// the hinted position, and from the head otherwise, as where the hint
    /// was left by inserts into another list. Leaves `hint` pointing at the
    /// new position.
    pub fn insert_with_hint(
        &mut self,
        hint: &mut InsertHint,
        user_key: &[u8],
        seq: u64,
        value_type: u8,
        value: &[u8],
    ) -> (r: bool)
        requires
            old(self).wf(),
        ensures
            final(self).wf(),
            final(hint).fits(*final(self)),
            final(self).extends(*old(self)),
            r == (user_key@.len() + INTERNAL_KEY_SUFFIX_LEN <= u32::MAX && value@.len()
                <= u32::MAX),
            !r ==> *final(self) == *old(self),
            r ==> final(self).draw_state() == xorshift(old(self).draw_state()),
            r ==> final(self).entries() == old(self).entries().insert(
                rank(old(self).entries(), internal_key_of(user_key@, seq, value_type)) as int,
                old(self).entry_for(user_key@, seq, value_type, value@),
            ),
            r ==> final(hint).stands_at(
                *final(self),
                rank(old(self).entries(), internal_key_of(user_key@, seq, value_type)) as int,
            ),
            !r && final(hint).is_bound() ==> *final(hint) == *old(hint),
            r ==> final(self).arrivals() == old(self).arrivals().push(
                (internal_key_of(user_key@, seq, value_type), value@),
            ),
    {
        if !self.recognises(hint) {
            *hint = self.insert_hint();
        }
        self.insert_inner(user_key, seq, value_type, value, hint)
    }

    /// Descend to level 0: the last node whose key is below `target` (0, the
    /// head, when there is none) and the first whose key is at or above it
    /// (0 at the end).
    fn seek_pair(&self, target: &[u8]) -> (r: (usize, usize))
        requires
            self.wf(),
        ensures
            r.0 < self.n(),
            r.1 < self.n(),
            parts_at(self.entries(), target@, self.pos@[r.0 as int]),
            self.link_pos(r.1 as int) == self.pos@[r.0 as int] + 1,
    {
        let mut cursor: usize = 0;
        let mut successor: usize = 0;
        let mut level: usize = MAX_HEIGHT;
        while level > 0
            invariant
                self.wf(),
                level <= MAX_HEIGHT,
                cursor < self.n(),
                self.below(cursor as int, target@),
                level > 0 ==> level - 1 < self.height(cursor as int),
                level < MAX_HEIGHT ==> self.brackets(
                    cursor as int,
                    successor as int,
                    level as int,
                    target@,
                ) && self.link(cursor as int, level as int) == successor,
            decreases level,
        {
            level -= 1;
            let (p, n) = self.walk_level(cursor, level, target);
            cursor = p;
            successor = n;
        }
        proof {
            self.lemma_parts(cursor as int, target@);
        }
        (cursor, successor)
    }

    /// The node at `index`, or nothing for the head.
    fn node_at(&self, index: usize) -> (r: Option<NodeRef<'_>>)
        requires
            self.wf(),
            index < self.n(),
        ensures
            r is Some <==> index != 0,
            r matches Some(node) ==> {
                &&& node.wf()
                &&& node.of() == *self
                &&& node.position() == self.pos@[index as int] - 1
            },
    {
        if index == 0 {
            None
        } else {
            proof {
                if self.pos@[index as int] == 0 {
                    assert(self.order@[self.pos@[index as int]] == index);
                }
            }
            Some(NodeRef { list: self, index })
        }
    }

    /// The first node whose key is greater than or equal to `target`.
    pub fn seek_ge(&self, target: &[u8]) -> (r: Option<NodeRef<'_>>)
        requires
            self.wf(),
        ensures
            r is Some <==> rank(self.entries(), target@) < self.entries().len(),
            r matches Some(node) ==> {
                &&& node.wf()
                &&& node.of() == *self
                &&& node.position() == rank(self.entries(), target@)
            },
    {
        let (below, at) = self.seek_pair(target);
        proof {
            lemma_parts_at_rank(self.entries(), target@, self.pos@[below as int]);
        }
        self.node_at(at)
    }

    /// The first node whose key is strictly greater than `target`.
    pub fn seek_gt(&self, target: &[u8]) -> (r: Option<NodeRef<'_>>)
        requires
            self.wf(),
        ensures
            r matches Some(node) ==> {
                &&& node.wf()
                &&& node.of() == *self
                &&& key_lt(target@, self.entries()[node.position()].key)
                &&& forall|q: int|
                    0 <= q < node.position() ==> !key_lt(
                        target@,
                        (#[trigger] self.entries()[q]).key,
                    )
            },
            r is None ==> forall|q: int|
                0 <= q < self.entries().len() ==> !key_lt(
                    target@,
                    (#[trigger] self.entries()[q]).key,
                ),
    {
        let mut node: Option<NodeRef<'_>> = self.seek_ge(target);
        let ghost s = self.entries();
        proof {
            self.lemma_entries_sorted();
            lemma_rank_parts(s, target@);
            assert forall|q: int| 0 <= q < rank(s, target@) implies !key_lt(
                target@,
                (#[trigger] s[q]).key,
            ) by {
                if key_lt(target@, s[q].key) {
                    lemma_key_lt_irreflexive(target@);
                    lemma_key_lt_transitive(target@, s[q].key, target@);
                }
            }
        }
        loop
            invariant
                self.wf(),
                s == self.entries(),
                node matches Some(current) ==> current.wf() && current.of() == *self && forall|q: int|
                    0 <= q < current.position() ==> !key_lt(target@, (#[trigger] s[q]).key),
                node is None ==> forall|q: int|
                    0 <= q < s.len() ==> !key_lt(target@, (#[trigger] s[q]).key),
            decreases
                    (if node is Some {
                        s.len() - node->0.position()
                    } else {
                        0
                    }),
        {
            match node {
                Some(current) => {
                    if internal_key_lt(target, current.key()) {
                        return Some(current);
                    }
                    node = current.next();
                },
                None => {
                    return None;
                },
            }
        }
    }

    /// The last node whose key is less than or equal to `target`.
    pub fn seek_le(&self, target: &[u8]) -> (r: Option<NodeRef<'_>>)
        requires
            self.wf(),
        ensures
            r is Some <==> rank_past(self.entries(), target@) > 0,
            r matches Some(node) ==> {
                &&& node.wf()
                &&& node.of() == *self
                &&& node.position() == rank_past(self.entries(), target@) - 1
            },
    {
        let (below, at_or_after) = self.seek_pair(target);
        let ghost s = self.entries();
        let mut best: Option<NodeRef<'_>> = self.node_at(below);
        let mut node: Option<NodeRef<'_>> = self.node_at(at_or_after);
        let ghost mut p: int = self.pos@[below as int];
        proof {
            assert(self.pos@[below as int] == 0 ==> self.order@[self.pos@[below as int]] == below);
            assert forall|q: int| 0 <= q < p implies !key_lt(target@, (#[trigger] s[q]).key) by {
                if key_lt(target@, s[q].key) {
                    lemma_key_lt_irreflexive(target@);
                    lemma_key_lt_transitive(target@, s[q].key, target@);
                }
            }
        }
        loop
            invariant
                self.wf(),
                s == self.entries(),
                0 <= p <= s.len(),
                forall|q: int| 0 <= q < p ==> !key_lt(target@, (#[trigger] s[q]).key),
                best is Some <==> p > 0,
                best matches Some(last) ==> last.wf() && last.of() == *self && last.position() == p
                    - 1,
                node is Some <==> p < s.len(),
                node matches Some(current) ==> current.wf() && current.of() == *self
                    && current.position() == p,
            decreases s.len() - p,
        {
            match node {
                Some(current) => {
                    if internal_key_lt(target, current.key()) {
                        proof {
                            lemma_rank_past(s, target@, p);
                        }
                        return best;
                    }
                    best = Some(current);
                    node = current.next();
                    proof {
                        p = p + 1;
                    }
                },
                None => {
                    proof {
                        lemma_rank_past(s, target@, p);
                    }
                    return best;
                },
            }
        }
    }

    /// The last node whose key is strictly less than `target`.
    pub fn seek_lt(&self, target: &[u8]) -> (r: Option<NodeRef<'_>>)
        requires
            self.wf(),
        ensures
            r is Some <==> rank(self.entries(), target@) > 0,
            r matches Some(node) ==> {
                &&& node.wf()
                &&& node.of() == *self
                &&& node.position() == rank(self.entries(), target@) - 1
            },
    {
        let (below, _) = self.seek_pair(target);
        proof {
            lemma_parts_at_rank(self.entries(), target@, self.pos@[below as int]);
            assert(self.pos@[below as int] == 0 ==> self.order@[self.pos@[below as int]] == below);
        }
        self.node_at(below)
    }

    /// The key and value of the entry inserted `i`-th, from zero.
    pub fn arrival(&self, i: usize) -> (r: (&[u8], &[u8]))
        requires
            self.wf(),
            i < self.arrivals().len(),
        ensures
            (r.0@, r.1@) == self.arrivals()[i as int],
    {
        let n: usize = self.nodes.len();
        assert(i + 1 < n);
        let node = &self.nodes[i + 1];
        (node.key.as_slice(), node.value.as_slice())
    }

    /// An entry was inserted once for each that is there.
    pub proof fn lemma_arrivals_len(self)
        ensures
            self.arrivals().len() == self.entries().len(),
    {
    }

    /// The first node in internal-key order.
    pub fn first(&self) -> (r: Option<NodeRef<'_>>)
        requires
            self.wf(),
        ensures
            r is Some <==> self.entries().len() > 0,
            r matches Some(node) ==> node.wf() && node.of() == *self && node.position() == 0,
    {
        assert(self.linked(0, 0));
        let next: usize = self.nodes[0].tower[0];
        proof {
            if self.link_pos(next as int) > 1 {
                assert(self.height(self.order@[1]) <= 0);
            }
        }
        self.node_at(next)
    }

    /// The last node in internal-key order.
    pub fn last(&self) -> (r: Option<NodeRef<'_>>)
        requires
            self.wf(),
        ensures
            r is Some <==> self.entries().len() > 0,
            r matches Some(node) ==> node.wf() && node.of() == *self && node.position()
                == self.entries().len() - 1,
    {
        let mut cursor: usize = 0;
        let mut level: usize = MAX_HEIGHT;
        while level > 0
            invariant
                self.wf(),
                level <= MAX_HEIGHT,
                cursor < self.n(),
                level > 0 ==> level - 1 < self.height(cursor as int),
                level < MAX_HEIGHT ==> level < self.height(cursor as int) && self.link(
                    cursor as int,
                    level as int,
                ) == 0,
            decreases level,
        {
            level -= 1;
            while self.nodes[cursor].tower[level] != 0
                invariant
                    self.wf(),
                    level < MAX_HEIGHT,
                    cursor < self.n(),
                    level < self.height(cursor as int),
                decreases self.n() - self.pos@[cursor as int],
            {
                assert(self.linked(cursor as int, level as int));
                cursor = self.nodes[cursor].tower[level];
            }
        }
        proof {
            assert(self.linked(cursor as int, 0));
            if self.pos@[cursor as int] + 1 < self.n() {
                let q = self.pos@[cursor as int] + 1;
                assert(self.height(self.order@[q]) <= 0);
            }
        }
        self.node_at(cursor)
    }
}

impl<'a> NodeRef<'a> {
    /// The reference names a node of a whole list.
    pub closed spec fn wf(self) -> bool {
        &&& self.list.wf()
        &&& 0 < self.index < self.list.n()
        &&& self.list.pos@[self.index as int] > 0
    }

    /// The list the node belongs to.
    pub closed spec fn of(self) -> ArenaSkipList {
        *self.list
    }

    /// The node's position in internal-key order.
    pub closed spec fn position(self) -> int {
        self.list.pos@[self.index as int] - 1
    }

    /// The node's entry is the one at its position.
    pub proof fn lemma_position(self)
        requires
            self.wf(),
        ensures
            0 <= self.position() < self.of().entries().len(),
            self.of().wf(),
    {
        assert(self.list.order@[self.list.pos@[self.index as int]] == self.index);
    }

    /// The node's internal key.
    pub fn key(&self) -> (r: &'a [u8])
        requires
            self.wf(),
        ensures
            r@ == self.of().entries()[self.position()].key,
            0 <= self.position() < self.of().entries().len(),
    {
        proof {
            self.lemma_position();
            assert(self.list.order@[self.list.pos@[self.index as int]] == self.index);
        }
        self.list.nodes[self.index].key.as_slice()
    }

    /// The node's value bytes: empty for a deletion tombstone.
    pub fn value(&self) -> (r: &'a [u8])
        requires
            self.wf(),
        ensures
            r@ == self.of().entries()[self.position()].value,
            0 <= self.position() < self.of().entries().len(),
    {
        proof {
            self.lemma_position();
            assert(self.list.order@[self.list.pos@[self.index as int]] == self.index);
        }
        self.list.nodes[self.index].value.as_slice()
    }

    /// The node's tower height.
    pub fn height(&self) -> (r: usize)
        requires
            self.wf(),
        ensures
            r == self.of().entries()[self.position()].height,
            1 <= r <= MAX_HEIGHT,
            0 <= self.position() < self.of().entries().len(),
    {
        proof {
            self.lemma_position();
            assert(self.list.order@[self.list.pos@[self.index as int]] == self.index);
            assert(1 <= self.list.height(self.index as int) <= MAX_HEIGHT);
        }
        self.list.nodes[self.index].tower.len()
    }

    /// The next node in internal-key order.
    pub fn next(&self) -> (r: Option<NodeRef<'a>>)
        requires
            self.wf(),
        ensures
            r is Some <==> self.position() + 1 < self.of().entries().len(),
            r matches Some(node) ==> {
                &&& node.wf()
                &&& node.of() == self.of()
                &&& node.position() == self.position() + 1
            },
    {
        assert(1 <= self.list.height(self.index as int));
        let next: usize = self.list.nodes[self.index].tower[0];
        proof {
            let list = *self.list;
            let i = self.index as int;
            assert(list.linked(i, 0));
            if list.pos@[i] + 1 < list.link_pos(next as int) {
                assert(list.height(list.order@[list.pos@[i] + 1]) <= 0);
            }
        }
        self.list.node_at(next)
    }
}

/// Key and height of each entry, in order.
pub open spec fn shape(s: Seq<Entry>) -> Seq<(Seq<u8>, nat)> {
    Seq::new(s.len(), |i: int| (s[i].key, s[i].height))
}

/// `(key, height)` of every node in the list, in level-0 order.
pub fn tower_shape(list: &ArenaSkipList) -> (r: Vec<(Vec<u8>, usize)>)
    requires
        list.wf(),
    ensures
        Seq::new(r@.len(), |i: int| (r@[i].0@, r@[i].1 as nat)) == shape(list.entries()),
{
    let mut out: Vec<(Vec<u8>, usize)> = Vec::new();
    let mut node: Option<NodeRef<'_>> = list.first();
    let ghost s = list.entries();
    while node.is_some()
        invariant
            list.wf(),
            s == list.entries(),
            out@.len() <= s.len(),
            node is Some <==> out@.len() < s.len(),
            node matches Some(current) ==> current.wf() && current.of() == *list
                && current.position() == out@.len(),
            forall|i: int|
                0 <= i < out@.len() ==> (#[trigger] out@[i]).0@ == s[i].key && out@[i].1
                    == s[i].height,
        decreases s.len() - out@.len(),
    {
        let current: NodeRef<'_> = node.unwrap();
        out.push((bytes::copy(current.key()), current.height()));
        node = current.next();
    }
    assert(Seq::new(out@.len(), |i: int| (out@[i].0@, out@[i].1 as nat)) =~= shape(s));
    out
}

/// Whether every level above 0 is level 0 less the nodes too short for it.
pub fn towers_consistent(list: &ArenaSkipList) -> (r: bool)
    requires
        list.chained(),
    ensures
        r == list.consistent(),
{
    let mut level: usize = 1;
    while level < MAX_HEIGHT
        invariant
            list.chained(),
            1 <= level <= MAX_HEIGHT,
            forall|i: int, l: int|
                0 <= i < list.n() && 0 <= l < list.height(i) && l < level ==> #[trigger] list.linked(
                    i,
                    l,
                ),
        decreases MAX_HEIGHT - level,
    {
        // The node that this level's chain reaches next.
        let mut expected: usize = list.nodes[0].tower[level];
        let mut cursor: usize = list.nodes[0].tower[0];
        assert(list.linked(0, 0));
        proof {
            if list.link_pos(cursor as int) > 1 {
                assert(list.height(list.order@[1]) <= 0);
            }
        }
        // Where the walk is, and the last node so far that reaches the level.
        let ghost mut at: int = 0;
        let ghost mut last: int = 0;
        while cursor != 0
            invariant
                list.chained(),
                1 <= level < MAX_HEIGHT,
                cursor < list.n(),
                0 <= at,
                list.link_pos(cursor as int) == at + 1,
                0 <= last < list.n(),
                list.height(last) > level,
                0 <= list.pos@[last] <= at,
                expected == list.link(last, level as int),
                forall|q: int|
                    list.pos@[last] < q <= at ==> list.height(#[trigger] list.order@[q]) <= level,
                forall|q: int|
                    0 <= q < list.pos@[last] && list.height(#[trigger] list.order@[q]) > level
                        ==> list.linked(list.order@[q], level as int),
            decreases list.n() - at,
        {
            proof {
                assert(list.order@[list.pos@[cursor as int]] == cursor);
                assert(list.order@[list.pos@[last]] == last);
                assert(list.linked(cursor as int, 0));
            }
            if list.nodes[cursor].tower.len() > level {
                if expected != cursor {
                    proof {
                        if list.linked(last, level as int) {
                            let t = expected as int;
                            assert(list.order@[list.pos@[t]] == t);
                            if list.link_pos(t) > at + 1 {
                                assert(list.height(list.order@[at + 1]) <= level);
                            }
                        }
                    }
                    return false;
                }
                assert(list.linked(last, level as int));
                expected = list.nodes[cursor].tower[level];
                proof {
                    last = cursor as int;
                }
            }
            let next: usize = list.nodes[cursor].tower[0];
            proof {
                let i = cursor as int;
                if list.pos@[i] + 1 < list.link_pos(next as int) {
                    assert(list.height(list.order@[list.pos@[i] + 1]) <= 0);
                }
                at = at + 1;
            }
            cursor = next;
        }
        if expected != 0 {
            proof {
                if list.linked(last, level as int) {
                    let t = expected as int;
                    assert(list.order@[list.pos@[t]] == t);
                }
            }
            return false;
        }
        proof {
            assert(list.linked(last, level as int));
            assert forall|i: int, l: int|
                0 <= i < list.n() && 0 <= l < list.height(i) && l < level + 1 implies
                #[trigger] list.linked(i, l) by {
                if l == level {
                    assert(list.order@[list.pos@[i]] == i);
                    assert(list.order@[list.pos@[last]] == last);
                }
            }
        }
        level += 1;
    }
    true
}

/// A hinted run and a plain run of the same inserts leave the same list: an
/// insert's outcome depends on the entries, the height draw, and the entry
/// alone.
pub proof fn lemma_hint_changes_nothing(
    plain: ArenaSkipList,
    hinted: ArenaSkipList,
    after_plain: ArenaSkipList,
    after_hinted: ArenaSkipList,
    user_key: Seq<u8>,
    seq: u64,
    value_type: u8,
    value: Seq<u8>,
)
    requires
        plain.entries() == hinted.entries(),
        plain.draw_state() == hinted.draw_state(),
        after_plain.entries() == plain.entries().insert(
            rank(plain.entries(), internal_key_of(user_key, seq, value_type)) as int,
            plain.entry_for(user_key, seq, value_type, value),
        ),
        after_hinted.entries() == hinted.entries().insert(
            rank(hinted.entries(), internal_key_of(user_key, seq, value_type)) as int,
            hinted.entry_for(user_key, seq, value_type, value),
        ),
        after_plain.draw_state() == xorshift(plain.draw_state()),
        after_hinted.draw_state() == xorshift(hinted.draw_state()),
    ensures
        after_plain.entries() == after_hinted.entries(),
        after_plain.draw_state() == after_hinted.draw_state(),
{
}

} // verus!
