//! Column families: logical keyspaces inside one database, told apart by a
//! four-byte prefix on every stored key.

use vstd::prelude::*;
use vstd::slice::slice_subrange;
use vstd::string::StrSliceExecFns;
use vstd::utf8::{decode_utf8, encode_utf8, encode_utf8_decode_utf8, valid_utf8};

use crate::bytes;
use crate::bytes::{
    be_bytes, be_value, bytes_le, bytes_lt, lemma_be_bytes_len, lemma_be_bytes_order,
    lemma_be_round_trip, lemma_bytes_lt_asymmetric, lemma_bytes_lt_common_prefix,
    lemma_bytes_lt_irreflexive, lemma_bytes_lt_prefix_decides, lemma_bytes_lt_total,
    lemma_bytes_lt_transitive, lemma_u32_fits,
};
use crate::history::covers;
use crate::text::same_text;

verus! {

/// Name of the column family every database has.
pub const DEFAULT_CF_NAME: &'static str = "default";

/// Id of the column family every database has.
pub const DEFAULT_CF_ID: u32 = 0;

/// Id of the reserved column family that holds the names of the others.
pub const META_CF_ID: u32 = 0xFFFF_FFFF;

/// Bytes a stored key carries before the user key.
pub const CF_PREFIX_LEN: usize = 4;

/// A reference to one column family.
#[derive(Debug, PartialEq, Eq)]
pub struct ColumnFamilyHandle {
    pub(crate) name: String,
    pub(crate) id: u32,
}

impl ColumnFamilyHandle {
    /// The family's name, as contracts speak of it.
    pub closed spec fn name_text(self) -> Seq<char> {
        self.name@
    }

    /// The family's id, as contracts speak of it.
    pub closed spec fn id_number(self) -> u32 {
        self.id
    }

    /// The family's name.
    pub fn name(&self) -> (r: &str)
        ensures
            r@ == self.name_text(),
    {
        self.name.as_str()
    }

    /// The family's id.
    pub fn id(&self) -> (r: u32)
        ensures
            r == self.id_number(),
    {
        self.id
    }

    /// The handle of the family `name` with `id`.
    pub(crate) fn named(name: &str, id: u32) -> (r: Self)
        ensures
            r.name_text() == name@,
            r.id_number() == id,
    {
        ColumnFamilyHandle { name: name.to_owned(), id }
    }
}

impl Clone for ColumnFamilyHandle {
    fn clone(&self) -> (r: Self)
        ensures
            r.name_text() == self.name_text(),
            r.id_number() == self.id_number(),
    {
        ColumnFamilyHandle { name: self.name.clone(), id: self.id }
    }
}

/// The stored form of `key` in column family `id`.
pub open spec fn prefixed(id: u32, key: Seq<u8>) -> Seq<u8> {
    be_bytes(id as nat, 4) + key
}

/// The user key of a stored key.
pub open spec fn unprefixed(key: Seq<u8>) -> Seq<u8> {
    key.skip(4)
}

/// The column family of a stored key.
pub open spec fn family_of(key: Seq<u8>) -> u32 {
    be_value(key.take(4)) as u32
}

/// The first key past every key of column family `id`.
pub open spec fn past_family(id: u32) -> Seq<u8> {
    be_bytes((id + 1) as nat, 4)
}

/// The stored form of `key` in column family `id`.
pub fn prefix_key(id: u32, key: &[u8]) -> (r: Vec<u8>)
    ensures
        r@ == prefixed(id, key@),
{
    bytes::join(bytes::be32(id).as_slice(), key)
}

/// The least stored key of column family `id`.
pub fn cf_lower_bound(id: u32) -> (r: Vec<u8>)
    ensures
        r@ == prefixed(id, Seq::empty()),
{
    let r: Vec<u8> = bytes::be32(id);
    assert(r@ =~= prefixed(id, Seq::empty()));
    r
}

/// The first stored key past column family `id`.
pub fn cf_upper_bound(id: u32) -> (r: Vec<u8>)
    requires
        id < META_CF_ID,
    ensures
        r@ == past_family(id),
{
    bytes::be32(id + 1)
}

/// A stored key gives back its family and its user key.
pub proof fn lemma_prefixed_parts(id: u32, key: Seq<u8>)
    ensures
        prefixed(id, key).len() == key.len() + 4,
        family_of(prefixed(id, key)) == id,
        unprefixed(prefixed(id, key)) == key,
{
    lemma_be_bytes_len(id as nat, 4);
    lemma_u32_fits();
    lemma_be_round_trip(id as nat, 4);
    assert(prefixed(id, key).take(4) =~= be_bytes(id as nat, 4));
    assert(prefixed(id, key).skip(4) =~= key);
}

/// Two stored keys are the same only for the same key of the same family.
pub proof fn lemma_families_disjoint(a: u32, x: Seq<u8>, b: u32, y: Seq<u8>)
    ensures
        prefixed(a, x) == prefixed(b, y) <==> a == b && x == y,
{
    lemma_prefixed_parts(a, x);
    lemma_prefixed_parts(b, y);
}

/// Stored keys of one family sort as their user keys do.
pub proof fn lemma_family_order(id: u32, x: Seq<u8>, y: Seq<u8>)
    ensures
        bytes_lt(prefixed(id, x), prefixed(id, y)) == bytes_lt(x, y),
{
    lemma_bytes_lt_common_prefix(be_bytes(id as nat, 4), x, y);
}

/// Stored keys of a lower family sort before those of a higher one.
pub proof fn lemma_family_before(a: u32, x: Seq<u8>, b: u32, y: Seq<u8>)
    requires
        a < b,
    ensures
        bytes_lt(prefixed(a, x), prefixed(b, y)),
        !bytes_lt(prefixed(b, y), prefixed(a, x)),
{
    let p = be_bytes(a as nat, 4);
    let q = be_bytes(b as nat, 4);
    lemma_u32_fits();
    lemma_be_bytes_len(a as nat, 4);
    lemma_be_bytes_len(b as nat, 4);
    lemma_be_bytes_order(a as nat, b as nat, 4);
    lemma_bytes_lt_irreflexive(p);
    lemma_bytes_lt_prefix_decides(p, q, x, y);
    lemma_bytes_lt_asymmetric(prefixed(a, x), prefixed(b, y));
}

/// The bounds of a family hold exactly its stored keys.
pub proof fn lemma_family_bounds(id: u32, other: u32, key: Seq<u8>)
    requires
        id < META_CF_ID,
    ensures
        covers(prefixed(id, Seq::empty()), past_family(id), prefixed(other, key)) <==> other == id,
{
    let none = Seq::<u8>::empty();
    let next = (id + 1) as u32;
    assert(past_family(id) =~= prefixed(next, none));
    if other < id {
        lemma_family_before(other, key, id, none);
    } else if other == id {
        lemma_family_before(id, key, next, none);
        lemma_family_order(id, key, none);
        assert(!bytes_lt(key, none));
    } else {
        if other == next {
            lemma_family_order(next, key, none);
            assert(!bytes_lt(key, none));
        } else {
            lemma_family_before(next, none, other, key);
        }
    }
}

/// The part of a family between two user keys holds exactly the stored keys
/// of that family between them.
pub proof fn lemma_family_range(id: u32, lo: Seq<u8>, hi: Seq<u8>, other: u32, key: Seq<u8>)
    ensures
        covers(prefixed(id, lo), prefixed(id, hi), prefixed(other, key)) <==> other == id
            && covers(lo, hi, key),
{
    if other < id {
        lemma_family_before(other, key, id, lo);
    } else if other > id {
        lemma_family_before(id, hi, other, key);
    } else {
        lemma_family_order(id, key, lo);
        lemma_family_order(id, key, hi);
    }
}

/// From a key of a family on, up to the family's end, come exactly the
/// stored keys of that family from it on.
pub proof fn lemma_family_tail(id: u32, lo: Seq<u8>, other: u32, key: Seq<u8>)
    requires
        id < META_CF_ID,
    ensures
        covers(prefixed(id, lo), past_family(id), prefixed(other, key)) <==> other == id
            && bytes_le(lo, key),
{
    lemma_family_bounds(id, other, key);
    if other == id {
        lemma_family_order(id, key, lo);
    } else if other > id {
        lemma_family_before(id, Seq::empty(), other, key);
    } else {
        lemma_family_before(other, key, id, lo);
    }
}

/// Up to a key of a family, from the family's start, come exactly the
/// stored keys of that family before it.
pub proof fn lemma_family_head(id: u32, hi: Seq<u8>, other: u32, key: Seq<u8>)
    ensures
        covers(prefixed(id, Seq::empty()), prefixed(id, hi), prefixed(other, key)) <==> other == id
            && bytes_lt(key, hi),
{
    lemma_family_range(id, Seq::empty(), hi, other, key);
    assert(!bytes_lt(key, Seq::<u8>::empty()));
}

// ── metadata keys ───────────────────────────────────────────────────────

/// What the user key of a name entry starts with: `name:`.
pub open spec fn name_mark() -> Seq<u8> {
    seq![110u8, 97u8, 109u8, 101u8, 58u8]
}

/// The metadata key that holds the id of the family `name`.
pub open spec fn name_key_of(name: Seq<char>) -> Seq<u8> {
    prefixed(META_CF_ID, name_mark() + encode_utf8(name))
}

/// The metadata key that holds the next id: `next_id`.
pub open spec fn next_id_key_bytes() -> Seq<u8> {
    prefixed(META_CF_ID, seq![110u8, 101u8, 120u8, 116u8, 95u8, 105u8, 100u8])
}

/// The first key past every name entry: `name;`.
pub open spec fn name_scan_end() -> Seq<u8> {
    prefixed(META_CF_ID, seq![110u8, 97u8, 109u8, 101u8, 59u8])
}

fn name_mark_bytes() -> (r: Vec<u8>)
    ensures
        r@ == name_mark(),
{
    let r: Vec<u8> = vec![110u8, 97u8, 109u8, 101u8, 58u8];
    assert(r@ =~= name_mark());
    r
}

/// The metadata key that holds the id of the family `name`.
pub fn name_key(name: &str) -> (r: Vec<u8>)
    ensures
        r@ == name_key_of(name@),
{
    let user: Vec<u8> = bytes::join(name_mark_bytes().as_slice(), name.as_bytes());
    prefix_key(META_CF_ID, user.as_slice())
}

/// The metadata key that holds the next id.
pub fn next_id_key() -> (r: Vec<u8>)
    ensures
        r@ == next_id_key_bytes(),
{
    let user: Vec<u8> = vec![110u8, 101u8, 120u8, 116u8, 95u8, 105u8, 100u8];
    assert(user@ =~= seq![110u8, 101u8, 120u8, 116u8, 95u8, 105u8, 100u8]);
    prefix_key(META_CF_ID, user.as_slice())
}

/// The least name entry.
pub fn name_scan_prefix() -> (r: Vec<u8>)
    ensures
        r@ == prefixed(META_CF_ID, name_mark()),
{
    prefix_key(META_CF_ID, name_mark_bytes().as_slice())
}

/// The first key past every name entry.
pub fn name_scan_upper() -> (r: Vec<u8>)
    ensures
        r@ == name_scan_end(),
{
    let user: Vec<u8> = vec![110u8, 97u8, 109u8, 101u8, 59u8];
    assert(user@ =~= seq![110u8, 97u8, 109u8, 101u8, 59u8]);
    prefix_key(META_CF_ID, user.as_slice())
}

/// The family a metadata key names, where it names one.
pub open spec fn name_in(key: Seq<u8>) -> Option<Seq<char>> {
    let head = prefixed(META_CF_ID, name_mark());
    if head.is_prefix_of(key) && valid_utf8(key.skip(head.len() as int)) {
        Some(decode_utf8(key.skip(head.len() as int)))
    } else {
        None
    }
}

/// The family a metadata key names, where it names one.
pub fn name_from_key(key: &[u8]) -> (r: Option<String>)
    ensures
        match name_in(key@) {
            Some(name) => r matches Some(text) && text@ == name,
            None => r is None,
        },
{
    let head: Vec<u8> = name_scan_prefix();
    if !bytes::starts_with(key, head.as_slice()) {
        return None;
    }
    let tail = slice_subrange(key, head.len(), key.len());
    assert(tail@ =~= key@.skip(head@.len() as int));
    crate::text::utf8_text(bytes::copy(tail))
}

/// A name entry names the family it was made for.
pub proof fn lemma_name_round_trip(name: Seq<char>)
    ensures
        name_in(name_key_of(name)) == Some(name),
{
    let head = prefixed(META_CF_ID, name_mark());
    let key = name_key_of(name);
    assert(key =~= head + encode_utf8(name));
    assert(key.skip(head.len() as int) =~= encode_utf8(name));
    vstd::utf8::encode_utf8_valid_utf8(name);
    encode_utf8_decode_utf8(name);
    assert(head.is_prefix_of(key));
}

// ── registry ────────────────────────────────────────────────────────────

/// One family by name.
struct Family {
    name: String,
    id: u32,
}

/// The order of names: that of their bytes.
pub open spec fn name_lt(a: Seq<char>, b: Seq<char>) -> bool {
    bytes_lt(encode_utf8(a), encode_utf8(b))
}

/// Names in ascending order, each once.
pub open spec fn names_ascend(names: Seq<Seq<char>>) -> bool {
    forall|i: int, j: int|
        0 <= i < j < names.len() ==> name_lt(#[trigger] names[i], #[trigger] names[j])
}

/// The texts of a run of strings.
pub open spec fn texts(v: Seq<String>) -> Seq<Seq<char>> {
    Seq::new(v.len(), |i: int| v[i]@)
}

/// Names are in one order.
pub proof fn lemma_name_lt_total(a: Seq<char>, b: Seq<char>)
    ensures
        a == b || name_lt(a, b) || name_lt(b, a),
        !name_lt(a, a),
        !(name_lt(a, b) && name_lt(b, a)),
{
    lemma_bytes_lt_total(encode_utf8(a), encode_utf8(b));
    lemma_bytes_lt_irreflexive(encode_utf8(a));
    if name_lt(a, b) {
        lemma_bytes_lt_asymmetric(encode_utf8(a), encode_utf8(b));
    }
    if encode_utf8(a) == encode_utf8(b) {
        encode_utf8_decode_utf8(a);
        encode_utf8_decode_utf8(b);
    }
}

/// The live column families, and the id the next one will get.
pub struct CfRegistry {
    // Ascending by name.
    families: Vec<Family>,
    next_id: u32,
}

impl CfRegistry {
    spec fn slot_of(self, name: Seq<char>) -> int {
        choose|i: int| 0 <= i < self.families@.len() && (#[trigger] self.families@[i]).name@ == name
    }

    /// The live families: id by name.
    pub closed spec fn live(self) -> Map<Seq<char>, u32> {
        Map::new(
            |name: Seq<char>|
                exists|i: int|
                    0 <= i < self.families@.len() && (#[trigger] self.families@[i]).name@ == name,
            |name: Seq<char>| self.families@[self.slot_of(name)].id,
        )
    }

    /// How many families are live.
    pub closed spec fn count(self) -> nat {
        self.families@.len()
    }

    /// The id the next family will get.
    pub closed spec fn upcoming(self) -> u32 {
        self.next_id
    }

    /// Names are in order, each once, and none has the reserved id.
    pub closed spec fn wf(self) -> bool {
        &&& forall|i: int, j: int|
            0 <= i < j < self.families@.len() ==> name_lt(
                (#[trigger] self.families@[i]).name@,
                (#[trigger] self.families@[j]).name@,
            )
        &&& forall|i: int| 0 <= i < self.families@.len() ==> (#[trigger] self.families@[i]).id
            < META_CF_ID
    }

    /// Some live family has this id.
    pub open spec fn has_id(self, id: u32) -> bool {
        exists|name: Seq<char>| #[trigger] self.live().dom().contains(name) && self.live()[name] == id
    }

    /// The handle names a live family by the id it has.
    pub open spec fn is_live(self, cf: ColumnFamilyHandle) -> bool {
        self.live().dom().contains(cf.name_text()) && self.live()[cf.name_text()] == cf.id_number()
    }

    proof fn lemma_slot(self, i: int)
        requires
            self.wf(),
            0 <= i < self.families@.len(),
        ensures
            self.live().dom().contains(self.families@[i].name@),
            self.live()[self.families@[i].name@] == self.families@[i].id,
    {
        let name = self.families@[i].name@;
        let j = self.slot_of(name);
        assert(0 <= j < self.families@.len() && self.families@[j].name@ == name);
        lemma_name_lt_total(name, name);
        if i < j {
            assert(name_lt(self.families@[i].name@, self.families@[j].name@));
        }
        if j < i {
            assert(name_lt(self.families@[j].name@, self.families@[i].name@));
        }
    }

    proof fn lemma_named(self, name: Seq<char>) -> (i: int)
        requires
            self.wf(),
            self.live().dom().contains(name),
        ensures
            0 <= i < self.families@.len(),
            self.families@[i].name@ == name,
    {
        self.slot_of(name)
    }

    /// No live family has the reserved id.
    pub proof fn lemma_ids(self, name: Seq<char>)
        requires
            self.wf(),
            self.live().dom().contains(name),
        ensures
            self.live()[name] < META_CF_ID,
    {
        let i = self.lemma_named(name);
        self.lemma_slot(i);
    }

    proof fn lemma_same_but(
        self,
        before: Self,
        name: Seq<char>,
        down: spec_fn(int) -> int,
        up: spec_fn(int) -> int,
    )
        requires
            self.wf(),
            before.wf(),
            forall|i: int|
                0 <= i < before.families@.len() && before.families@[i].name@ != name ==> 0
                    <= #[trigger] down(i) < self.families@.len() && self.families@[down(i)]
                    == before.families@[i],
            forall|j: int|
                0 <= j < self.families@.len() && self.families@[j].name@ != name ==> 0
                    <= #[trigger] up(j) < before.families@.len() && before.families@[up(j)]
                    == self.families@[j],
        ensures
            forall|other: Seq<char>|
                other != name ==> (self.live().dom().contains(other)
                    <==> before.live().dom().contains(other)),
            forall|other: Seq<char>|
                other != name && before.live().dom().contains(other) ==> self.live()[other]
                    == before.live()[other],
    {
        assert forall|other: Seq<char>| other != name implies (self.live().dom().contains(other)
            <==> before.live().dom().contains(other)) by {
            if self.live().dom().contains(other) {
                let j = self.lemma_named(other);
                before.lemma_slot(up(j));
            }
            if before.live().dom().contains(other) {
                let i = before.lemma_named(other);
                self.lemma_slot(down(i));
            }
        }
        assert forall|other: Seq<char>|
            other != name && before.live().dom().contains(other) implies self.live()[other]
            == before.live()[other] by {
            let i = before.lemma_named(other);
            before.lemma_slot(i);
            self.lemma_slot(down(i));
        }
    }

    /// A registry that knows the default family alone.
    pub fn new() -> (r: Self)
        ensures
            r.wf(),
            r.live() == Map::<Seq<char>, u32>::empty().insert(DEFAULT_CF_NAME@, DEFAULT_CF_ID),
            r.upcoming() == DEFAULT_CF_ID + 1,
    {
        let none: Vec<Family> = Vec::new();
        let mut r = CfRegistry { families: none, next_id: 1 };
        assert(r.live() =~= Map::<Seq<char>, u32>::empty());
        r.put(DEFAULT_CF_NAME, DEFAULT_CF_ID);
        r
    }

    /// The first family whose name is not before `name`.
    fn position(&self, name: &str) -> (r: usize)
        requires
            self.wf(),
        ensures
            r <= self.families@.len(),
            forall|i: int| 0 <= i < r ==> name_lt((#[trigger] self.families@[i]).name@, name@),
            r < self.families@.len() ==> !name_lt(self.families@[r as int].name@, name@),
    {
        let mut i: usize = 0;
        while i < self.families.len() && bytes::lt(
            self.families[i].name.as_str().as_bytes(),
            name.as_bytes(),
        )
            invariant
                i <= self.families@.len(),
                forall|j: int| 0 <= j < i ==> name_lt((#[trigger] self.families@[j]).name@, name@),
            decreases self.families@.len() - i,
        {
            i += 1;
        }
        i
    }

    /// Give the family `name` this id.
    fn put(&mut self, name: &str, id: u32)
        requires
            old(self).wf(),
            id < META_CF_ID,
        ensures
            final(self).wf(),
            final(self).live() == old(self).live().insert(name@, id),
            final(self).upcoming() == old(self).upcoming(),
    {
        let at: usize = self.position(name);
        let ghost before = *self;
        if at < self.families.len() && same_text(self.families[at].name.as_str(), name) {
            self.families.set(at, Family { name: name.to_owned(), id });
            proof {
                self.lemma_same_but(before, name@, |i: int| i, |j: int| j);
                self.lemma_slot(at as int);
                assert(self.live() =~= before.live().insert(name@, id));
            }
        } else {
            self.families.insert(at, Family { name: name.to_owned(), id });
            proof {
                Self::lemma_inserted(before, *self, at as int, name@, id);
            }
        }
    }

    proof fn lemma_inserted(before: Self, after: Self, at: int, name: Seq<char>, id: u32)
        requires
            before.wf(),
            id < META_CF_ID,
            0 <= at <= before.families@.len(),
            forall|i: int|
                0 <= i < at ==> name_lt((#[trigger] before.families@[i]).name@, name),
            at < before.families@.len() ==> !name_lt(before.families@[at].name@, name)
                && before.families@[at].name@ != name,
            after.families@.len() == before.families@.len() + 1,
            after.families@ == before.families@.insert(at, after.families@[at]),
            after.families@[at].name@ == name,
            after.families@[at].id == id,
        ensures
            after.wf(),
            after.live() == before.live().insert(name, id),
    {
        let s = before.families@;
        let r = after.families@;
        assert forall|i: int| at <= i < s.len() implies name_lt(name, (#[trigger] s[i]).name@) by {
            lemma_name_lt_total(name, s[at].name@);
            if i > at {
                assert(name_lt(s[at].name@, s[i].name@));
                lemma_bytes_lt_transitive(
                    encode_utf8(name),
                    encode_utf8(s[at].name@),
                    encode_utf8(s[i].name@),
                );
            }
        }
        assert forall|i: int, j: int| 0 <= i < j < r.len() implies name_lt(
            (#[trigger] r[i]).name@,
            (#[trigger] r[j]).name@,
        ) by {
            if i < at && j < at {
                assert(r[i] == s[i] && r[j] == s[j]);
            } else if i < at && j > at {
                assert(r[i] == s[i] && r[j] == s[j - 1]);
            } else if i < at {
                assert(r[i] == s[i]);
            } else if i == at {
                assert(r[j] == s[j - 1]);
            } else {
                assert(r[i] == s[i - 1] && r[j] == s[j - 1]);
            }
        }
        assert forall|i: int| 0 <= i < r.len() implies (#[trigger] r[i]).id < META_CF_ID by {
            if i < at {
                assert(r[i] == s[i]);
            } else if i > at {
                assert(r[i] == s[i - 1]);
            }
        }
        after.lemma_same_but(
            before,
            name,
            |i: int|
                if i < at {
                    i
                } else {
                    i + 1
                },
            |j: int|
                if j < at {
                    j
                } else {
                    j - 1
                },
        );
        after.lemma_slot(at);
        assert(after.live() =~= before.live().insert(name, id));
    }

    /// Replace what the registry holds by these families, the later of two
    /// with one name winning. An entry with the reserved id is skipped.
    pub fn load(&mut self, entries: &Vec<(String, u32)>, next_id: u32)
        requires
            old(self).wf(),
        ensures
            final(self).wf(),
            final(self).live() == loaded(entry_views(entries@)),
            final(self).upcoming() == next_id,
    {
        let none: Vec<Family> = Vec::new();
        self.families = none;
        self.next_id = next_id;
        let mut i: usize = 0;
        proof {
            assert(self.live() =~= Map::<Seq<char>, u32>::empty());
            assert(entry_views(entries@).take(0) =~= Seq::<(Seq<char>, u32)>::empty());
        }
        while i < entries.len()
            invariant
                i <= entries@.len(),
                self.wf(),
                self.live() == loaded(entry_views(entries@).take(i as int)),
                self.upcoming() == next_id,
            decreases entries@.len() - i,
        {
            proof {
                let more = entry_views(entries@).take(i + 1);
                assert(more.drop_last() =~= entry_views(entries@).take(i as int));
                assert(more.last() == (entries@[i as int].0@, entries@[i as int].1));
            }
            if entries[i].1 < META_CF_ID {
                self.put(entries[i].0.as_str(), entries[i].1);
            }
            i += 1;
        }
        assert(entry_views(entries@).take(i as int) =~= entry_views(entries@));
    }

    /// The handle of the live family `name`.
    pub fn get(&self, name: &str) -> (r: Option<ColumnFamilyHandle>)
        requires
            self.wf(),
        ensures
            match r {
                Some(cf) => self.live().dom().contains(name@) && cf.name_text() == name@
                    && cf.id_number() == self.live()[name@],
                None => !self.live().dom().contains(name@),
            },
    {
        let at: usize = self.position(name);
        if at < self.families.len() && same_text(self.families[at].name.as_str(), name) {
            proof {
                self.lemma_slot(at as int);
            }
            Some(ColumnFamilyHandle::named(name, self.families[at].id))
        } else {
            proof {
                self.lemma_absent(name@, at as int);
            }
            None
        }
    }

    /// A name that is not where it would be is nowhere.
    proof fn lemma_absent(self, name: Seq<char>, at: int)
        requires
            self.wf(),
            0 <= at <= self.families@.len(),
            forall|i: int| 0 <= i < at ==> name_lt((#[trigger] self.families@[i]).name@, name),
            at < self.families@.len() ==> !name_lt(self.families@[at].name@, name)
                && self.families@[at].name@ != name,
        ensures
            !self.live().dom().contains(name),
    {
        if self.live().dom().contains(name) {
            let i = self.lemma_named(name);
            lemma_name_lt_total(name, name);
            if i > at {
                lemma_name_lt_total(name, self.families@[at].name@);
                assert(name_lt(self.families@[at].name@, self.families@[i].name@));
            }
        }
    }

    /// Whether the handle names a live family by the id it has.
    pub fn is_live_handle(&self, cf: &ColumnFamilyHandle) -> (r: bool)
        requires
            self.wf(),
        ensures
            r == self.is_live(*cf),
    {
        match self.get(cf.name()) {
            Some(live) => live.id == cf.id,
            None => false,
        }
    }

    /// Whether some live family has this id.
    pub fn contains_id(&self, id: u32) -> (r: bool)
        requires
            self.wf(),
        ensures
            r == self.has_id(id),
    {
        let mut i: usize = 0;
        while i < self.families.len()
            invariant
                self.wf(),
                i <= self.families@.len(),
                forall|j: int| 0 <= j < i ==> (#[trigger] self.families@[j]).id != id,
            decreases self.families@.len() - i,
        {
            if self.families[i].id == id {
                proof {
                    self.lemma_slot(i as int);
                    assert(self.live().dom().contains(self.families@[i as int].name@));
                }
                return true;
            }
            i += 1;
        }
        proof {
            assert forall|name: Seq<char>| #[trigger]
                self.live().dom().contains(name) implies self.live()[name] != id by {
                let j = self.lemma_named(name);
                self.lemma_slot(j);
            }
        }
        false
    }

    /// The id the next family will get.
    pub fn next_id(&self) -> (r: u32)
        ensures
            r == self.upcoming(),
    {
        self.next_id
    }

    /// The names of the live families, in order.
    pub fn names(&self) -> (r: Vec<String>)
        requires
            self.wf(),
        ensures
            r@.len() == self.count(),
            names_ascend(texts(r@)),
            forall|name: Seq<char>| #[trigger]
                texts(r@).contains(name) <==> self.live().dom().contains(name),
    {
        let mut out: Vec<String> = Vec::new();
        let mut i: usize = 0;
        while i < self.families.len()
            invariant
                i <= self.families@.len(),
                out@.len() == i,
                forall|j: int| 0 <= j < i ==> (#[trigger] texts(out@)[j]) == self.families@[j].name@,
            decreases self.families@.len() - i,
        {
            let ghost before = texts(out@);
            out.push(self.families[i].name.clone());
            assert forall|j: int| 0 <= j < i + 1 implies (#[trigger] texts(out@)[j])
                == self.families@[j].name@ by {
                if j < i {
                    assert(texts(out@)[j] == before[j]);
                }
            }
            i += 1;
        }
        proof {
            assert forall|a: int, b: int| 0 <= a < b < texts(out@).len() implies name_lt(
                #[trigger] texts(out@)[a],
                #[trigger] texts(out@)[b],
            ) by {
                assert(name_lt(self.families@[a].name@, self.families@[b].name@));
            }
            assert forall|name: Seq<char>| #[trigger] texts(out@).contains(name) <==> self.live()
                .dom()
                .contains(name) by {
                if texts(out@).contains(name) {
                    let j = choose|j: int| 0 <= j < texts(out@).len() && texts(out@)[j] == name;
                    self.lemma_slot(j);
                }
                if self.live().dom().contains(name) {
                    let j = self.lemma_named(name);
                    assert(texts(out@)[j] == name);
                }
            }
        }
        out
    }

    /// Register a new family under the next id, and say which id comes
    /// after it. `None` when the ids are used up.
    pub fn allocate(&mut self, name: &str) -> (r: Option<(ColumnFamilyHandle, u32)>)
        requires
            old(self).wf(),
        ensures
            final(self).wf(),
            r is None <==> old(self).upcoming() >= META_CF_ID,
            r is None ==> *final(self) == *old(self),
            r matches Some((cf, next_id)) ==> {
                &&& cf.name_text() == name@
                &&& cf.id_number() == old(self).upcoming()
                &&& next_id == old(self).upcoming() + 1
                &&& final(self).upcoming() == next_id
                &&& final(self).live() == old(self).live().insert(name@, old(self).upcoming())
            },
    {
        if self.next_id >= META_CF_ID {
            return None;
        }
        let id: u32 = self.next_id;
        self.put(name, id);
        let ghost grown = *self;
        self.next_id = id + 1;
        assert(self.live() =~= grown.live());
        Some((ColumnFamilyHandle::named(name, id), id + 1))
    }

    /// Forget the family `name`.
    pub fn remove(&mut self, name: &str)
        requires
            old(self).wf(),
        ensures
            final(self).wf(),
            final(self).live() == old(self).live().remove(name@),
            final(self).upcoming() == old(self).upcoming(),
    {
        let at: usize = self.position(name);
        let ghost before = *self;
        if at < self.families.len() && same_text(self.families[at].name.as_str(), name) {
            self.families.remove(at);
            proof {
                Self::lemma_removed(before, *self, at as int);
            }
        } else {
            proof {
                self.lemma_absent(name@, at as int);
                assert(self.live() =~= before.live().remove(name@));
            }
        }
    }

    proof fn lemma_removed(before: Self, after: Self, at: int)
        requires
            before.wf(),
            0 <= at < before.families@.len(),
            after.families@ == before.families@.remove(at),
        ensures
            after.wf(),
            after.live() == before.live().remove(before.families@[at].name@),
    {
        let s = before.families@;
        let r = after.families@;
        let name = s[at].name@;
        assert forall|i: int, j: int| 0 <= i < j < r.len() implies name_lt(
            (#[trigger] r[i]).name@,
            (#[trigger] r[j]).name@,
        ) by {
            let x = if i < at {
                i
            } else {
                i + 1
            };
            let y = if j < at {
                j
            } else {
                j + 1
            };
            assert(r[i] == s[x] && r[j] == s[y]);
        }
        assert forall|i: int| 0 <= i < r.len() implies (#[trigger] r[i]).id < META_CF_ID
            && r[i].name@ != name by {
            let x = if i < at {
                i
            } else {
                i + 1
            };
            assert(r[i] == s[x]);
            lemma_name_lt_total(name, name);
            if x < at {
                assert(name_lt(s[x].name@, s[at].name@));
            } else {
                assert(name_lt(s[at].name@, s[x].name@));
            }
        }
        after.lemma_same_but(
            before,
            name,
            |i: int|
                if i < at {
                    i
                } else {
                    i - 1
                },
            |j: int|
                if j < at {
                    j
                } else {
                    j + 1
                },
        );
        assert(!after.live().dom().contains(name)) by {
            if after.live().dom().contains(name) {
                let j = after.lemma_named(name);
                assert(r[j].name@ != name);
            }
        }
        assert(after.live() =~= before.live().remove(name));
    }
}

/// The entries as names and ids.
pub open spec fn entry_views(v: Seq<(String, u32)>) -> Seq<(Seq<char>, u32)> {
    Seq::new(v.len(), |i: int| (v[i].0@, v[i].1))
}

/// What loading entries in order registers: the later of two with one name
/// wins, and an entry with the reserved id does not count.
pub open spec fn loaded(entries: Seq<(Seq<char>, u32)>) -> Map<Seq<char>, u32>
    decreases entries.len(),
{
    if entries.len() == 0 {
        Map::empty()
    } else {
        let before = loaded(entries.drop_last());
        if entries.last().1 < META_CF_ID {
            before.insert(entries.last().0, entries.last().1)
        } else {
            before
        }
    }
}

} // verus!
