//! Internal keys: a user key, the complement of its sequence number, and
//! the type of what the entry holds.

use vstd::prelude::*;
use vstd::slice::slice_subrange;

use crate::bytes;
use crate::bytes::{
    be_bytes, be_value, bytes_lt, lemma_be_bytes_len, lemma_be_bytes_order, lemma_be_round_trip,
    lemma_bytes_lt_common_prefix, lemma_bytes_lt_irreflexive,
    lemma_bytes_lt_prefix_decides, lemma_bytes_lt_total, lemma_bytes_lt_transitive,
    lemma_u64_fits,
};

verus! {

/// Bytes an internal key carries after the user key: the complemented
/// sequence number, big-endian, and the value type.
pub const INTERNAL_KEY_SUFFIX_LEN: usize = 9;

/// The entry is a deletion.
pub const VALUE_TYPE_DELETION: u8 = 0;

/// The entry is a value.
pub const VALUE_TYPE_VALUE: u8 = 1;

/// The entry is a merge operand.
pub const VALUE_TYPE_MERGE: u8 = 2;

/// Where the user key of an internal key ends.
pub open spec fn split_point(key: Seq<u8>) -> int {
    if key.len() >= INTERNAL_KEY_SUFFIX_LEN {
        key.len() - INTERNAL_KEY_SUFFIX_LEN
    } else {
        0
    }
}

/// The user key inside an internal key.
pub open spec fn user_part(key: Seq<u8>) -> Seq<u8> {
    key.take(split_point(key))
}

/// The trailer of an internal key.
pub open spec fn trailer_part(key: Seq<u8>) -> Seq<u8> {
    key.skip(split_point(key))
}

/// The order of internal keys: by user key, then by trailer, so that of
/// one user key the newest entry comes first. Plain byte order would not
/// do: one user key may be a prefix of another.
pub open spec fn key_lt(a: Seq<u8>, b: Seq<u8>) -> bool {
    ||| bytes_lt(user_part(a), user_part(b))
    ||| user_part(a) == user_part(b) && bytes_lt(trailer_part(a), trailer_part(b))
}

/// The nine trailing bytes of an internal key.
pub open spec fn trailer_of(seq: u64, value_type: u8) -> Seq<u8> {
    be_bytes((u64::MAX - seq) as nat, 8).push(value_type)
}

/// The internal key of one entry.
pub open spec fn internal_key_of(user_key: Seq<u8>, seq: u64, value_type: u8) -> Seq<u8> {
    user_key + trailer_of(seq, value_type)
}

/// An internal key splits back into the user key and the trailer.
pub proof fn lemma_internal_key_parts(user_key: Seq<u8>, seq: u64, value_type: u8)
    ensures
        user_part(internal_key_of(user_key, seq, value_type)) == user_key,
        trailer_part(internal_key_of(user_key, seq, value_type)) == trailer_of(seq, value_type),
{
    let key = internal_key_of(user_key, seq, value_type);
    lemma_be_bytes_len((u64::MAX - seq) as nat, 8);
    assert(key.take(user_key.len() as int) =~= user_key);
    assert(key.skip(user_key.len() as int) =~= trailer_of(seq, value_type));
}

/// An internal key is its two parts.
pub proof fn lemma_parts_determine_key(a: Seq<u8>, b: Seq<u8>)
    requires
        user_part(a) == user_part(b),
        trailer_part(a) == trailer_part(b),
    ensures
        a == b,
{
    assert(a =~= user_part(a) + trailer_part(a));
    assert(b =~= user_part(b) + trailer_part(b));
}

/// No internal key sorts before itself.
pub proof fn lemma_key_lt_irreflexive(a: Seq<u8>)
    ensures
        !key_lt(a, a),
{
    lemma_bytes_lt_irreflexive(user_part(a));
    lemma_bytes_lt_irreflexive(trailer_part(a));
}

/// The order of internal keys is transitive.
pub proof fn lemma_key_lt_transitive(a: Seq<u8>, b: Seq<u8>, c: Seq<u8>)
    requires
        key_lt(a, b),
        key_lt(b, c),
    ensures
        key_lt(a, c),
{
    if bytes_lt(user_part(a), user_part(b)) && bytes_lt(user_part(b), user_part(c)) {
        lemma_bytes_lt_transitive(user_part(a), user_part(b), user_part(c));
    } else if user_part(a) == user_part(b) && user_part(b) == user_part(c) {
        if !bytes_lt(user_part(a), user_part(c)) {
            lemma_bytes_lt_irreflexive(user_part(a));
            lemma_bytes_lt_transitive(trailer_part(a), trailer_part(b), trailer_part(c));
        }
    }
}

/// The order of internal keys is total.
pub proof fn lemma_key_lt_total(a: Seq<u8>, b: Seq<u8>)
    ensures
        a == b || key_lt(a, b) || key_lt(b, a),
{
    lemma_bytes_lt_total(user_part(a), user_part(b));
    lemma_bytes_lt_total(trailer_part(a), trailer_part(b));
    if user_part(a) == user_part(b) && trailer_part(a) == trailer_part(b) {
        lemma_parts_determine_key(a, b);
    }
}

/// What sorts at or before `b` sorts before everything above `b`.
pub proof fn lemma_key_le_lt(a: Seq<u8>, b: Seq<u8>, c: Seq<u8>)
    requires
        !key_lt(b, a),
        key_lt(b, c),
    ensures
        key_lt(a, c),
{
    lemma_key_lt_total(a, b);
    if key_lt(a, b) {
        lemma_key_lt_transitive(a, b, c);
    }
}

/// Of one user key the newer entry sorts first, whatever the two hold.
pub proof fn lemma_newer_sorts_first(user_key: Seq<u8>, s1: u64, t1: u8, s2: u64, t2: u8)
    requires
        s1 > s2,
    ensures
        key_lt(internal_key_of(user_key, s1, t1), internal_key_of(user_key, s2, t2)),
        !key_lt(internal_key_of(user_key, s2, t2), internal_key_of(user_key, s1, t1)),
{
    let a = (u64::MAX - s1) as nat;
    let b = (u64::MAX - s2) as nat;
    let pa = be_bytes(a, 8);
    let pb = be_bytes(b, 8);
    lemma_internal_key_parts(user_key, s1, t1);
    lemma_internal_key_parts(user_key, s2, t2);
    lemma_u64_fits();
    lemma_be_bytes_len(a, 8);
    lemma_be_bytes_len(b, 8);
    lemma_be_bytes_order(a, b, 8);
    lemma_be_bytes_order(b, a, 8);
    lemma_bytes_lt_irreflexive(pa);
    lemma_bytes_lt_prefix_decides(pa, pb, seq![t1], seq![t2]);
    assert(trailer_of(s1, t1) =~= pa + seq![t1]);
    assert(trailer_of(s2, t2) =~= pb + seq![t2]);
    let x = internal_key_of(user_key, s1, t1);
    let y = internal_key_of(user_key, s2, t2);
    lemma_key_lt_irreflexive(x);
    if key_lt(y, x) {
        lemma_key_lt_transitive(x, y, x);
    }
}

/// The sequence number an internal key carries.
pub open spec fn seq_part(key: Seq<u8>) -> u64 {
    (u64::MAX - be_value(trailer_part(key).take(8))) as u64
}

/// An internal key gives its sequence number and value type back.
pub proof fn lemma_internal_key_decodes(user_key: Seq<u8>, seq: u64, value_type: u8)
    ensures
        internal_key_of(user_key, seq, value_type).len() == user_key.len() + INTERNAL_KEY_SUFFIX_LEN,
        user_part(internal_key_of(user_key, seq, value_type)) == user_key,
        seq_part(internal_key_of(user_key, seq, value_type)) == seq,
        internal_key_of(user_key, seq, value_type).last() == value_type,
{
    let x = (u64::MAX - seq) as nat;
    lemma_internal_key_parts(user_key, seq, value_type);
    lemma_be_bytes_len(x, 8);
    lemma_u64_fits();
    lemma_be_round_trip(x, 8);
    assert(trailer_of(seq, value_type).take(8) =~= be_bytes(x, 8));
}

/// Internal keys sort by user key, then newest first, then by value type.
pub proof fn lemma_internal_key_order(u1: Seq<u8>, s1: u64, t1: u8, u2: Seq<u8>, s2: u64, t2: u8)
    ensures
        key_lt(internal_key_of(u1, s1, t1), internal_key_of(u2, s2, t2)) <==> (bytes_lt(u1, u2)
            || u1 == u2 && (s1 > s2 || s1 == s2 && t1 < t2)),
{
    lemma_internal_key_parts(u1, s1, t1);
    lemma_internal_key_parts(u2, s2, t2);
    lemma_bytes_lt_irreflexive(u1);
    if u1 == u2 {
        if s1 > s2 {
            lemma_newer_sorts_first(u1, s1, t1, s2, t2);
        } else if s1 < s2 {
            lemma_newer_sorts_first(u1, s2, t2, s1, t1);
        } else {
            let p = be_bytes((u64::MAX - s1) as nat, 8);
            assert(trailer_of(s1, t1) =~= p + seq![t1]);
            assert(trailer_of(s2, t2) =~= p + seq![t2]);
            lemma_bytes_lt_common_prefix(p, seq![t1], seq![t2]);
            assert(seq![t1].drop_first() =~= Seq::<u8>::empty());
            assert(seq![t2].drop_first() =~= Seq::<u8>::empty());
            reveal_with_fuel(bytes_lt, 2);
            assert(seq![t1][0] == t1 && seq![t2][0] == t2);
        }
    }
}

/// The sequence number of an internal key.
pub fn sequence_of(key: &[u8]) -> (r: u64)
    requires
        key@.len() >= INTERNAL_KEY_SUFFIX_LEN,
    ensures
        r == seq_part(key@),
{
    let at: usize = key.len() - INTERNAL_KEY_SUFFIX_LEN;
    let stored: u64 = bytes::read_be64(key, at);
    assert(trailer_part(key@).take(8) =~= key@.subrange(at as int, at + 8));
    u64::MAX - stored
}

/// Where the user key of `key` ends.
fn split_at(key: &[u8]) -> (r: usize)
    ensures
        r == split_point(key@),
{
    if key.len() >= INTERNAL_KEY_SUFFIX_LEN {
        key.len() - INTERNAL_KEY_SUFFIX_LEN
    } else {
        0
    }
}

/// Whether internal key `a` sorts before internal key `b`.
pub fn internal_key_lt(a: &[u8], b: &[u8]) -> (r: bool)
    ensures
        r == key_lt(a@, b@),
{
    let sa: usize = split_at(a);
    let sb: usize = split_at(b);
    let ua = slice_subrange(a, 0, sa);
    let ub = slice_subrange(b, 0, sb);
    assert(ua@ =~= user_part(a@));
    assert(ub@ =~= user_part(b@));
    let ta = slice_subrange(a, sa, a.len());
    let tb = slice_subrange(b, sb, b.len());
    assert(ta@ =~= trailer_part(a@));
    assert(tb@ =~= trailer_part(b@));
    if bytes::lt(ua, ub) {
        true
    } else if bytes::same(ua, ub) {
        bytes::lt(ta, tb)
    } else {
        false
    }
}

/// The user key of an internal key.
pub fn user_key(key: &[u8]) -> (r: &[u8])
    ensures
        r@ == user_part(key@),
{
    let r = slice_subrange(key, 0, split_at(key));
    assert(r@ =~= user_part(key@));
    r
}

/// The nine-byte trailer of an entry: its complemented sequence number,
/// big-endian, and its value type.
pub fn internal_trailer(seq: u64, value_type: u8) -> (r: Vec<u8>)
    ensures
        r@ == trailer_of(seq, value_type),
{
    let mut out: Vec<u8> = bytes::be64(u64::MAX - seq);
    out.push(value_type);
    assert(out@ =~= trailer_of(seq, value_type));
    out
}

/// Assemble the internal key of one entry.
pub fn encode_internal_key(user_key: &[u8], seq: u64, value_type: u8) -> (r: Vec<u8>)
    ensures
        r@ == internal_key_of(user_key@, seq, value_type),
{
    bytes::join(user_key, internal_trailer(seq, value_type).as_slice())
}

/// The value type an internal key carries, where it is long enough to.
pub fn value_type_of(key: &[u8]) -> (r: Option<u8>)
    ensures
        r == (if key@.len() > 0 { Some(key@.last()) } else { None }),
{
    if key.len() > 0 {
        Some(key[key.len() - 1])
    } else {
        None
    }
}

} // verus!
