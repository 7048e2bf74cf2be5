//! Encodings: numbers, stored keys, internal keys and errors, and that each
//! is read back as what was written.

use vstd::prelude::*;

use crate::bytes;
use crate::bytes::{
    be_bytes, be_value, bytes_lt, le_bytes, le_value, lemma_be_bytes_len, lemma_be_round_trip,
    lemma_be_bytes_order, lemma_bytes_lt_irreflexive, lemma_bytes_lt_total, lemma_le_bytes_len, lemma_le_round_trip,
    lemma_u32_fits, lemma_u64_fits,
};
use crate::column_family::{
    cf_lower_bound, cf_upper_bound, lemma_family_bounds, lemma_name_round_trip,
    lemma_prefixed_parts, name_from_key, name_key, prefix_key, META_CF_ID,
};
use crate::db::{
    all_prefixed, map_point_read_error, map_point_read_error_for, pair_views, prefixed_cf_id,
    strip_cf_prefix_entries, strip_cf_prefix_key, stripped,
};
use crate::engine::checksum::{fold, wal_record};
use crate::engine::internal_key::{
    encode_internal_key, internal_key_lt, lemma_internal_key_decodes, lemma_internal_key_order,
    sequence_of, user_key, value_type_of,
};
use crate::error::{Error, IoError, Result};
use crate::slice::DbSlice;
use crate::staged::{lemma_staged_map, staged_views, StagedWrite, StagedWrites};

verus! {

// ── numbers ─────────────────────────────────────────────────────────────

/// The number that four bytes make, the first one counting most.
pub open spec fn big_endian(s: Seq<u8>) -> int {
    s[0] * 0x100_0000 + s[1] * 0x1_0000 + s[2] * 0x100 + s[3]
}

/// The number that four bytes make, the last one counting most.
pub open spec fn little_endian(s: Seq<u8>) -> int {
    s[3] * 0x100_0000 + s[2] * 0x1_0000 + s[1] * 0x100 + s[0]
}

proof fn lemma_big_endian(s: Seq<u8>)
    requires
        s.len() == 4,
    ensures
        be_value(s) == big_endian(s),
{
    reveal_with_fuel(be_value, 5);
    assert(s.drop_last().drop_last().drop_last().drop_last() =~= Seq::<u8>::empty());
}

pub proof fn lemma_little_endian(s: Seq<u8>)
    requires
        s.len() == 4,
    ensures
        le_value(s) == little_endian(s),
{
    reveal_with_fuel(le_value, 5);
    assert(s.drop_first().drop_first().drop_first().drop_first() =~= Seq::<u8>::empty());
}

/// Big-endian numbers: four bytes are read as the number they make, and a
/// number is written as the four bytes that make it.
pub proof fn law_big_endian(s: &[u8], at: usize, read: u32, x: u32, written: Vec<u8>)
    requires
        at + 4 <= s@.len(),
        call_ensures(bytes::read_be32, (s, at), read),
        call_ensures(bytes::be32, (x,), written),
    ensures
        read == big_endian(s@.skip(at as int)),
        written@.len() == 4,
        big_endian(written@) == x,
{
    lemma_big_endian(s@.subrange(at as int, at + 4));
    lemma_u32_fits();
    lemma_be_bytes_len(x as nat, 4);
    lemma_be_round_trip(x as nat, 4);
    lemma_big_endian(written@);
}

/// Little-endian numbers: four bytes are read as the number they make, and a
/// number is added as the four bytes that make it.
pub proof fn law_little_endian(s: &[u8], at: usize, read: u32, out: &mut Vec<u8>, x: u32)
    requires
        at + 4 <= s@.len(),
        call_ensures(bytes::read_le32, (s, at), read),
        call_ensures(bytes::push_le32, (out, x), ()),
    ensures
        read == little_endian(s@.skip(at as int)),
        final(out)@.len() == old(out)@.len() + 4,
        final(out)@.take(old(out)@.len() as int) == old(out)@,
        little_endian(final(out)@.skip(old(out)@.len() as int)) == x,
{
    lemma_little_endian(s@.subrange(at as int, at + 4));
    lemma_u32_fits();
    lemma_le_bytes_len(x as nat, 4);
    lemma_le_round_trip(x as nat, 4);
    let tail = final(out)@.skip(old(out)@.len() as int);
    assert(tail =~= le_bytes(x as nat, 4));
    lemma_little_endian(tail);
}

// ── stored keys ─────────────────────────────────────────────────────────

/// A stored key is four bytes of its family's number, big end first, and the
/// user's key; both are read back, and nothing shorter is taken for one.
pub proof fn law_stored_key(
    id: u32,
    key: &[u8],
    stored: Vec<u8>,
    whole: &[u8],
    family: std::result::Result<u32, IoError>,
    user: Result<Vec<u8>>,
    short: &[u8],
    none: std::result::Result<u32, IoError>,
    bare: Result<Vec<u8>>,
)
    requires
        call_ensures(prefix_key, (id, key), stored),
        whole@ == stored@,
        call_ensures(prefixed_cf_id, (whole,), family),
        call_ensures(strip_cf_prefix_key, (whole,), user),
        short@.len() < 4,
        call_ensures(prefixed_cf_id, (short,), none),
        call_ensures(strip_cf_prefix_key, (short,), bare),
    ensures
        stored@.len() == key@.len() + 4,
        stored@.skip(4) == key@,
        big_endian(stored@) == id,
        family matches Ok(f) && f == id,
        user matches Ok(u) && u@ == key@,
        none is Err && bare is Err,
{
    lemma_prefixed_parts(id, key@);
    lemma_u32_fits();
    lemma_be_bytes_len(id as nat, 4);
    lemma_be_round_trip(id as nat, 4);
    lemma_big_endian(be_bytes(id as nat, 4));
    assert(stored@.take(4) =~= be_bytes(id as nat, 4));
    assert(stored@[0] == be_bytes(id as nat, 4)[0]);
    assert(stored@[1] == be_bytes(id as nat, 4)[1]);
    assert(stored@[2] == be_bytes(id as nat, 4)[2]);
    assert(stored@[3] == be_bytes(id as nat, 4)[3]);
}

/// The bounds of a family hold its stored keys and no other family's.
pub proof fn law_family_bounds(
    id: u32,
    low: Vec<u8>,
    high: Vec<u8>,
    other: u32,
    key: &[u8],
    stored: Vec<u8>,
)
    requires
        id < META_CF_ID,
        call_ensures(cf_lower_bound, (id,), low),
        call_ensures(cf_upper_bound, (id,), high),
        call_ensures(prefix_key, (other, key), stored),
    ensures
        !bytes_lt(stored@, low@) && bytes_lt(stored@, high@) <==> other == id,
{
    lemma_family_bounds(id, other, key@);
}

/// A family's name is read back from the key it is recorded under.
pub proof fn law_name_key(name: &str, key: Vec<u8>, whole: &[u8], r: Option<String>)
    requires
        call_ensures(name_key, (name,), key),
        whole@ == key@,
        call_ensures(name_from_key, (whole,), r),
    ensures
        r matches Some(text) && text@ == name@,
{
    lemma_name_round_trip(name@);
}

// ── internal keys ───────────────────────────────────────────────────────

/// An internal key gives back the user's key, the number and the type it was
/// made of.
pub proof fn law_internal_key(
    key: &[u8],
    seq: u64,
    kind: u8,
    made: Vec<u8>,
    whole: &[u8],
    user: &[u8],
    number: u64,
    told: Option<u8>,
)
    requires
        call_ensures(encode_internal_key, (key, seq, kind), made),
        whole@ == made@,
        call_ensures(user_key, (whole,), user),
        call_ensures(sequence_of, (whole,), number),
        call_ensures(value_type_of, (whole,), told),
    ensures
        made@.len() == key@.len() + 9,
        user@ == key@,
        number == seq,
        told == Some(kind),
{
    lemma_internal_key_decodes(key@, seq, kind);
}

/// Internal keys sort by the user's key, and of one key the newer first.
pub proof fn law_internal_key_order(
    a: &[u8],
    s: u64,
    t: u8,
    b: &[u8],
    u: u64,
    w: u8,
    x: Vec<u8>,
    y: Vec<u8>,
    left: &[u8],
    right: &[u8],
    r: bool,
)
    requires
        call_ensures(encode_internal_key, (a, s, t), x),
        call_ensures(encode_internal_key, (b, u, w), y),
        left@ == x@,
        right@ == y@,
        call_ensures(internal_key_lt, (left, right), r),
    ensures
        r <==> bytes_lt(a@, b@) || (a@ == b@ && (s > u || (s == u && t < w))),
{
    lemma_internal_key_order(a@, s, t, b@, u, w);
}

// ── checksums ───────────────────────────────────────────────────────────

/// The checksum of a record is the FNV-1a hash of its length, its type and
/// its data.
pub proof fn law_record_checksum(len: u32, kind: u8, data: &[u8], r: u32)
    requires
        call_ensures(wal_record, (len, kind, data), r),
    ensures
        r == fold(0x811c_9dc5, le_bytes(len as nat, 4) + seq![kind] + data@),
{
}

/// Each byte is taken into the hash by an exclusive or and a multiplication
/// by the prime of FNV, in 32 bits.
pub proof fn law_hash_step(state: u32, s: Seq<u8>, byte: u8)
    ensures
        fold(state, Seq::empty()) == state,
        fold(state, s.push(byte)) == ((fold(state, s) ^ (byte as u32)) as int * 16777619)
            % 0x1_0000_0000,
{
    assert(s.push(byte).drop_last() =~= s);
    let x = (fold(state, s) ^ (byte as u32)) as int;
    assert(0 <= (x * 16777619) % 0x1_0000_0000 < 0x1_0000_0000);
}

// ── staged writes ───────────────────────────────────────────────────────

/// What is staged for a key is found again, and nothing else changes.
pub proof fn law_staged_set_then_get(
    s: &mut StagedWrites,
    key: Vec<u8>,
    value: Option<Vec<u8>>,
    same: &[u8],
    found: Option<Option<Vec<u8>>>,
    other: &[u8],
    earlier: Option<Option<Vec<u8>>>,
    later: Option<Option<Vec<u8>>>,
)
    requires
        old(s).wf(),
        call_ensures(StagedWrites::set, (s, key, value), ()),
        same@ == key@,
        call_ensures(StagedWrites::get, (&*final(s), same), found),
        other@ != key@,
        call_ensures(StagedWrites::get, (&*old(s), other), earlier),
        call_ensures(StagedWrites::get, (&*final(s), other), later),
    ensures
        match (value, found) {
            (Some(v), Some(Some(w))) => v@ == w@,
            (None, Some(None)) => true,
            _ => false,
        },
        match (earlier, later) {
            (Some(Some(v)), Some(Some(w))) => v@ == w@,
            (Some(None), Some(None)) => true,
            (None, None) => true,
            _ => false,
        },
{
}

/// The staged writes come in key order, each key once, and they are the ones
/// that are found.
pub proof fn law_staged_entries(
    s: &StagedWrites,
    list: &Vec<StagedWrite>,
    n: usize,
    i: int,
    j: int,
    key: &[u8],
    found: Option<Option<Vec<u8>>>,
)
    requires
        s.wf(),
        call_ensures(StagedWrites::entries, (s,), list),
        call_ensures(StagedWrites::len, (s,), n),
        call_ensures(StagedWrites::get, (s, key), found),
        0 <= i < j < list@.len(),
        key@ == list@[i].key@,
    ensures
        n == list@.len(),
        bytes_lt(list@[i].key@, list@[j].key@),
        match (list@[i].value, found) {
            (Some(v), Some(Some(w))) => v@ == w@,
            (None, Some(None)) => true,
            _ => false,
        },
{
    let views = staged_views(list@);
    assert(views[i].key == list@[i].key@ && views[j].key == list@[j].key@);
    lemma_staged_map(s.list(), key@);
    let k = choose|k: int| 0 <= k < views.len() && (#[trigger] views[k]).key == key@;
    if k != i {
        crate::bytes::lemma_bytes_lt_irreflexive(key@);
        if k < i {
            assert(bytes_lt(views[k].key, views[i].key));
        } else {
            assert(bytes_lt(views[i].key, views[k].key));
        }
    }
}

// ── errors ──────────────────────────────────────────────────────────────

/// An error told as one of input or output says by its kind what it was, and
/// keeps what it said.
pub proof fn law_error_kind(e: Error, io: IoError)
    requires
        call_ensures(Error::into_io_error, (e,), io),
    ensures
        match e {
            Error::Io(inner) => io == inner,
            Error::Corruption(inner) => io == inner,
            Error::InvalidArgument(text) => io.kind is InvalidInput && io.message@ == text@,
            Error::InvalidColumnFamily(text) => io.kind is InvalidInput && io.message@ == text@,
            Error::ReadOnly => io.kind is PermissionDenied,
            Error::Closed => io.kind is NotConnected,
            Error::Busy(_) => io.kind is Other,
            Error::MergeFailed(_) => io.kind is Other,
        },
{
}

/// An error that carries no message of its own is told, on an I/O boundary,
/// in the words it has as text.
pub proof fn law_error_words(e: Error, io: IoError, shown: String)
    requires
        e is ReadOnly || e is Closed || e is Busy || e is MergeFailed,
        call_ensures(Error::into_io_error, (e,), io),
        call_ensures(Error::to_text, (&e,), shown),
    ensures
        io.message@ == shown@,
{
}

/// An I/O failure that becomes an error is, rendered as an I/O failure again,
/// the one it was. Bad data and a short file are corruption, a bad input is a
/// bad argument, and whatever is neither is an I/O error or, in the words of
/// a closed handle, that.
pub proof fn law_failure_comes_back(io: IoError, e: Error, back: IoError)
    requires
        call_ensures(Error::from, (io,), e),
        call_ensures(Error::into_io_error, (e,), back),
    ensures
        back.kind == io.kind,
        back.message@ == io.message@,
        e is Corruption <==> io.kind is InvalidData || io.kind is UnexpectedEof,
        e is InvalidArgument <==> io.kind is InvalidInput,
        e is Closed || e is Io || e is Corruption || e is InvalidArgument,
        e is Closed ==> io.kind is NotConnected,
{
}

/// A read that failed at a merge names the key it was of; one that failed
/// otherwise is reported as that failure is.
pub proof fn law_failed_read(io: IoError, user: &[u8], key: &[u8], plain: Error, a: Error, b: Error)
    requires
        key@.len() >= 4,
        user@ == key@.skip(4),
        call_ensures(Error::from, (io,), plain),
        call_ensures(map_point_read_error_for, (io, user), a),
        call_ensures(map_point_read_error, (io, key), b),
    ensures
        a matches Error::MergeFailed(k) ==> k@ == user@ && (b matches Error::MergeFailed(l) && l@
            == user@),
        a is MergeFailed <==> io.kind is InvalidData && "merge operator "@.is_prefix_of(io.message@),
        !(a is MergeFailed) ==> a == plain && b == plain,
{
    assert(key@.subrange(4, key@.len() as int) =~= key@.skip(4));
}

// ── bytes ───────────────────────────────────────────────────────────────

/// Numbers of eight bytes, the first one counting most, are read back as they
/// were written, and their bytes sort as they do.
pub proof fn law_big_endian_64(
    x: u64,
    y: u64,
    written: Vec<u8>,
    other: Vec<u8>,
    s: &[u8],
    at: usize,
    read: u64,
)
    requires
        call_ensures(bytes::be64, (x,), written),
        call_ensures(bytes::be64, (y,), other),
        at + 8 <= s@.len(),
        s@.subrange(at as int, at + 8) == written@,
        call_ensures(bytes::read_be64, (s, at), read),
    ensures
        written@.len() == 8,
        read == x,
        bytes_lt(written@, other@) <==> x < y,
{
    lemma_u64_fits();
    lemma_be_bytes_len(x as nat, 8);
    lemma_be_round_trip(x as nat, 8);
    lemma_be_bytes_order(x as nat, y as nat, 8);
}

/// Little-endian numbers of two and of eight bytes are read back as they were
/// written, the lowest byte first.
pub proof fn law_little_endian_others(
    x: u16,
    y: u64,
    two: &mut Vec<u8>,
    eight: &mut Vec<u8>,
    a: &[u8],
    b: &[u8],
    p: u16,
    q: u64,
)
    requires
        old(two)@.len() == 0,
        old(eight)@.len() == 0,
        call_ensures(bytes::push_le16, (two, x), ()),
        call_ensures(bytes::push_le64, (eight, y), ()),
        a@ == final(two)@,
        b@ == final(eight)@,
        call_ensures(bytes::read_le16, (a, 0), p),
        call_ensures(bytes::read_le64, (b, 0), q),
    ensures
        a@.len() == 2 && b@.len() == 8,
        a@[0] == x % 256 && a@[1] == x / 256,
        b@[0] == y % 256,
        p == x,
        q == y,
{
    lemma_u64_fits();
    reveal_with_fuel(crate::bytes::radix, 3);
    lemma_le_bytes_len(x as nat, 2);
    lemma_le_bytes_len(y as nat, 8);
    lemma_le_round_trip(x as nat, 2);
    lemma_le_round_trip(y as nat, 8);
    assert(a@ =~= le_bytes(x as nat, 2));
    assert(b@ =~= le_bytes(y as nat, 8));
    assert(a@.subrange(0, 2) =~= a@);
    assert(b@.subrange(0, 8) =~= b@);
    reveal_with_fuel(le_bytes, 3);
}

/// Two runs of bytes are the same where neither sorts before the other; a run
/// joined to another begins with the first and holds the second behind it; a
/// copy is the same.
pub proof fn law_runs_of_bytes(
    a: &[u8],
    b: &[u8],
    alike: bool,
    joined: Vec<u8>,
    whole: &[u8],
    begins: bool,
    copied: Vec<u8>,
)
    requires
        call_ensures(bytes::same, (a, b), alike),
        call_ensures(bytes::join, (a, b), joined),
        whole@ == joined@,
        call_ensures(bytes::starts_with, (whole, a), begins),
        call_ensures(bytes::copy, (a,), copied),
    ensures
        alike <==> !bytes_lt(a@, b@) && !bytes_lt(b@, a@),
        begins,
        joined@.len() == a@.len() + b@.len(),
        joined@.skip(a@.len() as int) == b@,
        copied@ == a@,
{
    lemma_bytes_lt_total(a@, b@);
    lemma_bytes_lt_irreflexive(a@);
    assert(joined@.skip(a@.len() as int) =~= b@);
    assert(a@ =~= whole@.subrange(0, a@.len() as int));
}

/// A slice handed out is the bytes it was made of, however they are taken.
pub proof fn law_slice(
    bytes: Vec<u8>,
    s: DbSlice,
    seen: &[u8],
    taken: Vec<u8>,
    len: usize,
    empty: bool,
)
    requires
        call_ensures(DbSlice::from_vec, (bytes,), s),
        call_ensures(DbSlice::as_slice, (&s,), seen),
        call_ensures(DbSlice::into_vec, (s,), taken),
        call_ensures(DbSlice::len, (&s,), len),
        call_ensures(DbSlice::is_empty, (&s,), empty),
    ensures
        seen@ == bytes@,
        taken@ == bytes@,
        len == bytes@.len(),
        empty <==> bytes@.len() == 0,
{
}

/// Stored entries come out under their users' keys: the first four bytes of
/// each key gone, everything else as it was; and one key too short for that
/// fails them all.
pub proof fn law_entries_stripped(
    raw: Vec<(Vec<u8>, Vec<u8>)>,
    r: Result<Vec<(Vec<u8>, Vec<u8>)>>,
)
    requires
        call_ensures(strip_cf_prefix_entries, (raw,), r),
    ensures
        r is Ok <==> forall|i: int| 0 <= i < raw@.len() ==> (#[trigger] raw@[i]).0@.len() >= 4,
        r matches Ok(out) ==> {
            &&& out@.len() == raw@.len()
            &&& forall|i: int|
                0 <= i < raw@.len() ==> (#[trigger] out@[i]).0@ == raw@[i].0@.skip(4) && out@[i].1@
                    == raw@[i].1@
        },
{
    let all = pair_views(raw@);
    assert forall|i: int| 0 <= i < raw@.len() implies (#[trigger] raw@[i]).0@ == all[i].0 by {}
    if r is Ok {
        let out = r->Ok_0;
        assert(pair_views(out@) == stripped(all));
        assert(pair_views(out@).len() == out@.len());
        assert forall|i: int| 0 <= i < raw@.len() implies (#[trigger] out@[i]).0@ == raw@[i].0@.skip(
            4,
        ) && out@[i].1@ == raw@[i].1@ by {
            assert(pair_views(out@)[i] == stripped(all)[i]);
        }
        assert forall|i: int| 0 <= i < raw@.len() implies (#[trigger] raw@[i]).0@.len() >= 4 by {
            assert(all[i].0.len() >= 4);
        }
    } else if forall|i: int| 0 <= i < raw@.len() ==> (#[trigger] raw@[i]).0@.len() >= 4 {
        assert(all_prefixed(all)) by {
            assert forall|i: int| 0 <= i < all.len() implies (#[trigger] all[i]).0.len() >= 4 by {
                assert(raw@[i].0@.len() >= 4);
            }
        }
    }
}

} // verus!
