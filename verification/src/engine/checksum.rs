//! Record checksums: 32-bit FNV-1a over the protected bytes.

use vstd::prelude::*;

use crate::bytes;
use crate::bytes::le_bytes;

verus! {

/// First state of a checksum.
pub const FNV_OFFSET: u32 = 0x811c_9dc5;

/// Multiplier of each step.
pub const FNV_PRIME: u64 = 0x0100_0193;

/// One step: fold `byte` into `state`.
pub open spec fn mix(state: u32, byte: u8) -> u32 {
    ((((state ^ (byte as u32)) as int) * FNV_PRIME) % 0x1_0000_0000) as u32
}

/// The checksum state after `s`.
pub open spec fn fold(state: u32, s: Seq<u8>) -> u32
    decreases s.len(),
{
    if s.len() == 0 {
        state
    } else {
        mix(fold(state, s.drop_last()), s.last())
    }
}

/// The checksum of a log record: it covers the length and the type as well
/// as the payload.
pub open spec fn record_sum(len: u32, record_type: u8, data: Seq<u8>) -> u32 {
    fold(FNV_OFFSET, le_bytes(len as nat, 4) + seq![record_type] + data)
}

/// The checksum of a log stamp.
pub open spec fn stamp_sum(magic: Seq<u8>, format: u16, reserved: u16) -> u32 {
    fold(FNV_OFFSET, magic + le_bytes(format as nat, 2) + le_bytes(reserved as nat, 2))
}

fn fold_bytes(state: u32, s: &[u8]) -> (r: u32)
    ensures
        r == fold(state, s@),
{
    let mut h: u32 = state;
    let mut i: usize = 0;
    assert(s@.take(0) =~= Seq::<u8>::empty());
    while i < s.len()
        invariant
            i <= s.len(),
            h == fold(state, s@.take(i as int)),
        decreases s.len() - i,
    {
        let x: u32 = h ^ (s[i] as u32);
        assert(x as int * FNV_PRIME <= u32::MAX * 0x0100_0193) by (nonlinear_arith)
            requires
                x <= u32::MAX,
                FNV_PRIME == 0x0100_0193,
        ;
        assert(s@.take(i + 1).drop_last() =~= s@.take(i as int));
        h = ((x as u64 * FNV_PRIME) % 0x1_0000_0000u64) as u32;
        i += 1;
    }
    assert(s@.take(s@.len() as int) =~= s@);
    h
}

/// Folding in two pieces is folding the whole.
pub proof fn lemma_fold_append(state: u32, a: Seq<u8>, b: Seq<u8>)
    ensures
        fold(state, a + b) == fold(fold(state, a), b),
    decreases b.len(),
{
    if b.len() == 0 {
        assert(a + b =~= a);
    } else {
        assert((a + b).drop_last() =~= a + b.drop_last());
        lemma_fold_append(state, a, b.drop_last());
    }
}

/// The checksum of a log record.
pub fn wal_record(len: u32, record_type: u8, data: &[u8]) -> (r: u32)
    ensures
        r == record_sum(len, record_type, data@),
{
    let mut head: Vec<u8> = Vec::new();
    bytes::push_le32(&mut head, len);
    head.push(record_type);
    proof {
        assert(head@ =~= le_bytes(len as nat, 4) + seq![record_type]);
        lemma_fold_append(FNV_OFFSET, head@, data@);
    }
    fold_bytes(fold_bytes(FNV_OFFSET, head.as_slice()), data)
}

/// The checksum of a log stamp.
pub fn wal_stamp(magic: &[u8], format: u16, reserved: u16) -> (r: u32)
    ensures
        r == stamp_sum(magic@, format, reserved),
{
    let mut head: Vec<u8> = bytes::copy(magic);
    bytes::push_le16(&mut head, format);
    bytes::push_le16(&mut head, reserved);
    fold_bytes(FNV_OFFSET, head.as_slice())
}

/// A step loses nothing: from its result and the byte, the state before it
/// is known, and from its result and the state, the byte.
proof fn lemma_mix_injective(s1: u32, b1: u8, s2: u32, b2: u8)
    requires
        mix(s1, b1) == mix(s2, b2),
    ensures
        s1 == s2 ==> b1 == b2,
        b1 == b2 ==> s1 == s2,
{
    let x = s1 ^ (b1 as u32);
    let y = s2 ^ (b2 as u32);
    let m = 0x1_0000_0000int;
    let p = FNV_PRIME as int;
    // The inverse of the multiplier.
    let q = 899433627int;
    assert(p * q % m == 1) by (nonlinear_arith)
        requires
            p == 0x0100_0193,
            q == 899433627,
            m == 0x1_0000_0000,
    ;
    lemma_times_inverse(x as int, p, q, m);
    lemma_times_inverse(y as int, p, q, m);
    assert(x == y);
    assert(s1 == s2 && (s1 ^ (b1 as u32)) == (s2 ^ (b2 as u32)) ==> b1 == b2) by (bit_vector);
    assert(b1 == b2 && (s1 ^ (b1 as u32)) == (s2 ^ (b2 as u32)) ==> s1 == s2) by (bit_vector);
}

/// Multiplying by an inverse brings a residue back.
proof fn lemma_times_inverse(x: int, p: int, q: int, m: int)
    requires
        0 <= x < m,
        p * q % m == 1,
        m > 1,
    ensures
        (x * p % m) * q % m == x,
{
    vstd::arithmetic::div_mod::lemma_mul_mod_noop_left(x * p, q, m);
    assert((x * p) * q == x * (p * q)) by (nonlinear_arith);
    vstd::arithmetic::div_mod::lemma_mul_mod_noop_right(x, p * q, m);
    assert(x * (p * q % m) == x);
    vstd::arithmetic::div_mod::lemma_small_mod(x as nat, m as nat);
}

/// From one state, different runs of one length that agree but for one byte
/// end in different states: no single changed byte goes unnoticed.
pub proof fn lemma_changed_byte_changes_sum(state: u32, s: Seq<u8>, at: int, byte: u8)
    requires
        0 <= at < s.len(),
        byte != s[at],
    ensures
        fold(state, s.update(at, byte)) != fold(state, s),
    decreases s.len(),
{
    let t = s.update(at, byte);
    if at == s.len() - 1 {
        assert(t.drop_last() =~= s.drop_last());
        if fold(state, t) == fold(state, s) {
            lemma_mix_injective(
                fold(state, t.drop_last()),
                t.last(),
                fold(state, s.drop_last()),
                s.last(),
            );
        }
    } else {
        assert(t.drop_last() =~= s.drop_last().update(at, byte));
        lemma_changed_byte_changes_sum(state, s.drop_last(), at, byte);
        if fold(state, t) == fold(state, s) {
            lemma_mix_injective(
                fold(state, t.drop_last()),
                t.last(),
                fold(state, s.drop_last()),
                s.last(),
            );
        }
    }
}

} // verus!
