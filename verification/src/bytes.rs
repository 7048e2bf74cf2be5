//! Byte strings: their order, their prefixes, and copies of them.

use vstd::prelude::*;
use vstd::slice::slice_subrange;

verus! {

/// The order of keys: byte by byte, a proper prefix before its extensions.
pub open spec fn bytes_lt(a: Seq<u8>, b: Seq<u8>) -> bool
    decreases a.len(),
{
    if b.len() == 0 {
        false
    } else if a.len() == 0 {
        true
    } else if a[0] != b[0] {
        a[0] < b[0]
    } else {
        bytes_lt(a.drop_first(), b.drop_first())
    }
}

/// `a` sorts at or before `b`.
pub open spec fn bytes_le(a: Seq<u8>, b: Seq<u8>) -> bool {
    !bytes_lt(b, a)
}

/// The views of a run of byte strings.
pub open spec fn views(v: Seq<Vec<u8>>) -> Seq<Seq<u8>> {
    Seq::new(v.len(), |i: int| v[i]@)
}

/// The views of a run of byte slices.
pub open spec fn slice_views(v: Seq<&[u8]>) -> Seq<Seq<u8>> {
    Seq::new(v.len(), |i: int| v[i]@)
}

/// The view of an optional byte string.
pub open spec fn opt_view(v: Option<Vec<u8>>) -> Option<Seq<u8>> {
    match v {
        Some(v) => Some(v@),
        None => None,
    }
}

/// The view of an optional byte slice.
pub open spec fn opt_slice_view(v: Option<&[u8]>) -> Option<Seq<u8>> {
    match v {
        Some(v) => Some(v@),
        None => None,
    }
}

/// No byte string sorts before itself.
pub proof fn lemma_bytes_lt_irreflexive(a: Seq<u8>)
    ensures
        !bytes_lt(a, a),
    decreases a.len(),
{
    if a.len() > 0 {
        lemma_bytes_lt_irreflexive(a.drop_first());
    }
}

/// The order of byte strings is transitive.
pub proof fn lemma_bytes_lt_transitive(a: Seq<u8>, b: Seq<u8>, c: Seq<u8>)
    requires
        bytes_lt(a, b),
        bytes_lt(b, c),
    ensures
        bytes_lt(a, c),
    decreases a.len(),
{
    if a.len() > 0 && a[0] == b[0] && b[0] == c[0] {
        lemma_bytes_lt_transitive(a.drop_first(), b.drop_first(), c.drop_first());
    }
}

/// The order of byte strings is total.
pub proof fn lemma_bytes_lt_total(a: Seq<u8>, b: Seq<u8>)
    ensures
        a == b || bytes_lt(a, b) || bytes_lt(b, a),
    decreases a.len(),
{
    if a.len() == 0 {
        if b.len() == 0 {
            assert(a =~= b);
        }
    } else if b.len() > 0 && a[0] == b[0] {
        lemma_bytes_lt_total(a.drop_first(), b.drop_first());
        if a.drop_first() == b.drop_first() {
            assert(a =~= seq![a[0]] + a.drop_first());
            assert(b =~= seq![b[0]] + b.drop_first());
            assert(a =~= b);
        }
    }
}

/// Two byte strings never sort before each other.
pub proof fn lemma_bytes_lt_asymmetric(a: Seq<u8>, b: Seq<u8>)
    requires
        bytes_lt(a, b),
    ensures
        !bytes_lt(b, a),
        a != b,
{
    lemma_bytes_lt_irreflexive(a);
    if bytes_lt(b, a) {
        lemma_bytes_lt_transitive(a, b, a);
    }
}

/// Whatever sorts at or after `b` sorts after everything below `b`.
pub proof fn lemma_bytes_lt_le(a: Seq<u8>, b: Seq<u8>, c: Seq<u8>)
    requires
        bytes_lt(a, b),
        bytes_le(b, c),
    ensures
        bytes_lt(a, c),
{
    lemma_bytes_lt_total(b, c);
    if bytes_lt(b, c) {
        lemma_bytes_lt_transitive(a, b, c);
    }
}

/// Whatever sorts at or before `b` sorts before everything above `b`.
pub proof fn lemma_bytes_le_lt(a: Seq<u8>, b: Seq<u8>, c: Seq<u8>)
    requires
        bytes_le(a, b),
        bytes_lt(b, c),
    ensures
        bytes_lt(a, c),
{
    lemma_bytes_lt_total(a, b);
    if bytes_lt(a, b) {
        lemma_bytes_lt_transitive(a, b, c);
    }
}

/// A common prefix decides nothing: the rest does.
pub proof fn lemma_bytes_lt_common_prefix(p: Seq<u8>, a: Seq<u8>, b: Seq<u8>)
    ensures
        bytes_lt(p + a, p + b) == bytes_lt(a, b),
    decreases p.len(),
{
    if p.len() == 0 {
        assert(p + a =~= a);
        assert(p + b =~= b);
    } else {
        assert((p + a).drop_first() =~= p.drop_first() + a);
        assert((p + b).drop_first() =~= p.drop_first() + b);
        lemma_bytes_lt_common_prefix(p.drop_first(), a, b);
    }
}

/// Prefixes of one length that differ decide the order on their own.
pub proof fn lemma_bytes_lt_prefix_decides(p: Seq<u8>, q: Seq<u8>, a: Seq<u8>, b: Seq<u8>)
    requires
        p.len() == q.len(),
        p != q,
    ensures
        bytes_lt(p + a, q + b) == bytes_lt(p, q),
    decreases p.len(),
{
    if p.len() == 0 {
        assert(p =~= q);
    } else {
        assert((p + a).drop_first() =~= p.drop_first() + a);
        assert((q + b).drop_first() =~= q.drop_first() + b);
        if p[0] == q[0] {
            if p.drop_first() == q.drop_first() {
                assert(p =~= seq![p[0]] + p.drop_first());
                assert(q =~= seq![q[0]] + q.drop_first());
            }
            lemma_bytes_lt_prefix_decides(p.drop_first(), q.drop_first(), a, b);
        }
    }
}

/// 256 to the power `n`: how many numbers `n` bytes can write.
pub open spec fn radix(n: nat) -> nat
    decreases n,
{
    if n == 0 {
        1
    } else {
        256 * radix((n - 1) as nat)
    }
}

/// The lowest `n` base-256 digits of `x`, most significant first.
pub open spec fn be_bytes(x: nat, n: nat) -> Seq<u8>
    decreases n,
{
    if n == 0 {
        Seq::empty()
    } else {
        be_bytes(x / 256, (n - 1) as nat).push((x % 256) as u8)
    }
}

/// The lowest `n` base-256 digits of `x`, least significant first.
pub open spec fn le_bytes(x: nat, n: nat) -> Seq<u8>
    decreases n,
{
    if n == 0 {
        Seq::empty()
    } else {
        seq![(x % 256) as u8] + le_bytes(x / 256, (n - 1) as nat)
    }
}

/// The number whose base-256 digits, least significant first, are `s`.
pub open spec fn le_value(s: Seq<u8>) -> nat
    decreases s.len(),
{
    if s.len() == 0 {
        0
    } else {
        s[0] as nat + 256 * le_value(s.drop_first())
    }
}

/// The number whose base-256 digits, most significant first, are `s`.
pub open spec fn be_value(s: Seq<u8>) -> nat
    decreases s.len(),
{
    if s.len() == 0 {
        0
    } else {
        be_value(s.drop_last()) * 256 + s.last() as nat
    }
}

/// Four bytes write every `u32`.
pub proof fn lemma_u32_fits()
    ensures
        radix(4) == u32::MAX + 1,
{
    reveal_with_fuel(radix, 5);
}

/// Eight bytes write every `u64`.
pub proof fn lemma_u64_fits()
    ensures
        radix(8) == u64::MAX + 1,
{
    reveal_with_fuel(radix, 9);
}

pub proof fn lemma_be_bytes_len(x: nat, n: nat)
    ensures
        be_bytes(x, n).len() == n,
    decreases n,
{
    if n > 0 {
        lemma_be_bytes_len(x / 256, (n - 1) as nat);
    }
}

pub proof fn lemma_le_bytes_len(x: nat, n: nat)
    ensures
        le_bytes(x, n).len() == n,
    decreases n,
{
    if n > 0 {
        lemma_le_bytes_len(x / 256, (n - 1) as nat);
    }
}

/// Of two numbers that fit, the larger has the larger big-endian bytes.
pub proof fn lemma_be_bytes_order(x: nat, y: nat, n: nat)
    requires
        x < radix(n),
        y < radix(n),
    ensures
        x < y <==> bytes_lt(be_bytes(x, n), be_bytes(y, n)),
        x == y <==> be_bytes(x, n) == be_bytes(y, n),
    decreases n,
{
    if n > 0 {
        let m = (n - 1) as nat;
        let p = be_bytes(x / 256, m);
        let q = be_bytes(y / 256, m);
        let a = seq![(x % 256) as u8];
        let b = seq![(y % 256) as u8];
        lemma_be_bytes_order(x / 256, y / 256, m);
        lemma_be_bytes_len(x / 256, m);
        lemma_be_bytes_len(y / 256, m);
        assert(be_bytes(x, n) =~= p + a);
        assert(be_bytes(y, n) =~= q + b);
        if p != q {
            lemma_bytes_lt_prefix_decides(p, q, a, b);
            assert((p + a).take(m as int) =~= p);
            assert((q + b).take(m as int) =~= q);
        } else {
            lemma_bytes_lt_common_prefix(p, a, b);
            reveal_with_fuel(bytes_lt, 2);
            assert(a.drop_first() =~= Seq::<u8>::empty());
            assert((p + a)[m as int] == a[0]);
            assert((q + b)[m as int] == b[0]);
        }
    }
}

/// Big-endian bytes read back as the number they were written from.
pub proof fn lemma_be_round_trip(x: nat, n: nat)
    requires
        x < radix(n),
    ensures
        be_value(be_bytes(x, n)) == x,
    decreases n,
{
    if n > 0 {
        let m = (n - 1) as nat;
        lemma_be_round_trip(x / 256, m);
        assert(be_bytes(x, n).drop_last() =~= be_bytes(x / 256, m));
    }
}

/// Little-endian bytes read back as the number they were written from.
pub proof fn lemma_le_round_trip(x: nat, n: nat)
    requires
        x < radix(n),
    ensures
        le_value(le_bytes(x, n)) == x,
    decreases n,
{
    if n > 0 {
        let m = (n - 1) as nat;
        lemma_le_round_trip(x / 256, m);
        assert(le_bytes(x, n).drop_first() =~= le_bytes(x / 256, m));
    }
}

/// `n` bytes write a number below `radix(n)`.
pub proof fn lemma_le_value_bound(s: Seq<u8>)
    ensures
        le_value(s) < radix(s.len()),
    decreases s.len(),
{
    if s.len() > 0 {
        lemma_le_value_bound(s.drop_first());
    }
}

/// `n` bytes write a number below `radix(n)`.
pub proof fn lemma_be_value_bound(s: Seq<u8>)
    ensures
        be_value(s) < radix(s.len()),
    decreases s.len(),
{
    if s.len() > 0 {
        lemma_be_value_bound(s.drop_last());
    }
}

/// A number's digits are the bytes it was read from.
pub proof fn lemma_le_value_unique(s: Seq<u8>)
    ensures
        le_bytes(le_value(s), s.len()) == s,
    decreases s.len(),
{
    if s.len() > 0 {
        lemma_le_value_unique(s.drop_first());
        assert(s =~= seq![s[0]] + s.drop_first());
    } else {
        assert(s =~= Seq::<u8>::empty());
    }
}

/// The eight bytes of `x`, most significant first.
pub fn be64(x: u64) -> (r: Vec<u8>)
    ensures
        r@ == be_bytes(x as nat, 8),
{
    let mut out: Vec<u8> = vec![0u8; 8];
    let mut cur: u64 = x;
    let mut i: usize = 8;
    assert(be_bytes(x as nat, 8) =~= be_bytes(cur as nat, 8) + out@.subrange(8, 8));
    while i > 0
        invariant
            i <= 8,
            out@.len() == 8,
            be_bytes(x as nat, 8) == be_bytes(cur as nat, i as nat) + out@.subrange(i as int, 8),
        decreases i,
    {
        let ghost before = out@.subrange(i as int, 8);
        let ghost was = cur as nat;
        i -= 1;
        out.set(i, (cur % 256) as u8);
        cur = cur / 256;
        assert(out@.subrange(i as int, 8) =~= seq![(was % 256) as u8] + before);
        assert(be_bytes(was, (i + 1) as nat) + before =~= be_bytes(cur as nat, i as nat)
            + out@.subrange(i as int, 8));
    }
    assert(be_bytes(cur as nat, 0) + out@.subrange(0, 8) =~= out@);
    out
}

/// The four bytes of `x`, most significant first.
pub fn be32(x: u32) -> (r: Vec<u8>)
    ensures
        r@ == be_bytes(x as nat, 4),
{
    let mut out: Vec<u8> = vec![0u8; 4];
    let mut cur: u32 = x;
    let mut i: usize = 4;
    assert(be_bytes(x as nat, 4) =~= be_bytes(cur as nat, 4) + out@.subrange(4, 4));
    while i > 0
        invariant
            i <= 4,
            out@.len() == 4,
            be_bytes(x as nat, 4) == be_bytes(cur as nat, i as nat) + out@.subrange(i as int, 4),
        decreases i,
    {
        let ghost before = out@.subrange(i as int, 4);
        let ghost was = cur as nat;
        i -= 1;
        out.set(i, (cur % 256) as u8);
        cur = cur / 256;
        assert(out@.subrange(i as int, 4) =~= seq![(was % 256) as u8] + before);
        assert(be_bytes(was, (i + 1) as nat) + before =~= be_bytes(cur as nat, i as nat)
            + out@.subrange(i as int, 4));
    }
    assert(be_bytes(cur as nat, 0) + out@.subrange(0, 4) =~= out@);
    out
}

/// The number in the `n` bytes at `at`, most significant first.
fn read_be(bytes: &[u8], at: usize, n: usize) -> (r: u64)
    requires
        n <= 8,
        at + n <= bytes.len(),
    ensures
        r == be_value(bytes@.subrange(at as int, at + n)),
{
    let mut x: u64 = 0;
    let mut done: usize = 0;
    assert(bytes@.subrange(at as int, at as int) =~= Seq::<u8>::empty());
    while done < n
        invariant
            done <= n <= 8,
            at + n <= bytes.len(),
            x == be_value(bytes@.subrange(at as int, at + done)),
        decreases n - done,
    {
        let ghost read = bytes@.subrange(at as int, at + done);
        let ghost more = bytes@.subrange(at as int, at + done + 1);
        proof {
            assert(more.drop_last() =~= read);
            lemma_be_value_bound(more);
            lemma_radix_monotonic(more.len(), 8);
            lemma_u64_fits();
        }
        x = x * 256 + bytes[at + done] as u64;
        done += 1;
    }
    x
}

/// More bytes write more numbers.
pub proof fn lemma_radix_monotonic(m: nat, n: nat)
    requires
        m <= n,
    ensures
        0 < radix(m) <= radix(n),
    decreases n,
{
    if n > 0 {
        if m < n {
            lemma_radix_monotonic(m, (n - 1) as nat);
        } else {
            lemma_radix_monotonic((m - 1) as nat, (n - 1) as nat);
        }
    }
}

/// The eight-byte number at `at`, most significant byte first.
pub fn read_be64(bytes: &[u8], at: usize) -> (r: u64)
    requires
        at + 8 <= bytes.len(),
    ensures
        r == be_value(bytes@.subrange(at as int, at + 8)),
{
    read_be(bytes, at, 8)
}

/// The four-byte number at `at`, most significant byte first.
pub fn read_be32(bytes: &[u8], at: usize) -> (r: u32)
    requires
        at + 4 <= bytes.len(),
    ensures
        r == be_value(bytes@.subrange(at as int, at + 4)),
{
    proof {
        lemma_be_value_bound(bytes@.subrange(at as int, at + 4));
        lemma_u32_fits();
    }
    read_be(bytes, at, 4) as u32
}

/// The bytes a big-endian number was read from write it again.
pub proof fn lemma_be_value_unique(s: Seq<u8>)
    ensures
        be_bytes(be_value(s), s.len()) == s,
    decreases s.len(),
{
    if s.len() > 0 {
        lemma_be_value_unique(s.drop_last());
        assert(s =~= s.drop_last().push(s.last()));
    } else {
        assert(s =~= Seq::<u8>::empty());
    }
}

/// Append the lowest `n` base-256 digits of `x`, least significant first.
fn push_le(out: &mut Vec<u8>, x: u64, n: usize)
    ensures
        final(out)@ == old(out)@ + le_bytes(x as nat, n as nat),
{
    let mut cur: u64 = x;
    let mut left: usize = n;
    assert(out@ + le_bytes(x as nat, n as nat) =~= old(out)@ + le_bytes(x as nat, n as nat));
    while left > 0
        invariant
            out@ + le_bytes(cur as nat, left as nat) == old(out)@ + le_bytes(x as nat, n as nat),
        decreases left,
    {
        let ghost before = out@;
        let ghost was = cur as nat;
        out.push((cur % 256) as u8);
        cur = cur / 256;
        left -= 1;
        assert(before + le_bytes(was, (left + 1) as nat) =~= out@ + le_bytes(
            cur as nat,
            left as nat,
        ));
    }
    assert(out@ + le_bytes(cur as nat, 0) =~= out@);
}

/// Append the two bytes of `x`, least significant first.
pub fn push_le16(out: &mut Vec<u8>, x: u16)
    ensures
        final(out)@ == old(out)@ + le_bytes(x as nat, 2),
{
    push_le(out, x as u64, 2)
}

/// Append the four bytes of `x`, least significant first.
pub fn push_le32(out: &mut Vec<u8>, x: u32)
    ensures
        final(out)@ == old(out)@ + le_bytes(x as nat, 4),
{
    push_le(out, x as u64, 4)
}

/// Append the eight bytes of `x`, least significant first.
pub fn push_le64(out: &mut Vec<u8>, x: u64)
    ensures
        final(out)@ == old(out)@ + le_bytes(x as nat, 8),
{
    push_le(out, x, 8)
}

/// The number in the `n` bytes at `at`, least significant first.
fn read_le(bytes: &[u8], at: usize, n: usize) -> (r: u64)
    requires
        n <= 8,
        at + n <= bytes.len(),
    ensures
        r == le_value(bytes@.subrange(at as int, at + n)),
{
    let mut x: u64 = 0;
    let mut left: usize = n;
    assert(bytes@.subrange(at + n, at + n) =~= Seq::<u8>::empty());
    while left > 0
        invariant
            left <= n <= 8,
            at + n <= bytes.len(),
            x == le_value(bytes@.subrange(at + left, at + n)),
        decreases left,
    {
        let ghost rest = bytes@.subrange(at + left, at + n);
        proof {
            lemma_le_value_bound(rest);
            lemma_radix_below_u64(rest.len());
        }
        left -= 1;
        let byte: u8 = bytes[at + left];
        assert(bytes@.subrange(at + left, at + n).drop_first() =~= rest);
        x = byte as u64 + 256 * x;
    }
    x
}

/// Seven bytes leave room for an eighth in a `u64`.
proof fn lemma_radix_below_u64(n: nat)
    requires
        n <= 7,
    ensures
        256 * radix(n) <= u64::MAX + 1,
{
    reveal_with_fuel(radix, 9);
}

/// The `u16` in the two bytes at `at`, least significant first.
pub fn read_le16(bytes: &[u8], at: usize) -> (r: u16)
    requires
        at + 2 <= bytes.len(),
    ensures
        r == le_value(bytes@.subrange(at as int, at + 2)),
{
    proof {
        lemma_le_value_bound(bytes@.subrange(at as int, at + 2));
        reveal_with_fuel(radix, 3);
    }
    read_le(bytes, at, 2) as u16
}

/// The `u32` in the four bytes at `at`, least significant first.
pub fn read_le32(bytes: &[u8], at: usize) -> (r: u32)
    requires
        at + 4 <= bytes.len(),
    ensures
        r == le_value(bytes@.subrange(at as int, at + 4)),
{
    proof {
        lemma_le_value_bound(bytes@.subrange(at as int, at + 4));
        lemma_u32_fits();
    }
    read_le(bytes, at, 4) as u32
}

/// The `u64` in the eight bytes at `at`, least significant first.
pub fn read_le64(bytes: &[u8], at: usize) -> (r: u64)
    requires
        at + 8 <= bytes.len(),
    ensures
        r == le_value(bytes@.subrange(at as int, at + 8)),
{
    read_le(bytes, at, 8)
}

/// Whether `a` sorts before `b`.
pub fn lt(a: &[u8], b: &[u8]) -> (r: bool)
    ensures
        r == bytes_lt(a@, b@),
{
    let mut i: usize = 0;
    assert(a@.skip(0) =~= a@);
    assert(b@.skip(0) =~= b@);
    while i < a.len() && i < b.len()
        invariant
            i <= a.len(),
            i <= b.len(),
            bytes_lt(a@, b@) == bytes_lt(a@.skip(i as int), b@.skip(i as int)),
        decreases a.len() - i,
    {
        if a[i] != b[i] {
            return a[i] < b[i];
        }
        assert(a@.skip(i as int).drop_first() =~= a@.skip(i + 1));
        assert(b@.skip(i as int).drop_first() =~= b@.skip(i + 1));
        i += 1;
    }
    i < b.len()
}

/// Whether `a` and `b` hold the same bytes.
pub fn same(a: &[u8], b: &[u8]) -> (r: bool)
    ensures
        r == (a@ == b@),
{
    if a.len() != b.len() {
        return false;
    }
    let mut i: usize = 0;
    while i < a.len()
        invariant
            i <= a.len(),
            a.len() == b.len(),
            forall|j: int| 0 <= j < i ==> a@[j] == b@[j],
        decreases a.len() - i,
    {
        if a[i] != b[i] {
            return false;
        }
        i += 1;
    }
    assert(a@ =~= b@);
    true
}

/// Whether `a` begins with `prefix`.
pub fn starts_with(a: &[u8], prefix: &[u8]) -> (r: bool)
    ensures
        r == prefix@.is_prefix_of(a@),
{
    if prefix.len() > a.len() {
        return false;
    }
    same(slice_subrange(a, 0, prefix.len()), prefix)
}

/// A copy of `a`.
pub fn copy(a: &[u8]) -> (r: Vec<u8>)
    ensures
        r@ == a@,
{
    let mut out: Vec<u8> = Vec::with_capacity(a.len());
    out.extend_from_slice(a);
    out
}

/// `a` followed by `b`.
pub fn join(a: &[u8], b: &[u8]) -> (r: Vec<u8>)
    ensures
        r@ == a@ + b@,
{
    let mut out: Vec<u8> = Vec::new();
    out.extend_from_slice(a);
    out.extend_from_slice(b);
    out
}

} // verus!
