//! The write-ahead log: what was appended is replayed, what is damaged is
//! refused, and what the bytes of a record are.

use vstd::prelude::*;

use crate::batch::{ops_of, WriteBatchOp};
use crate::bytes::{le_bytes, le_value, lemma_le_bytes_len, lemma_le_round_trip, lemma_u32_fits};
use crate::calls::codec::{lemma_little_endian, little_endian};
use crate::engine::checksum::{wal_record, wal_stamp};
use crate::engine::wal::{
    check_record_len, check_write_len, classify_incomplete_record, classify_unusable_record,
    encode_ops_record, encode_put_record, encode_record, encode_wal_stamp, first_resumption,
    frame_at, framed_at, lemma_ops_record_size, lemma_record_len, lemma_replay_appended,
    lemma_stamp_round_trip, lemma_stamp_stable, logged, ops_record, ops_record_len, ops_record_size,
    parse_delete_range_record, parse_delete_record, parse_merge_record, parse_put_record, payload,
    put_record_len, read_exact_or_truncated, read_wal_header, record, replay, replay_from,
    replay_of, resumes, resync_after, tiles, validate_wal_stamp, wal_filename, Frame, HeaderRead,
    Replay, TailVerdict, Wal, WalEntry,
};
use crate::error::IoError;
use crate::history::{numbered, Logged, Op};
use crate::text;

verus! {

// ── appending and replaying ─────────────────────────────────────────────

/// A replay that used every byte of the log.
pub open spec fn whole(r: Result<Replay, IoError>) -> bool {
    r matches Ok(replay) && (replay.tail matches Some(v) ==> v.discarded_bytes == 0)
}

/// The entries of one replay are those of another, and then some.
pub open spec fn goes_on(
    before: Result<Replay, IoError>,
    after: Result<Replay, IoError>,
    more: nat,
) -> bool {
    &&& before matches Ok(b) && after matches Ok(a) && {
        &&& a.entries@.len() == b.entries@.len() + more
        &&& forall|i: int|
            0 <= i < b.entries@.len() ==> (#[trigger] a.entries@[i])@ == b.entries@[i]@
    }
}

proof fn lemma_appended(
    path: &str,
    log: &[u8],
    longer: &[u8],
    ops: Seq<Op>,
    base: int,
    before: Result<Replay, IoError>,
    after: Result<Replay, IoError>,
)
    requires
        log@.len() > 0,
        longer@ == log@ + ops_record(ops, base),
        0 < ops.len() <= u32::MAX,
        ops_record_size(ops) <= u32::MAX,
        0 <= base,
        base + ops.len() <= u64::MAX,
        call_ensures(replay, (path, log), before),
        call_ensures(replay, (path, longer), after),
        whole(before),
    ensures
        whole(after),
        goes_on(before, after, ops.len()),
        forall|i: int|
            0 <= i < ops.len() ==> (#[trigger] after->Ok_0.entries@[before->Ok_0.entries@.len() + i])@
                == (Logged { seq: (base + i) as u64, op: ops[i] }),
{
    let done = replay_of(log@, path@)->Ok_0;
    assert(done.stopped == log@.len());
    lemma_stamp_stable(log@, ops_record(ops, base));
    lemma_replay_appended(log@, path@, 12, ops, base);
    let b = before->Ok_0.entries@;
    let a = after->Ok_0.entries@;
    assert(logged(a) == logged(b) + numbered(ops, base));
    assert(logged(a).len() == a.len() && logged(b).len() == b.len());
    assert forall|i: int| 0 <= i < b.len() implies (#[trigger] a[i])@ == b[i]@ by {
        assert(logged(a)[i] == logged(b)[i]);
    }
    assert forall|i: int| 0 <= i < ops.len() implies (#[trigger] a[b.len() + i])@ == (Logged {
        seq: (base + i) as u64,
        op: ops[i],
    }) by {
        assert(logged(a)[b.len() + i] == numbered(ops, base)[i]);
    }
}

proof fn lemma_type_byte(head: Seq<u8>, kind: u8, data: Seq<u8>)
    ensures
        (head + record(kind, data))[head.len() as int + 4] == kind,
{
    lemma_le_bytes_len(data.len(), 4);
}

/// A put that was appended is replayed, after everything before it.
pub proof fn law_append_put_then_replay(
    wal: &mut Wal,
    key: &[u8],
    value: &[u8],
    seq: u64,
    path: &str,
    log: &[u8],
    longer: &[u8],
    before: Result<Replay, IoError>,
    after: Result<Replay, IoError>,
)
    requires
        log@.len() > 0,
        25 + key@.len() + value@.len() <= 0x4000_0000,
        seq < u64::MAX,
        call_ensures(Wal::image, (&*old(wal),), log),
        call_ensures(Wal::append_put, (wal, key, value, seq), ()),
        call_ensures(Wal::image, (&*final(wal),), longer),
        call_ensures(replay, (path, log), before),
        call_ensures(replay, (path, longer), after),
        whole(before),
    ensures
        whole(after),
        goes_on(before, after, 1),
        after->Ok_0.entries@.last() matches WalEntry::Put { key: k, value: v, seq: s } && k@ == key@
            && v@ == value@ && s == seq,
        longer@[log@.len() as int + 4] == 1,
{
    let op = Op::Put { key: key@, value: value@ };
    lemma_appended(path, log, longer, seq![op], seq as int, before, after);
    assert(after->Ok_0.entries@[before->Ok_0.entries@.len() + 0int]@.op == op);
    lemma_type_byte(log@, 1, payload(op, seq));
}

/// A delete that was appended is replayed, after everything before it.
pub proof fn law_append_delete_then_replay(
    wal: &mut Wal,
    key: &[u8],
    seq: u64,
    path: &str,
    log: &[u8],
    longer: &[u8],
    before: Result<Replay, IoError>,
    after: Result<Replay, IoError>,
)
    requires
        log@.len() > 0,
        21 + key@.len() <= 0x4000_0000,
        seq < u64::MAX,
        call_ensures(Wal::image, (&*old(wal),), log),
        call_ensures(Wal::append_delete, (wal, key, seq), ()),
        call_ensures(Wal::image, (&*final(wal),), longer),
        call_ensures(replay, (path, log), before),
        call_ensures(replay, (path, longer), after),
        whole(before),
    ensures
        whole(after),
        goes_on(before, after, 1),
        after->Ok_0.entries@.last() matches WalEntry::Delete { key: k, seq: s } && k@ == key@ && s
            == seq,
        longer@[log@.len() as int + 4] == 2,
{
    let op = Op::Delete { key: key@ };
    lemma_appended(path, log, longer, seq![op], seq as int, before, after);
    assert(after->Ok_0.entries@[before->Ok_0.entries@.len() + 0int]@.op == op);
    lemma_type_byte(log@, 2, payload(op, seq));
}

/// A range delete that was appended is replayed, after everything before it.
pub proof fn law_append_delete_range_then_replay(
    wal: &mut Wal,
    start: &[u8],
    end: &[u8],
    seq: u64,
    path: &str,
    log: &[u8],
    longer: &[u8],
    before: Result<Replay, IoError>,
    after: Result<Replay, IoError>,
)
    requires
        log@.len() > 0,
        25 + start@.len() + end@.len() <= 0x4000_0000,
        seq < u64::MAX,
        call_ensures(Wal::image, (&*old(wal),), log),
        call_ensures(Wal::append_delete_range, (wal, start, end, seq), ()),
        call_ensures(Wal::image, (&*final(wal),), longer),
        call_ensures(replay, (path, log), before),
        call_ensures(replay, (path, longer), after),
        whole(before),
    ensures
        whole(after),
        goes_on(before, after, 1),
        after->Ok_0.entries@.last() matches WalEntry::DeleteRange { start: a, end: b, seq: s } && a@
            == start@ && b@ == end@ && s == seq,
        longer@[log@.len() as int + 4] == 3,
{
    let op = Op::DeleteRange { start: start@, end: end@ };
    lemma_appended(path, log, longer, seq![op], seq as int, before, after);
    assert(after->Ok_0.entries@[before->Ok_0.entries@.len() + 0int]@.op == op);
    lemma_type_byte(log@, 3, payload(op, seq));
}

/// A merge that was appended is replayed, after everything before it.
pub proof fn law_append_merge_then_replay(
    wal: &mut Wal,
    key: &[u8],
    operand: &[u8],
    seq: u64,
    path: &str,
    log: &[u8],
    longer: &[u8],
    before: Result<Replay, IoError>,
    after: Result<Replay, IoError>,
)
    requires
        log@.len() > 0,
        25 + key@.len() + operand@.len() <= 0x4000_0000,
        seq < u64::MAX,
        call_ensures(Wal::image, (&*old(wal),), log),
        call_ensures(Wal::append_merge, (wal, key, operand, seq), ()),
        call_ensures(Wal::image, (&*final(wal),), longer),
        call_ensures(replay, (path, log), before),
        call_ensures(replay, (path, longer), after),
        whole(before),
    ensures
        whole(after),
        goes_on(before, after, 1),
        after->Ok_0.entries@.last() matches WalEntry::Merge { key: k, operand: o, seq: s } && k@
            == key@ && o@ == operand@ && s == seq,
        longer@[log@.len() as int + 4] == 4,
{
    let op = Op::Merge { key: key@, operand: operand@ };
    lemma_appended(path, log, longer, seq![op], seq as int, before, after);
    assert(after->Ok_0.entries@[before->Ok_0.entries@.len() + 0int]@.op == op);
    lemma_type_byte(log@, 4, payload(op, seq));
}

/// The operations of a batch that was appended are replayed in their order,
/// under consecutive numbers, after everything before them.
pub proof fn law_append_ops_then_replay(
    wal: &mut Wal,
    ops: &[WriteBatchOp],
    base: u64,
    path: &str,
    log: &[u8],
    longer: &[u8],
    before: Result<Replay, IoError>,
    after: Result<Replay, IoError>,
)
    requires
        log@.len() > 0,
        0 < ops@.len() <= u32::MAX,
        base + ops@.len() <= u64::MAX,
        call_requires(Wal::append_ops, (wal, ops, base)),
        ops_record_size(ops_of(ops@)) <= 0x4000_0000,
        call_ensures(Wal::image, (&*old(wal),), log),
        call_ensures(Wal::append_ops, (wal, ops, base), ()),
        call_ensures(Wal::image, (&*final(wal),), longer),
        call_ensures(replay, (path, log), before),
        call_ensures(replay, (path, longer), after),
        whole(before),
    ensures
        whole(after),
        goes_on(before, after, ops@.len()),
        forall|i: int|
            0 <= i < ops@.len() ==> {
                let e = #[trigger] after->Ok_0.entries@[before->Ok_0.entries@.len() + i];
                e@.seq == base + i && e@.op == ops@[i]@
            },
        ops@.len() > 1 ==> longer@[log@.len() as int + 4] == 5,
{
    let list = ops_of(ops@);
    lemma_appended(path, log, longer, list, base as int, before, after);
    if ops@.len() > 1 {
        lemma_type_byte(log@, 5, crate::engine::wal::batch_payload(list, base as int));
    }
}

/// A log that was just made holds nothing, and all of it is used.
pub proof fn law_new_log_is_empty(
    named: &str,
    wal: Wal,
    log: &[u8],
    path: &str,
    r: Result<Replay, IoError>,
)
    requires
        call_ensures(Wal::create, (named,), wal),
        call_ensures(Wal::image, (&wal,), log),
        call_ensures(replay, (path, log), r),
    ensures
        whole(r),
        r->Ok_0.entries@.len() == 0,
        log@.len() > 0,
{
    lemma_stamp_round_trip(Seq::empty());
    assert(log@ + Seq::<u8>::empty() =~= log@);
    reveal_with_fuel(replay_from, 1);
    assert(logged(r->Ok_0.entries@).len() == 0);
}

/// Going back to where the log ended before an append undoes the append.
pub proof fn law_rollback_undoes(
    wal: &mut Wal,
    group: &[u8],
    end: u64,
    longer: Wal,
    again: &mut Wal,
    before: &[u8],
    after: &[u8],
)
    requires
        old(wal).log().len() >= 12,
        call_ensures(Wal::offset, (&*old(wal),), end),
        call_ensures(Wal::image, (&*old(wal),), before),
        call_ensures(Wal::append_group, (wal, group), ()),
        *final(wal) == longer,
        *old(again) == longer,
        call_ensures(Wal::rollback_to, (again, end), ()),
        call_ensures(Wal::image, (&*final(again),), after),
    ensures
        after@ == before@,
        longer.log() == before@ + group@,
{
    assert((before@ + group@).take(before@.len() as int) =~= before@);
}

/// Once the log and the directory that names it are written through, no
/// write through of the directory is due. A failure leaves it due, is
/// reported, and the log as it is.
pub proof fn law_sync_names_the_log(
    wal: &mut Wal,
    data: Result<(), IoError>,
    parent: Result<(), IoError>,
    r: Result<(), IoError>,
    due: bool,
    still: bool,
)
    requires
        call_ensures(Wal::needs_parent_sync, (&*old(wal),), due),
        call_ensures(Wal::sync_with_parent_sync, (wal, data, parent), r),
        call_ensures(Wal::needs_parent_sync, (&*final(wal),), still),
    ensures
        r is Ok ==> !still && data is Ok,
        data is Err ==> r is Err && still == due,
        data is Ok && due && parent is Err ==> r is Err && still,
        data is Ok && (!due || parent is Ok) ==> r is Ok,
        final(wal).log() == old(wal).log(),
{
}

// ── damage ──────────────────────────────────────────────────────────────

/// What a replay sets aside is what stands from where it stopped to the end.
pub proof fn law_tail_is_the_rest(path: &str, log: &[u8], r: Result<Replay, IoError>, v: TailVerdict)
    requires
        call_ensures(replay, (path, log), r),
        r matches Ok(done) && done.tail == Some(v),
    ensures
        v.offset + v.discarded_bytes == log@.len(),
{
}

/// A record whose checksum does not hold is no end of the log: it is refused,
/// unless everything from it on is zeros.
pub proof fn law_replay_refuses_damage(
    path: &str,
    log: &[u8],
    stamp: Result<Option<usize>, IoError>,
    first: Option<Frame<'_>>,
    ok: bool,
    i: int,
    r: Result<Replay, IoError>,
)
    requires
        call_ensures(validate_wal_stamp, (log,), stamp),
        stamp matches Ok(Some(_)),
        call_ensures(frame_at, (log, 12), first),
        first is Some,
        call_ensures(Frame::checksum_matches, (&first->0,), ok),
        !ok,
        12 <= i < log@.len(),
        log@[i] != 0,
        call_ensures(replay, (path, log), r),
    ensures
        r is Err,
{
    reveal_with_fuel(replay_from, 1);
}

/// A log whose first record holds and is followed by nothing gives what that
/// record says, and a log whose stamp is refused gives nothing.
pub proof fn law_refused_stamp(
    path: &str,
    log: &[u8],
    stamp: Result<Option<usize>, IoError>,
    r: Result<Replay, IoError>,
)
    requires
        call_ensures(validate_wal_stamp, (log,), stamp),
        call_ensures(replay, (path, log), r),
    ensures
        stamp is Err ==> r is Err,
        stamp == Ok::<Option<usize>, IoError>(None) ==> (r matches Ok(done) && done.entries@.len()
            == 0),
{
    if stamp == Ok::<Option<usize>, IoError>(None) {
        assert(logged(r->Ok_0.entries@).len() == 0);
    }
}

/// A record that cannot be used ends the log where it and everything after it
/// are zeros, and is corruption otherwise.
pub proof fn law_unusable_record(
    path: &str,
    log: &[u8],
    start: u64,
    r: Result<TailVerdict, IoError>,
)
    requires
        start <= log@.len(),
        call_ensures(classify_unusable_record, (path, log, start), r),
    ensures
        r is Ok <==> forall|i: int| start <= i < log@.len() ==> #[trigger] log@[i] == 0,
        r matches Ok(v) ==> v.offset == start && v.offset + v.discarded_bytes == log@.len(),
        r matches Err(e) ==> e.kind is InvalidData,
{
}

proof fn lemma_resumption(log: Seq<u8>, from: int, at: int)
    requires
        from <= at < log.len(),
        resumes(log, at),
    ensures
        first_resumption(log, from) matches Some(o) && o <= at,
    decreases at - from,
{
    if !resumes(log, from) {
        lemma_resumption(log, from + 1, at);
    }
}

proof fn lemma_resumption_sound(log: Seq<u8>, from: int)
    requires
        first_resumption(log, from) is Some,
    ensures
        from <= first_resumption(log, from)->0 < log.len(),
        resumes(log, first_resumption(log, from)->0),
    decreases log.len() - from,
{
    if !resumes(log, from) {
        lemma_resumption_sound(log, from + 1);
    }
}

/// A record that runs past the end of the log ends it, and is corruption
/// where a record follows that holds and fills the log to its end.
pub proof fn law_incomplete_record(
    path: &str,
    log: &[u8],
    start: u64,
    r: Result<TailVerdict, IoError>,
    at: usize,
    next: Option<Frame<'_>>,
    ok: bool,
)
    requires
        start < at < log@.len(),
        call_ensures(classify_incomplete_record, (path, log, start), r),
        call_ensures(frame_at, (log, at), next),
        next is Some,
        call_ensures(Frame::checksum_matches, (&next->0,), ok),
    ensures
        r matches Ok(v) ==> v.offset == start && v.offset + v.discarded_bytes == log@.len(),
        r matches Err(e) ==> e.kind is InvalidData,
        ok && 1 <= next->0.record_type <= 5 && next->0.end == log@.len() ==> r is Err,
{
    if ok && 1 <= next->0.record_type <= 5 && next->0.end == log@.len() {
        assert(tiles(log@, at as int));
        lemma_resumption(log@, start + 1, at as int);
    }
}

/// The log resumes at the first offset after the damage at which a record
/// stands that holds: there, and at no earlier one that holds and fills the
/// log to its end.
pub proof fn law_resync(
    log: &[u8],
    pos: usize,
    r: Option<usize>,
    at: usize,
    next: Option<Frame<'_>>,
    ok: bool,
)
    requires
        call_ensures(resync_after, (log, pos), r),
        pos < at < log@.len(),
        call_ensures(frame_at, (log, at), next),
        next is Some ==> call_ensures(Frame::checksum_matches, (&next->0,), ok),
    ensures
        r matches Some(o) ==> pos < o < log@.len(),
        r == Some(at) ==> next is Some && ok && 1 <= next->0.record_type <= 5,
        next is Some && ok && 1 <= next->0.record_type <= 5 && next->0.end == log@.len() ==> (
        r matches Some(o) && o <= at),
{
    if first_resumption(log@, pos + 1) is Some {
        lemma_resumption_sound(log@, pos + 1);
    }
    if next is Some && ok && 1 <= next->0.record_type <= 5 && next->0.end == log@.len() {
        assert(tiles(log@, at as int));
        lemma_resumption(log@, pos + 1, at as int);
    }
}

// ── bytes ───────────────────────────────────────────────────────────────

proof fn lemma_eight(s: Seq<u8>)
    requires
        s.len() == 8,
    ensures
        le_value(s) == little_endian(s) + 0x1_0000_0000 * little_endian(s.skip(4)),
{
    let t = s.drop_first().drop_first().drop_first().drop_first();
    assert(t =~= s.skip(4));
    lemma_little_endian(s.skip(4));
    reveal_with_fuel(le_value, 5);
}

proof fn lemma_four_at(s: Seq<u8>, at: int)
    requires
        0 <= at,
        at + 4 <= s.len(),
    ensures
        le_value(s.subrange(at, at + 4)) == little_endian(s.skip(at)),
{
    lemma_little_endian(s.subrange(at, at + 4));
}

proof fn lemma_eight_at(s: Seq<u8>, at: int)
    requires
        0 <= at,
        at + 8 <= s.len(),
    ensures
        le_value(s.subrange(at, at + 8)) == eight_bytes(s.skip(at)),
        eight_bytes(s.skip(at)) <= u64::MAX,
        eight_bytes(s.skip(at)) >= 0,
{
    let t = s.subrange(at, at + 8);
    lemma_eight(t);
    assert(t.skip(4) =~= s.skip(at).skip(4).take(4));
}

/// The number that eight bytes make, the last one counting most.
pub open spec fn eight_bytes(s: Seq<u8>) -> int {
    little_endian(s) + 0x1_0000_0000 * little_endian(s.skip(4))
}

/// A record is its payload's length in four bytes, its type in one, the
/// payload, and the checksum of all that in four.
pub proof fn law_record_bytes(out: &mut Vec<u8>, kind: u8, data: &[u8], sum: u32)
    requires
        data@.len() <= u32::MAX,
        call_ensures(encode_record, (out, kind, data), ()),
        call_ensures(wal_record, (data@.len() as u32, kind, data), sum),
    ensures
        final(out)@.len() == old(out)@.len() + data@.len() + 9,
        final(out)@.take(old(out)@.len() as int) == old(out)@,
        ({
            let w = final(out)@.skip(old(out)@.len() as int);
            &&& little_endian(w) == data@.len()
            &&& w[4] == kind
            &&& w.subrange(5, 5 + data@.len() as int) == data@
            &&& little_endian(w.skip(5 + data@.len() as int)) == sum
        }),
{
    let n = data@.len();
    let w = final(out)@.skip(old(out)@.len() as int);
    lemma_u32_fits();
    lemma_le_bytes_len(n, 4);
    lemma_le_bytes_len(sum as nat, 4);
    lemma_le_round_trip(n, 4);
    lemma_le_round_trip(sum as nat, 4);
    assert(w =~= record(kind, data@));
    assert(w.subrange(0, 4) =~= le_bytes(n, 4));
    assert(w.skip(5 + n as int) =~= le_bytes(sum as nat, 4));
    lemma_four_at(w, 0);
    assert(w.skip(0) =~= w);
    lemma_little_endian(w.skip(5 + n as int));
    assert(w.subrange(5, 5 + n as int) =~= data@);
}

/// A record is found at an offset where the bytes it says it has are there,
/// and its checksum holds where it is that of the bytes.
pub proof fn law_frame(log: &[u8], at: usize, r: Option<Frame<'_>>, ok: bool, data: &[u8], sum: u32)
    requires
        call_ensures(frame_at, (log, at), r),
        r matches Some(f) ==> call_ensures(Frame::checksum_matches, (&f,), ok) && data@ == f.data@
            && call_ensures(wal_record, (data@.len() as u32, f.record_type, data), sum),
    ensures
        at + 5 > log@.len() ==> r is None,
        at + 5 <= log@.len() ==> ({
            let n = little_endian(log@.skip(at as int));
            &&& r is Some <==> at + 9 + n <= log@.len()
            &&& r matches Some(f) ==> {
                &&& f.record_type == log@[at + 4]
                &&& f.data@ == log@.subrange(at + 5, at + 5 + n)
                &&& f.end == at + 9 + n
                &&& f.stored_checksum == little_endian(log@.skip(at + 5 + n))
                &&& ok <==> f.stored_checksum == sum
            }
        }),
{
    if at + 5 <= log@.len() {
        lemma_four_at(log@, at as int);
        if let Some(f) = framed_at(log@, at as int) {
            let n = little_endian(log@.skip(at as int));
            lemma_four_at(log@, at + 5 + n);
        }
    }
}

proof fn lemma_two(data: Seq<u8>)
    ensures
        data.len() >= 16 ==> ({
            let n = little_endian(data);
            &&& le_value(data.subrange(0, 4)) == n
            &&& 8 + n <= data.len() ==> ({
                let m = little_endian(data.skip(4 + n));
                &&& le_value(data.subrange(4 + n, 8 + n)) == m
                &&& 16 + n + m <= data.len() ==> {
                    &&& le_value(data.subrange(8 + n + m, 16 + n + m)) == eight_bytes(
                        data.skip(8 + n + m),
                    )
                    &&& 0 <= eight_bytes(data.skip(8 + n + m)) <= u64::MAX
                }
            })
        }),
{
    if data.len() >= 16 {
        let n = little_endian(data);
        lemma_four_at(data, 0);
        assert(data.skip(0) =~= data);
        if 8 + n <= data.len() {
            let m = little_endian(data.skip(4 + n));
            lemma_four_at(data, 4 + n);
            if 16 + n + m <= data.len() {
                lemma_eight_at(data, 8 + n + m);
            }
        }
    }
}

/// A payload has room for two parts and a number: each part behind its length
/// in four bytes, the number in the eight bytes after them.
pub open spec fn has_two_parts(data: Seq<u8>) -> bool {
    let n = little_endian(data);
    let m = little_endian(data.skip(4 + n));
    &&& data.len() >= 16
    &&& 8 + n <= data.len()
    &&& 16 + n + m <= data.len()
}

/// The payload of a put is read as a key, a value and a number, each from
/// where it stands, and refused where it is too short for them.
pub proof fn law_parse_put(data: &[u8], r: Result<WalEntry, IoError>)
    requires
        call_ensures(parse_put_record, (data,), r),
    ensures
        r is Ok <==> has_two_parts(data@),
        r matches Err(e) ==> e.kind is InvalidData,
        r matches Ok(entry) ==> ({
            let n = little_endian(data@);
            let m = little_endian(data@.skip(4 + n));
            entry matches WalEntry::Put { key, value, seq } && key@ == data@.subrange(4, 4 + n)
                && value@ == data@.subrange(8 + n, 8 + n + m) && seq == eight_bytes(
                data@.skip(8 + n + m),
            )
        }),
{
    lemma_two(data@);
}

/// The payload of a merge is read as a key, an operand and a number.
pub proof fn law_parse_merge(data: &[u8], r: Result<WalEntry, IoError>)
    requires
        call_ensures(parse_merge_record, (data,), r),
    ensures
        r is Ok <==> has_two_parts(data@),
        r matches Err(e) ==> e.kind is InvalidData,
        r matches Ok(entry) ==> ({
            let n = little_endian(data@);
            let m = little_endian(data@.skip(4 + n));
            entry matches WalEntry::Merge { key, operand, seq } && key@ == data@.subrange(4, 4 + n)
                && operand@ == data@.subrange(8 + n, 8 + n + m) && seq == eight_bytes(
                data@.skip(8 + n + m),
            )
        }),
{
    lemma_two(data@);
}

/// The payload of a range delete is read as a start, an end and a number.
pub proof fn law_parse_delete_range(data: &[u8], r: Result<WalEntry, IoError>)
    requires
        call_ensures(parse_delete_range_record, (data,), r),
    ensures
        r is Ok <==> has_two_parts(data@),
        r matches Err(e) ==> e.kind is InvalidData,
        r matches Ok(entry) ==> ({
            let n = little_endian(data@);
            let m = little_endian(data@.skip(4 + n));
            entry matches WalEntry::DeleteRange { start, end, seq } && start@ == data@.subrange(
                4,
                4 + n,
            ) && end@ == data@.subrange(8 + n, 8 + n + m) && seq == eight_bytes(
                data@.skip(8 + n + m),
            )
        }),
{
    lemma_two(data@);
}

/// The payload of a delete is read as a key and a number.
pub proof fn law_parse_delete(data: &[u8], r: Result<WalEntry, IoError>)
    requires
        call_ensures(parse_delete_record, (data,), r),
    ensures
        r is Ok <==> data@.len() >= 12 && 12 + little_endian(data@) <= data@.len(),
        r matches Err(e) ==> e.kind is InvalidData,
        r matches Ok(entry) ==> ({
            let n = little_endian(data@);
            entry matches WalEntry::Delete { key, seq } && key@ == data@.subrange(4, 4 + n) && seq
                == eight_bytes(data@.skip(4 + n))
        }),
{
    if data@.len() >= 12 {
        let n = little_endian(data@);
        lemma_four_at(data@, 0);
        assert(data@.skip(0) =~= data@);
        if 12 + n <= data@.len() {
            lemma_eight_at(data@, 4 + n);
        }
    }
}

/// The stamp of a log: the four bytes `REGO`, the format, nothing, and the
/// checksum. It is accepted, whatever follows it.
pub proof fn law_stamp_bytes(
    stamp: Vec<u8>,
    magic: &[u8],
    sum: u32,
    log: &[u8],
    rest: Seq<u8>,
    r: Result<Option<usize>, IoError>,
)
    requires
        call_ensures(encode_wal_stamp, (), stamp),
        magic@ == seq![0x52u8, 0x45u8, 0x47u8, 0x4Fu8],
        call_ensures(wal_stamp, (magic, 1, 0), sum),
        log@ == stamp@ + rest,
        call_ensures(validate_wal_stamp, (log,), r),
    ensures
        stamp@.len() == 12,
        stamp@.take(4) == magic@,
        stamp@[4] == 1 && stamp@[5] == 0 && stamp@[6] == 0 && stamp@[7] == 0,
        little_endian(stamp@.skip(8)) == sum,
        r == Ok::<Option<usize>, IoError>(Some(12)),
{
    lemma_stamp_round_trip(rest);
    lemma_u32_fits();
    lemma_le_bytes_len(1, 2);
    lemma_le_bytes_len(0, 2);
    lemma_le_bytes_len(sum as nat, 4);
    lemma_le_round_trip(sum as nat, 4);
    reveal_with_fuel(le_bytes, 3);
    assert(stamp@.take(4) =~= magic@);
    assert(stamp@.skip(8) =~= le_bytes(sum as nat, 4));
    lemma_little_endian(stamp@.skip(8));
}

/// A log without the four bytes has no stamp; one with them whose checksum
/// does not hold, or whose format is newer, is refused.
pub proof fn law_stamp_checked(
    log: &[u8],
    magic: &[u8],
    format: u16,
    reserved: u16,
    sum: u32,
    r: Result<Option<usize>, IoError>,
)
    requires
        magic@ == seq![0x52u8, 0x45u8, 0x47u8, 0x4Fu8],
        log@.len() >= 12 ==> format == log@[4] + 0x100 * log@[5] && reserved == log@[6] + 0x100
            * log@[7],
        call_ensures(wal_stamp, (magic, format, reserved), sum),
        call_ensures(validate_wal_stamp, (log,), r),
    ensures
        log@.len() < 12 || log@.take(4) != magic@ <==> r == Ok::<Option<usize>, IoError>(None),
        log@.len() >= 12 && log@.take(4) == magic@ ==> {
            &&& r is Err <==> little_endian(log@.skip(8)) != sum || format > 1
            &&& r is Ok ==> r == Ok::<Option<usize>, IoError>(Some(12))
        },
{
    if log@.len() >= 12 {
        assert(log@.take(4) =~= log@.subrange(0, 4));
        lemma_four_at(log@, 8);
        reveal_with_fuel(le_value, 3);
        let f = log@.subrange(4, 6);
        let z = log@.subrange(6, 8);
        assert(f.drop_first().drop_first() =~= Seq::<u8>::empty());
        assert(z.drop_first().drop_first() =~= Seq::<u8>::empty());
    }
}

// ── lengths and names ───────────────────────────────────────────────────

/// The length told beforehand of a put is that of the record it becomes.
pub proof fn law_put_record_len(
    key: &[u8],
    value: &[u8],
    seq: u64,
    out: &mut Vec<u8>,
    n: usize,
)
    requires
        25 + key@.len() + value@.len() <= u32::MAX,
        call_ensures(put_record_len, (key, value), n),
        call_ensures(encode_put_record, (out, key, value, seq), ()),
    ensures
        final(out)@.len() == old(out)@.len() + n,
        n == 25 + key@.len() + value@.len(),
{
    let op = Op::Put { key: key@, value: value@ };
    crate::engine::wal::lemma_payload_len(op, seq);
    lemma_record_len(1, payload(op, seq));
}

/// The length told beforehand of a batch is that of the record it becomes.
pub proof fn law_ops_record_len(ops: &[WriteBatchOp], base: u64, out: &mut Vec<u8>, n: usize)
    requires
        ops@.len() <= u32::MAX,
        base + ops@.len() <= u64::MAX,
        n <= u32::MAX,
        n < usize::MAX,
        call_ensures(ops_record_len, (ops,), n),
        call_ensures(encode_ops_record, (out, ops, base), ()),
    ensures
        final(out)@.len() == old(out)@.len() + n,
{
    lemma_ops_record_size(ops_of(ops@), base as int);
}

/// A record is taken where it is no longer than the limit, and refused as a
/// bad argument where it is.
pub proof fn law_record_limit(
    n: usize,
    limit: usize,
    r: Result<(), IoError>,
    w: Result<(), IoError>,
)
    requires
        call_ensures(check_record_len, (n, limit), r),
        call_ensures(check_write_len, (n,), w),
    ensures
        r is Ok <==> n <= limit,
        w is Ok <==> n <= 0x4000_0000,
        r matches Err(e) ==> e.kind is InvalidInput,
        w matches Err(e) ==> e.kind is InvalidInput,
{
}

/// A log is named by its number, padded to six digits.
pub proof fn law_log_name(id: u64, name: String, digits: String)
    requires
        call_ensures(wal_filename, (id,), name),
        call_ensures(text::zero_pad, (id, 6), digits),
    ensures
        name@ == "wal_"@ + digits@ + ".log"@,
{
}

/// Reading a record's header: it is complete once its five bytes are there,
/// the log ends where not one is, a header cut short is an error, and an
/// interruption is no progress.
pub proof fn law_header_read(
    read: usize,
    outcome: Result<usize, IoError>,
    r: Result<HeaderRead, IoError>,
)
    requires
        read < 5,
        outcome matches Ok(n) ==> n <= 5 - read,
        call_ensures(read_wal_header, (read, outcome), r),
    ensures
        r == Ok::<HeaderRead, IoError>(HeaderRead::Complete) <==> (outcome matches Ok(n) && read + n
            == 5),
        r == Ok::<HeaderRead, IoError>(HeaderRead::EndOfLog) <==> (outcome matches Ok(n) && n == 0
            && read == 0),
        r matches Ok(HeaderRead::More(k)) ==> read <= k < 5 && (outcome matches Ok(n) ==> k == read
            + n && n > 0) && (outcome matches Err(e) ==> k == read && e.kind is Interrupted),
        outcome == Ok::<usize, IoError>(0) && read > 0 ==> (r matches Err(e) && e.kind
            is UnexpectedEof),
        outcome matches Err(e) ==> !(e.kind is Interrupted) ==> r == Err::<HeaderRead, IoError>(e),
{
}

/// A read that ended early is told in the words given, any other failure in
/// its own.
pub proof fn law_short_read(outcome: Result<(), IoError>, message: &str, r: Result<(), IoError>)
    requires
        call_ensures(read_exact_or_truncated, (outcome, message), r),
    ensures
        outcome is Ok <==> r is Ok,
        outcome matches Err(e) ==> r->Err_0.kind == e.kind && (if e.kind is UnexpectedEof {
            r->Err_0.message@ == message@
        } else {
            r->Err_0 == e
        }),
{
}

} // verus!
