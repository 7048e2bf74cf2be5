//! Logs of short text, cut anywhere.

use vstd::prelude::*;

use crate::bytes::{le_bytes, le_value, lemma_le_round_trip, lemma_u32_fits};
use crate::engine::wal::{
    first_resumption, framed_at, lemma_entry_round_trip, lemma_framed_record, lemma_payload_len,
    lemma_record_len, lemma_replay_step, lemma_stamp_round_trip, part, payload, record, record_of,
    replay_from, replay_of, replayed_before, resumes, stamp, Replayed, RECORD_PUT, WAL_FORMAT_V1,
    WAL_STAMP_LEN,
};
use crate::history::{Logged, Op};

verus! {

/// A put of a short text under a short text, with a number of four bytes: no
/// byte of the texts is below six, so that none reads as the type of a record.
pub open spec fn short_text(w: Logged) -> bool {
    &&& w.op matches Op::Put { key, value } && {
        &&& 1 <= key.len()
        &&& 1 <= value.len()
        &&& 25 + key.len() + value.len() <= 255
        &&& forall|i: int| 0 <= i < key.len() ==> #[trigger] key[i] >= 6
        &&& forall|i: int| 0 <= i < value.len() ==> #[trigger] value[i] >= 6
    }
    &&& w.seq <= u32::MAX
}

/// The record of a put.
#[verifier::opaque]
pub open spec fn put_record(w: Logged) -> Seq<u8> {
    record(RECORD_PUT, payload(w.op, w.seq))
}

/// The records of a run of puts.
pub open spec fn put_records(list: Seq<Logged>) -> Seq<u8>
    decreases list.len(),
{
    if list.len() == 0 {
        Seq::empty()
    } else {
        put_record(list[0]) + put_records(list.drop_first())
    }
}

/// How many of the records are whole in the first `room` bytes.
pub open spec fn whole_in(list: Seq<Logged>, room: int) -> int
    decreases list.len(),
{
    if list.len() == 0 || put_record(list[0]).len() > room {
        0
    } else {
        1 + whole_in(list.drop_first(), room - put_record(list[0]).len())
    }
}

proof fn lemma_whole_in(list: Seq<Logged>, room: int)
    ensures
        0 <= whole_in(list, room) <= list.len(),
    decreases list.len(),
{
    if list.len() > 0 {
        lemma_whole_in(list.drop_first(), room - put_record(list[0]).len());
    }
}

/// The digits of a number of one byte.
proof fn lemma_small_digits(x: nat)
    requires
        x <= 255,
    ensures
        le_bytes(x, 4).len() == 4,
        le_bytes(x, 4)[0] == x,
        le_bytes(x, 4)[1] == 0,
        le_bytes(x, 4)[2] == 0,
        le_bytes(x, 4)[3] == 0,
{
    reveal_with_fuel(le_bytes, 5);
}

/// A number of four bytes has no digits beyond them.
proof fn lemma_high_digits(x: nat)
    requires
        x <= u32::MAX,
    ensures
        le_bytes(x, 8).len() == 8,
        le_bytes(x, 8)[4] == 0,
        le_bytes(x, 8)[5] == 0,
        le_bytes(x, 8)[6] == 0,
        le_bytes(x, 8)[7] == 0,
{
    reveal_with_fuel(le_bytes, 9);
    let (a, b, c) = (x / 256, x / 256 / 256, x / 256 / 256 / 256);
    assert(c / 256 == 0);
}

/// The number that four bytes make.
proof fn lemma_four_digits(s: Seq<u8>)
    requires
        s.len() == 4,
    ensures
        le_value(s) == s[0] + 256 * s[1] + 65536 * s[2] + 16777216 * s[3],
{
    reveal_with_fuel(le_value, 5);
    let a = s.drop_first();
    let b = a.drop_first();
    let c = b.drop_first();
    assert(a[0] == s[1] && b[0] == s[2] && c[0] == s[3]);
    assert(c.drop_first().len() == 0);
}

/// The bytes of the record of a put of `v` bytes under `k`, but for its
/// number's low digits and its checksum.
spec fn put_shape(rec: Seq<u8>, k: int, v: int) -> bool {
    &&& 1 <= k
    &&& 1 <= v
    &&& rec.len() == 25 + k + v
    &&& 25 + k + v <= 255
    &&& rec[1] == 0 && rec[2] == 0 && rec[3] == 0
    &&& rec[4] == RECORD_PUT
    &&& rec[5] == k && rec[6] == 0 && rec[7] == 0 && rec[8] == 0
    &&& forall|i: int| 9 <= i < 9 + k ==> #[trigger] rec[i] >= 6
    &&& rec[9 + k] == v && rec[10 + k] == 0 && rec[11 + k] == 0 && rec[12 + k] == 0
    &&& forall|i: int| 13 + k <= i < 13 + k + v ==> #[trigger] rec[i] >= 6
    &&& rec[17 + k + v] == 0 && rec[18 + k + v] == 0 && rec[19 + k + v] == 0 && rec[20 + k + v]
        == 0
}

/// No record of a known type fits anywhere inside such a record.
proof fn lemma_nothing_fits(rec: Seq<u8>, k: int, v: int, j: int, t: int)
    requires
        put_shape(rec, k, v),
        1 <= j,
        j + 9 <= t < rec.len(),
        1 <= rec[j + 4] <= 5,
    ensures
        j + 9 + rec[j] + 256 * rec[j + 1] + 65536 * rec[j + 2] + 16777216 * rec[j + 3] > t,
{
    let p = j + 4;
    if p == 5 {
        assert(rec[4] == 1);
    } else if p < 9 {
        assert(rec[p] == 0);
    } else if p < 9 + k {
        assert(rec[p] >= 6);
    } else if p == 9 + k {
        assert(rec[8 + k] >= 6);
    } else if p < 13 + k {
        assert(rec[p] == 0);
    } else if p < 13 + k + v {
        assert(rec[p] >= 6);
    } else if p < 17 + k + v {
        assert(rec[12 + k + v] >= 6);
    } else {
        assert(rec[p] == 0);
    }
}

/// The record of a short text has that shape.
proof fn lemma_put_bytes(w: Logged)
    requires
        short_text(w),
    ensures
        put_shape(put_record(w), w.op->Put_key.len() as int, w.op->Put_value.len() as int),
        le_value(put_record(w).subrange(0, 4)) + 9 == put_record(w).len(),
{
    reveal(put_record);
    let rec = put_record(w);
    let (key, value) = (w.op->Put_key, w.op->Put_value);
    let (k, v) = (key.len() as int, value.len() as int);
    let data = payload(w.op, w.seq);
    let number = le_bytes(w.seq as nat, 8);
    lemma_payload_len(w.op, w.seq);
    lemma_record_len(RECORD_PUT, data);
    lemma_small_digits(data.len());
    lemma_small_digits(key.len());
    lemma_small_digits(value.len());
    lemma_high_digits(w.seq as nat);
    assert(data =~= part(key) + part(value) + number);
    assert forall|i: int| 0 <= i < data.len() implies rec[5 + i] == #[trigger] data[i] by {}
    assert forall|i: int| 0 <= i < 4 + k implies data[i] == #[trigger] part(key)[i] by {}
    assert forall|i: int| 0 <= i < 4 + v implies data[4 + k + i] == #[trigger] part(value)[i] by {}
    assert forall|i: int| 0 <= i < 8 implies data[8 + k + v + i] == #[trigger] number[i] by {}
    assert forall|i: int| 9 <= i < 9 + k implies #[trigger] rec[i] >= 6 by {
        assert(part(key)[i - 5] == key[i - 9]);
        assert(data[i - 5] == key[i - 9]);
        assert(rec[5 + (i - 5)] == data[i - 5]);
    }
    assert forall|i: int| 13 + k <= i < 13 + k + v implies #[trigger] rec[i] >= 6 by {
        assert(part(value)[i - 9 - k] == value[i - 13 - k]);
        assert(data[4 + k + (i - 9 - k)] == value[i - 13 - k]);
        assert(rec[5 + (i - 5)] == data[i - 5]);
    }
    assert(part(key)[0] == k && part(key)[1] == 0 && part(key)[2] == 0 && part(key)[3] == 0);
    assert(part(value)[0] == v && part(value)[1] == 0 && part(value)[2] == 0 && part(value)[3]
        == 0);
    assert(data[0] == k && data[1] == 0 && data[2] == 0 && data[3] == 0);
    assert(data[4 + k] == v && data[4 + k + 1] == 0 && data[4 + k + 2] == 0 && data[4 + k + 3]
        == 0);
    assert(data[8 + k + v + 4] == 0 && data[8 + k + v + 5] == 0 && data[8 + k + v + 6] == 0
        && data[8 + k + v + 7] == 0);
    assert(rec.subrange(0, 4) =~= le_bytes(data.len(), 4));
    lemma_u32_fits();
    lemma_le_round_trip(data.len(), 4);
}

/// A log that resumes somewhere holds a record of a known type there.
proof fn lemma_resumes_framed(log: Seq<u8>, at: int)
    requires
        resumes(log, at),
    ensures
        0 <= at,
        at + 9 <= log.len(),
        1 <= log[at + 4] <= 5,
        at + 9 + le_value(log.subrange(at, at + 4)) <= log.len(),
{
}

/// Nowhere inside a torn record of that shape does a log resume.
proof fn lemma_torn_put(log: Seq<u8>, at: int, rec: Seq<u8>, k: int, v: int, j: int)
    requires
        put_shape(rec, k, v),
        0 <= at < log.len() < at + rec.len(),
        log.skip(at) == rec.take(log.len() - at),
        1 <= j,
        at + j < log.len(),
    ensures
        !resumes(log, at + j),
{
    let t = log.len() - at;
    if resumes(log, at + j) {
        lemma_resumes_framed(log, at + j);
        let s = log.subrange(at + j, at + j + 4);
        lemma_four_digits(s);
        assert(log.skip(at)[j] == rec.take(t)[j]);
        assert(log.skip(at)[j + 1] == rec.take(t)[j + 1]);
        assert(log.skip(at)[j + 2] == rec.take(t)[j + 2]);
        assert(log.skip(at)[j + 3] == rec.take(t)[j + 3]);
        assert(log.skip(at)[j + 4] == rec.take(t)[j + 4]);
        lemma_nothing_fits(rec, k, v, j, t);
    }
}

/// A log that resumes nowhere from `from` on resumes first nowhere.
proof fn lemma_never_resumes(log: Seq<u8>, from: int)
    requires
        forall|i: int| from <= i < log.len() ==> !(#[trigger] resumes(log, i)),
    ensures
        first_resumption(log, from) is None,
    decreases log.len() - from,
{
    if from < log.len() {
        lemma_never_resumes(log, from + 1);
    }
}

/// A log that ends in a torn record replays to nothing from there on.
proof fn lemma_torn_replays(short: Seq<u8>, path: Seq<char>, pos: int, w: Logged)
    requires
        short_text(w),
        0 <= pos < short.len() < pos + put_record(w).len(),
        short.skip(pos) == put_record(w).take(short.len() - pos),
    ensures
        replay_from(short, path, pos) == Ok::<Replayed, Seq<char>>(
            Replayed { entries: Seq::empty(), stopped: pos },
        ),
{
    let rec = put_record(w);
    let room = short.len() - pos;
    lemma_put_bytes(w);
    if room >= 5 {
        assert(short.subrange(pos, pos + 4) =~= short.skip(pos).subrange(0, 4));
        assert(short.subrange(pos, pos + 4) =~= rec.subrange(0, 4));
    }
    assert(framed_at(short, pos) is None);
    assert forall|i: int| pos + 1 <= i < short.len() implies !(#[trigger] resumes(short, i)) by {
        lemma_torn_put(
            short,
            pos,
            rec,
            w.op->Put_key.len() as int,
            w.op->Put_value.len() as int,
            i - pos,
        );
    }
    lemma_never_resumes(short, pos + 1);
    reveal_with_fuel(replay_from, 1);
}

/// A whole record replays as its put, before what follows it.
#[verifier::rlimit(40)]
#[verifier::spinoff_prover]
proof fn lemma_whole_replays(head: Seq<u8>, path: Seq<char>, w: Logged, tail: Seq<u8>)
    requires
        short_text(w),
    ensures
        replay_from(head + put_record(w) + tail, path, head.len() as int) == replayed_before(
            seq![w],
            replay_from(
                head + put_record(w) + tail,
                path,
                (head + put_record(w)).len() as int,
            ),
        ),
{
    let data = payload(w.op, w.seq);
    lemma_payload_len(w.op, w.seq);
    lemma_record_len(RECORD_PUT, data);
    lemma_framed_record(head, RECORD_PUT, data, tail);
    lemma_entry_round_trip(w.op, w.seq);
    assert(put_record(w) == record(RECORD_PUT, data)) by {
        reveal(put_record);
    }
    let log = head + put_record(w) + tail;
    let pos = head.len() as int;
    assert(record_of(RECORD_PUT, data) == Ok::<Seq<Logged>, Seq<char>>(seq![w]));
    lemma_replay_step(log, path, pos);
}

/// A log of short texts that is cut anywhere past its stamp replays, without
/// an error, to every put whose record is whole, in order; the torn record is
/// dropped.
pub proof fn law_cut_keeps_whole_puts(
    head: Seq<u8>,
    path: Seq<char>,
    list: Seq<Logged>,
    cut: int,
)
    requires
        forall|i: int| 0 <= i < list.len() ==> short_text(#[trigger] list[i]),
        head.len() <= cut <= (head + put_records(list)).len(),
    ensures
        0 <= whole_in(list, cut - head.len()) <= list.len(),
        replay_from((head + put_records(list)).take(cut), path, head.len() as int) matches Ok(r)
            && r.entries == list.take(whole_in(list, cut - head.len())),
    decreases list.len(),
{
    let log = head + put_records(list);
    let short = log.take(cut);
    let pos = head.len() as int;
    let room = cut - pos;
    lemma_whole_in(list, room);
    if list.len() > 0 {
        lemma_put_bytes(list[0]);
    }
    if pos == cut {
        reveal_with_fuel(replay_from, 1);
        assert(list.take(0) =~= Seq::<Logged>::empty());
    } else {
        let w = list[0];
        let rest = list.drop_first();
        let rec = put_record(w);
        assert forall|i: int| 0 <= i < rest.len() implies short_text(#[trigger] rest[i]) by {
            assert(rest[i] == list[i + 1]);
        }
        if rec.len() <= room {
            let longer = head + rec;
            let tail = short.skip(pos + rec.len());
            assert(longer + put_records(rest) =~= log);
            assert(short =~= head + rec + tail);
            lemma_whole_replays(head, path, w, tail);
            law_cut_keeps_whole_puts(longer, path, rest, cut);
            let m = whole_in(rest, room - rec.len());
            assert(seq![w] + rest.take(m) =~= list.take(1 + m));
        } else {
            assert(short.skip(pos) =~= rec.take(room));
            lemma_torn_replays(short, path, pos, w);
            assert(list.take(0) =~= Seq::<Logged>::empty());
        }
    }
}

/// Of records of one size, as many are whole as fit.
proof fn lemma_whole_even(list: Seq<Logged>, size: int, room: int)
    requires
        0 < size,
        forall|i: int| 0 <= i < list.len() ==> put_record(#[trigger] list[i]).len() == size,
        0 <= room <= put_records(list).len(),
    ensures
        put_records(list).len() == size * list.len(),
        whole_in(list, room) == room / size,
    decreases list.len(),
{
    if list.len() > 0 {
        let rest = list.drop_first();
        assert forall|i: int| 0 <= i < rest.len() implies put_record(#[trigger] rest[i]).len()
            == size by {
            assert(rest[i] == list[i + 1]);
        }
        assert(put_record(list[0]).len() == size);
        if room >= size {
            lemma_whole_even(rest, size, room - size);
            vstd::arithmetic::div_mod::lemma_div_plus_one(room - size, size);
        } else {
            lemma_whole_even(rest, size, 0);
            vstd::arithmetic::div_mod::lemma_basic_div(room, size);
        }
        vstd::arithmetic::mul::lemma_mul_is_distributive_add(size, rest.len() as int, 1);
    } else {
        vstd::arithmetic::div_mod::lemma_basic_div(0, size);
        assert(size * 0 == 0);
    }
}

/// A stamped log of short texts, cut anywhere past its stamp, replays without
/// an error to every put whose record is whole, in order. Where the records
/// are all of one size, these are as many as fit before the cut.
pub proof fn law_cut_log_replays(path: Seq<char>, list: Seq<Logged>, cut: int)
    requires
        forall|i: int| 0 <= i < list.len() ==> short_text(#[trigger] list[i]),
        WAL_STAMP_LEN <= cut <= (stamp(WAL_FORMAT_V1) + put_records(list)).len(),
    ensures
        replay_of((stamp(WAL_FORMAT_V1) + put_records(list)).take(cut), path) matches Ok(r)
            && r.entries == list.take(whole_in(list, cut - WAL_STAMP_LEN)),
        forall|size: int|
            size > 0 && (forall|i: int|
                0 <= i < list.len() ==> put_record(#[trigger] list[i]).len() == size) ==> whole_in(
                list,
                cut - WAL_STAMP_LEN,
            ) == #[trigger] ((cut - WAL_STAMP_LEN) / size),
{
    let head = stamp(WAL_FORMAT_V1);
    let log = head + put_records(list);
    let short = log.take(cut);
    lemma_stamp_round_trip(Seq::empty());
    assert(head.len() == WAL_STAMP_LEN);
    lemma_stamp_round_trip(short.skip(WAL_STAMP_LEN as int));
    assert(short =~= head + short.skip(WAL_STAMP_LEN as int));
    law_cut_keeps_whole_puts(head, path, list, cut);
    assert forall|size: int|
        size > 0 && (forall|i: int|
            0 <= i < list.len() ==> put_record(#[trigger] list[i]).len() == size) implies whole_in(
        list,
        cut - WAL_STAMP_LEN,
    ) == #[trigger] ((cut - WAL_STAMP_LEN) / size) by {
        lemma_whole_even(list, size, cut - WAL_STAMP_LEN);
    }
}

} // verus!
