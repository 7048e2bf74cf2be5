//! What holds of the database across operations.
//!
//! Each law speaks of the states before and after an operation through the
//! functions that the operations' own contracts use: [`Db::wrote`] and
//! [`Db::stored`] for writes, [`Db::reads`] for reads, and so on.

use std::sync::Arc;

use vstd::prelude::*;

use crate::bytes::{
    be_bytes, bytes_lt, lemma_be_bytes_len, lemma_be_round_trip, lemma_bytes_lt_asymmetric,
    lemma_bytes_lt_irreflexive, lemma_bytes_lt_le, lemma_u32_fits, opt_view,
};
use crate::column_family::{
    family_of, lemma_families_disjoint, lemma_family_bounds, lemma_family_range,
    lemma_name_lt_total, lemma_name_round_trip, lemma_prefixed_parts, name_key_of, name_lt,
    name_mark, names_ascend, next_id_key_bytes, prefixed, ColumnFamilyHandle, DEFAULT_CF_ID,
    DEFAULT_CF_NAME, META_CF_ID,
};
use crate::db::families::{
    families_of, family_id, lemma_name_entry, name_entries, next_id_of, next_id_read, opened,
};
use crate::db::read::{
    any_failed, failed_key, in_bounds, is_family_scan, lemma_readable_rows, page_of, page_reach,
    pairs_of, readable,
};
use crate::db::stream::ScanStream;
use crate::db::{pair_views, Db, ScanPage};
use crate::engine::compaction::lemma_compacted_key_was_there;
use crate::engine::memtable::{point_key, storable};
use crate::engine::read::{read_at, row_holds, settled, Read, RowView};
use crate::engine::store::levels::{
    lemma_merge_keeps_reads, lemma_overflow_fits, lemma_snapshots_above_pin, lemma_stacked_split,
    overflow,
};
use crate::engine::store::{
    all_storable, keyed, reached, recovered, stacked, RegolithEngine, Stored, TableFile,
};
use crate::engine::wal::{
    boundary_before, clean_from, entries_before, first_resumption, lemma_entries_before_first,
    lemma_replay_cut, lemma_stamp_stable, replay_from, stamp_of, WAL_STAMP_LEN,
};
use crate::error::{is_fault, Fault, Result};
use crate::history::{
    beyond, covers, effect, lemma_found_was_written, lemma_later_writes_invisible, lemma_probe_layers, lemma_probe_lower,
    lemma_untouched, numbered, probe, within, Effect, End, Logged, Op, Probe,
};
use crate::iter::{at_first, lemma_rows_below, rows_below, sought, CfIter};
use crate::options::{
    consistent, lemma_complaint_iff_inconsistent, DurabilityMode, MergeOperator, Options,
};
use crate::slice::DbSlice;

verus! {

// ── what a batch does to one key ────────────────────────────────────────

/// What a run of writes holds of a key that its write `i` settles and no
/// later one touches.
pub proof fn lemma_batch_settles(ops: Seq<Op>, base: int, key: Seq<u8>, seq: u64, i: int)
    requires
        0 <= i < ops.len(),
        1 <= base,
        base + ops.len() - 1 <= seq,
        effect(ops[i], key) is Value || effect(ops[i], key) is Gone,
        forall|j: int| i < j < ops.len() ==> effect(#[trigger] ops[j], key) == Effect::Nothing,
    ensures
        probe(numbered(ops, base), key, seq) == (match effect(ops[i], key) {
            Effect::Value(value) => Probe { operands: Seq::empty(), end: End::Value(value) },
            _ => Probe { operands: Seq::empty(), end: End::Gone },
        }),
{
    let w = numbered(ops, base);
    let head = w.take(i + 1);
    let tail = w.skip(i + 1);
    assert(w =~= head + tail);
    assert forall|j: int| 0 <= j < tail.len() && (#[trigger] tail[j]).seq <= seq implies effect(
        tail[j].op,
        key,
    ) == Effect::Nothing by {
        assert(tail[j].op == ops[i + 1 + j]);
    }
    lemma_untouched(tail, key, seq);
    lemma_probe_layers(head, tail, key, seq);
    assert(head.last() == w[i]);
    assert(head.last().seq <= seq);
    assert(Seq::<Seq<u8>>::empty() + Seq::<Seq<u8>>::empty() =~= Seq::<Seq<u8>>::empty());
}

/// A run of writes that does nothing to a key holds nothing of it.
pub proof fn lemma_batch_passes_by(ops: Seq<Op>, base: int, key: Seq<u8>, seq: u64)
    requires
        forall|j: int| 0 <= j < ops.len() ==> effect(#[trigger] ops[j], key) == Effect::Nothing,
    ensures
        probe(numbered(ops, base), key, seq) == (Probe { operands: Seq::empty(), end: End::Open }),
{
    let w = numbered(ops, base);
    assert forall|j: int| 0 <= j < w.len() && (#[trigger] w[j]).seq <= seq implies effect(
        w[j].op,
        key,
    ) == Effect::Nothing by {
        assert(w[j].op == ops[j]);
    }
    lemma_untouched(w, key, seq);
}

/// Reading past the end of a history is reading at its end.
proof fn lemma_probe_past_end(h: Seq<Logged>, key: Seq<u8>, a: u64, b: u64)
    requires
        within(h, a),
        within(h, b),
    ensures
        probe(h, key, a) == probe(h, key, b),
{
    if a <= b {
        lemma_probe_lower(h, key, b, a);
    } else {
        lemma_probe_lower(h, key, a, b);
    }
}

// ── reads after writes ──────────────────────────────────────────────────

/// A write's last word on a key is what the next read gives: where operation
/// `i` of a batch puts or deletes the key and no later one touches it, that
/// is what a read finds once the batch was taken.
pub proof fn law_last_write_wins(
    before: Db,
    after: Db,
    ops: Seq<Op>,
    sync: bool,
    disable_wal: bool,
    id: u32,
    key: Seq<u8>,
    i: int,
)
    requires
        before.wf(),
        after.stored(before, ops, sync, disable_wal),
        0 <= i < ops.len(),
        effect(ops[i], prefixed(id, key)) is Value || effect(ops[i], prefixed(id, key)) is Gone,
        forall|j: int|
            i < j < ops.len() ==> effect(#[trigger] ops[j], prefixed(id, key)) == Effect::Nothing,
    ensures
        after.reads(id, key, after.horizon()) == Read::Value(
            match effect(ops[i], prefixed(id, key)) {
                Effect::Value(value) => Some(value),
                _ => None,
            },
        ),
{
    let written = numbered(ops, before.horizon() + 1);
    lemma_batch_settles(ops, before.horizon() + 1, prefixed(id, key), after.horizon(), i);
    lemma_probe_layers(before.history(), written, prefixed(id, key), after.horizon());
}

/// A read gives back what the last put wrote.
pub proof fn law_read_your_put(
    before: Db,
    after: Db,
    sync: bool,
    disable_wal: bool,
    id: u32,
    key: Seq<u8>,
    value: Seq<u8>,
)
    requires
        before.wf(),
        after.stored(before, seq![(Op::Put { key: prefixed(id, key), value })], sync, disable_wal),
    ensures
        after.reads(id, key, after.horizon()) == Read::Value(Some(value)),
{
    let ops = seq![(Op::Put { key: prefixed(id, key), value })];
    law_last_write_wins(before, after, ops, sync, disable_wal, id, key, 0);
}

/// A deleted key reads as absent.
pub proof fn law_read_your_delete(
    before: Db,
    after: Db,
    sync: bool,
    disable_wal: bool,
    id: u32,
    key: Seq<u8>,
)
    requires
        before.wf(),
        after.stored(before, seq![(Op::Delete { key: prefixed(id, key) })], sync, disable_wal),
    ensures
        after.reads(id, key, after.horizon()) == Read::Value(None),
{
    let ops = seq![(Op::Delete { key: prefixed(id, key) })];
    law_last_write_wins(before, after, ops, sync, disable_wal, id, key, 0);
}

/// A range delete takes exactly the keys of its family in `[start, end)`:
/// those read as absent, and every other key, of its family or another,
/// reads as before.
pub proof fn law_range_delete(
    before: Db,
    after: Db,
    sync: bool,
    disable_wal: bool,
    id: u32,
    start: Seq<u8>,
    end: Seq<u8>,
    other: u32,
    key: Seq<u8>,
)
    requires
        before.wf(),
        after.stored(
            before,
            seq![(Op::DeleteRange { start: prefixed(id, start), end: prefixed(id, end) })],
            sync,
            disable_wal,
        ),
    ensures
        after.reads(other, key, after.horizon()) == (if other == id && covers(start, end, key) {
            Read::Value(None)
        } else {
            before.reads(other, key, before.horizon())
        }),
{
    let ops = seq![(Op::DeleteRange { start: prefixed(id, start), end: prefixed(id, end) })];
    lemma_family_range(id, start, end, other, key);
    if other == id && covers(start, end, key) {
        law_last_write_wins(before, after, ops, sync, disable_wal, id, key, 0);
    } else {
        law_others_untouched(before, after, ops, sync, disable_wal, other, key);
    }
}

/// A merge adds its operand on top of all that a read had to look at before.
pub proof fn lemma_merge_adds_operand(
    before: Db,
    after: Db,
    sync: bool,
    disable_wal: bool,
    id: u32,
    key: Seq<u8>,
    operand: Seq<u8>,
)
    requires
        before.wf(),
        after.stored(
            before,
            seq![(Op::Merge { key: prefixed(id, key), operand })],
            sync,
            disable_wal,
        ),
    ensures
        ({
            let found = probe(before.history(), prefixed(id, key), before.horizon());
            probe(after.history(), prefixed(id, key), after.horizon()) == (Probe {
                operands: found.operands.push(operand),
                end: found.end,
            })
        }),
{
    let ops = seq![(Op::Merge { key: prefixed(id, key), operand })];
    let written = numbered(ops, before.horizon() + 1);
    let stored = prefixed(id, key);
    before.store().lemma_ordered();
    lemma_probe_past_end(before.history(), stored, before.horizon(), after.horizon());
    assert((before.history() + written).drop_last() =~= before.history());
    assert((before.history() + written).last() == written[0]);
}

/// A merge layers its operand over all that a read found before.
pub proof fn law_merge_layers(
    before: Db,
    after: Db,
    sync: bool,
    disable_wal: bool,
    id: u32,
    key: Seq<u8>,
    operand: Seq<u8>,
)
    requires
        before.wf(),
        after.stored(
            before,
            seq![(Op::Merge { key: prefixed(id, key), operand })],
            sync,
            disable_wal,
        ),
    ensures
        ({
            let found = probe(before.history(), prefixed(id, key), before.horizon());
            after.reads(id, key, after.horizon()) == settled(
                before.operator(),
                prefixed(id, key),
                Probe { operands: found.operands.push(operand), end: found.end },
            )
        }),
{
    lemma_merge_adds_operand(before, after, sync, disable_wal, id, key, operand);
}

/// What one more operation at the end of a run does to what the run holds of
/// a key: a put or a deletion settles it, an operand is added, and an
/// operation on other keys changes nothing.
pub proof fn lemma_run_extended(
    before: Db,
    short: Db,
    long: Db,
    ops: Seq<Op>,
    op: Op,
    key: Seq<u8>,
)
    requires
        before.wf(),
        short.wf(),
        short.horizon() == before.horizon() + ops.len(),
        short.history() == before.history() + numbered(ops, before.horizon() + 1),
        long.horizon() == before.horizon() + ops.len() + 1,
        long.history() == before.history() + numbered(ops.push(op), before.horizon() + 1),
    ensures
        ({
            let found = probe(short.history(), key, short.horizon());
            probe(long.history(), key, long.horizon()) == (match effect(op, key) {
                Effect::Nothing => found,
                Effect::Value(value) => Probe { operands: Seq::empty(), end: End::Value(value) },
                Effect::Gone => Probe { operands: Seq::empty(), end: End::Gone },
                Effect::Operand(operand) => Probe {
                    operands: found.operands.push(operand),
                    end: found.end,
                },
            })
        }),
{
    let base = before.horizon() + 1;
    let whole = numbered(ops.push(op), base);
    assert(whole.drop_last() =~= numbered(ops, base)) by {
        assert forall|i: int| 0 <= i < ops.len() implies whole.drop_last()[i] == numbered(
            ops,
            base,
        )[i] by {
            assert(ops.push(op)[i] == ops[i]);
        }
    }
    assert(long.history().drop_last() =~= short.history());
    assert(long.history().last() == whole.last());
    assert(whole.last() == (Logged { seq: long.horizon(), op }));
    short.store().lemma_ordered();
    lemma_probe_past_end(short.history(), key, short.horizon(), long.horizon());
}

/// A write leaves every key it does not touch as it was.
pub proof fn law_others_untouched(
    before: Db,
    after: Db,
    ops: Seq<Op>,
    sync: bool,
    disable_wal: bool,
    id: u32,
    key: Seq<u8>,
)
    requires
        before.wf(),
        after.stored(before, ops, sync, disable_wal),
        forall|j: int|
            0 <= j < ops.len() ==> effect(#[trigger] ops[j], prefixed(id, key)) == Effect::Nothing,
    ensures
        after.reads(id, key, after.horizon()) == before.reads(id, key, before.horizon()),
{
    lemma_appended_elsewhere(before, after, ops, id, key);
}

/// Operations appended to the history leave every key they do not touch as it
/// was.
pub proof fn lemma_appended_elsewhere(before: Db, after: Db, ops: Seq<Op>, id: u32, key: Seq<u8>)
    requires
        before.wf(),
        after.operator() == before.operator(),
        after.horizon() == before.horizon() + ops.len(),
        after.history() == before.history() + numbered(ops, before.horizon() + 1),
        forall|j: int|
            0 <= j < ops.len() ==> effect(#[trigger] ops[j], prefixed(id, key)) == Effect::Nothing,
    ensures
        after.reads(id, key, after.horizon()) == before.reads(id, key, before.horizon()),
{
    let written = numbered(ops, before.horizon() + 1);
    let stored = prefixed(id, key);
    before.store().lemma_ordered();
    lemma_batch_passes_by(ops, before.horizon() + 1, stored, after.horizon());
    lemma_probe_layers(before.history(), written, stored, after.horizon());
    lemma_probe_past_end(before.history(), stored, before.horizon(), after.horizon());
    let found = probe(before.history(), stored, before.horizon());
    assert(found.operands + Seq::<Seq<u8>>::empty() =~= found.operands);
}

/// An operation on a key or a range of family `id`.
pub open spec fn in_family(op: Op, id: u32) -> bool {
    match op {
        Op::Put { key, .. } => exists|k: Seq<u8>| key == #[trigger] prefixed(id, k),
        Op::Delete { key } => exists|k: Seq<u8>| key == #[trigger] prefixed(id, k),
        Op::Merge { key, .. } => exists|k: Seq<u8>| key == #[trigger] prefixed(id, k),
        Op::DeleteRange { start, end } => exists|a: Seq<u8>, b: Seq<u8>|
            start == #[trigger] prefixed(id, a) && end == #[trigger] prefixed(id, b),
    }
}

/// An operation on one family does nothing to the keys of another.
pub proof fn law_families_apart(op: Op, id: u32, other: u32, key: Seq<u8>)
    requires
        in_family(op, id),
        other != id,
    ensures
        effect(op, prefixed(other, key)) == Effect::Nothing,
{
    match op {
        Op::Put { key: stored, .. } => {
            let k = choose|k: Seq<u8>| stored == #[trigger] prefixed(id, k);
            lemma_families_disjoint(id, k, other, key);
        },
        Op::Delete { key: stored } => {
            let k = choose|k: Seq<u8>| stored == #[trigger] prefixed(id, k);
            lemma_families_disjoint(id, k, other, key);
        },
        Op::Merge { key: stored, .. } => {
            let k = choose|k: Seq<u8>| stored == #[trigger] prefixed(id, k);
            lemma_families_disjoint(id, k, other, key);
        },
        Op::DeleteRange { start, end } => {
            let (a, b) = choose|a: Seq<u8>, b: Seq<u8>|
                start == #[trigger] prefixed(id, a) && end == #[trigger] prefixed(id, b);
            lemma_family_range(id, a, b, other, key);
        },
    }
}

/// A write to one column family changes no read of another.
pub proof fn law_family_isolation(
    before: Db,
    after: Db,
    ops: Seq<Op>,
    sync: bool,
    disable_wal: bool,
    id: u32,
    other: u32,
    key: Seq<u8>,
)
    requires
        before.wf(),
        after.stored(before, ops, sync, disable_wal),
        forall|j: int| 0 <= j < ops.len() ==> in_family(#[trigger] ops[j], id),
        other != id,
    ensures
        after.reads(other, key, after.horizon()) == before.reads(other, key, before.horizon()),
{
    assert forall|j: int| 0 <= j < ops.len() implies effect(
        #[trigger] ops[j],
        prefixed(other, key),
    ) == Effect::Nothing by {
        law_families_apart(ops[j], id, other, key);
    }
    law_others_untouched(before, after, ops, sync, disable_wal, other, key);
}

// ── snapshots ───────────────────────────────────────────────────────────

/// No write changes what a snapshot taken before it sees. A batch is
/// therefore seen whole or not at all: a snapshot's number lies at or below
/// the horizon before the batch, or at or above the one after it.
pub proof fn law_snapshot_isolation(
    before: Db,
    after: Db,
    ops: Seq<Op>,
    sync: bool,
    disable_wal: bool,
    id: u32,
    key: Seq<u8>,
    seq: u64,
)
    requires
        before.wf(),
        after.stored(before, ops, sync, disable_wal),
        seq <= before.horizon(),
    ensures
        after.reads(id, key, seq) == before.reads(id, key, seq),
{
    let written = numbered(ops, before.horizon() + 1);
    assert(beyond(written, seq)) by {
        assert forall|j: int| 0 <= j < written.len() implies (#[trigger] written[j]).seq > seq by {
            assert(before.horizon() + 1 + j <= after.horizon());
        }
    }
    lemma_later_writes_invisible(before.history(), written, prefixed(id, key), seq);
}

/// Sequence numbers only grow, and a write takes exactly as many as it has
/// operations.
pub proof fn law_sequence_grows(
    before: Db,
    after: Db,
    ops: Seq<Op>,
    sync: bool,
    disable_wal: bool,
)
    requires
        after.stored(before, ops, sync, disable_wal),
    ensures
        after.horizon() == before.horizon() + ops.len(),
        before.horizon() <= after.horizon(),
{
}

/// The number a sequenced write returns lies past every snapshot taken before
/// it and within reach of every one taken after it. An empty batch commits
/// nothing, and returns where the database stands.
pub proof fn law_sequenced_write(
    before: Db,
    after: Db,
    ops: Seq<Op>,
    sync: bool,
    no_slowdown: bool,
    disable_wal: bool,
    s: u64,
)
    requires
        before.batch_fault(ops, no_slowdown, disable_wal) is None,
        after.wrote_batch(before, ops, sync, no_slowdown, disable_wal),
        s == after.horizon(),
    ensures
        ops.len() > 0 ==> before.horizon() < s <= after.horizon(),
        ops.len() == 0 ==> s == before.horizon() && after == before,
        before.horizon() <= after.horizon(),
{
}

// ── scans ───────────────────────────────────────────────────────────────

/// A scan agrees with point reads: a key in bounds is among its rows with a
/// value exactly where a read of the key finds that value.
pub proof fn law_scan_agrees_with_get(
    db: Db,
    id: u32,
    start: Option<Seq<u8>>,
    end: Option<Seq<u8>>,
    seq: u64,
    rows: Seq<RowView>,
    key: Seq<u8>,
    value: Seq<u8>,
)
    requires
        is_family_scan(db.operator(), db.history(), id, start, end, seq, rows),
        in_bounds(start, end, key),
    ensures
        rows.contains(RowView { key, value: Some(value) }) <==> db.reads(id, key, seq)
            == Read::Value(Some(value)),
{
    let row = RowView { key, value: Some(value) };
    if rows.contains(row) {
        let i = choose|i: int| 0 <= i < rows.len() && rows[i] == row;
        assert(rows[i].key == key);
    }
    if db.reads(id, key, seq) == Read::Value(Some(value)) {
        let i = choose|i: int| 0 <= i < rows.len() && (#[trigger] rows[i]).key == key;
        assert(rows[i] == row);
    }
}

/// Two lists of rows that are both what a scan comes to are the same, one
/// row at a time.
proof fn lemma_family_scan_prefix(
    operator: Option<Arc<dyn MergeOperator>>,
    h: Seq<Logged>,
    id: u32,
    start: Option<Seq<u8>>,
    end: Option<Seq<u8>>,
    seq: u64,
    a: Seq<RowView>,
    b: Seq<RowView>,
    n: int,
)
    requires
        is_family_scan(operator, h, id, start, end, seq, a),
        is_family_scan(operator, h, id, start, end, seq, b),
        0 <= n <= a.len(),
    ensures
        n <= b.len(),
        forall|i: int| 0 <= i < n ==> a[i] == b[i],
    decreases n,
{
    if n > 0 {
        lemma_family_scan_prefix(operator, h, id, start, end, seq, a, b, n - 1);
        let k = a[n - 1].key;
        let j = choose|j: int| 0 <= j < b.len() && (#[trigger] b[j]).key == k;
        if j < n - 1 {
            assert(bytes_lt(a[j].key, a[n - 1].key));
            lemma_bytes_lt_irreflexive(k);
            assert(false);
        }
        if j > n - 1 {
            let other = b[n - 1].key;
            assert(bytes_lt(b[n - 1].key, b[j].key));
            let m = choose|m: int| 0 <= m < a.len() && (#[trigger] a[m]).key == other;
            if m < n - 1 {
                assert(b[m].key == other);
                assert(bytes_lt(b[m].key, b[n - 1].key));
                lemma_bytes_lt_irreflexive(other);
            } else if m == n - 1 {
                lemma_bytes_lt_irreflexive(other);
            } else {
                assert(bytes_lt(a[n - 1].key, a[m].key));
                lemma_bytes_lt_asymmetric(k, other);
            }
            assert(false);
        }
        assert(a[n - 1] == b[n - 1]);
    }
}

/// A scan has one outcome.
pub proof fn law_scan_unique(
    db: Db,
    id: u32,
    start: Option<Seq<u8>>,
    end: Option<Seq<u8>>,
    seq: u64,
    a: Seq<RowView>,
    b: Seq<RowView>,
)
    requires
        is_family_scan(db.operator(), db.history(), id, start, end, seq, a),
        is_family_scan(db.operator(), db.history(), id, start, end, seq, b),
    ensures
        a == b,
{
    let (operator, h) = (db.operator(), db.history());
    lemma_family_scan_prefix(operator, h, id, start, end, seq, a, b, a.len() as int);
    lemma_family_scan_prefix(operator, h, id, start, end, seq, b, a, b.len() as int);
    assert(a =~= b);
}

/// Pages join up: the rows of a scan past the first `limit` are what a scan
/// from the next page's start comes to, so that reading page after page
/// gives every row once.
pub proof fn law_pages_join(
    db: Db,
    id: u32,
    start: Option<Seq<u8>>,
    end: Option<Seq<u8>>,
    seq: u64,
    rows: Seq<RowView>,
    rest: Seq<RowView>,
    limit: int,
)
    requires
        is_family_scan(db.operator(), db.history(), id, start, end, seq, rows),
        0 <= limit < rows.len(),
        is_family_scan(db.operator(), db.history(), id, Some(rows[limit].key), end, seq, rest),
    ensures
        rows == rows.take(limit) + rest,
{
    let next = rows[limit].key;
    let tail = rows.skip(limit);
    let (operator, h) = (db.operator(), db.history());
    assert(is_family_scan(operator, h, id, Some(next), end, seq, tail)) by {
        assert forall|i: int, j: int| 0 <= i < j < tail.len() implies bytes_lt(
            (#[trigger] tail[i]).key,
            (#[trigger] tail[j]).key,
        ) by {
            assert(tail[i] == rows[limit + i]);
            assert(tail[j] == rows[limit + j]);
        }
        assert forall|i: int| 0 <= i < tail.len() implies in_bounds(
            Some(next),
            end,
            (#[trigger] tail[i]).key,
        ) && row_holds(
            read_at(operator, h, prefixed(id, tail[i].key), seq),
            tail[i],
        ) by {
            assert(tail[i] == rows[limit + i]);
            if i > 0 {
                assert(bytes_lt(rows[limit].key, rows[limit + i].key));
                lemma_bytes_lt_asymmetric(rows[limit].key, rows[limit + i].key);
            } else {
                lemma_bytes_lt_irreflexive(next);
            }
        }
        assert forall|key: Seq<u8>|
            in_bounds(Some(next), end, key) && #[trigger] read_at(
                operator,
                h,
                prefixed(id, key),
                seq,
            ) != Read::Value(None) implies exists|i: int|
            0 <= i < tail.len() && (#[trigger] tail[i]).key == key by {
            if start is Some {
                assert(in_bounds(start, end, rows[limit].key));
                if bytes_lt(key, start->0) {
                    lemma_bytes_lt_le(key, start->0, next);
                }
            }
            assert(in_bounds(start, end, key));
            let i = choose|i: int| 0 <= i < rows.len() && (#[trigger] rows[i]).key == key;
            if i < limit {
                assert(bytes_lt(rows[i].key, rows[limit].key));
                assert(false);
            }
            assert(tail[i - limit].key == key);
        }
    }
    law_scan_unique(db, id, Some(next), end, seq, tail, rest);
    assert(rows =~= rows.take(limit) + tail);
}

/// A scan comes to the same rows in two states of the database that read
/// alike.
proof fn lemma_scan_carries(
    a: Db,
    b: Db,
    id: u32,
    start: Option<Seq<u8>>,
    end: Option<Seq<u8>>,
    seq: u64,
    rows: Seq<RowView>,
)
    requires
        is_family_scan(a.operator(), a.history(), id, start, end, seq, rows),
        forall|key: Seq<u8>| #[trigger] a.reads(id, key, seq) == b.reads(id, key, seq),
    ensures
        is_family_scan(b.operator(), b.history(), id, start, end, seq, rows),
{
    assert forall|key: Seq<u8>| #[trigger]
        read_at(b.operator(), b.history(), prefixed(id, key), seq) == read_at(
            a.operator(),
            a.history(),
            prefixed(id, key),
            seq,
        ) by {
        assert(a.reads(id, key, seq) == b.reads(id, key, seq));
    }
    assert forall|i: int| 0 <= i < rows.len() implies in_bounds(
        start,
        end,
        (#[trigger] rows[i]).key,
    ) && row_holds(read_at(b.operator(), b.history(), prefixed(id, rows[i].key), seq), rows[i]) by {
    }
}

/// A run of pages of one scan: each page begins where the one before says the
/// next begins, and the last says there is no next. `states[i]` is the
/// database when page `i` was read.
pub open spec fn turned(
    states: Seq<Db>,
    id: u32,
    start: Option<Seq<u8>>,
    end: Option<Seq<u8>>,
    limit: usize,
    seq: u64,
    pages: Seq<ScanPage>,
) -> bool {
    &&& pages.len() >= 1
    &&& states.len() == pages.len()
    &&& forall|i: int|
        0 <= i < pages.len() ==> !(#[trigger] states[i]).is_closed() && states[i].paged(
            id,
            page_start(start, pages, i),
            end,
            limit,
            seq,
            Ok(pages[i]),
        )
    &&& forall|i: int|
        0 <= i < pages.len() ==> ((#[trigger] pages[i]).next_start is None <==> i == pages.len()
            - 1)
}

/// Where page `i` begins.
pub open spec fn page_start(start: Option<Seq<u8>>, pages: Seq<ScanPage>, i: int) -> Option<
    Seq<u8>,
> {
    if i == 0 {
        start
    } else {
        opt_view(pages[i - 1].next_start)
    }
}

/// The entries of the pages from `i` on, one after another.
pub open spec fn joined(pages: Seq<ScanPage>, i: int) -> Seq<(Seq<u8>, Seq<u8>)>
    decreases pages.len() - i,
{
    if i >= pages.len() {
        Seq::empty()
    } else {
        pair_views(pages[i].entries@) + joined(pages, i + 1)
    }
}

proof fn lemma_pages_from(
    states: Seq<Db>,
    id: u32,
    start: Option<Seq<u8>>,
    end: Option<Seq<u8>>,
    limit: usize,
    seq: u64,
    pages: Seq<ScanPage>,
    i: int,
) -> (rows: Seq<RowView>)
    requires
        turned(states, id, start, end, limit, seq, pages),
        limit > 0,
        forall|j: int, key: Seq<u8>|
            0 <= j < states.len() ==> #[trigger] states[j].reads(id, key, seq) == states[0].reads(
                id,
                key,
                seq,
            ),
        0 <= i < pages.len(),
    ensures
        is_family_scan(
            states[0].operator(),
            states[0].history(),
            id,
            page_start(start, pages, i),
            end,
            seq,
            rows,
        ),
        !any_failed(rows),
        joined(pages, i) == pairs_of(rows),
    decreases pages.len() - i,
{
    let from = page_start(start, pages, i);
    let here = states[i];
    let first = states[0];
    assert(here.paged(id, from, end, limit, seq, Ok(pages[i])));
    let rows = choose|rows: Seq<RowView>| #[trigger]
        is_family_scan(here.operator(), here.history(), id, from, end, seq, rows) && page_of(
            rows,
            limit,
            Ok(pages[i]),
        );
    assert forall|key: Seq<u8>| #[trigger] here.reads(id, key, seq) == first.reads(id, key, seq) by {
        assert(states[i].reads(id, key, seq) == states[0].reads(id, key, seq));
    }
    lemma_scan_carries(here, first, id, from, end, seq, rows);
    let reach = page_reach(rows, limit);
    assert forall|j: int| 0 <= j < reach implies (#[trigger] rows[j]).value is Some by {
        assert(rows.take(reach)[j].value is Some);
    }
    if rows.len() > limit {
        assert(pages[i].next_start is Some);
        let rest = lemma_pages_from(states, id, start, end, limit, seq, pages, i + 1);
        assert(page_start(start, pages, i + 1) == Some(rows[limit as int].key));
        law_pages_join(first, id, from, end, seq, rows, rest, limit as int);
        assert forall|j: int| 0 <= j < rows.len() implies (#[trigger] rows[j]).value is Some by {
            if j >= limit {
                assert(rows[j] == rest[j - limit]);
            }
        }
        assert(pairs_of(rows) =~= pairs_of(rows.take(limit as int)) + pairs_of(rest));
    } else {
        assert(pages[i].next_start is None);
        assert(joined(pages, i + 1) =~= Seq::<(Seq<u8>, Seq<u8>)>::empty());
    }
    rows
}

/// Read page after page, a scan gives every entry once: the entries of all
/// the pages, one after another, are what one scan returns, whatever is
/// written between them, so long as every state reads alike at `seq`, as it
/// does for a snapshot. No page holds more than `limit` entries, and one that
/// is not the last holds exactly as many.
pub proof fn law_all_pages_are_the_scan(
    states: Seq<Db>,
    id: u32,
    start: Option<Seq<u8>>,
    end: Option<Seq<u8>>,
    limit: usize,
    seq: u64,
    pages: Seq<ScanPage>,
    whole: Result<Vec<(Vec<u8>, Vec<u8>)>>,
)
    requires
        turned(states, id, start, end, limit, seq, pages),
        limit > 0,
        forall|j: int, key: Seq<u8>|
            0 <= j < states.len() ==> #[trigger] states[j].reads(id, key, seq) == states[0].reads(
                id,
                key,
                seq,
            ),
        states[0].scanned(id, start, end, seq, whole),
    ensures
        whole matches Ok(entries) && joined(pages, 0) == pair_views(entries@),
        forall|i: int|
            0 <= i < pages.len() ==> {
                &&& (#[trigger] pages[i]).entries@.len() <= limit
                &&& i < pages.len() - 1 ==> pages[i].entries@.len() == limit
            },
{
    let first = states[0];
    let rows = lemma_pages_from(states, id, start, end, limit, seq, pages, 0);
    let told = choose|told: Seq<RowView>| #[trigger]
        is_family_scan(first.operator(), first.history(), id, start, end, seq, told) && (
        if any_failed(told) {
            whole matches Err(e) && is_fault(e, Fault::MergeFailed(failed_key(told)))
        } else {
            whole matches Ok(entries) && pair_views(entries@) == pairs_of(told)
        });
    assert(page_start(start, pages, 0) == start);
    assert(!first.is_closed());
    law_scan_unique(first, id, start, end, seq, rows, told);
    assert forall|i: int| 0 <= i < pages.len() implies {
        &&& (#[trigger] pages[i]).entries@.len() <= limit
        &&& i < pages.len() - 1 ==> pages[i].entries@.len() == limit
    } by {
        let here = states[i];
        let from = page_start(start, pages, i);
        assert(here.paged(id, from, end, limit, seq, Ok(pages[i])));
        let rows = choose|rows: Seq<RowView>| #[trigger]
            is_family_scan(here.operator(), here.history(), id, from, end, seq, rows) && page_of(
                rows,
                limit,
                Ok(pages[i]),
            );
        assert(pair_views(pages[i].entries@).len() == pages[i].entries@.len());
    }
}

/// Where a bounded scan begins among all the rows of a family.
pub open spec fn begins_at(rows: Seq<RowView>, start: Option<Seq<u8>>) -> int {
    match start {
        Some(s) => rows_below(rows, s),
        None => 0,
    }
}

/// Where a bounded scan ends among all the rows of a family.
pub open spec fn ends_at(rows: Seq<RowView>, start: Option<Seq<u8>>, end: Option<Seq<u8>>) -> int {
    let from = begins_at(rows, start);
    match end {
        Some(e) => if rows_below(rows, e) < from {
            from
        } else {
            rows_below(rows, e)
        },
        None => rows.len() as int,
    }
}

/// A bounded scan is a stretch of the scan of the whole family.
pub proof fn law_scan_is_stretch(
    db: Db,
    id: u32,
    start: Option<Seq<u8>>,
    end: Option<Seq<u8>>,
    seq: u64,
    all: Seq<RowView>,
    part: Seq<RowView>,
)
    requires
        is_family_scan(db.operator(), db.history(), id, None, None, seq, all),
        is_family_scan(db.operator(), db.history(), id, start, end, seq, part),
    ensures
        0 <= begins_at(all, start) <= ends_at(all, start, end) <= all.len(),
        part == all.subrange(begins_at(all, start), ends_at(all, start, end)),
{
    let (operator, h) = (db.operator(), db.history());
    let from = begins_at(all, start);
    let to = ends_at(all, start, end);
    if start is Some {
        lemma_rows_below(all, start->0);
    }
    if end is Some {
        lemma_rows_below(all, end->0);
    }
    let stretch = all.subrange(from, to);
    assert(is_family_scan(operator, h, id, start, end, seq, stretch)) by {
        assert forall|i: int, j: int| 0 <= i < j < stretch.len() implies bytes_lt(
            (#[trigger] stretch[i]).key,
            (#[trigger] stretch[j]).key,
        ) by {
            assert(stretch[i] == all[from + i]);
            assert(stretch[j] == all[from + j]);
        }
        assert forall|i: int| 0 <= i < stretch.len() implies in_bounds(
            start,
            end,
            (#[trigger] stretch[i]).key,
        ) && row_holds(read_at(operator, h, prefixed(id, stretch[i].key), seq), stretch[i]) by {
            assert(stretch[i] == all[from + i]);
        }
        assert forall|key: Seq<u8>|
            in_bounds(start, end, key) && #[trigger] read_at(
                operator,
                h,
                prefixed(id, key),
                seq,
            ) != Read::Value(None) implies exists|i: int|
            0 <= i < stretch.len() && (#[trigger] stretch[i]).key == key by {
            assert(in_bounds(None, None, key));
            let i = choose|i: int| 0 <= i < all.len() && (#[trigger] all[i]).key == key;
            assert(from <= i < to);
            assert(stretch[i - from].key == key);
        }
    }
    law_scan_unique(db, id, start, end, seq, stretch, part);
}

/// A run of draws from a stream: `steps[i]` is the stream before draw `i`,
/// which handed out `handed[i]`.
pub open spec fn draws(steps: Seq<ScanStream>, handed: Seq<Option<(Vec<u8>, DbSlice)>>) -> bool {
    &&& steps.len() == handed.len() + 1
    &&& forall|i: int|
        0 <= i < handed.len() ==> #[trigger] steps[i + 1].drew(steps[i], handed[i])
}

/// Where a stream stands after `n` draws, among all the rows of its family.
spec fn stream_stands(
    s: ScanStream,
    all: Seq<RowView>,
    end: Option<Seq<u8>>,
    from: int,
    m: int,
    n: int,
) -> bool {
    let c = s.source().of().walker().cursor();
    &&& s.source().of().walker().live()
    &&& !s.source().of().walker().was_closed()
    &&& s.source().has_started()
    &&& !s.source().is_reverse()
    &&& s.bound() == end
    &&& c.rows == all
    &&& c.prefix is None
    &&& if n <= m {
        !s.is_done() && c.at == Some(from + n - 1) && c.failed is None
    } else {
        (s.is_done() || c.at is None) && c.failed == stuck_at(all, from + m)
    }
}

/// The key a walk fails on where it comes to row `i`.
spec fn stuck_at(rows: Seq<RowView>, i: int) -> Option<Seq<u8>> {
    if i < rows.len() && rows[i].value is None {
        Some(rows[i].key)
    } else {
        None
    }
}

/// What draw `n` of a stream comes to: one of the `m` rows from `from` on, all
/// of which can be read and lie before the bound, and no row after them.
spec fn row_ahead(all: Seq<RowView>, end: Option<Seq<u8>>, from: int, m: int, n: int) -> bool {
    &&& 0 <= from
    &&& n < m ==> from + n < all.len() && all[from + n].value is Some && (end matches Some(e)
        ==> bytes_lt(all[from + n].key, e))
    &&& n == m ==> from + n >= all.len() || all[from + n].value is None || (end matches Some(e)
        && !bytes_lt(all[from + n].key, e))
}

proof fn lemma_stream_step(
    before: ScanStream,
    after: ScanStream,
    handed: Option<(Vec<u8>, DbSlice)>,
    all: Seq<RowView>,
    end: Option<Seq<u8>>,
    from: int,
    m: int,
    n: int,
)
    requires
        after.drew(before, handed),
        row_ahead(all, end, from, m, n),
        0 <= n,
        0 <= m,
        n > 0 ==> stream_stands(before, all, end, from, m, n),
        n == 0 ==> {
            let c = before.source().of().walker().cursor();
            &&& before.source().of().walker().live()
            &&& !before.source().of().walker().was_closed()
            &&& !before.is_done()
            &&& !before.source().has_started()
            &&& !before.source().is_reverse()
            &&& before.bound() == end
            &&& c.positioned
            &&& c.rows == all
            &&& c.prefix is None
            &&& c.at == (if from < all.len() && all[from].value is Some {
                Some(from)
            } else {
                None
            })
            &&& c.failed == stuck_at(all, from)
        },
    ensures
        stream_stands(after, all, end, from, m, n + 1),
        if n < m {
            handed matches Some((key, value)) && key@ == all[from + n].key && Some(value@)
                == all[from + n].value
        } else {
            handed is None
        },
{
}

proof fn lemma_stream_draws(
    db: Db,
    seq: u64,
    start: Option<Seq<u8>>,
    end: Option<Seq<u8>>,
    all: Seq<RowView>,
    part: Seq<RowView>,
    steps: Seq<ScanStream>,
    handed: Seq<Option<(Vec<u8>, DbSlice)>>,
    n: int,
)
    requires
        !db.is_closed(),
        is_family_scan(db.operator(), db.history(), DEFAULT_CF_ID, None, None, seq, all),
        is_family_scan(db.operator(), db.history(), DEFAULT_CF_ID, start, end, seq, part),
        draws(steps, handed),
        steps[0].streams(db, seq, start, end),
        0 <= n < handed.len(),
    ensures
        stream_stands(steps[n + 1], all, end, begins_at(all, start), readable(part), n + 1),
        if n < readable(part) {
            handed[n] matches Some((key, value)) && key@ == part[n].key && Some(value@)
                == part[n].value
        } else {
            handed[n] is None
        },
    decreases n,
{
    law_scan_is_stretch(db, DEFAULT_CF_ID, start, end, seq, all, part);
    lemma_readable_rows(part);
    let from = begins_at(all, start);
    let m = readable(part);
    if start is Some {
        lemma_rows_below(all, start->0);
    }
    if end is Some {
        lemma_rows_below(all, end->0);
    }
    let before = steps[n];
    let after = steps[n + 1];
    assert(after.drew(before, handed[n]));
    assert(row_ahead(all, end, from, m, n)) by {
        if n < m {
            assert(part[n] == all[from + n]);
            assert(in_bounds(start, end, part[n].key));
        } else if n == m && m < part.len() {
            assert(part[m] == all[from + m]);
        }
    }
    if n == 0 {
        let fresh = choose|fresh: CfIter| #[trigger]
            db.iterates(DEFAULT_CF_ID, seq, fresh) && before.source().of().walker().same_source(
                fresh,
            ) && before.source().of().walker().cursor() == (match start {
                Some(s) => sought(fresh.cursor(), s),
                None => at_first(fresh.cursor()),
            });
        before.source().of().walker().lemma_same_source(fresh);
        law_scan_unique(db, DEFAULT_CF_ID, None, None, seq, all, fresh.cursor().rows);
    } else {
        lemma_stream_draws(db, seq, start, end, all, part, steps, handed, n - 1);
        assert(steps[n - 1 + 1] == before);
    }
    lemma_stream_step(before, after, handed[n], all, end, from, m, n);
    if n < m {
        assert(part[n] == all[from + n]);
    }
}

/// A stream that has handed out nothing more reports trouble where a row of
/// the range could not be read, and none where the range ended.
#[verifier::spinoff_prover]
#[verifier::rlimit(60)]
proof fn lemma_stream_trouble(
    db: Db,
    seq: u64,
    start: Option<Seq<u8>>,
    end: Option<Seq<u8>>,
    all: Seq<RowView>,
    part: Seq<RowView>,
    steps: Seq<ScanStream>,
    handed: Seq<Option<(Vec<u8>, DbSlice)>>,
)
    requires
        !db.is_closed(),
        is_family_scan(db.operator(), db.history(), DEFAULT_CF_ID, None, None, seq, all),
        is_family_scan(db.operator(), db.history(), DEFAULT_CF_ID, start, end, seq, part),
        draws(steps, handed),
        steps[0].streams(db, seq, start, end),
        handed.len() > 0,
        handed.last() is None,
    ensures
        steps.last().trouble() == (if any_failed(part) {
            Some(Fault::MergeFailed(part[readable(part)].key))
        } else {
            None
        }),
{
    lemma_readable_rows(part);
    let n: int = handed.len() - 1;
    let (from, m) = (begins_at(all, start), readable(part));
    lemma_stream_draws(db, seq, start, end, all, part, steps, handed, n);
    steps.last().source().of().walker().lemma_fault();
    law_scan_is_stretch(db, DEFAULT_CF_ID, start, end, seq, all, part);
    if end is Some {
        lemma_rows_below(all, end->0);
    }
    if m < part.len() {
        assert(part[m] == all[from + m]);
        assert(in_bounds(start, end, part[m].key));
    } else if from + m < all.len() && all[from + m].value is None {
        assert(from + m == ends_at(all, start, end));
    }
}

/// A stream hands out what a scan of the same range does: draw after draw,
/// row after row, up to the end of the range or the first row that cannot be
/// read, and nothing from then on, whatever is written meanwhile. A stream
/// that has handed out nothing more tells which of the two it was: it reports
/// trouble exactly where a row of the range could not be read.
#[verifier::spinoff_prover]
#[verifier::rlimit(60)]
pub proof fn law_stream_yields_scan(
    db: Db,
    seq: u64,
    start: Option<Seq<u8>>,
    end: Option<Seq<u8>>,
    part: Seq<RowView>,
    steps: Seq<ScanStream>,
    handed: Seq<Option<(Vec<u8>, DbSlice)>>,
)
    requires
        !db.is_closed(),
        is_family_scan(db.operator(), db.history(), DEFAULT_CF_ID, start, end, seq, part),
        draws(steps, handed),
        steps[0].streams(db, seq, start, end),
    ensures
        forall|n: int|
            0 <= n < handed.len() ==> if n < readable(part) {
                (#[trigger] handed[n]) matches Some((key, value)) && key@ == part[n].key && Some(
                    value@,
                ) == part[n].value
            } else {
                handed[n] is None
            },
        !any_failed(part) ==> readable(part) == part.len(),
        handed.len() > 0 && handed.last() is None ==> steps.last().trouble() == (if any_failed(
            part,
        ) {
            Some(Fault::MergeFailed(part[readable(part)].key))
        } else {
            None
        }),
{
    lemma_readable_rows(part);
    let fresh = choose|fresh: CfIter| #[trigger]
        db.iterates(DEFAULT_CF_ID, seq, fresh) && steps[0].source().of().walker().same_source(fresh);
    let all = fresh.cursor().rows;
    assert forall|n: int| 0 <= n < handed.len() implies if n < readable(part) {
        (#[trigger] handed[n]) matches Some((key, value)) && key@ == part[n].key && Some(value@)
            == part[n].value
    } else {
        handed[n] is None
    } by {
        lemma_stream_draws(db, seq, start, end, all, part, steps, handed, n);
    }
    if handed.len() > 0 && handed.last() is None {
        lemma_stream_trouble(db, seq, start, end, all, part, steps, handed);
    }
}

// ── durability ──────────────────────────────────────────────────────────

/// A database all of whose writes are durable keeps all of them durable
/// through every write that is logged.
pub proof fn law_logged_writes_durable(before: Db, after: Db, ops: Seq<Op>, sync: bool)
    requires
        before.durable() == before.history(),
        after.stored(before, ops, sync, false),
    ensures
        after.durable() == after.history(),
{
}

/// Reopening gives back what the database held: where every write was
/// durable when it stopped (as after a close, or after writes that were all
/// logged), each key of each family reads as it did.
pub proof fn law_reopen_restores(
    before: Db,
    name: Seq<char>,
    stored: Stored,
    opts: Options,
    after: Db,
    id: u32,
    key: Seq<u8>,
)
    requires
        before.wf(),
        before.durable() == before.history(),
        recovered(stored, name) == Ok::<Seq<Logged>, Seq<char>>(before.durable()),
        stored.mark() <= before.horizon(),
        after.fresh(name, stored.files(), before.durable(), reached(stored, before.durable()), opts),
        after.operator() == before.operator(),
    ensures
        after.reads(id, key, after.horizon()) == before.reads(id, key, before.horizon()),
        after.horizon() <= before.horizon(),
{
    before.store().lemma_ordered();
    after.store().lemma_ordered();
    lemma_probe_past_end(before.history(), prefixed(id, key), before.horizon(), after.horizon());
    let h = before.history();
    if h.len() > 0 {
        assert(h[h.len() - 1].seq <= before.horizon());
    }
}

/// After a crash, each key reads as the durable writes left it.
pub proof fn law_crash_restores_durable(
    before: Db,
    name: Seq<char>,
    stored: Stored,
    opts: Options,
    after: Db,
    id: u32,
    key: Seq<u8>,
)
    requires
        before.wf(),
        recovered(stored, name) == Ok::<Seq<Logged>, Seq<char>>(before.durable()),
        after.fresh(name, stored.files(), before.durable(), reached(stored, before.durable()), opts),
        after.operator() == before.operator(),
    ensures
        after.reads(id, key, after.horizon()) == read_at(
            before.operator(),
            before.durable(),
            prefixed(id, key),
            before.horizon(),
        ),
{
    before.store().lemma_ordered();
    after.store().lemma_ordered();
    lemma_probe_past_end(before.durable(), prefixed(id, key), before.horizon(), after.horizon());
}

/// A log torn by a crash costs whole writes from its end, and nothing else: a
/// log cut anywhere past its stamp opens to the writes of the records that
/// survived whole, which come first among all it held. A batch is one record,
/// and so survives whole or not at all. The bytes of the torn record must not
/// themselves read as whole records up to the cut, which opening refuses.
pub proof fn law_torn_log(left: Stored, torn: Stored, name: Seq<char>, cut: int)
    requires
        stamp_of(left.log()) == Ok::<Option<int>, Seq<char>>(Some(WAL_STAMP_LEN as int)),
        clean_from(left.log(), name, WAL_STAMP_LEN as int),
        WAL_STAMP_LEN <= cut <= left.log().len(),
        boundary_before(left.log(), WAL_STAMP_LEN as int, cut) < cut ==> first_resumption(
            left.log().take(cut),
            boundary_before(left.log(), WAL_STAMP_LEN as int, cut) + 1,
        ) is None,
        torn.log() == left.log().take(cut),
        torn.finished() == left.finished(),
        torn.mark() == left.mark(),
        recovered(left, name) is Ok,
    ensures
        recovered(torn, name) == Ok::<Seq<Logged>, Seq<char>>(
            left.finished() + entries_before(left.log(), WAL_STAMP_LEN as int, cut),
        ),
        recovered(torn, name)->Ok_0.is_prefix_of(recovered(left, name)->Ok_0),
{
    let log = left.log();
    let pos = WAL_STAMP_LEN as int;
    let all = replay_from(log, name, pos)->Ok_0.entries;
    let kept = entries_before(log, pos, cut);
    lemma_replay_cut(log, name, pos, cut);
    lemma_entries_before_first(log, name, pos, cut);
    assert(log =~= log.take(cut) + log.skip(cut));
    lemma_stamp_stable(log.take(cut), log.skip(cut));
    let h = left.finished() + all;
    let g = left.finished() + kept;
    assert(kept =~= all.take(kept.len() as int));
    assert(g =~= h.take(g.len() as int));
    assert forall|i: int| 0 <= i < g.len() implies (#[trigger] g[i]).seq >= 1 by {
        assert(g[i] == h[i]);
    }
    assert forall|i: int, j: int| 0 <= i < j < g.len() implies (#[trigger] g[i]).seq < (
    #[trigger] g[j]).seq by {
        assert(g[i] == h[i]);
        assert(g[j] == h[j]);
    }
    assert(all_storable(kept)) by {
        assert forall|i: int| 0 <= i < kept.len() implies storable((#[trigger] kept[i]).op) && keyed(
            kept[i].op,
        ) by {
            assert(kept[i] == all[i]);
        }
    }
    assert(beyond(kept, left.mark())) by {
        assert forall|i: int| 0 <= i < kept.len() implies (#[trigger] kept[i]).seq
            > left.mark() by {
            assert(kept[i] == all[i]);
        }
    }
}

// ── compaction ──────────────────────────────────────────────────────────

/// Flushing changes no read.
pub proof fn law_flush_keeps_reads(before: Db, after: Db, id: u32, key: Seq<u8>, seq: u64)
    requires
        after.store().is_flush_of(before.store()),
    ensures
        after.reads(id, key, seq) == before.reads(id, key, seq),
{
}

/// Without a compaction filter, and where tables are not dropped by age,
/// compacting a range changes neither what a live snapshot sees nor what
/// the next read gives.
pub proof fn law_compaction_keeps_reads(
    before: RegolithEngine,
    flushed: RegolithEngine,
    after: RegolithEngine,
    lo: Seq<u8>,
    hi: Seq<u8>,
    key: Seq<u8>,
    seq: u64,
)
    requires
        before.wf(),
        flushed.is_flush_of(before),
        after.range_compacted(flushed, lo, hi),
        !(before.settings().compaction_style is Fifo),
        before.filter() is None,
        before.registry().pins().dom().contains(seq) || seq == before.horizon(),
    ensures
        read_at(after.operator(), after.history(), key, seq) == read_at(
            before.operator(),
            before.history(),
            key,
            seq,
        ),
{
    if flushed.registry().pins().dom().contains(seq) {
        lemma_snapshots_above_pin(flushed, seq);
    }
    if crate::engine::store::levels::any_touches(
        crate::engine::store::stacked(flushed.files()),
        lo,
        hi,
    ) {
        lemma_merge_keeps_reads(flushed, after, flushed.merge_level(), 0, key, seq);
    }
}

/// Without a compaction filter, and where tables are not dropped by age, a
/// compaction pass changes neither what a live snapshot sees nor what the next
/// read gives.
pub proof fn law_pass_keeps_reads(
    before: RegolithEngine,
    after: RegolithEngine,
    key: Seq<u8>,
    seq: u64,
)
    requires
        before.wf(),
        after.pass_done(before),
        !(before.settings().compaction_style is Fifo),
        before.filter() is None,
        before.registry().pins().dom().contains(seq) || seq == before.horizon(),
    ensures
        read_at(after.operator(), after.history(), key, seq) == read_at(
            before.operator(),
            before.history(),
            key,
            seq,
        ),
{
    if before.registry().pins().dom().contains(seq) {
        lemma_snapshots_above_pin(before, seq);
    }
    lemma_merge_keeps_reads(before, after, before.merge_level(), before.merge_from(), key, seq);
}

// ── column families ─────────────────────────────────────────────────────

impl Db {
    /// The handle's families are the ones its metadata holds.
    pub open spec fn families_current(self) -> bool {
        &&& self.families().live() == families_of(self.operator(), self.history(), self.horizon())
        &&& next_id_read(self.operator(), self.history(), self.horizon()) is Value
        &&& self.families().upcoming() == next_id_of(
            next_id_read(self.operator(), self.history(), self.horizon())->Value_0,
        )
    }
}

/// The metadata key of a name and the one of the next id differ.
proof fn lemma_name_key_apart(name: Seq<char>)
    ensures
        name_key_of(name) != next_id_key_bytes(),
{
    let a = name_mark() + vstd::utf8::encode_utf8(name);
    let b = seq![110u8, 101u8, 120u8, 116u8, 95u8, 105u8, 100u8];
    lemma_families_disjoint(META_CF_ID, a, META_CF_ID, b);
    assert(a[1] == 97u8);
    assert(b[1] == 101u8);
}

/// Recording a new family touches the metadata alone.
pub proof fn lemma_registering_elsewhere(
    before: Db,
    after: Db,
    name: Seq<char>,
    id: u32,
    sync: bool,
    other: u32,
    key: Seq<u8>,
)
    requires
        before.wf(),
        other != META_CF_ID,
        after.stored(before, Db::registering(name, id), sync, false),
    ensures
        after.reads(other, key, after.horizon()) == before.reads(other, key, before.horizon()),
{
    let ops = Db::registering(name, id);
    let named = name_mark() + vstd::utf8::encode_utf8(name);
    let next = seq![110u8, 101u8, 120u8, 116u8, 95u8, 105u8, 100u8];
    lemma_families_disjoint(META_CF_ID, named, other, key);
    lemma_families_disjoint(META_CF_ID, next, other, key);
    law_others_untouched(before, after, ops, sync, false, other, key);
}

/// Dropping a family touches that family and the metadata alone.
pub proof fn lemma_drop_elsewhere(
    before: Db,
    after: Db,
    cf: ColumnFamilyHandle,
    sync: bool,
    other: u32,
    key: Seq<u8>,
)
    requires
        before.wf(),
        cf.id_number() < META_CF_ID,
        other != META_CF_ID,
        other != cf.id_number(),
        after.stored(before, Db::dropping(cf), sync, false),
    ensures
        after.reads(other, key, after.horizon()) == before.reads(other, key, before.horizon()),
{
    let ops = Db::dropping(cf);
    let named = name_mark() + vstd::utf8::encode_utf8(cf.name_text());
    lemma_families_disjoint(META_CF_ID, named, other, key);
    lemma_family_bounds(cf.id_number(), other, key);
    law_others_untouched(before, after, ops, sync, false, other, key);
}

/// A database that was never opened opens under any options that make sense
/// together, holds nothing, and has the default column family alone.
pub proof fn law_fresh_database(name: Seq<char>, stored: Stored, opts: Options)
    requires
        stored.finished() == Seq::<Logged>::empty(),
        stored.log() == Seq::<u8>::empty(),
        stored.mark() == 0,
        consistent(opts),
        opts.read_only ==> stored.was_opened(),
    ensures
        opened(name, stored, opts) == Ok::<Seq<Logged>, Fault>(Seq::empty()),
        families_of(opts.merge_operator, Seq::empty(), 0) == Map::<Seq<char>, u32>::empty().insert(
            DEFAULT_CF_NAME@,
            DEFAULT_CF_ID,
        ),
        next_id_of(next_id_read(opts.merge_operator, Seq::empty(), 0)->Value_0) == 1,
{
    let none = Seq::<Logged>::empty();
    lemma_complaint_iff_inconsistent(opts);
    assert(none + none =~= none);
    assert(recovered(stored, name) == Ok::<Seq<Logged>, Seq<char>>(none));
    assert forall|key: Seq<u8>| #[trigger]
        read_at(opts.merge_operator, none, key, 0) == Read::Value(None) by {}
    assert(families_of(opts.merge_operator, none, 0) =~= Map::<Seq<char>, u32>::empty().insert(
        DEFAULT_CF_NAME@,
        DEFAULT_CF_ID,
    ));
}

/// A freshly opened handle knows the families the database holds.
pub proof fn law_open_finds_families(
    after: Db,
    name: Seq<char>,
    files: Seq<TableFile>,
    h: Seq<Logged>,
    seq: u64,
    opts: Options,
)
    requires
        after.fresh(name, files, h, seq, opts),
        next_id_read(opts.merge_operator, h, seq) is Value,
    ensures
        after.families_current(),
{
}

/// Writes to the data of families leave the families alone.
pub proof fn law_data_keeps_families(
    before: Db,
    after: Db,
    ops: Seq<Op>,
    sync: bool,
    disable_wal: bool,
)
    requires
        before.wf(),
        before.families_current(),
        after.stored(before, ops, sync, disable_wal),
        after.families() == before.families(),
        forall|j: int, key: Seq<u8>|
            0 <= j < ops.len() ==> effect(#[trigger] ops[j], #[trigger] prefixed(META_CF_ID, key))
                == Effect::Nothing,
    ensures
        after.families_current(),
{
    assert forall|name: Seq<char>|
        family_id(after.operator(), after.history(), after.horizon(), name) == #[trigger] family_id(
            before.operator(),
            before.history(),
            before.horizon(),
            name,
        ) by {
        let key = name_mark() + vstd::utf8::encode_utf8(name);
        law_others_untouched(before, after, ops, sync, disable_wal, META_CF_ID, key);
    }
    let next = seq![110u8, 101u8, 120u8, 116u8, 95u8, 105u8, 100u8];
    law_others_untouched(before, after, ops, sync, disable_wal, META_CF_ID, next);
    assert(families_of(after.operator(), after.history(), after.horizon()) =~= families_of(
        before.operator(),
        before.history(),
        before.horizon(),
    ));
}

/// Creating a family records it: what the metadata holds afterwards is what
/// the handle knows.
pub proof fn law_create_recorded(before: Db, after: Db, name: Seq<char>, id: u32, sync: bool)
    requires
        before.wf(),
        before.families_current(),
        name != DEFAULT_CF_NAME@,
        id < META_CF_ID,
        after.stored(before, Db::registering(name, id), sync, false),
        after.families().live() == before.families().live().insert(name, id),
        after.families().upcoming() == id + 1,
    ensures
        after.families_current(),
{
    let ops = Db::registering(name, id);
    let key = name_mark() + vstd::utf8::encode_utf8(name);
    let next = seq![110u8, 101u8, 120u8, 116u8, 95u8, 105u8, 100u8];
    lemma_name_key_apart(name);
    lemma_u32_fits();
    lemma_be_bytes_len(id as nat, 4);
    lemma_be_bytes_len((id + 1) as nat, 4);
    lemma_be_round_trip(id as nat, 4);
    lemma_be_round_trip((id + 1) as nat, 4);
    law_last_write_wins(before, after, ops, sync, false, META_CF_ID, key, 0);
    law_last_write_wins(before, after, ops, sync, false, META_CF_ID, next, 1);
    let old_ids = families_of(before.operator(), before.history(), before.horizon());
    let new_ids = families_of(after.operator(), after.history(), after.horizon());
    assert forall|other: Seq<char>| other != name implies family_id(
        after.operator(),
        after.history(),
        after.horizon(),
        other,
    ) == #[trigger] family_id(before.operator(), before.history(), before.horizon(), other) by {
        let k = name_mark() + vstd::utf8::encode_utf8(other);
        lemma_name_round_trip(name);
        lemma_name_round_trip(other);
        lemma_name_key_apart(other);
        law_others_untouched(before, after, ops, sync, false, META_CF_ID, k);
    }
    assert(family_id(after.operator(), after.history(), after.horizon(), name) == Some(id));
    assert(new_ids =~= old_ids.insert(name, id));
}

/// Dropping a family records it, and takes every key of the family.
pub proof fn law_drop_recorded(
    before: Db,
    after: Db,
    cf: ColumnFamilyHandle,
    sync: bool,
    key: Seq<u8>,
)
    requires
        before.wf(),
        before.families_current(),
        before.drop_fault(cf) is None,
        after.stored(before, Db::dropping(cf), sync, false),
        after.families().live() == before.families().live().remove(cf.name_text()),
        after.families().upcoming() == before.families().upcoming(),
    ensures
        after.families_current(),
        after.reads(cf.id_number(), key, after.horizon()) == Read::Value(None),
{
    let ops = Db::dropping(cf);
    let name = cf.name_text();
    let id = cf.id_number();
    let named = name_mark() + vstd::utf8::encode_utf8(name);
    let next = seq![110u8, 101u8, 120u8, 116u8, 95u8, 105u8, 100u8];
    before.lemma_live_id(cf);
    lemma_name_key_apart(name);
    lemma_family_bounds(id, META_CF_ID, named);
    lemma_family_bounds(id, META_CF_ID, next);
    lemma_family_bounds(id, id, key);
    law_last_write_wins(before, after, ops, sync, false, META_CF_ID, named, 0);
    law_last_write_wins(before, after, ops, sync, false, id, key, 1);
    law_others_untouched(before, after, ops, sync, false, META_CF_ID, next);
    let old_ids = families_of(before.operator(), before.history(), before.horizon());
    let new_ids = families_of(after.operator(), after.history(), after.horizon());
    assert forall|other: Seq<char>| other != name implies family_id(
        after.operator(),
        after.history(),
        after.horizon(),
        other,
    ) == #[trigger] family_id(before.operator(), before.history(), before.horizon(), other) by {
        let k = name_mark() + vstd::utf8::encode_utf8(other);
        lemma_name_round_trip(name);
        lemma_name_round_trip(other);
        lemma_family_bounds(id, META_CF_ID, k);
        law_others_untouched(before, after, ops, sync, false, META_CF_ID, k);
    }
    assert(family_id(after.operator(), after.history(), after.horizon(), name) is None);
    assert(new_ids =~= old_ids.remove(name));
}

/// A database whose writes are all durable has the same families, under the
/// same ids, once it is reopened, and numbers new ones on from where it was.
pub proof fn law_reopen_restores_families(
    before: Db,
    name: Seq<char>,
    stored: Stored,
    opts: Options,
    after: Db,
)
    requires
        before.wf(),
        before.families_current(),
        before.durable() == before.history(),
        recovered(stored, name) == Ok::<Seq<Logged>, Seq<char>>(before.durable()),
        after.fresh(name, stored.files(), before.durable(), reached(stored, before.durable()), opts),
        after.operator() == before.operator(),
    ensures
        after.families().live() == before.families().live(),
        after.families().upcoming() == before.families().upcoming(),
        after.families_current(),
{
    let h = before.history();
    before.store().lemma_ordered();
    after.store().lemma_ordered();
    assert forall|n: Seq<char>|
        family_id(after.operator(), h, after.horizon(), n) == #[trigger] family_id(
            before.operator(),
            h,
            before.horizon(),
            n,
        ) by {
        lemma_probe_past_end(h, name_key_of(n), before.horizon(), after.horizon());
    }
    lemma_probe_past_end(h, next_id_key_bytes(), before.horizon(), after.horizon());
    assert(families_of(after.operator(), h, after.horizon()) =~= families_of(
        before.operator(),
        h,
        before.horizon(),
    ));
}

// ── new families ────────────────────────────────────────────────────────

/// Every point write of `h` is in a family numbered below `next`, or in the
/// metadata.
pub open spec fn numbered_below(h: Seq<Logged>, next: int) -> bool {
    forall|i: int|
        0 <= i < h.len() ==> (point_key((#[trigger] h[i]).op) matches Some(key) ==> family_of(key)
            < next || family_of(key) == META_CF_ID)
}

impl Db {
    /// No family, and no write but to the metadata, has a number that a new
    /// family could be given.
    pub open spec fn numbers_free(self) -> bool {
        &&& forall|name: Seq<char>| #[trigger]
            self.families().live().dom().contains(name) ==> self.families().live()[name]
                < self.families().upcoming()
        &&& numbered_below(self.history(), self.families().upcoming() as int)
    }
}

/// A new database has no number in use but the default family's.
pub proof fn law_fresh_numbers_free(
    after: Db,
    name: Seq<char>,
    files: Seq<TableFile>,
    seq: u64,
    opts: Options,
)
    requires
        after.fresh(name, files, Seq::empty(), seq, opts),
    ensures
        after.numbers_free(),
{
    let none = Seq::<Logged>::empty();
    assert forall|key: Seq<u8>| #[trigger]
        read_at(opts.merge_operator, none, key, seq) == Read::Value(None) by {}
    assert forall|other: Seq<char>| #[trigger]
        after.families().live().dom().contains(other) implies after.families().live()[other]
        < after.families().upcoming() by {
        if other != DEFAULT_CF_NAME@ {
            assert(family_id(opts.merge_operator, none, seq, other) is None);
        }
    }
}

/// Writes to live families, by a batch or out of ingested files, keep the
/// numbers of new families free.
pub proof fn law_writes_keep_numbers_free(before: Db, after: Db, ops: Seq<Op>)
    requires
        before.numbers_free(),
        before.batch_family_fault(ops) is None || before.foreign_fault(ops) is None,
        after.families() == before.families(),
        after.history() == before.history() + numbered(ops, before.horizon() + 1),
    ensures
        after.numbers_free(),
{
    let h = after.history();
    let next = before.families().upcoming() as int;
    assert forall|i: int| 0 <= i < h.len() implies (point_key((#[trigger] h[i]).op) matches Some(
        key,
    ) ==> family_of(key) < next || family_of(key) == META_CF_ID) by {
        let n = before.history().len();
        if i < n {
            assert(h[i] == before.history()[i]);
        } else {
            assert(h[i].op == ops[i - n]);
            lemma_op_in_live_family(before, ops, i - n);
        }
    }
}

/// Operations that are not refused for their families are all in live ones.
proof fn lemma_op_in_live_family(db: Db, ops: Seq<Op>, i: int)
    requires
        db.batch_family_fault(ops) is None || db.foreign_fault(ops) is None,
        0 <= i < ops.len(),
    ensures
        point_key(ops[i]) matches Some(key) ==> db.families().has_id(family_of(key)),
    decreases ops.len(),
{
    if i < ops.len() - 1 {
        lemma_op_in_live_family(db, ops.drop_last(), i);
        assert(ops.drop_last()[i] == ops[i]);
    } else if db.batch_family_fault(ops) is None {
        assert(db.op_family_fault(ops.last()) is None);
    } else {
        assert(db.foreign_op_fault(ops.last()) is None);
    }
}

/// A write to a live family is one that no batch is refused for.
pub proof fn law_live_family_writes_pass(db: Db, cf: ColumnFamilyHandle, op: Op, key: Seq<u8>)
    requires
        db.families().is_live(cf),
        point_key(op) == Some(prefixed(cf.id_number(), key)),
    ensures
        db.batch_family_fault(seq![op]) is None,
{
    lemma_prefixed_parts(cf.id_number(), key);
    assert(db.families().live().dom().contains(cf.name_text()));
    assert(db.families().has_id(cf.id_number()));
    assert(seq![op].drop_last() =~= Seq::<Op>::empty());
    assert(db.batch_family_fault(Seq::<Op>::empty()) is None);
}

/// Flushing and compacting keep the numbers of new families free.
pub proof fn law_compaction_keeps_numbers_free(
    before: RegolithEngine,
    after: RegolithEngine,
    next: int,
)
    requires
        before.wf(),
        numbered_below(before.history(), next),
        after.is_flush_of(before) || (exists|level: usize, n: int| #[trigger]
            after.merged(before, level, n)) || (exists|cap: u64| #[trigger] after.trimmed(before, cap)),
    ensures
        numbered_below(after.history(), next),
{
    if !after.is_flush_of(before) {
        before.lemma_history_parts();
        let old_part = stacked(before.files());
        let new_part = stacked(after.files());
        let h = before.history();
        let g = after.history();
        assert forall|i: int| 0 <= i < g.len() implies (point_key((#[trigger] g[i]).op) matches Some(
            key,
        ) ==> family_of(key) < next || family_of(key) == META_CF_ID) by {
            if i < new_part.len() {
                assert(g[i] == new_part[i]);
                if exists|level: usize, n: int| #[trigger] after.merged(before, level, n) {
                    let (level, n) = choose|level: usize, n: int| #[trigger]
                        after.merged(before, level, n);
                    lemma_stacked_split(before.files(), n);
                    lemma_stacked_split(after.files(), n);
                    let under = stacked(before.files().take(n));
                    if i < under.len() {
                        assert(h[i] == under[i]);
                    } else {
                        let j = lemma_compacted_key_was_there(
                            before.filter(),
                            level,
                            before.pin(),
                            stacked(before.files().skip(n)),
                            stacked(after.files().skip(n)),
                            i - under.len(),
                        );
                        assert(h[under.len() + j] == stacked(before.files().skip(n))[j]);
                    }
                } else {
                    let cap = choose|cap: u64| #[trigger] after.trimmed(before, cap);
                    let n = overflow(before.files(), cap);
                    lemma_overflow_fits(before.files(), cap);
                    let j = lemma_stacked_suffix(before.files(), n, i);
                    assert(h[j] == old_part[j]);
                }
            } else {
                let k = i - new_part.len();
                assert(g[i] == before.active()[k]);
                assert(h[old_part.len() + k] == before.active()[k]);
            }
        }
    }
}

/// What the newer tables of a stack hold, the stack holds.
proof fn lemma_stacked_suffix(tables: Seq<TableFile>, n: int, i: int) -> (j: int)
    requires
        0 <= n <= tables.len(),
        0 <= i < stacked(tables.skip(n)).len(),
    ensures
        0 <= j < stacked(tables).len(),
        stacked(tables)[j] == stacked(tables.skip(n))[i],
    decreases tables.len(),
{
    if n == tables.len() {
        assert(tables.skip(n) =~= Seq::<TableFile>::empty());
        0
    } else {
        let part = tables.skip(n);
        assert(part.drop_last() =~= tables.drop_last().skip(n));
        assert(part.last() == tables.last());
        let below = stacked(part.drop_last());
        if i < below.len() {
            lemma_stacked_suffix(tables.drop_last(), n, i)
        } else {
            stacked(tables.drop_last()).len() + (i - below.len())
        }
    }
}

/// Dropping a family keeps the numbers of new families free: no number is
/// given out twice.
pub proof fn law_drop_keeps_numbers_free(
    before: Db,
    after: Db,
    cf: ColumnFamilyHandle,
    sync: bool,
)
    requires
        before.numbers_free(),
        after.stored(before, Db::dropping(cf), sync, false),
        after.families().live() == before.families().live().remove(cf.name_text()),
        after.families().upcoming() == before.families().upcoming(),
    ensures
        after.numbers_free(),
{
    let ops = Db::dropping(cf);
    lemma_prefixed_parts(META_CF_ID, name_mark() + vstd::utf8::encode_utf8(cf.name_text()));
    let h = after.history();
    let n = before.history().len();
    let next = after.families().upcoming() as int;
    assert forall|i: int| 0 <= i < h.len() implies (point_key((#[trigger] h[i]).op) matches Some(
        key,
    ) ==> family_of(key) < next || family_of(key) == META_CF_ID) by {
        if i < n {
            assert(h[i] == before.history()[i]);
        } else {
            assert(h[i].op == ops[i - n]);
        }
    }
}

/// A database that is reopened after all its writes became durable still has
/// the numbers of new families free.
pub proof fn law_reopen_keeps_numbers_free(
    before: Db,
    name: Seq<char>,
    stored: Stored,
    opts: Options,
    after: Db,
)
    requires
        before.wf(),
        before.families_current(),
        before.numbers_free(),
        before.durable() == before.history(),
        recovered(stored, name) == Ok::<Seq<Logged>, Seq<char>>(before.durable()),
        after.fresh(name, stored.files(), before.durable(), reached(stored, before.durable()), opts),
        after.operator() == before.operator(),
    ensures
        after.numbers_free(),
{
    law_reopen_restores_families(before, name, stored, opts, after);
}

/// A newly created family holds no key, at no point of the history, and the
/// numbers after its own are free.
pub proof fn law_new_family_is_empty(
    before: Db,
    after: Db,
    name: Seq<char>,
    id: u32,
    sync: bool,
    key: Seq<u8>,
    seq: u64,
)
    requires
        before.numbers_free(),
        id == before.families().upcoming(),
        id < META_CF_ID,
        after.stored(before, Db::registering(name, id), sync, false),
        after.families().live() == before.families().live().insert(name, id),
        after.families().upcoming() == id + 1,
    ensures
        after.reads(id, key, seq) == Read::Value(None),
        after.numbers_free(),
{
    let ops = Db::registering(name, id);
    let h = after.history();
    let n = before.history().len();
    lemma_prefixed_parts(id, key);
    lemma_prefixed_parts(META_CF_ID, name_mark() + vstd::utf8::encode_utf8(name));
    lemma_prefixed_parts(META_CF_ID, seq![110u8, 101u8, 120u8, 116u8, 95u8, 105u8, 100u8]);
    assert forall|i: int| 0 <= i < h.len() implies (point_key((#[trigger] h[i]).op) matches Some(k)
        ==> family_of(k) < id || family_of(k) == META_CF_ID) by {
        if i < n {
            assert(h[i] == before.history()[i]);
        } else {
            assert(h[i].op == ops[i - n]);
        }
    }
    if after.reads(id, key, seq) != Read::Value(None) {
        let i = lemma_found_was_written(h, prefixed(id, key), seq);
        assert(point_key(h[i].op) == Some(prefixed(id, key)));
    }
}

/// A family that is created gets a number that no live family has, that no
/// key was ever written under, and that is not given out again. It is found by its name, holds no key at any
/// point of the history, and every other family reads as it did. Nothing
/// that was known of the families is lost by it.
pub proof fn law_created_family(before: Db, after: Db, name: Seq<char>, id: u32)
    requires
        before.wf(),
        before.families_current(),
        before.numbers_free(),
        name != DEFAULT_CF_NAME@,
        id < META_CF_ID,
        after.gained(before, name, id),
    ensures
        after.families().live().dom().contains(name) && after.families().live()[name] == id,
        before.families().upcoming() <= id < after.families().upcoming(),
        forall|other: Seq<char>|
            other != name ==> (#[trigger] after.families().live().dom().contains(other)
                <==> before.families().live().dom().contains(other)),
        forall|other: Seq<char>| #[trigger]
            before.families().live().dom().contains(other) ==> before.families().live()[other] != id
                && (other != name ==> after.families().live()[other]
                == before.families().live()[other]),
        forall|i: int|
            0 <= i < before.history().len() ==> (point_key(
                (#[trigger] before.history()[i]).op,
            ) matches Some(key) ==> family_of(key) != id),
        forall|key: Seq<u8>, seq: u64| #[trigger]
            after.reads(id, key, seq) == Read::Value(None),
        forall|other: u32, key: Seq<u8>|
            other != META_CF_ID ==> #[trigger] after.reads(other, key, after.horizon())
                == before.reads(other, key, before.horizon()),
        after.families_current(),
        after.numbers_free(),
{
    let sync = before.mode() == DurabilityMode::Immediate;
    let ops = Db::registering(name, id);
    law_create_recorded(before, after, name, id, sync);
    law_new_family_is_empty(before, after, name, id, sync, Seq::empty(), 0);
    assert forall|key: Seq<u8>, seq: u64| #[trigger]
        after.reads(id, key, seq) == Read::Value(None) by {
        law_new_family_is_empty(before, after, name, id, sync, key, seq);
    }
    assert(in_family(ops[0], META_CF_ID)) by {
        assert(name_key_of(name) == prefixed(
            META_CF_ID,
            name_mark() + vstd::utf8::encode_utf8(name),
        ));
    }
    assert(in_family(ops[1], META_CF_ID)) by {
        assert(next_id_key_bytes() == prefixed(
            META_CF_ID,
            seq![110u8, 101u8, 120u8, 116u8, 95u8, 105u8, 100u8],
        ));
    }
    assert forall|other: u32, key: Seq<u8>| other != META_CF_ID implies #[trigger] after.reads(
        other,
        key,
        after.horizon(),
    ) == before.reads(other, key, before.horizon()) by {
        law_family_isolation(before, after, ops, sync, false, META_CF_ID, other, key);
    }
}

/// A family that was created durably is found under the same number, as empty
/// as it was, once the database is reopened.
pub proof fn law_created_family_reopens(
    before: Db,
    after: Db,
    name: Seq<char>,
    id: u32,
    log: Seq<char>,
    stored: Stored,
    opts: Options,
    reopened: Db,
)
    requires
        before.wf(),
        before.families_current(),
        before.numbers_free(),
        name != DEFAULT_CF_NAME@,
        id < META_CF_ID,
        after.wf(),
        after.gained(before, name, id),
        after.durable() == after.history(),
        recovered(stored, log) == Ok::<Seq<Logged>, Seq<char>>(after.durable()),
        reopened.fresh(log, stored.files(), after.durable(), reached(stored, after.durable()), opts),
        reopened.operator() == after.operator(),
    ensures
        reopened.families().live().dom().contains(name) && reopened.families().live()[name] == id,
        forall|key: Seq<u8>, seq: u64| #[trigger]
            reopened.reads(id, key, seq) == Read::Value(None),
        reopened.families_current(),
        reopened.numbers_free(),
{
    law_created_family(before, after, name, id);
    law_reopen_restores_families(after, log, stored, opts, reopened);
    law_reopen_keeps_numbers_free(after, log, stored, opts, reopened);
    assert forall|key: Seq<u8>, seq: u64| #[trigger]
        reopened.reads(id, key, seq) == Read::Value(None) by {
        assert(after.reads(id, key, seq) == Read::Value(None));
    }
}

// ── deleting everything ─────────────────────────────────────────────────

/// The entry of a family is the last word on its key.
proof fn lemma_entry_found(
    names: Seq<Seq<char>>,
    live: Map<Seq<char>, u32>,
    name: Seq<char>,
) -> (i: int)
    requires
        names.contains(name),
        name != DEFAULT_CF_NAME@,
    ensures
        0 <= i < name_entries(names, live).len(),
        name_entries(names, live)[i] == (Op::Put {
            key: name_key_of(name),
            value: be_bytes(live[name] as nat, 4),
        }),
    decreases names.len(),
{
    let rest = names.drop_last();
    if names.last() == name {
        name_entries(rest, live).len() as int
    } else {
        let k = choose|k: int| 0 <= k < names.len() && names[k] == name;
        assert(rest[k] == name);
        lemma_entry_found(rest, live, name)
    }
}

/// No two entries have one key.
proof fn lemma_entries_apart(
    names: Seq<Seq<char>>,
    live: Map<Seq<char>, u32>,
    name: Seq<char>,
    i: int,
    j: int,
)
    requires
        names_ascend(names),
        0 <= i < j < name_entries(names, live).len(),
        point_key(name_entries(names, live)[i]) == Some(name_key_of(name)),
    ensures
        point_key(name_entries(names, live)[j]) != Some(name_key_of(name)),
    decreases names.len(),
{
    let rest = names.drop_last();
    let before = name_entries(rest, live);
    assert forall|a: int, b: int| 0 <= a < b < rest.len() implies name_lt(
        #[trigger] rest[a],
        #[trigger] rest[b],
    ) by {
        assert(rest[a] == names[a] && rest[b] == names[b]);
    }
    if j < before.len() {
        lemma_entries_apart(rest, live, name, i, j);
    } else {
        let a = lemma_name_entry(rest, live, i);
        assert(names[a] == rest[a]);
        assert(name_lt(names[a], names[names.len() - 1]));
        lemma_name_lt_total(names[a], names.last());
        lemma_name_round_trip(names[a]);
        lemma_name_round_trip(names.last());
        lemma_name_round_trip(name);
    }
}

/// Deleting all data leaves no key of any family at any point of the history,
/// and every family where it was: under its number, in the handle and in the
/// metadata, so that it is found again after reopening. Numbers that were
/// free stay free.
pub proof fn law_drop_all_keeps_families(before: Db, after: Db, names: Seq<Seq<char>>)
    requires
        before.wf(),
        before.numbers_free(),
        after.dropped_all(before, names),
    ensures
        after.families() == before.families(),
        forall|id: u32, key: Seq<u8>, seq: u64|
            id != META_CF_ID ==> #[trigger] after.reads(id, key, seq) == Read::Value(None),
        after.families_current(),
        after.numbers_free(),
{
    let registry = before.families();
    let live = registry.live();
    let ops = Db::recording(names, registry);
    let entries = name_entries(names, live);
    let sync = before.mode() == DurabilityMode::Immediate;
    let emptied = choose|emptied: Db| #[trigger]
        emptied.cleared(before) && if ops.len() == 0 {
            after == emptied
        } else {
            after.same_families(emptied) && after.stored(emptied, ops, sync, false)
        };
    let next = seq![110u8, 101u8, 120u8, 116u8, 95u8, 105u8, 100u8];
    let h = after.history();
    before.lemma_default_live();
    lemma_u32_fits();
    lemma_prefixed_parts(META_CF_ID, next);
    assert forall|i: int| 0 <= i < h.len() implies (point_key((#[trigger] h[i]).op) matches Some(key)
        && family_of(key) == META_CF_ID) by {
        assert(h[i].op == ops[i]);
        if i < entries.len() {
            let j = lemma_name_entry(names, live, i);
            lemma_prefixed_parts(META_CF_ID, name_mark() + vstd::utf8::encode_utf8(names[j]));
        }
    }
    assert forall|id: u32, key: Seq<u8>, seq: u64| id != META_CF_ID implies #[trigger] after.reads(
        id,
        key,
        seq,
    ) == Read::Value(None) by {
        if after.reads(id, key, seq) != Read::Value(None) {
            lemma_prefixed_parts(id, key);
            let i = lemma_found_was_written(h, prefixed(id, key), seq);
            assert(point_key(h[i].op) == Some(prefixed(id, key)));
        }
    }
    let (operator, at) = (after.operator(), after.horizon());
    assert forall|key: Seq<u8>| #[trigger]
        emptied.reads(META_CF_ID, key, emptied.horizon()) == Read::Value(None) by {}
    assert forall|name: Seq<char>| #[trigger] family_id(operator, h, at, name) == (
    if live.dom().contains(name) {
        Some(live[name])
    } else {
        None
    }) by {
        let key = name_mark() + vstd::utf8::encode_utf8(name);
        if name == DEFAULT_CF_NAME@ {
        } else if live.dom().contains(name) {
            assert(names.contains(name));
            let i = lemma_entry_found(names, live, name);
            lemma_be_bytes_len(live[name] as nat, 4);
            lemma_be_round_trip(live[name] as nat, 4);
            assert(ops[i] == entries[i]);
            assert forall|j: int| i < j < ops.len() implies effect(
                #[trigger] ops[j],
                prefixed(META_CF_ID, key),
            ) == Effect::Nothing by {
                lemma_name_key_apart(name);
                if j < entries.len() {
                    lemma_entries_apart(names, live, name, i, j);
                    let k = lemma_name_entry(names, live, j);
                }
            }
            law_last_write_wins(emptied, after, ops, sync, false, META_CF_ID, key, i);
        } else if ops.len() > 0 {
            assert forall|j: int| 0 <= j < ops.len() implies effect(
                #[trigger] ops[j],
                prefixed(META_CF_ID, key),
            ) == Effect::Nothing by {
                lemma_name_key_apart(name);
                if j < entries.len() {
                    let k = lemma_name_entry(names, live, j);
                    assert(names.contains(names[k]));
                    lemma_name_round_trip(names[k]);
                    lemma_name_round_trip(name);
                }
            }
            law_others_untouched(emptied, after, ops, sync, false, META_CF_ID, key);
        }
    }
    assert(families_of(operator, h, at) =~= live);
    if ops.len() > 0 {
        let last = ops.len() - 1;
        lemma_be_bytes_len(registry.upcoming() as nat, 4);
        lemma_be_round_trip(registry.upcoming() as nat, 4);
        law_last_write_wins(emptied, after, ops, sync, false, META_CF_ID, next, last);
    }
}

} // verus!
