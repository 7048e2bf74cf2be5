//! Tables: what they say of themselves, and when they are merged or dropped.

use std::time::Duration;

use vstd::prelude::*;

use crate::bytes::{
    bytes_lt, lemma_bytes_le_lt, lemma_bytes_lt_irreflexive, lemma_bytes_lt_transitive,
};
use crate::column_family::{
    lemma_family_order, lemma_family_range, prefixed, ColumnFamilyHandle, DEFAULT_CF_ID,
};
use crate::db::{Db, MemTableStats, Range};
use crate::engine::memtable::{at_most_u64, point_key, tally, weight_of};
use crate::engine::store::levels::{
    any_touches, bottom, greatest_key, ids_of, job_info, least_key, level_size, overflow,
    told_created, told_deleted, touches, versions, CompactionOutcome,
};
use crate::engine::store::universal::{
    amplified, first_merged, is_universal_due, joining, level0_sizes, newest_from, run_taken,
    run_width, total_size, universal_due,
};
use crate::engine::store::{files_at, stacked, stacked_size, stacked_size_in, RegolithEngine, TableFile};
use crate::error::Result;
use crate::event_listener::{
    all_heard_created, all_heard_deleted, CompactionJobInfo, FlushJobInfo, TableFileCreationInfo, TableFileCreationReason, TableFileDeletionInfo,
};
use crate::history::{numbered, Logged, Op};
use crate::options::UniversalCompactionOptions;

verus! {

// ── counts ──────────────────────────────────────────────────────────────

/// The number of tables at a level is the number of tables that say they are
/// at that level.
pub proof fn law_files_at_level(e: &RegolithEngine, level: usize, n: u64)
    requires
        call_ensures(RegolithEngine::num_files_at_level, (e, level), n),
    ensures
        n == e.files().filter(|t: TableFile| t.at_level() == level).len(),
{
    lemma_files_filter(e.files(), level);
}

proof fn lemma_files_filter(tables: Seq<TableFile>, level: usize)
    ensures
        files_at(tables, level) == tables.filter(|t: TableFile| t.at_level() == level).len(),
    decreases tables.len(),
{
    reveal(Seq::filter);
    if tables.len() > 0 {
        lemma_files_filter(tables.drop_last(), level);
    }
}

/// The sum of a run of sizes.
pub open spec fn sum(s: Seq<nat>) -> nat
    decreases s.len(),
{
    if s.len() == 0 {
        0
    } else {
        sum(s.drop_last()) + s.last()
    }
}

/// Bytes a write takes: of a point write its key, nine bytes and its value,
/// of a range delete its two keys.
pub open spec fn taken_by(op: Op) -> nat {
    match op {
        Op::Put { key, value } => key.len() + 9 + value.len(),
        Op::Merge { key, operand } => key.len() + 9 + operand.len(),
        Op::Delete { key } => key.len() + 9,
        Op::DeleteRange { start, end } => start.len() + end.len(),
    }
}

/// A table's size is the bytes of its writes, all of them, as far as they can
/// be told.
pub proof fn law_table_size(t: &TableFile, size: u64)
    requires
        t.wf(),
        call_ensures(TableFile::file_size, (t,), size),
    ensures
        ({
            let all = sum(Seq::new(t.history().len(), |i: int| taken_by(t.history()[i].op)));
            size == (if all <= u64::MAX {
                all as int
            } else {
                u64::MAX as int
            })
        }),
{
    lemma_weight_sum(t.history());
}

proof fn lemma_weight_sum(h: Seq<Logged>)
    ensures
        weight_of(h) == sum(Seq::new(h.len(), |i: int| taken_by(h[i].op))),
    decreases h.len(),
{
    let all = Seq::new(h.len(), |i: int| taken_by(h[i].op));
    if h.len() > 0 {
        let rest = h.drop_last();
        lemma_weight_sum(rest);
        assert(all.drop_last() =~= Seq::new(rest.len(), |i: int| taken_by(rest[i].op)));
    }
}

/// The bytes at a level, and those of all tables, are the sums of the sizes of
/// the tables there, as far as they can be told.
pub proof fn law_total_sizes(e: &RegolithEngine, level: usize, there: u64, total: u64)
    requires
        e.wf(),
        call_ensures(RegolithEngine::level_bytes, (e, level), there),
        call_ensures(RegolithEngine::total_sst_size, (e,), total),
    ensures
        total == at_most_u64(
            sum(
                Seq::new(
                    e.files().len(),
                    |i: int| at_most_u64(weight_of(e.files()[i].history())),
                ),
            ),
        ),
        there == at_most_u64(
            sum(
                Seq::new(
                    e.files().len(),
                    |i: int|
                        if e.files()[i].at_level() == level {
                            at_most_u64(weight_of(e.files()[i].history()))
                        } else {
                            0
                        },
                ),
            ),
        ),
{
    lemma_total(e.files());
    lemma_level_total(e.files(), level);
}

proof fn lemma_total(tables: Seq<TableFile>)
    ensures
        stacked_size(tables) == at_most_u64(
            sum(Seq::new(tables.len(), |i: int| at_most_u64(weight_of(tables[i].history())))),
        ),
    decreases tables.len(),
{
    let all = Seq::new(tables.len(), |i: int| at_most_u64(weight_of(tables[i].history())));
    if tables.len() > 0 {
        let rest = tables.drop_last();
        lemma_total(rest);
        assert(all.drop_last() =~= Seq::new(
            rest.len(),
            |i: int| at_most_u64(weight_of(rest[i].history())),
        ));
    }
}

proof fn lemma_level_total(tables: Seq<TableFile>, level: usize)
    ensures
        level_size(tables, level) == at_most_u64(
            sum(
                Seq::new(
                    tables.len(),
                    |i: int|
                        if tables[i].at_level() == level {
                            at_most_u64(weight_of(tables[i].history()))
                        } else {
                            0
                        },
                ),
            ),
        ),
    decreases tables.len(),
{
    let all = Seq::new(
        tables.len(),
        |i: int|
            if tables[i].at_level() == level {
                at_most_u64(weight_of(tables[i].history()))
            } else {
                0
            },
    );
    if tables.len() > 0 {
        let rest = tables.drop_last();
        lemma_level_total(rest, level);
        assert(all.drop_last() =~= Seq::new(
            rest.len(),
            |i: int|
                if rest[i].at_level() == level {
                    at_most_u64(weight_of(rest[i].history()))
                } else {
                    0
                },
        ));
    }
}

// ── keys ────────────────────────────────────────────────────────────────

/// A table's key range is from the least to the greatest key of its point
/// writes; a table without point writes has none.
pub proof fn law_key_range(t: &TableFile, r: Option<(Vec<u8>, Vec<u8>)>, i: int)
    requires
        t.wf(),
        call_ensures(TableFile::key_range, (t,), r),
        0 <= i < t.history().len(),
    ensures
        r matches Some((least, greatest)) ==> {
            &&& exists|j: int|
                0 <= j < t.history().len() && point_key((#[trigger] t.history()[j]).op) == Some(
                    least@,
                )
            &&& exists|j: int|
                0 <= j < t.history().len() && point_key((#[trigger] t.history()[j]).op) == Some(
                    greatest@,
                )
            &&& point_key(t.history()[i].op) matches Some(key) ==> !bytes_lt(key, least@)
                && !bytes_lt(greatest@, key)
        },
        r is None ==> point_key(t.history()[i].op) is None,
{
    lemma_least(t.history());
    lemma_greatest(t.history());
}

proof fn lemma_least(h: Seq<Logged>)
    ensures
        match least_key(h) {
            Some(least) => {
                &&& exists|j: int|
                    0 <= j < h.len() && point_key((#[trigger] h[j]).op) == Some(least)
                &&& forall|j: int|
                    0 <= j < h.len() ==> (point_key((#[trigger] h[j]).op) matches Some(key)
                        ==> !bytes_lt(key, least))
            },
            None => forall|j: int|
                0 <= j < h.len() ==> point_key((#[trigger] h[j]).op) is None,
        },
    decreases h.len(),
{
    if h.len() > 0 {
        let rest = h.drop_last();
        lemma_least(rest);
        assert(h[h.len() - 1] == h.last());
        assert forall|j: int| 0 <= j < rest.len() implies rest[j] == #[trigger] h[j] by {}
        match (least_key(rest), point_key(h.last().op)) {
            (Some(least), Some(key)) => {
                if bytes_lt(key, least) {
                    lemma_bytes_lt_irreflexive(key);
                    assert forall|j: int| 0 <= j < h.len() implies (point_key(
                        (#[trigger] h[j]).op,
                    ) matches Some(k) ==> !bytes_lt(k, key)) by {
                        if j < rest.len() && point_key(h[j].op) is Some {
                            let k = point_key(h[j].op)->0;
                            assert(rest[j] == h[j]);
                            if bytes_lt(k, key) {
                                lemma_bytes_lt_transitive(k, key, least);
                            }
                        }
                    }
                } else {
                    let j = choose|j: int|
                        0 <= j < rest.len() && point_key((#[trigger] rest[j]).op) == Some(least);
                    assert(h[j] == rest[j]);
                }
            },
            (Some(least), None) => {
                let j = choose|j: int|
                    0 <= j < rest.len() && point_key((#[trigger] rest[j]).op) == Some(least);
                assert(h[j] == rest[j]);
            },
            (None, Some(key)) => {
                lemma_bytes_lt_irreflexive(key);
            },
            (None, None) => {},
        }
    }
}

proof fn lemma_greatest(h: Seq<Logged>)
    ensures
        match greatest_key(h) {
            Some(greatest) => {
                &&& exists|j: int|
                    0 <= j < h.len() && point_key((#[trigger] h[j]).op) == Some(greatest)
                &&& forall|j: int|
                    0 <= j < h.len() ==> (point_key((#[trigger] h[j]).op) matches Some(key)
                        ==> !bytes_lt(greatest, key))
            },
            None => forall|j: int|
                0 <= j < h.len() ==> point_key((#[trigger] h[j]).op) is None,
        },
    decreases h.len(),
{
    if h.len() > 0 {
        let rest = h.drop_last();
        lemma_greatest(rest);
        assert(h[h.len() - 1] == h.last());
        assert forall|j: int| 0 <= j < rest.len() implies rest[j] == #[trigger] h[j] by {}
        match (greatest_key(rest), point_key(h.last().op)) {
            (Some(greatest), Some(key)) => {
                if bytes_lt(greatest, key) {
                    lemma_bytes_lt_irreflexive(key);
                    assert forall|j: int| 0 <= j < h.len() implies (point_key(
                        (#[trigger] h[j]).op,
                    ) matches Some(k) ==> !bytes_lt(key, k)) by {
                        if j < rest.len() && point_key(h[j].op) is Some {
                            let k = point_key(h[j].op)->0;
                            assert(rest[j] == h[j]);
                            if bytes_lt(key, k) {
                                lemma_bytes_lt_transitive(greatest, key, k);
                            }
                        }
                    }
                } else {
                    let j = choose|j: int|
                        0 <= j < rest.len() && point_key((#[trigger] rest[j]).op) == Some(greatest);
                    assert(h[j] == rest[j]);
                }
            },
            (Some(greatest), None) => {
                let j = choose|j: int|
                    0 <= j < rest.len() && point_key((#[trigger] rest[j]).op) == Some(greatest);
                assert(h[j] == rest[j]);
            },
            (None, Some(key)) => {
                lemma_bytes_lt_irreflexive(key);
            },
            (None, None) => {},
        }
    }
}

/// The versions of a key in the tables are its point writes, each with its
/// number, oldest first.
pub proof fn law_versions(e: &RegolithEngine, key: &[u8], r: Vec<(u64, u8)>)
    requires
        e.wf(),
        call_ensures(RegolithEngine::all_persisted_versions_of, (e, key), r),
    ensures
        r@ == stacked(e.files()).filter(
            |l: Logged| point_key(l.op) == Some(key@),
        ).map_values(
            |l: Logged|
                (
                    l.seq,
                    match l.op {
                        Op::Put { .. } => 1u8,
                        Op::Merge { .. } => 2u8,
                        _ => 0u8,
                    },
                ),
        ),
{
    lemma_versions(stacked(e.files()), key@);
}

proof fn lemma_versions(h: Seq<Logged>, key: Seq<u8>)
    ensures
        versions(h, key) == h.filter(|l: Logged| point_key(l.op) == Some(key)).map_values(
            |l: Logged|
                (
                    l.seq,
                    match l.op {
                        Op::Put { .. } => 1u8,
                        Op::Merge { .. } => 2u8,
                        _ => 0u8,
                    },
                ),
        ),
    decreases h.len(),
{
    reveal(Seq::filter);
    let keep = |l: Logged| point_key(l.op) == Some(key);
    let tell = |l: Logged|
        (
            l.seq,
            match l.op {
                Op::Put { .. } => 1u8,
                Op::Merge { .. } => 2u8,
                _ => 0u8,
            },
        );
    if h.len() == 0 {
        assert(h.filter(keep).map_values(tell) =~= versions(h, key));
    } else {
        lemma_versions(h.drop_last(), key);
        let less = h.drop_last().filter(keep);
        assert(less.push(h.last()).map_values(tell) =~= less.map_values(tell).push(
            tell(h.last()),
        ));
    }
}

// ── what listeners are told ─────────────────────────────────────────────

/// What is told of a table is what the table says of itself.
pub proof fn law_table_infos(
    t: &TableFile,
    took: Duration,
    reason: TableFileCreationReason,
    flushed: FlushJobInfo,
    created: TableFileCreationInfo,
    deleted: TableFileDeletionInfo,
    id: u64,
    level: usize,
    size: u64,
    entries: u64,
    range: Option<(Vec<u8>, Vec<u8>)>,
)
    requires
        t.wf(),
        call_ensures(TableFile::flush_info, (t, took), flushed),
        call_ensures(TableFile::creation_info, (t, reason), created),
        call_ensures(TableFile::deletion_info, (t,), deleted),
        call_ensures(TableFile::file_id, (t,), id),
        call_ensures(TableFile::level, (t,), level),
        call_ensures(TableFile::file_size, (t,), size),
        call_ensures(TableFile::num_entries, (t,), entries),
        call_ensures(TableFile::key_range, (t,), range),
    ensures
        flushed.file_id == id && created.file_id == id && deleted.file_id == id,
        flushed.file_size == size && created.file_size == size,
        flushed.num_entries == entries && created.num_entries == entries,
        created.level == level && created.reason == reason,
        flushed.duration == took,
        flushed.file_path@ == created.file_path@ && deleted.file_path@ == created.file_path@,
        match range {
            Some((least, greatest)) => flushed.smallest_key@ == least@ && flushed.largest_key@
                == greatest@,
            None => flushed.smallest_key@.len() == 0 && flushed.largest_key@.len() == 0,
        },
{
}

// ── when writes are held back and tables merged ─────────────────────────

/// Writes are held back where too many tables, or too many bytes, wait at the
/// top level, or where there is room for one memtable alone; a trigger of
/// zero never holds any back.
pub proof fn law_write_stall(
    e: &RegolithEngine,
    r: Option<&'static str>,
    tables: u64,
    bytes: u64,
)
    requires
        e.wf(),
        call_ensures(RegolithEngine::write_stall, (e,), r),
        call_ensures(RegolithEngine::num_files_at_level, (e, 0), tables),
        call_ensures(RegolithEngine::level_bytes, (e, 0), bytes),
    ensures
        ({
            let o = e.settings();
            r is Some <==> {
                ||| o.level0_stop_writes_trigger > 0 && tables >= o.level0_stop_writes_trigger
                ||| o.level0_slowdown_writes_trigger > 0 && tables
                    >= o.level0_slowdown_writes_trigger
                ||| o.hard_pending_compaction_bytes_limit > 0 && bytes
                    >= o.hard_pending_compaction_bytes_limit
                ||| o.soft_pending_compaction_bytes_limit > 0 && bytes
                    >= o.soft_pending_compaction_bytes_limit
                ||| o.max_write_buffer_number == 1
            }
        }),
{
}

/// A stall is permanent where the number of tables at the top level stops
/// writes and nothing that compaction does would bring it down.
pub proof fn law_permanent_stall(
    e: &RegolithEngine,
    r: bool,
    tables: u64,
    pass: &mut RegolithEngine,
    outcome: CompactionOutcome,
)
    requires
        e.wf(),
        call_ensures(RegolithEngine::write_stall_is_permanent, (e,), r),
        call_ensures(RegolithEngine::num_files_at_level, (e, 0), tables),
        *old(pass) == *e,
        call_ensures(RegolithEngine::run_one_compaction_pass, (pass,), outcome),
    ensures
        r <==> e.settings().level0_stop_writes_trigger > 0 && tables
            >= e.settings().level0_stop_writes_trigger && !(e.settings().compaction_style is Level)
            && outcome is Idle,
{
}

/// Under level compaction a pass has work where enough tables wait at the top
/// level, and under first-in-first-out where there is more than one table and
/// their size is over the limit. A pass that had work leaves less to do.
pub proof fn law_compaction_pass(
    e: &mut RegolithEngine,
    outcome: CompactionOutcome,
    tables: u64,
    size: u64,
    count: usize,
)
    requires
        old(e).wf(),
        call_ensures(RegolithEngine::num_files_at_level, (&*old(e), 0), tables),
        call_ensures(RegolithEngine::total_sst_size, (&*old(e),), size),
        call_ensures(RegolithEngine::total_file_count, (&*old(e),), count),
        call_ensures(RegolithEngine::run_one_compaction_pass, (e,), outcome),
    ensures
        old(e).settings().compaction_style is Level ==> (outcome is DidWork <==> tables >= 1
            && tables >= old(e).settings().l0_compaction_trigger),
        old(e).settings().compaction_style is Fifo ==> (outcome is DidWork <==> count > 1 && size
            > old(e).settings().fifo_compaction_options.max_table_files_size),
        outcome is Idle ==> *final(e) == *old(e),
        outcome is DidWork ==> final(e).files().len() + final(e).files().filter(
            |t: TableFile| t.at_level() == 0,
        ).len() < old(e).files().len() + old(e).files().filter(
            |t: TableFile| t.at_level() == 0,
        ).len(),
{
    let cap = old(e).settings().fifo_compaction_options.max_table_files_size;
    lemma_overflow(old(e).files(), cap);
    lemma_files_filter(old(e).files(), 0);
    lemma_files_filter(final(e).files(), 0);
}

/// First-in-first-out compaction drops the oldest tables, as many as it must
/// and no more: what is left fits the limit or is one table, and one table
/// more would not fit.
pub proof fn law_fifo_drops_oldest(e: &mut RegolithEngine, outcome: CompactionOutcome)
    requires
        old(e).wf(),
        old(e).settings().compaction_style is Fifo,
        call_ensures(RegolithEngine::run_one_compaction_pass, (e,), outcome),
    ensures
        outcome is DidWork ==> exists|n: int|
            {
                let cap = old(e).settings().fifo_compaction_options.max_table_files_size;
                &&& 0 < n < old(e).files().len()
                &&& final(e).files() == #[trigger] old(e).files().skip(n)
                &&& stacked_size(final(e).files()) <= cap || final(e).files().len() == 1
                &&& stacked_size(old(e).files().skip(n - 1)) > cap
            },
{
    let cap = old(e).settings().fifo_compaction_options.max_table_files_size;
    lemma_overflow(old(e).files(), cap);
    if outcome is DidWork {
        let n = overflow(old(e).files(), cap);
        assert(final(e).files() == old(e).files().skip(n));
    }
}

proof fn lemma_overflow(tables: Seq<TableFile>, cap: u64)
    ensures
        0 <= overflow(tables, cap),
        tables.len() > 0 ==> overflow(tables, cap) < tables.len(),
        overflow(tables, cap) > 0 <==> tables.len() > 1 && stacked_size(tables) > cap,
        ({
            let n = overflow(tables, cap);
            &&& n < tables.len() ==> stacked_size(tables.skip(n)) <= cap || tables.skip(n).len() == 1
            &&& n > 0 ==> stacked_size(tables.skip(n - 1)) > cap
        }),
    decreases tables.len(),
{
    assert(tables.skip(0) =~= tables);
    if tables.len() > 1 && stacked_size(tables) > cap {
        let rest = tables.drop_first();
        lemma_overflow(rest, cap);
        let n = overflow(tables, cap);
        assert(tables.skip(n) =~= rest.skip(n - 1));
        if n > 1 {
            assert(tables.skip(n - 1) =~= rest.skip(n - 2));
        }
    }
}

/// The sizes of the `n` newest, as far as they can be told.
pub open spec fn newest_sum(sizes: Seq<u64>, n: int) -> nat
    decreases n,
{
    if n <= 0 {
        0
    } else {
        at_most_u64(newest_sum(sizes, n - 1) + sizes[sizes.len() - n] as nat)
    }
}

/// The run that universal compaction would merge, from the newest table back,
/// goes on as long as the next table is no larger than what the run holds and
/// the size ratio more, and ends there.
pub proof fn law_universal_run(sizes: Seq<u64>, ratio: u32, i: int)
    requires
        sizes.len() > 0,
    ensures
        1 <= run_width(sizes, ratio) <= sizes.len(),
        1 <= i < run_width(sizes, ratio) ==> sizes[sizes.len() - 1 - i] * 100 <= newest_sum(
            sizes,
            i,
        ) * (100 + ratio),
        run_width(sizes, ratio) < sizes.len() ==> sizes[sizes.len() - 1 - run_width(sizes, ratio)]
            * 100 > newest_sum(sizes, run_width(sizes, ratio) as int) * (100 + ratio),
{
    assert(newest_sum(sizes, 0) == 0);
    lemma_joining(sizes, 1, ratio);
}

proof fn lemma_joining(sizes: Seq<u64>, n: int, ratio: u32)
    requires
        1 <= n <= sizes.len(),
    ensures
        ({
            let k = joining(sizes.take(sizes.len() - n), newest_sum(sizes, n), ratio);
            &&& n + k <= sizes.len()
            &&& forall|i: int|
                n <= i < n + k ==> #[trigger] sizes[sizes.len() - 1 - i] * 100 <= newest_sum(
                    sizes,
                    i,
                ) * (100 + ratio)
            &&& n + k < sizes.len() ==> sizes[sizes.len() - 1 - (n + k)] * 100 > newest_sum(
                sizes,
                n + k,
            ) * (100 + ratio)
        }),
    decreases sizes.len() - n,
{
    let rest = sizes.take(sizes.len() - n);
    if n < sizes.len() {
        assert(rest.last() == sizes[sizes.len() - 1 - n]);
        if newest_sum(sizes, n) * (100 + ratio) >= rest.last() * 100 {
            assert(rest.drop_last() =~= sizes.take(sizes.len() - (n + 1)));
            lemma_joining(sizes, n + 1, ratio);
        }
    }
}

/// Universal compaction has work where there are two tables or more and
/// either all the newer ones are too much beside the oldest, or a run of
/// newest tables that is long enough may be merged.
pub proof fn law_universal_due(sizes: &Vec<u64>, o: UniversalCompactionOptions, r: bool)
    requires
        call_ensures(is_universal_due, (sizes, o), r),
    ensures
        ({
            let s = sizes@;
            let newer = newest_sum(s, s.len() - 1);
            r <==> {
                &&& s.len() >= 2
                &&& {
                    ||| s[0] == 0 && newer > 0
                    ||| s[0] > 0 && (newer * 100) / (s[0] as nat)
                        > o.max_size_amplification_percent
                    ||| run_width(s, o.size_ratio) >= o.min_merge_width && run_width(
                        s,
                        o.size_ratio,
                    ) >= 2 && o.max_merge_width >= 2
                }
            }
        }),
{
    if sizes@.len() > 0 {
        lemma_newest_total(sizes@, sizes@.len() - 1);
        assert(sizes@.skip(1) =~= sizes@.drop_first());
    }
}

proof fn lemma_newest_total(sizes: Seq<u64>, n: int)
    requires
        0 <= n <= sizes.len(),
    ensures
        newest_sum(sizes, n) == total_size(
            sizes.skip(sizes.len() - n),
        ),
    decreases n,
{
    let tail = sizes.skip(sizes.len() - n);
    let all = Seq::new(tail.len(), |i: int| tail[i] as nat);
    lemma_newest_is_sum(sizes, n);
    lemma_total_is_sum(tail);
    assert(all =~= Seq::new(n as nat, |i: int| sizes[sizes.len() - n + i] as nat));
}

proof fn lemma_newest_is_sum(sizes: Seq<u64>, n: int)
    requires
        0 <= n <= sizes.len(),
    ensures
        newest_sum(sizes, n) == at_most_u64(
            sum(Seq::new(n as nat, |i: int| sizes[sizes.len() - n + i] as nat)),
        ),
    decreases n,
{
    let all = Seq::new(n as nat, |i: int| sizes[sizes.len() - n + i] as nat);
    if n > 0 {
        lemma_newest_is_sum(sizes, n - 1);
        let rest = Seq::new((n - 1) as nat, |i: int| sizes[sizes.len() - (n - 1) + i] as nat);
        assert(rest =~= all.drop_first());
        lemma_sum_first(all);
    }
}

proof fn lemma_sum_first(s: Seq<nat>)
    requires
        s.len() > 0,
    ensures
        sum(s) == s[0] + sum(s.drop_first()),
    decreases s.len(),
{
    if s.len() == 1 {
        assert(s.drop_last() =~= Seq::<nat>::empty());
        assert(s.drop_first() =~= Seq::<nat>::empty());
    } else {
        lemma_sum_first(s.drop_last());
        assert(s.drop_last().drop_first() =~= s.drop_first().drop_last());
    }
}

proof fn lemma_total_is_sum(s: Seq<u64>)
    ensures
        total_size(s) == at_most_u64(
            sum(Seq::new(s.len(), |i: int| s[i] as nat)),
        ),
    decreases s.len(),
{
    let all = Seq::new(s.len(), |i: int| s[i] as nat);
    if s.len() > 0 {
        lemma_total_is_sum(s.drop_last());
        assert(all.drop_last() =~= Seq::new(s.drop_last().len(), |i: int| s.drop_last()[i] as nat));
    }
}

/// What universal compaction merges: everything where the newer tables are
/// too much beside the oldest, else the run of newest tables, as many of them
/// as the options allow at once.
pub proof fn law_universal_merges(
    tables: &Vec<TableFile>,
    sizes: &Vec<u64>,
    o: UniversalCompactionOptions,
    r: usize,
)
    requires
        sizes@ == level0_sizes(tables@),
        universal_due(sizes@, o),
        call_ensures(first_merged, (tables, sizes, o), r),
    ensures
        amplified(sizes@, o.max_size_amplification_percent) ==> r == 0,
        !amplified(sizes@, o.max_size_amplification_percent) ==> ({
            let width = run_width(sizes@, o.size_ratio);
            &&& r < tables@.len() && tables@[r as int].at_level() == 0
            &&& tables@.skip(r as int).filter(|t: TableFile| t.at_level() == 0).len() == (
            if width <= o.max_merge_width {
                width as int
            } else {
                o.max_merge_width as int
            })
        }),
{
    if !amplified(sizes@, o.max_size_amplification_percent) {
        let count = run_taken(sizes@, o);
        law_universal_run(sizes@, o.size_ratio, 1);
        lemma_level0_len(tables@);
        lemma_newest_holds(tables@, count);
        lemma_files_filter(tables@.skip(r as int), 0);
    }
}

proof fn lemma_level0_len(tables: Seq<TableFile>)
    ensures
        level0_sizes(tables).len() == files_at(tables, 0),
    decreases tables.len(),
{
    if tables.len() > 0 {
        lemma_level0_len(tables.drop_last());
    }
}

proof fn lemma_newest_holds(tables: Seq<TableFile>, count: nat)
    requires
        count <= files_at(tables, 0),
    ensures
        0 <= newest_from(tables, count) <= tables.len(),
        files_at(tables.skip(newest_from(tables, count)), 0) == count,
        count > 0 ==> newest_from(tables, count) < tables.len() && tables[newest_from(
            tables,
            count,
        )].at_level() == 0,
    decreases tables.len(),
{
    let n = newest_from(tables, count);
    if tables.len() == 0 || count == 0 {
        assert(tables.skip(n) =~= Seq::<TableFile>::empty());
    } else {
        let rest = tables.drop_last();
        let less = if tables.last().at_level() == 0 {
            (count - 1) as nat
        } else {
            count
        };
        lemma_newest_holds(rest, less);
        assert(n == newest_from(rest, less));
        assert(tables.skip(n).drop_last() =~= rest.skip(n));
        assert(tables.skip(n).last() == tables.last());
        if less > 0 {
            assert(tables[n] == rest[n]);
        }
    }
}

/// A compaction of everything under level compaction leaves at most one
/// table, below the top level.
pub proof fn law_full_compaction_leaves_one_table(
    e: &mut RegolithEngine,
    low: &[u8],
    high: &[u8],
    i: int,
)
    requires
        old(e).wf(),
        old(e).settings().compaction_style is Level,
        call_ensures(RegolithEngine::compact_range, (e, low, high), ()),
        0 <= i < old(e).history().len(),
        point_key(old(e).history()[i].op) matches Some(key) && !bytes_lt(key, low@) && bytes_lt(
            key,
            high@,
        ),
    ensures
        final(e).files().len() <= 1,
        final(e).files().len() == 1 ==> final(e).files()[0].at_level() >= 1,
        final(e).active().len() == 0,
{
    let flushed = choose|flushed: RegolithEngine| #[trigger]
        flushed.is_flush_of(*old(e)) && final(e).range_compacted(flushed, low@, high@);
    let h = stacked(flushed.files());
    assert(h == old(e).history());
    assert(touches(h[i].op, low@, high@));
    assert(any_touches(h, low@, high@));
    lemma_bottom(flushed.files());
}

proof fn lemma_bottom(tables: Seq<TableFile>)
    ensures
        bottom(tables) >= 1,
        forall|i: int| 0 <= i < tables.len() ==> (#[trigger] tables[i]).at_level() <= bottom(tables),
    decreases tables.len(),
{
    if tables.len() > 0 {
        lemma_bottom(tables.drop_last());
        assert forall|i: int| 0 <= i < tables.len() implies (#[trigger] tables[i]).at_level()
            <= bottom(tables) by {
            if i < tables.len() - 1 {
                assert(tables.drop_last()[i] == tables[i]);
            }
        }
    }
}

// ── sizes of ranges ─────────────────────────────────────────────────────

/// A put that stays in the memtable adds one entry, and the bytes of its key
/// and value with what goes with them, to every range that holds the key, and
/// nothing to any other.
pub proof fn law_memtable_stats_count_put(
    db: &mut Db,
    key: &[u8],
    value: &[u8],
    r: Result<()>,
    after: Db,
    range: Range<'_>,
    earlier: MemTableStats,
    later: MemTableStats,
)
    requires
        old(db).wf(),
        call_ensures(Db::put, (db, key, value), r),
        r is Ok,
        *final(db) == after,
        after.store().files() == old(db).store().files(),
        after.store().active().len() == old(db).store().active().len() + 1,
        after.store().active().len() <= u64::MAX,
        call_ensures(Db::get_approximate_memtable_stats, (&*old(db), range), earlier),
        call_ensures(Db::get_approximate_memtable_stats, (&after, range), later),
    ensures
        ({
            let inside = !bytes_lt(key@, range.start@) && bytes_lt(key@, range.end@);
            &&& inside ==> later.count == earlier.count + 1
            &&& inside && later.size < u64::MAX ==> later.size == earlier.size + key@.len() + 4 + 9
                + value@.len()
            &&& !inside ==> later == earlier
        }),
{
    let (lo, hi) = (prefixed(DEFAULT_CF_ID, range.start@), prefixed(DEFAULT_CF_ID, range.end@));
    let op = Op::Put { key: prefixed(DEFAULT_CF_ID, key@), value: value@ };
    let w = numbered(seq![op], old(db).horizon() + 1);
    let h = old(db).store().active();
    crate::column_family::lemma_prefixed_parts(DEFAULT_CF_ID, key@);
    lemma_family_range(DEFAULT_CF_ID, range.start@, range.end@, DEFAULT_CF_ID, key@);
    if !bytes_lt(key@, range.start@) && bytes_lt(key@, range.end@) {
        lemma_bytes_le_lt(range.start@, key@, range.end@);
    }
    lemma_tally_bound(h, lo, hi);
    assert(after.store().active() == h + w);
    assert((h + w).drop_last() =~= h);
    assert((h + w).last() == w[0]);
}

/// What a range holds in the memtable is what its two halves hold.
pub proof fn law_memtable_stats_add_up(
    db: Db,
    low: Range<'_>,
    high: Range<'_>,
    both: Range<'_>,
    a: MemTableStats,
    b: MemTableStats,
    c: MemTableStats,
)
    requires
        db.wf(),
        db.store().active().len() <= u64::MAX,
        low.end@ == high.start@,
        both.start@ == low.start@,
        both.end@ == high.end@,
        bytes_lt(low.start@, low.end@),
        bytes_lt(high.start@, high.end@),
        call_ensures(Db::get_approximate_memtable_stats, (&db, low), a),
        call_ensures(Db::get_approximate_memtable_stats, (&db, high), b),
        call_ensures(Db::get_approximate_memtable_stats, (&db, both), c),
    ensures
        c.size < u64::MAX ==> c.size == a.size + b.size,
        c.count == a.count + b.count,
{
    let (x, y, z) = (
        prefixed(DEFAULT_CF_ID, low.start@),
        prefixed(DEFAULT_CF_ID, low.end@),
        prefixed(DEFAULT_CF_ID, high.end@),
    );
    lemma_family_order(DEFAULT_CF_ID, low.start@, low.end@);
    lemma_family_order(DEFAULT_CF_ID, low.end@, high.end@);
    lemma_bytes_lt_transitive(low.start@, low.end@, high.end@);
    lemma_tally_split(db.store().active(), x, y, z);
    lemma_tally_bound(db.store().active(), x, z);
}

proof fn lemma_tally_bound(h: Seq<Logged>, lo: Seq<u8>, hi: Seq<u8>)
    ensures
        tally(h, lo, hi).count <= h.len(),
    decreases h.len(),
{
    if h.len() > 0 {
        lemma_tally_bound(h.drop_last(), lo, hi);
    }
}

proof fn lemma_tally_split(h: Seq<Logged>, x: Seq<u8>, y: Seq<u8>, z: Seq<u8>)
    requires
        bytes_lt(x, y),
        bytes_lt(y, z),
    ensures
        tally(h, x, z).count == tally(h, x, y).count + tally(h, y, z).count,
        tally(h, x, z).size == tally(h, x, y).size + tally(h, y, z).size,
    decreases h.len(),
{
    if h.len() > 0 {
        lemma_tally_split(h.drop_last(), x, y, z);
        if point_key(h.last().op) is Some {
            let key = point_key(h.last().op)->0;
            if bytes_lt(key, y) {
                lemma_bytes_lt_transitive(key, y, z);
            } else if !bytes_lt(key, x) {
            } else {
                lemma_bytes_lt_transitive(key, x, y);
            }
        }
    }
}

/// The sizes of ranges in the tables: one for each range asked for, nothing
/// for a range that is empty, and of a range what its two halves hold, as far
/// as it can be told.
pub proof fn law_approximate_sizes(db: Db, ranges: &[Range<'_>], r: Vec<u64>)
    requires
        db.wf(),
        ranges@.len() == 3,
        bytes_lt(ranges@[0].start@, ranges@[0].end@),
        bytes_lt(ranges@[1].start@, ranges@[1].end@),
        ranges@[0].end@ == ranges@[1].start@,
        ranges@[2].start@ == ranges@[0].start@,
        ranges@[2].end@ == ranges@[1].end@,
        call_ensures(Db::get_approximate_sizes, (&db, ranges), r),
    ensures
        r@.len() == 3,
        r@[2] == (if r@[0] + r@[1] <= u64::MAX {
            r@[0] + r@[1]
        } else {
            u64::MAX as int
        }),
{
    let (x, y, z) = (
        prefixed(DEFAULT_CF_ID, ranges@[0].start@),
        prefixed(DEFAULT_CF_ID, ranges@[0].end@),
        prefixed(DEFAULT_CF_ID, ranges@[1].end@),
    );
    lemma_family_order(DEFAULT_CF_ID, ranges@[0].start@, ranges@[0].end@);
    lemma_family_order(DEFAULT_CF_ID, ranges@[1].start@, ranges@[1].end@);
    lemma_bytes_lt_transitive(ranges@[0].start@, ranges@[0].end@, ranges@[1].end@);
    lemma_size_split(db.store().files(), x, y, z);
    lemma_size_bound(db.store().files(), x, y);
    lemma_size_bound(db.store().files(), y, z);
    lemma_size_bound(db.store().files(), x, z);
}

/// A range whose end does not come after its start holds nothing.
pub proof fn law_empty_range_has_no_size(
    db: Db,
    ranges: &[Range<'_>],
    i: int,
    r: Vec<u64>,
    range: Range<'_>,
    stats: MemTableStats,
)
    requires
        db.wf(),
        0 <= i < ranges@.len(),
        !bytes_lt(ranges@[i].start@, ranges@[i].end@),
        call_ensures(Db::get_approximate_sizes, (&db, ranges), r),
        !bytes_lt(range.start@, range.end@),
        call_ensures(Db::get_approximate_memtable_stats, (&db, range), stats),
    ensures
        r@.len() == ranges@.len(),
        r@[i] == 0,
        stats.count == 0 && stats.size == 0,
{
}

proof fn lemma_size_split(tables: Seq<TableFile>, x: Seq<u8>, y: Seq<u8>, z: Seq<u8>)
    requires
        bytes_lt(x, y),
        bytes_lt(y, z),
    ensures
        stacked_size_in(tables, x, z) == at_most_u64(
            stacked_size_in(tables, x, y) + stacked_size_in(tables, y, z),
        ),
    decreases tables.len(),
{
    if tables.len() > 0 {
        lemma_size_split(tables.drop_last(), x, y, z);
        lemma_tally_split(tables.last().history(), x, y, z);
    }
}

proof fn lemma_size_bound(tables: Seq<TableFile>, lo: Seq<u8>, hi: Seq<u8>)
    ensures
        stacked_size_in(tables, lo, hi) <= u64::MAX,
{
}

// ── what a compaction leaves and tells ──────────────────────────────────

/// What is told of a compaction: it goes into the level below the one it
/// reads, or stays at the top; it names each table it read once, those of the
/// level it writes apart from the others, in their order.
pub proof fn law_job_info(
    inputs: &Vec<TableFile>,
    level: usize,
    outputs: Vec<u64>,
    duration: Duration,
    r: CompactionJobInfo,
)
    requires
        call_ensures(job_info, (inputs, level, outputs, duration), r),
    ensures
        r.output_level == level,
        r.input_level == (if level == 0 {
            0
        } else {
            level - 1
        }),
        r.output_files@ == outputs@,
        r.duration == duration,
        level > 0 ==> r.input_files_input_level@ == inputs@.filter(
            |t: TableFile| t.at_level() != level,
        ).map_values(|t: TableFile| t.number()),
        level > 0 ==> r.input_files_output_level@ == inputs@.filter(
            |t: TableFile| t.at_level() == level,
        ).map_values(|t: TableFile| t.number()),
        level == 0 ==> r.input_files_input_level@ == inputs@.filter(
            |t: TableFile| t.at_level() == 0,
        ).map_values(|t: TableFile| t.number()),
{
    lemma_ids(inputs@, level);
}

proof fn lemma_ids(tables: Seq<TableFile>, level: usize)
    ensures
        ids_of(tables, level, true) == tables.filter(
            |t: TableFile| t.at_level() == level,
        ).map_values(|t: TableFile| t.number()),
        ids_of(tables, level, false) == tables.filter(
            |t: TableFile| t.at_level() != level,
        ).map_values(|t: TableFile| t.number()),
    decreases tables.len(),
{
    reveal(Seq::filter);
    if tables.len() > 0 {
        let rest = tables.drop_last();
        lemma_ids(rest, level);
        let at = |t: TableFile| t.at_level() == level;
        let off = |t: TableFile| t.at_level() != level;
        let number = |t: TableFile| t.number();
        assert(tables.filter(at) == (if at(tables.last()) {
            rest.filter(at).push(tables.last())
        } else {
            rest.filter(at)
        }));
        assert(tables.filter(off) == (if off(tables.last()) {
            rest.filter(off).push(tables.last())
        } else {
            rest.filter(off)
        }));
        assert(tables.filter(at).map_values(number) =~= ids_of(tables, level, true));
        assert(tables.filter(off).map_values(number) =~= ids_of(tables, level, false));
    }
}

/// Under level compaction a pass leaves at most one table, at the lowest
/// level that any table was at, or at the first below the top.
pub proof fn law_pass_goes_down(e: &mut RegolithEngine, outcome: CompactionOutcome, i: int)
    requires
        old(e).wf(),
        old(e).settings().compaction_style is Level,
        call_ensures(RegolithEngine::run_one_compaction_pass, (e,), outcome),
        outcome is DidWork,
    ensures
        final(e).files().len() <= 1,
        final(e).files().len() == 1 ==> {
            let level = final(e).files()[0].at_level();
            &&& level >= 1
            &&& 0 <= i < old(e).files().len() ==> old(e).files()[i].at_level() <= level
            &&& level == 1 || exists|j: int|
                0 <= j < old(e).files().len() && (#[trigger] old(e).files()[j]).at_level() == level
        },
{
    lemma_lowest(old(e).files(), i);
}

proof fn lemma_lowest(tables: Seq<TableFile>, i: int)
    ensures
        bottom(tables) >= 1,
        0 <= i < tables.len() ==> tables[i].at_level() <= bottom(tables),
        bottom(tables) == 1 || exists|j: int|
            0 <= j < tables.len() && (#[trigger] tables[j]).at_level() == bottom(tables),
    decreases tables.len(),
{
    if tables.len() > 0 {
        let rest = tables.drop_last();
        let last = tables.len() - 1;
        lemma_lowest(rest, i);
        assert(tables[last] == tables.last());
        if 0 <= i < rest.len() {
            assert(rest[i] == tables[i]);
        }
        if tables.last().at_level() <= bottom(rest) && bottom(rest) != 1 {
            let j = choose|j: int|
                0 <= j < rest.len() && (#[trigger] rest[j]).at_level() == bottom(rest);
            assert(tables[j].at_level() == bottom(tables));
        } else if tables.last().at_level() > bottom(rest) {
            assert(tables[last].at_level() == bottom(tables));
        }
    }
}

/// Every listener hears of a pass under level compaction: of each table that
/// it read that the table is gone, and of each that it left that it is there.
pub proof fn law_pass_is_told(e: &mut RegolithEngine, outcome: CompactionOutcome, i: int, j: int)
    requires
        old(e).wf(),
        old(e).settings().compaction_style is Level,
        old(e).settings().listeners@.len() > 0,
        call_ensures(RegolithEngine::run_one_compaction_pass, (e,), outcome),
        outcome is DidWork,
    ensures
        0 <= i < old(e).files().len() ==> exists|info: TableFileDeletionInfo|
            info.file_id == old(e).files()[i].number() && #[trigger] all_heard_deleted(
                old(e).settings().listeners@,
                &info,
            ),
        0 <= j < final(e).files().len() ==> exists|info: TableFileCreationInfo|
            info.file_id == final(e).files()[j].number() && info.reason is Compaction
                && #[trigger] all_heard_created(old(e).settings().listeners@, &info),
{
    let listeners = old(e).settings().listeners@;
    assert(old(e).files().skip(0) =~= old(e).files());
    assert(final(e).files().skip(0) =~= final(e).files());
    if 0 <= i < old(e).files().len() {
        assert(told_deleted(listeners, old(e).files().skip(0)[i]));
    }
    if 0 <= j < final(e).files().len() {
        assert(told_created(
            listeners,
            final(e).files().skip(0)[j],
            TableFileCreationReason::Compaction,
        ));
    }
}

/// What a range takes up in a family is told for the default family under
/// either name, and is nothing for a family that is not live.
pub proof fn law_sizes_by_family(
    db: Db,
    cf: &ColumnFamilyHandle,
    ranges: &[Range<'_>],
    range: Range<'_>,
    plain: Vec<u64>,
    named: Vec<u64>,
    a: MemTableStats,
    b: MemTableStats,
)
    requires
        db.wf(),
        call_ensures(Db::get_approximate_sizes, (&db, ranges), plain),
        call_ensures(Db::get_approximate_sizes_cf, (&db, cf, ranges), named),
        call_ensures(Db::get_approximate_memtable_stats, (&db, range), a),
        call_ensures(Db::get_approximate_memtable_stats_cf, (&db, cf, range), b),
    ensures
        named@.len() == ranges@.len(),
        db.families().is_live(*cf) && cf.id_number() == 0 ==> named@ == plain@ && a == b,
        !db.families().is_live(*cf) ==> b.count == 0 && b.size == 0 && forall|i: int|
            0 <= i < named@.len() ==> #[trigger] named@[i] == 0,
{
    if db.families().is_live(*cf) && cf.id_number() == 0 {
        assert(named@ =~= plain@);
    }
}

} // verus!
