//! Compaction of the engine's tables.

use std::sync::Arc;
use std::time::{Duration, Instant};

use vstd::prelude::*;

use crate::bytes;
use crate::bytes::{
    bytes_le, bytes_lt, lemma_bytes_lt_irreflexive, lemma_bytes_lt_total,
    lemma_bytes_lt_transitive,
};
use crate::engine::clock::{span, span_of_millis, start_of_work, time_since};
use crate::engine::compaction::{
    compact_entries, is_compacted, lemma_compacted_plain, lemma_compacted_whole,
    lemma_survivors_read,
};
use crate::engine::internal_key::{VALUE_TYPE_DELETION, VALUE_TYPE_MERGE, VALUE_TYPE_VALUE};
use crate::engine::memtable::{
    at_most_u64, point_key, point_type, records_of, weight_of, MemTable,
};
use crate::engine::read::read_at;
use crate::engine::store::{
    all_storable, files_at, lemma_storable_add, stacked, stacked_size,
    table_name, table_name_text, RegolithEngine, Stored, TableFile,
};
use crate::engine::store::universal::{
    first_merged, is_universal_due, lemma_universal_start, level0_sizes, universal_due,
    universal_start,
};
use crate::engine::wal::{logged, WalEntry};
use crate::event_listener::{
    all_heard_compacted, all_heard_compaction_begun, all_heard_created, all_heard_deleted,
    all_heard_flushed, all_heard_ingested, tell_all_compacted, tell_all_compaction_begun,
    tell_all_created, tell_all_deleted, tell_all_ingested, EventListener,
    CompactionJobInfo, ExternalFileIngestionInfo, FlushJobInfo,
    TableFileCreationInfo, TableFileCreationReason, TableFileDeletionInfo,
};
use crate::history::{beyond, covers, lemma_probe_layers, ordered, within, Logged, Op};
use crate::options::{CompactionFilter, CompactionStyle};

verus! {

/// How many levels there are.
pub const NUM_LEVELS: usize = 7;

/// What one compaction pass came to.
#[derive(Debug, Clone, Copy, PartialEq, Eq, Structural)]
pub enum CompactionOutcome {
    /// A job ran.
    DidWork,
    /// Nothing was over its compaction trigger.
    Idle,
    /// Work is pending, but another thread holds the input files.
    Contended,
}

/// A write touches `[lo, hi)`.
pub open spec fn touches(op: Op, lo: Seq<u8>, hi: Seq<u8>) -> bool {
    match op {
        Op::DeleteRange { start, end } => bytes_lt(start, hi) && bytes_lt(lo, end),
        _ => covers(lo, hi, point_key(op)->0),
    }
}

/// Some write of `h` touches `[lo, hi)`.
pub open spec fn any_touches(h: Seq<Logged>, lo: Seq<u8>, hi: Seq<u8>) -> bool {
    exists|i: int| 0 <= i < h.len() && touches((#[trigger] h[i]).op, lo, hi)
}

/// The deepest level of a stack of tables, and level 1 at least.
pub open spec fn bottom(tables: Seq<TableFile>) -> usize
    decreases tables.len(),
{
    if tables.len() == 0 {
        1
    } else {
        let above = bottom(tables.drop_last());
        if tables.last().at_level() > above {
            tables.last().at_level()
        } else {
            above
        }
    }
}

/// How many of the oldest tables must go for the rest to fit in `cap` bytes.
/// The newest always stays.
pub open spec fn overflow(tables: Seq<TableFile>, cap: u64) -> int
    decreases tables.len(),
{
    if tables.len() <= 1 || stacked_size(tables) <= cap {
        0
    } else {
        1 + overflow(tables.drop_first(), cap)
    }
}

/// No more tables overflow than there are.
pub proof fn lemma_overflow_fits(tables: Seq<TableFile>, cap: u64)
    ensures
        0 <= overflow(tables, cap) <= tables.len(),
        tables.len() > 0 ==> overflow(tables, cap) < tables.len(),
    decreases tables.len(),
{
    if tables.len() > 1 && stacked_size(tables) > cap {
        lemma_overflow_fits(tables.drop_first(), cap);
    }
}

/// A stack of tables in two parts.
pub proof fn lemma_stacked_split(tables: Seq<TableFile>, n: int)
    requires
        0 <= n <= tables.len(),
    ensures
        stacked(tables) == stacked(tables.take(n)) + stacked(tables.skip(n)),
    decreases tables.len(),
{
    if n == tables.len() {
        assert(tables.take(n) =~= tables);
        assert(stacked(tables) + Seq::<Logged>::empty() =~= stacked(tables));
    } else {
        let rest = tables.drop_last();
        lemma_stacked_split(rest, n);
        assert(rest.take(n) =~= tables.take(n));
        assert(rest.skip(n) =~= tables.skip(n).drop_last());
        assert(stacked(tables.take(n)) + (stacked(rest.skip(n)) + tables.last().history())
            =~= stacked(tables.take(n)) + stacked(rest.skip(n)) + tables.last().history());
    }
}

proof fn lemma_files_split(tables: Seq<TableFile>, n: int, level: usize)
    requires
        0 <= n <= tables.len(),
    ensures
        files_at(tables, level) == files_at(tables.take(n), level) + files_at(
            tables.skip(n),
            level,
        ),
        files_at(tables, level) <= tables.len(),
    decreases tables.len(),
{
    if n == tables.len() {
        assert(tables.take(n) =~= tables);
        if tables.len() > 0 {
            lemma_files_split(tables.drop_last(), tables.len() - 1, level);
        }
    } else {
        let rest = tables.drop_last();
        lemma_files_split(rest, n, level);
        assert(rest.take(n) =~= tables.take(n));
        assert(rest.skip(n) =~= tables.skip(n).drop_last());
    }
}

/// What is left of a whole history after its first `n` writes is whole.
proof fn lemma_suffix_whole(h: Seq<Logged>, n: int, high: u64)
    requires
        ordered(h),
        within(h, high),
        all_storable(h),
        0 <= n <= h.len(),
    ensures
        ordered(h.skip(n)),
        within(h.skip(n), high),
        all_storable(h.skip(n)),
{
    let g = h.skip(n);
    assert forall|i: int| 0 <= i < g.len() implies (#[trigger] g[i]).seq >= 1 && g[i].seq <= high
        && crate::engine::memtable::storable(g[i].op) && crate::engine::store::keyed(g[i].op) by {
        assert(g[i] == h[n + i]);
    }
    assert forall|i: int, j: int| 0 <= i < j < g.len() implies (#[trigger] g[i]).seq < (
    #[trigger] g[j]).seq by {
        assert(g[i] == h[n + i]);
        assert(g[j] == h[n + j]);
    }
}

/// Two whole histories, the second beyond the first, are one.
proof fn lemma_join_whole(a: Seq<Logged>, b: Seq<Logged>, mid: u64, high: u64)
    requires
        ordered(a),
        ordered(b),
        within(a, mid),
        beyond(b, mid),
        mid <= high,
        within(b, high),
        all_storable(a),
        all_storable(b),
    ensures
        ordered(a + b),
        within(a + b, high),
        all_storable(a + b),
{
    let s = a + b;
    assert forall|i: int| 0 <= i < s.len() implies (#[trigger] s[i]).seq >= 1 && s[i].seq
        <= high by {
        if i < a.len() {
            assert(s[i] == a[i]);
        } else {
            assert(s[i] == b[i - a.len()]);
        }
    }
    assert forall|i: int, j: int| 0 <= i < j < s.len() implies (#[trigger] s[i]).seq < (
    #[trigger] s[j]).seq by {
        if j < a.len() {
            assert(s[i] == a[i] && s[j] == a[j]);
        } else {
            assert(s[j] == b[j - a.len()]);
            if i < a.len() {
                assert(s[i] == a[i]);
            } else {
                assert(s[i] == b[i - a.len()]);
            }
        }
    }
    lemma_storable_add(a, b);
}

/// A whole history splits at a bound: what follows is beyond it.
proof fn lemma_split_beyond(a: Seq<Logged>, b: Seq<Logged>) -> (mid: u64)
    requires
        ordered(a + b),
    ensures
        within(a, mid),
        beyond(b, mid),
        forall|high: u64| within(a + b, high) && a.len() > 0 ==> mid <= high,
        a.len() == 0 ==> mid == 0,
{
    let s = a + b;
    if a.len() == 0 {
        assert forall|i: int| 0 <= i < b.len() implies (#[trigger] b[i]).seq > 0 by {
            assert(s[i] == b[i]);
        }
        0
    } else {
        let last = a.len() - 1;
        let mid = a[last].seq;
        assert(s[last] == a[last]);
        assert forall|i: int| 0 <= i < a.len() implies (#[trigger] a[i]).seq <= mid by {
            assert(s[i] == a[i]);
            if i < last {
                assert(s[i].seq < s[last].seq);
            }
        }
        assert forall|i: int| 0 <= i < b.len() implies (#[trigger] b[i]).seq > mid by {
            assert(s[a.len() + i] == b[i]);
            assert(s[last].seq < s[a.len() + i].seq);
        }
        assert forall|high: u64| within(s, high) implies mid <= high by {
            assert(s[last].seq <= high);
        }
        mid
    }
}

/// The writes of a stack of tables, in order.
fn export_all(tables: &Vec<TableFile>) -> (r: Vec<WalEntry>)
    requires
        forall|i: int| 0 <= i < tables@.len() ==> (#[trigger] tables@[i]).wf(),
    ensures
        logged(r@) == stacked(tables@),
{
    let mut out: Vec<WalEntry> = Vec::new();
    let mut i: usize = 0;
    proof {
        assert(tables@.take(0) =~= Seq::<TableFile>::empty());
        assert(logged(out@) =~= Seq::<Logged>::empty());
    }
    while i < tables.len()
        invariant
            forall|j: int| 0 <= j < tables@.len() ==> (#[trigger] tables@[j]).wf(),
            i <= tables@.len(),
            logged(out@) == stacked(tables@.take(i as int)),
        decreases tables@.len() - i,
    {
        let ghost before = out@;
        assert(tables@[i as int].wf());
        let mut more: Vec<WalEntry> = tables[i].table.export();
        let ghost added = more@;
        out.append(&mut more);
        proof {
            assert(tables@.take(i + 1).drop_last() =~= tables@.take(i as int));
            assert(tables@.take(i + 1).last() == tables@[i as int]);
            assert(logged(out@) =~= logged(before) + logged(added));
        }
        i += 1;
    }
    assert(tables@.take(i as int) =~= tables@);
    out
}

/// Whether some entry touches `[lo, hi)`.
fn entries_touch(entries: &Vec<WalEntry>, lo: &[u8], hi: &[u8]) -> (r: bool)
    ensures
        r == any_touches(logged(entries@), lo@, hi@),
{
    let ghost h = logged(entries@);
    let mut i: usize = 0;
    while i < entries.len()
        invariant
            h == logged(entries@),
            i <= entries@.len(),
            forall|j: int| 0 <= j < i ==> !touches((#[trigger] h[j]).op, lo@, hi@),
        decreases entries@.len() - i,
    {
        let hit: bool = match &entries[i] {
            WalEntry::Put { key, .. } => !bytes::lt(key.as_slice(), lo) && bytes::lt(
                key.as_slice(),
                hi,
            ),
            WalEntry::Delete { key, .. } => !bytes::lt(key.as_slice(), lo) && bytes::lt(
                key.as_slice(),
                hi,
            ),
            WalEntry::Merge { key, .. } => !bytes::lt(key.as_slice(), lo) && bytes::lt(
                key.as_slice(),
                hi,
            ),
            WalEntry::DeleteRange { start, end, .. } => bytes::lt(start.as_slice(), hi)
                && bytes::lt(lo, end.as_slice()),
        };
        assert(hit == touches(h[i as int].op, lo@, hi@));
        if hit {
            return true;
        }
        i += 1;
    }
    false
}

/// The versions of `key` a history holds, oldest first: the sequence number
/// of each, and the type it is stored under.
pub open spec fn versions(h: Seq<Logged>, key: Seq<u8>) -> Seq<(u64, u8)>
    decreases h.len(),
{
    if h.len() == 0 {
        Seq::empty()
    } else {
        let before = versions(h.drop_last(), key);
        if point_key(h.last().op) == Some(key) {
            before.push((h.last().seq, point_type(h.last().op)))
        } else {
            before
        }
    }
}

impl RegolithEngine {
    /// Every version of the stored key `key` that the tables hold, oldest
    /// first: its sequence number and the type it is stored under.
    pub fn all_persisted_versions_of(&self, key: &[u8]) -> (r: Vec<(u64, u8)>)
        requires
            self.wf(),
        ensures
            r@ == versions(stacked(self.files()), key@),
    {
        let entries: Vec<WalEntry> = export_all(&self.tables);
        let ghost h = logged(entries@);
        let mut out: Vec<(u64, u8)> = Vec::new();
        let mut i: usize = 0;
        assert(h.take(0) =~= Seq::<Logged>::empty());
        while i < entries.len()
            invariant
                h == logged(entries@),
                i <= entries@.len(),
                out@ == versions(h.take(i as int), key@),
            decreases entries@.len() - i,
        {
            proof {
                assert(h.take(i + 1).drop_last() =~= h.take(i as int));
                assert(h.take(i + 1).last() == h[i as int]);
            }
            match &entries[i] {
                WalEntry::Put { key: k, seq, .. } => if bytes::same(k.as_slice(), key) {
                    out.push((*seq, VALUE_TYPE_VALUE));
                },
                WalEntry::Delete { key: k, seq } => if bytes::same(k.as_slice(), key) {
                    out.push((*seq, VALUE_TYPE_DELETION));
                },
                WalEntry::Merge { key: k, seq, .. } => if bytes::same(k.as_slice(), key) {
                    out.push((*seq, VALUE_TYPE_MERGE));
                },
                WalEntry::DeleteRange { .. } => {},
            }
            i += 1;
        }
        assert(h.take(i as int) =~= h);
        out
    }
}

/// The ids of the tables at one level, or of all others, in order.
pub open spec fn ids_of(tables: Seq<TableFile>, level: usize, at_level: bool) -> Seq<u64>
    decreases tables.len(),
{
    if tables.len() == 0 {
        Seq::empty()
    } else {
        let before = ids_of(tables.drop_last(), level, at_level);
        if (tables.last().at_level() == level) == at_level {
            before.push(tables.last().number())
        } else {
            before
        }
    }
}

/// The ids of the tables at one level, or of all others, in order.
fn file_ids(tables: &Vec<TableFile>, level: usize, at_level: bool) -> (r: Vec<u64>)
    ensures
        r@ == ids_of(tables@, level, at_level),
{
    let mut out: Vec<u64> = Vec::new();
    let mut i: usize = 0;
    assert(tables@.take(0) =~= Seq::<TableFile>::empty());
    while i < tables.len()
        invariant
            i <= tables@.len(),
            out@ == ids_of(tables@.take(i as int), level, at_level),
        decreases tables@.len() - i,
    {
        proof {
            assert(tables@.take(i + 1).drop_last() =~= tables@.take(i as int));
            assert(tables@.take(i + 1).last() == tables@[i as int]);
        }
        if (tables[i].level == level) == at_level {
            out.push(tables[i].file_id);
        }
        i += 1;
    }
    assert(tables@.take(i as int) =~= tables@);
    out
}

/// The ids of tables, in order.
pub open spec fn all_ids(tables: Seq<TableFile>) -> Seq<u64> {
    Seq::new(tables.len(), |i: int| tables[i].number())
}

/// What a flush that made `table` is told as, but for how long it took.
pub open spec fn is_flush_info(info: FlushJobInfo, table: TableFile) -> bool {
    &&& info.file_id == table.number()
    &&& info.file_path@ == table_name_text(table.number())
    &&& info.file_size == at_most_u64(weight_of(table.history()))
    &&& info.num_entries == records_of(table.history()).len()
    &&& info.smallest_key@ == (match least_key(table.history()) {
        Some(key) => key,
        None => Seq::empty(),
    })
    &&& info.largest_key@ == (match greatest_key(table.history()) {
        Some(key) => key,
        None => Seq::empty(),
    })
}

/// What the creation of `table` is told as.
pub open spec fn is_creation_info(
    info: TableFileCreationInfo,
    table: TableFile,
    reason: TableFileCreationReason,
) -> bool {
    &&& info.file_id == table.number()
    &&& info.file_path@ == table_name_text(table.number())
    &&& info.level == table.at_level()
    &&& info.reason == reason
    &&& info.file_size == at_most_u64(weight_of(table.history()))
    &&& info.num_entries == records_of(table.history()).len()
}

/// What the removal of `table` is told as.
pub open spec fn is_deletion_info(info: TableFileDeletionInfo, table: TableFile) -> bool {
    &&& info.file_id == table.number()
    &&& info.file_path@ == table_name_text(table.number())
}

/// What the ingestion of a file into `table` is told as.
pub open spec fn is_ingestion_info(
    info: ExternalFileIngestionInfo,
    table: TableFile,
    path: Seq<char>,
    num_entries: u64,
) -> bool {
    &&& info.external_file_path@ == path
    &&& info.internal_file_id == table.number()
    &&& info.level == table.at_level()
    &&& info.num_entries == num_entries
    &&& info.file_size == at_most_u64(weight_of(table.history()))
}

/// What a compaction of `inputs` into `level` is told as, but for how long it
/// took.
pub open spec fn is_job_info(
    info: CompactionJobInfo,
    inputs: Seq<TableFile>,
    level: usize,
    outputs: Seq<u64>,
) -> bool {
    &&& info.input_level == (if level == 0 {
        0
    } else {
        level - 1
    })
    &&& info.output_level == level
    &&& info.input_files_input_level@ == ids_of(inputs, level, level == 0)
    &&& info.input_files_output_level@ == ids_of(inputs, level, level != 0)
    &&& info.output_files@ == outputs
}

/// Every listener was told that `table` was created.
pub open spec fn told_created(
    listeners: Seq<Arc<dyn EventListener>>,
    table: TableFile,
    reason: TableFileCreationReason,
) -> bool {
    exists|info: TableFileCreationInfo| #[trigger]
        is_creation_info(info, table, reason) && all_heard_created(listeners, &info)
}

/// Every listener was told that `table` was removed.
pub open spec fn told_deleted(listeners: Seq<Arc<dyn EventListener>>, table: TableFile) -> bool {
    exists|info: TableFileDeletionInfo| #[trigger]
        is_deletion_info(info, table) && all_heard_deleted(listeners, &info)
}

/// Every listener was told that a flush made `table`. Where it was not timed
/// it took no time.
pub open spec fn told_flushed(
    listeners: Seq<Arc<dyn EventListener>>,
    table: TableFile,
    timed: bool,
) -> bool {
    exists|info: FlushJobInfo| #[trigger]
        is_flush_info(info, table) && (!timed ==> info.duration == span(0)) && all_heard_flushed(
            listeners,
            &info,
        )
}

/// Every listener was told of a file ingested into `table`.
pub open spec fn told_ingested(
    listeners: Seq<Arc<dyn EventListener>>,
    table: TableFile,
    path: Seq<char>,
    num_entries: u64,
) -> bool {
    exists|info: ExternalFileIngestionInfo| #[trigger]
        is_ingestion_info(info, table, path, num_entries) && all_heard_ingested(listeners, &info)
}

/// Every listener was told that a compaction of `inputs` into `level` begins:
/// nothing came of it yet, and it took no time.
pub open spec fn told_begun(
    listeners: Seq<Arc<dyn EventListener>>,
    inputs: Seq<TableFile>,
    level: usize,
) -> bool {
    exists|info: CompactionJobInfo| #[trigger]
        is_job_info(info, inputs, level, Seq::empty()) && info.duration == span(0)
            && all_heard_compaction_begun(listeners, &info)
}

/// Every listener was told of a compaction of `inputs` into `level` that made
/// `outputs`: that it begins, of each table made and of each removed, and
/// that it completed. Where it was not timed it took no time.
pub open spec fn told_compacted(
    listeners: Seq<Arc<dyn EventListener>>,
    inputs: Seq<TableFile>,
    level: usize,
    outputs: Seq<TableFile>,
    timed: bool,
) -> bool {
    &&& told_begun(listeners, inputs, level)
    &&& forall|i: int|
        0 <= i < outputs.len() ==> told_created(
            listeners,
            #[trigger] outputs[i],
            TableFileCreationReason::Compaction,
        )
    &&& forall|i: int| 0 <= i < inputs.len() ==> told_deleted(listeners, #[trigger] inputs[i])
    &&& exists|info: CompactionJobInfo| #[trigger]
        is_job_info(info, inputs, level, all_ids(outputs)) && (!timed ==> info.duration == span(
            0,
        )) && all_heard_compacted(listeners, &info)
}

/// What a compaction of `inputs` into `level` is about: its inputs at that
/// level and at others, what came of it, and how long it took.
pub fn job_info(
    inputs: &Vec<TableFile>,
    level: usize,
    output_files: Vec<u64>,
    duration: Duration,
) -> (r: CompactionJobInfo)
    ensures
        is_job_info(r, inputs@, level, output_files@),
        r.duration == duration,
{
    let input_level: usize = if level == 0 {
        0
    } else {
        level - 1
    };
    CompactionJobInfo {
        input_level,
        output_level: level,
        input_files_input_level: file_ids(inputs, level, level == 0),
        input_files_output_level: file_ids(inputs, level, level != 0),
        output_files,
        duration,
    }
}

impl RegolithEngine {
    /// The oldest point of the history that a read may still use.
    pub open spec fn pin(self) -> u64 {
        if self.registry().oldest() < self.horizon() {
            self.registry().oldest()
        } else {
            self.horizon()
        }
    }

    /// The filter compaction runs: none while a snapshot is live.
    pub open spec fn filter(self) -> Option<Arc<dyn CompactionFilter>> {
        if self.registry().live() == 0 {
            self.settings().compaction_filter
        } else {
            None
        }
    }

    /// The oldest point of the history that a read may still use.
    fn pin_seq(&self) -> (r: u64)
        requires
            self.wf(),
        ensures
            r == self.pin(),
    {
        let oldest: u64 = self.snapshots.oldest_live_seq();
        if oldest < self.last_seq {
            oldest
        } else {
            self.last_seq
        }
    }

    /// The smallest pinned sequence number, or `u64::MAX` if nothing is
    /// pinned.
    pub fn oldest_live_seq(&self) -> (r: u64)
        requires
            self.wf(),
        ensures
            r == self.registry().oldest(),
    {
        self.snapshots.oldest_live_seq()
    }

    /// How many tables there are.
    pub fn total_file_count(&self) -> (r: usize)
        ensures
            r == self.files().len(),
    {
        self.tables.len()
    }

    /// The deepest level a table is at, and level 1 at least.
    fn bottom_level(&self) -> (r: usize)
        ensures
            r == bottom(self.files()),
            r >= 1,
    {
        let mut deepest: usize = 1;
        let mut i: usize = 0;
        assert(self.tables@.take(0) =~= Seq::<TableFile>::empty());
        while i < self.tables.len()
            invariant
                i <= self.tables@.len(),
                deepest >= 1,
                deepest == bottom(self.tables@.take(i as int)),
            decreases self.tables@.len() - i,
        {
            assert(self.tables@.take(i + 1).drop_last() =~= self.tables@.take(i as int));
            if self.tables[i].level > deepest {
                deepest = self.tables[i].level;
            }
            i += 1;
        }
        assert(self.tables@.take(i as int) =~= self.tables@);
        deepest
    }

    /// Level 0 holds as many tables as the trigger that stops writes.
    pub open spec fn count_stops(self) -> bool {
        self.settings().level0_stop_writes_trigger > 0 && files_at(self.files(), 0)
            >= self.settings().level0_stop_writes_trigger
    }

    /// Why writes should be held back, if they should: level 0 holds as many
    /// tables, or as many bytes, as one of its triggers, or there are as many
    /// memtables as the soft cap. There is one memtable, the active one, so
    /// that twice the cap is never reached. A trigger of zero is off; one
    /// that stops writes comes before one that slows them.
    pub open spec fn stall(self) -> Option<Seq<char>> {
        let options = self.settings();
        let count = files_at(self.files(), 0);
        let size = level_size(self.files(), 0);
        let slow = options.level0_slowdown_writes_trigger;
        let hard = options.hard_pending_compaction_bytes_limit;
        let soft = options.soft_pending_compaction_bytes_limit;
        if self.count_stops() {
            match options.compaction_style {
                CompactionStyle::Level => Some("level-0 file count reached the stop trigger"@),
                CompactionStyle::Fifo => Some(
                    "level-0 file count reached level0_stop_writes_trigger, which Fifo compaction does not relieve"@,
                ),
                CompactionStyle::Universal => Some(
                    "level-0 file count reached level0_stop_writes_trigger, which Universal compaction does not relieve"@,
                ),
            }
        } else if hard > 0 && size >= hard {
            Some("level-0 bytes reached the hard pending-compaction limit"@)
        } else if slow > 0 && count >= slow {
            Some("level-0 file count reached the slowdown trigger"@)
        } else if soft > 0 && size >= soft {
            Some("level-0 bytes reached the soft pending-compaction limit"@)
        } else if options.max_write_buffer_number == 1 {
            Some("memtable count reached the slowdown trigger"@)
        } else {
            None
        }
    }

    /// Waiting would not end the stall: writes are stopped by the number of
    /// level-0 tables, the compaction style does not go by that number, and
    /// no compaction is due.
    pub open spec fn stalled_for_good(self) -> bool {
        &&& self.count_stops()
        &&& !(self.settings().compaction_style is Level)
        &&& !self.compaction_due()
    }

    /// Whether waiting would not end the stall.
    pub fn write_stall_is_permanent(&self) -> (r: bool)
        requires
            self.wf(),
        ensures
            r == self.stalled_for_good(),
    {
        let count: u64 = self.num_files_at_level(0);
        let stop: usize = self.options.level0_stop_writes_trigger;
        if stop == 0 || count < stop as u64 {
            return false;
        }
        proof {
            lemma_overflow_fits(
                self.tables@,
                self.options.fifo_compaction_options.max_table_files_size,
            );
            if self.tables@.len() > 1 {
                lemma_overflow_fits(
                    self.tables@.drop_first(),
                    self.options.fifo_compaction_options.max_table_files_size,
                );
            }
        }
        match self.options.compaction_style {
            CompactionStyle::Level => false,
            CompactionStyle::Fifo => self.tables.len() <= 1 || self.total_sst_size()
                <= self.options.fifo_compaction_options.max_table_files_size,
            CompactionStyle::Universal => !is_universal_due(
                &self.level0_sizes(),
                self.options.universal_compaction_options,
            ),
        }
    }

    /// Why writes should be held back, if they should.
    pub fn write_stall(&self) -> (r: Option<&'static str>)
        requires
            self.wf(),
        ensures
            match self.stall() {
                Some(reason) => r matches Some(text) && text@ == reason,
                None => r is None,
            },
    {
        let count: u64 = self.num_files_at_level(0);
        let size: u64 = self.level_bytes(0);
        let stop: usize = self.options.level0_stop_writes_trigger;
        let slow: usize = self.options.level0_slowdown_writes_trigger;
        let hard: u64 = self.options.hard_pending_compaction_bytes_limit;
        let soft: u64 = self.options.soft_pending_compaction_bytes_limit;
        if stop > 0 && count >= stop as u64 {
            match self.options.compaction_style {
                CompactionStyle::Level => Some("level-0 file count reached the stop trigger"),
                CompactionStyle::Fifo => Some(
                    "level-0 file count reached level0_stop_writes_trigger, which Fifo compaction does not relieve",
                ),
                CompactionStyle::Universal => Some(
                    "level-0 file count reached level0_stop_writes_trigger, which Universal compaction does not relieve",
                ),
            }
        } else if hard > 0 && size >= hard {
            Some("level-0 bytes reached the hard pending-compaction limit")
        } else if slow > 0 && count >= slow as u64 {
            Some("level-0 file count reached the slowdown trigger")
        } else if soft > 0 && size >= soft {
            Some("level-0 bytes reached the soft pending-compaction limit")
        } else if self.options.max_write_buffer_number == 1 {
            Some("memtable count reached the slowdown trigger")
        } else {
            None
        }
    }

    /// What merging the tables from the `n`th on into `level` leaves: the
    /// tables before them, and one table at `level`, or none, that holds what
    /// compacting the merged tables' writes comes to.
    pub open spec fn merged(self, before: Self, level: usize, n: int) -> bool {
        &&& self.same_setting(before)
        &&& self.horizon() == before.horizon()
        &&& self.owes_sync() == before.owes_sync()
        &&& self.active() == before.active()
        &&& 0 <= n <= before.files().len()
        &&& n <= self.files().len() <= n + 1
        &&& self.files().take(n) == before.files().take(n)
        &&& self.files().len() == n + 1 ==> self.files()[n].at_level() == level
        &&& n < before.files().len() && self.settings().listeners@.len() > 0 ==> told_compacted(
            self.settings().listeners@,
            before.files().skip(n),
            level,
            self.files().skip(n),
            self.settings().env.monotonic_clock,
        )
        &&& is_compacted(
            before.filter(),
            level,
            before.pin(),
            stacked(before.files().skip(n)),
            stacked(self.files().skip(n)),
        )
        &&& self.history() == stacked(self.files()) + before.active()
        &&& self.durable() == stacked(self.files()) + before.durable().skip(
            stacked(before.files()).len() as int,
        )
    }

    /// Merge the tables from the `n`th on into one at `level`, keeping what a
    /// read may still need.
    fn merge_tables(&mut self, level: usize, n: usize)
        requires
            old(self).wf(),
            n <= old(self).files().len(),
        ensures
            final(self).wf(),
            final(self).merged(*old(self), level, n as int),
    {
        let ghost before = *self;
        let ghost all = before.tables@;
        let ghost under = stacked(all.take(n as int));
        let ghost below = stacked(all.skip(n as int));
        let pin: u64 = self.pin_seq();
        let begun: Option<Instant> = start_of_work(self.options.env.monotonic_clock);
        let inputs: Vec<TableFile> = self.tables.split_off(n);
        self.announce_begin(&inputs, level);
        proof {
            assert(inputs@ =~= all.skip(n as int));
            assert(self.tables@ =~= all.take(n as int));
            lemma_stacked_split(all, n as int);
            lemma_table_parts_whole(before, n as int);
        }
        let entries: Vec<WalEntry> = export_all(&inputs);
        let off: Option<Arc<dyn CompactionFilter>> = None;
        let filter: &Option<Arc<dyn CompactionFilter>> = if self.snapshots.live_count() == 0 {
            &self.options.compaction_filter
        } else {
            &off
        };
        let table: MemTable = compact_entries(entries, filter, level, pin);
        let ghost out = table.history();
        let file_id: u64 = self.next_file_id;
        if table.len() > 0 {
            self.tables.push(TableFile { table, file_id, level });
            self.next_file_id = self.next_file_id.saturating_add(1);
        }
        proof {
            let made = self.tables@.skip(n as int);
            assert(self.tables@.take(n as int) =~= all.take(n as int));
            lemma_stacked_split(self.tables@, n as int);
            if self.tables@.len() == n + 1 {
                reveal_with_fuel(stacked, 2);
                assert(made.drop_last() =~= Seq::<TableFile>::empty());
                assert(made.last() == self.tables@[n as int]);
                assert(stacked(made) =~= out);
            } else {
                assert(out =~= Seq::<Logged>::empty());
                assert(made =~= Seq::<TableFile>::empty());
                assert(stacked(made) =~= out);
            }
            let mid = lemma_split_beyond(under, below);
            assert forall|high: u64| within(under + below, high) implies within(under + out, high)
                && ordered(under + out) && all_storable(under + out) by {
                lemma_table_parts_within(before, n as int, high);
                lemma_compacted_whole(before.filter(), level, pin, below, out, mid, high);
                if under.len() == 0 {
                    lemma_join_whole(under, out, 0, high);
                } else {
                    lemma_join_whole(under, out, mid, high);
                }
            }
            assert(within(under + below, before.last_seq)) by {
                assert(before.history().take((under + below).len() as int) =~= under + below);
                lemma_prefix_whole(
                    before.history(),
                    (under + below).len() as int,
                    before.last_seq,
                );
            }
            assert forall|i: int| 0 <= i < self.tables@.len() implies (
            #[trigger] self.tables@[i]).wf() by {
                if i < n {
                    assert(self.tables@[i] == all[i]);
                }
            }
            self.lemma_rebased(before, under + out);
        }
        self.announce_end(&inputs, level, n, time_since(&begun));
    }

    /// Replacing the tables' writes by a whole history within their bounds
    /// keeps the engine whole.
    proof fn lemma_rebased(self, before: Self, out: Seq<Logged>)
        requires
            before.wf(),
            stacked(self.tables@) == out,
            forall|i: int| 0 <= i < self.tables@.len() ==> (#[trigger] self.tables@[i]).wf(),
            ordered(out),
            all_storable(out),
            forall|high: u64| within(stacked(before.tables@), high) ==> within(out, high),
            self.mem == before.mem,
            self.wal == before.wal,
            self.logged == before.logged,
            self.last_seq == before.last_seq,
            self.floor == before.floor,
            self.unlogged == before.unlogged,
            self.snapshots == before.snapshots,
        ensures
            self.wf(),
            self.durable() == out + before.durable().skip(stacked(before.tables@).len() as int),
    {
        let below = stacked(before.tables@);
        let mem = before.mem.history();
        let d = before.logged@;
        let high = before.last_seq;
        assert(before.history().skip(below.len() as int) =~= mem);
        lemma_suffix_whole(before.history(), below.len() as int, high);
        let mid = lemma_split_beyond(below, mem);
        assert(within(out, mid));
        assert(mid <= high) by {
            if below.len() > 0 {
                assert(within(below + mem, high));
            }
        }
        lemma_join_whole(out, mem, mid, high);
        assert(before.durable().skip(below.len() as int) =~= d);
        lemma_suffix_whole(before.durable(), below.len() as int, high);
        let dmid = lemma_split_beyond(below, d);
        assert(dmid <= high) by {
            if below.len() > 0 {
                assert(within(below + d, high));
            }
        }
        assert(within(out, dmid));
        lemma_join_whole(out, d, dmid, high);
    }

    /// Tell the listeners that a compaction of `inputs` begins.
    fn announce_begin(&self, inputs: &Vec<TableFile>, level: usize)
        ensures
            inputs@.len() > 0 && self.settings().listeners@.len() > 0 ==> told_begun(
                self.settings().listeners@,
                inputs@,
                level,
            ),
    {
        if self.options.listeners.len() == 0 || inputs.len() == 0 {
            return ;
        }
        let info: CompactionJobInfo = job_info(
            inputs,
            level,
            Vec::new(),
            span_of_millis(0),
        );
        tell_all_compaction_begun(&self.options.listeners, &info);
        assert(is_job_info(info, inputs@, level, Seq::empty()));
    }

    /// Tell the listeners what a compaction made of its inputs, the tables
    /// from the `n`th on, and how long it took.
    fn announce_end(&self, inputs: &Vec<TableFile>, level: usize, n: usize, took: Duration)
        requires
            self.wf(),
            n <= self.files().len(),
            !self.settings().env.monotonic_clock ==> took == span(0),
            inputs@.len() > 0 && self.settings().listeners@.len() > 0 ==> told_begun(
                self.settings().listeners@,
                inputs@,
                level,
            ),
        ensures
            inputs@.len() > 0 && self.settings().listeners@.len() > 0 ==> told_compacted(
                self.settings().listeners@,
                inputs@,
                level,
                self.files().skip(n as int),
                self.settings().env.monotonic_clock,
            ),
    {
        if self.options.listeners.len() == 0 || inputs.len() == 0 {
            return ;
        }
        let ghost listeners = self.settings().listeners@;
        let ghost made = self.tables@.skip(n as int);
        let mut output_files: Vec<u64> = Vec::new();
        let mut t: usize = n;
        while t < self.tables.len()
            invariant
                self.wf(),
                n <= t <= self.tables@.len(),
                listeners == self.settings().listeners@,
                made == self.tables@.skip(n as int),
                output_files@ == all_ids(made).take(t - n),
                forall|i: int|
                    0 <= i < t - n ==> told_created(
                        listeners,
                        #[trigger] made[i],
                        TableFileCreationReason::Compaction,
                    ),
            decreases self.tables@.len() - t,
        {
            let file: &TableFile = &self.tables[t];
            assert(file.wf());
            output_files.push(file.file_id);
            assert(made[t - n] == *file);
            assert(output_files@ =~= all_ids(made).take(t + 1 - n));
            let created: TableFileCreationInfo = file.creation_info(
                TableFileCreationReason::Compaction,
            );
            tell_all_created(&self.options.listeners, &created);
            assert(is_creation_info(created, *file, TableFileCreationReason::Compaction));
            t += 1;
        }
        assert(all_ids(made).take(t - n) =~= all_ids(made));
        self.announce_deleted(inputs, inputs.len());
        let info: CompactionJobInfo = job_info(inputs, level, output_files, took);
        tell_all_compacted(&self.options.listeners, &info);
        assert(is_job_info(info, inputs@, level, all_ids(made)));
    }

    /// Tell the listeners that the first `n` of `gone` were removed.
    fn announce_deleted(&self, gone: &Vec<TableFile>, n: usize)
        requires
            n <= gone@.len(),
        ensures
            forall|i: int|
                0 <= i < n ==> told_deleted(self.settings().listeners@, #[trigger] gone@[i]),
    {
        let mut t: usize = 0;
        while t < n
            invariant
                n <= gone@.len(),
                t <= n,
                forall|i: int|
                    0 <= i < t ==> told_deleted(self.settings().listeners@, #[trigger] gone@[i]),
            decreases n - t,
        {
            let info: TableFileDeletionInfo = gone[t].deletion_info();
            tell_all_deleted(&self.options.listeners, &info);
            assert(is_deletion_info(info, gone@[t as int]));
            t += 1;
        }
    }

    /// Tell the listeners of files that were ingested: where each was, and
    /// how many entries it held. They all went to the newest table.
    pub(crate) fn announce_ingested(&self, files: &Vec<(String, u64)>)
        requires
            self.wf(),
        ensures
            self.files().len() > 0 ==> forall|i: int|
                0 <= i < files@.len() ==> told_ingested(
                    self.settings().listeners@,
                    self.files().last(),
                    (#[trigger] files@[i]).0@,
                    files@[i].1,
                ),
    {
        if self.tables.len() == 0 {
            return ;
        }
        let file: &TableFile = &self.tables[self.tables.len() - 1];
        assert(file.wf());
        let mut t: usize = 0;
        while t < files.len()
            invariant
                t <= files@.len(),
                file.wf(),
                forall|i: int|
                    0 <= i < t ==> told_ingested(
                        self.settings().listeners@,
                        *file,
                        (#[trigger] files@[i]).0@,
                        files@[i].1,
                    ),
            decreases files@.len() - t,
        {
            let info: ExternalFileIngestionInfo = file.ingestion_info(
                files[t].0.as_str(),
                files[t].1,
            );
            tell_all_ingested(&self.options.listeners, &info);
            assert(is_ingestion_info(info, *file, files@[t as int].0@, files@[t as int].1));
            t += 1;
        }
    }

    /// What dropping the oldest tables leaves.
    pub open spec fn trimmed(self, before: Self, cap: u64) -> bool {
        &&& self.same_setting(before)
        &&& self.horizon() == before.horizon()
        &&& self.owes_sync() == before.owes_sync()
        &&& self.active() == before.active()
        &&& self.files() == before.files().skip(overflow(before.files(), cap))
        &&& forall|i: int|
            0 <= i < overflow(before.files(), cap) ==> told_deleted(
                self.settings().listeners@,
                #[trigger] before.files()[i],
            )
        &&& self.history() == stacked(self.files()) + before.active()
        &&& self.durable() == stacked(self.files()) + before.durable().skip(
            stacked(before.files()).len() as int,
        )
    }

    /// Drop the oldest tables until the rest fit in `cap` bytes. The newest
    /// always stays.
    fn trim_tables(&mut self, cap: u64)
        requires
            old(self).wf(),
        ensures
            final(self).wf(),
            final(self).trimmed(*old(self), cap),
    {
        let ghost before = *self;
        let ghost all = self.tables@;
        let total: usize = self.tables.len();
        let mut n: usize = 0;
        assert(all.skip(0) =~= all);
        while self.tables.len() > 1 && self.total_sst_size() > cap
            invariant
                before.wf(),
                all == before.tables@,
                all.len() == total,
                n <= total,
                self.tables@ == all.skip(n as int),
                overflow(all, cap) == n + overflow(all.skip(n as int), cap),
                self.mem == before.mem,
                self.wal == before.wal,
                self.logged == before.logged,
                self.last_seq == before.last_seq,
                self.floor == before.floor,
                self.closed == before.closed,
                self.unlogged == before.unlogged,
                self.sync_due == before.sync_due,
                self.next_file_id == before.next_file_id,
                self.snapshots == before.snapshots,
                self.unix_secs == before.unix_secs,
                self.options == before.options,
                self.wf(),
                forall|i: int|
                    0 <= i < n ==> told_deleted(self.settings().listeners@, #[trigger] all[i]),
            decreases self.tables@.len(),
        {
            let gone: TableFile = self.tables.remove(0);
            proof {
                assert(self.tables@ =~= all.skip(n + 1));
                assert(all.skip(n as int).drop_first() =~= all.skip(n + 1));
                self.lemma_suffix_kept(before, n + 1);
            }
            let mut one: Vec<TableFile> = Vec::new();
            one.push(gone);
            self.announce_deleted(&one, 1);
            assert(one@[0] == all[n as int]);
            n += 1;
        }
        proof {
            self.lemma_suffix_kept(before, n as int);
        }
    }

    /// Dropping the oldest tables keeps the engine whole.
    proof fn lemma_suffix_kept(self, before: Self, n: int)
        requires
            before.wf(),
            0 <= n <= before.tables@.len(),
            self.tables@ == before.tables@.skip(n),
            self.mem == before.mem,
            self.wal == before.wal,
            self.logged == before.logged,
            self.last_seq == before.last_seq,
            self.floor == before.floor,
            self.unlogged == before.unlogged,
            self.snapshots == before.snapshots,
        ensures
            self.wf(),
            self.durable() == stacked(self.tables@) + before.durable().skip(
                stacked(before.tables@).len() as int,
            ),
    {
        let all = before.tables@;
        let below = stacked(all);
        let cut = stacked(all.take(n));
        let out = stacked(all.skip(n));
        lemma_stacked_split(all, n);
        assert(below =~= before.history().take(below.len() as int));
        lemma_prefix_whole(before.history(), below.len() as int, before.last_seq);
        assert(below.skip(cut.len() as int) =~= out);
        assert forall|high: u64| within(below, high) implies within(out, high) by {
            assert forall|i: int| 0 <= i < out.len() implies (#[trigger] out[i]).seq <= high by {
                assert(below[cut.len() + i] == out[i]);
            }
        }
        lemma_suffix_whole(below, cut.len() as int, before.last_seq);
        assert forall|i: int| 0 <= i < self.tables@.len() implies (#[trigger] self.tables@[i]).wf() by {
            assert(self.tables@[i] == all[n + i]);
        }
        self.lemma_rebased(before, out);
    }

    // ── passes ──────────────────────────────────────────────────────────

    /// The level a merge of every table goes to.
    pub open spec fn merge_level(self) -> usize {
        match self.settings().compaction_style {
            CompactionStyle::Universal => 0,
            _ => bottom(self.files()),
        }
    }

    /// What compacting the stored keys in `[lo, hi)` leaves, of an engine
    /// whose memtable holds no writes: the oldest tables dropped, where the
    /// oldest go first; every table merged, where some table touches the
    /// range; else the engine as it was.
    pub open spec fn range_compacted(self, before: Self, lo: Seq<u8>, hi: Seq<u8>) -> bool {
        if before.settings().compaction_style is Fifo {
            self.trimmed(
                before,
                before.settings().fifo_compaction_options.max_table_files_size,
            )
        } else if any_touches(stacked(before.files()), lo, hi) {
            self.merged(before, before.merge_level(), 0)
        } else {
            self == before
        }
    }

    /// Finish the active memtable, and compact the stored keys in `[lo, hi)`.
    /// Tables are stacked by age, so that where one of them touches the range
    /// all are merged.
    pub fn compact_range(&mut self, lo: &[u8], hi: &[u8])
        requires
            old(self).wf(),
        ensures
            final(self).wf(),
            exists|flushed: RegolithEngine| #[trigger]
                flushed.is_flush_of(*old(self)) && final(self).range_compacted(flushed, lo@, hi@),
    {
        let ghost before = *self;
        self.flush_active_memtable();
        let ghost flushed = *self;
        assert(flushed.is_flush_of(before));
        match self.options.compaction_style {
            CompactionStyle::Fifo => {
                let cap: u64 = self.options.fifo_compaction_options.max_table_files_size;
                self.trim_tables(cap);
            },
            CompactionStyle::Universal => {
                if entries_touch(&export_all(&self.tables), lo, hi) {
                    self.merge_tables(0, 0);
                }
            },
            CompactionStyle::Level => {
                if entries_touch(&export_all(&self.tables), lo, hi) {
                    let level: usize = self.bottom_level();
                    self.merge_tables(level, 0);
                }
            },
        }
    }

    /// What finishing the memtable leaves.
    pub open spec fn is_flush_of(self, before: Self) -> bool {
        &&& self.wf()
        &&& self.same_setting(before)
        &&& self.horizon() == before.horizon()
        &&& self.history() == before.history()
        &&& self.durable() == before.history()
        &&& self.active() == Seq::<Logged>::empty()
        &&& self.owes_sync() == before.owes_sync()
        &&& stacked(self.files()) == before.history()
        &&& if before.active().len() == 0 {
            self.files() == before.files()
        } else {
            self.finished_onto(before.files(), before.active())
        }
    }

    /// Whether a pass has anything to do.
    pub open spec fn compaction_due(self) -> bool {
        let options = self.settings();
        match options.compaction_style {
            CompactionStyle::Fifo => overflow(
                self.files(),
                options.fifo_compaction_options.max_table_files_size,
            ) > 0,
            CompactionStyle::Universal => universal_due(
                level0_sizes(self.files()),
                options.universal_compaction_options,
            ),
            CompactionStyle::Level => files_at(self.files(), 0) >= options.l0_compaction_trigger
                && files_at(self.files(), 0) >= 1,
        }
    }

    /// The first table that a pass merges. The newest tables are merged
    /// alone where a run of like sizes is due, and all of them otherwise.
    pub open spec fn merge_from(self) -> int {
        match self.settings().compaction_style {
            CompactionStyle::Universal => universal_start(
                self.files(),
                self.settings().universal_compaction_options,
            ),
            _ => 0,
        }
    }

    /// What a pass that had something to do leaves: the oldest tables
    /// dropped, or tables merged, and less to do than before.
    pub open spec fn pass_done(self, before: Self) -> bool {
        &&& if before.settings().compaction_style is Fifo {
            self.trimmed(
                before,
                before.settings().fifo_compaction_options.max_table_files_size,
            )
        } else {
            self.merged(before, before.merge_level(), before.merge_from())
        }
        &&& self.files().len() + files_at(self.files(), 0) < before.files().len() + files_at(
            before.files(),
            0,
        )
    }

    /// Perform at most one compaction job.
    pub fn run_one_compaction_pass(&mut self) -> (r: CompactionOutcome)
        requires
            old(self).wf(),
        ensures
            final(self).wf(),
            r == (if old(self).compaction_due() {
                CompactionOutcome::DidWork
            } else {
                CompactionOutcome::Idle
            }),
            r == CompactionOutcome::Idle ==> *final(self) == *old(self),
            r == CompactionOutcome::DidWork ==> final(self).pass_done(*old(self)),
    {
        let ghost before = *self;
        let count: u64 = self.num_files_at_level(0);
        proof {
            lemma_files_split(self.tables@, 0, 0);
            lemma_overflow_fits(
                self.tables@,
                self.options.fifo_compaction_options.max_table_files_size,
            );
        }
        match self.options.compaction_style {
            CompactionStyle::Fifo => {
                let cap: u64 = self.options.fifo_compaction_options.max_table_files_size;
                if self.tables.len() <= 1 || self.total_sst_size() <= cap {
                    return CompactionOutcome::Idle;
                }
                proof {
                    lemma_overflow_fits(self.tables@.drop_first(), cap);
                }
                self.trim_tables(cap);
                proof {
                    let n = overflow(before.tables@, cap);
                    lemma_files_split(before.tables@, n, 0);
                }
                CompactionOutcome::DidWork
            },
            CompactionStyle::Universal => {
                let sizes: Vec<u64> = self.level0_sizes();
                let options = self.options.universal_compaction_options;
                if !is_universal_due(&sizes, options) {
                    return CompactionOutcome::Idle;
                }
                let n: usize = first_merged(&self.tables, &sizes, options);
                self.merge_tables(0, n);
                proof {
                    lemma_universal_start(before.tables@, options);
                    lemma_files_split(before.tables@, n as int, 0);
                    lemma_files_split(self.tables@, n as int, 0);
                    lemma_files_split(self.tables@.skip(n as int), 0, 0);
                    lemma_files_split(before.tables@.skip(n as int), 0, 0);
                }
                CompactionOutcome::DidWork
            },
            CompactionStyle::Level => {
                if count < self.options.l0_compaction_trigger as u64 || count < 1 {
                    return CompactionOutcome::Idle;
                }
                let level: usize = self.bottom_level();
                self.merge_tables(level, 0);
                proof {
                    if self.tables@.len() == 1 {
                        reveal_with_fuel(files_at, 2);
                        assert(self.tables@.drop_last() =~= Seq::<TableFile>::empty());
                        assert(self.tables@.last() == self.tables@[0]);
                        assert(files_at(self.tables@, 0) == 0);
                    }
                    lemma_files_split(self.tables@, 0, 0);
                }
                CompactionOutcome::DidWork
            },
        }
    }
}

/// The two parts that tables fall into are whole.
proof fn lemma_table_parts_whole(engine: RegolithEngine, n: int)
    requires
        engine.wf(),
        0 <= n <= engine.tables@.len(),
    ensures
        ordered(stacked(engine.tables@.take(n)) + stacked(engine.tables@.skip(n))),
        ordered(stacked(engine.tables@.take(n))),
        ordered(stacked(engine.tables@.skip(n))),
        all_storable(stacked(engine.tables@.take(n))),
        all_storable(stacked(engine.tables@.skip(n))),
{
    let all = engine.tables@;
    let below = stacked(all);
    let cut = stacked(all.take(n)).len() as int;
    lemma_stacked_split(all, n);
    assert(below =~= engine.history().take(below.len() as int));
    lemma_prefix_whole(engine.history(), below.len() as int, engine.last_seq);
    assert(below.take(cut) =~= stacked(all.take(n)));
    assert(below.skip(cut) =~= stacked(all.skip(n)));
    lemma_prefix_whole(below, cut, engine.last_seq);
    lemma_suffix_whole(below, cut, engine.last_seq);
}

/// A bound on the writes of tables bounds each of the parts they fall into.
proof fn lemma_table_parts_within(engine: RegolithEngine, n: int, high: u64)
    requires
        0 <= n <= engine.tables@.len(),
        within(stacked(engine.tables@.take(n)) + stacked(engine.tables@.skip(n)), high),
    ensures
        within(stacked(engine.tables@.take(n)), high),
        within(stacked(engine.tables@.skip(n)), high),
{
    let a = stacked(engine.tables@.take(n));
    let b = stacked(engine.tables@.skip(n));
    assert forall|i: int| 0 <= i < a.len() implies (#[trigger] a[i]).seq <= high by {
        assert((a + b)[i] == a[i]);
    }
    assert forall|i: int| 0 <= i < b.len() implies (#[trigger] b[i]).seq <= high by {
        assert((a + b)[a.len() + i] == b[i]);
    }
}

/// The first writes of a whole history are whole.
proof fn lemma_prefix_whole(h: Seq<Logged>, n: int, high: u64)
    requires
        ordered(h),
        within(h, high),
        all_storable(h),
        0 <= n <= h.len(),
    ensures
        ordered(h.take(n)),
        within(h.take(n), high),
        all_storable(h.take(n)),
{
    let g = h.take(n);
    assert forall|i: int| 0 <= i < g.len() implies (#[trigger] g[i]).seq >= 1 && g[i].seq <= high
        && crate::engine::memtable::storable(g[i].op) && crate::engine::store::keyed(g[i].op) by {
        assert(g[i] == h[i]);
    }
    assert forall|i: int, j: int| 0 <= i < j < g.len() implies (#[trigger] g[i]).seq < (
    #[trigger] g[j]).seq by {
        assert(g[i] == h[i]);
        assert(g[j] == h[j]);
    }
}

/// A merge without a filter changes no read at the pin or above: every live
/// snapshot, and every new read, sees what it saw.
pub proof fn lemma_merge_keeps_reads(
    before: RegolithEngine,
    after: RegolithEngine,
    level: usize,
    n: int,
    key: Seq<u8>,
    seq: u64,
)
    requires
        before.wf(),
        after.merged(before, level, n),
        before.filter() is None,
        before.pin() <= seq,
    ensures
        read_at(after.operator(), after.history(), key, seq) == read_at(
            before.operator(),
            before.history(),
            key,
            seq,
        ),
{
    let under = stacked(before.files().take(n));
    let below = stacked(before.files().skip(n));
    let out = stacked(after.files().skip(n));
    lemma_stacked_split(before.files(), n);
    lemma_stacked_split(after.files(), n);
    lemma_compacted_plain(level, before.pin(), below, out);
    lemma_survivors_read(below, before.pin(), key, seq);
    lemma_probe_layers(under, below, key, seq);
    lemma_probe_layers(under, out, key, seq);
    lemma_probe_layers(under + below, before.active(), key, seq);
    lemma_probe_layers(under + out, before.active(), key, seq);
    before.lemma_history_parts();
}

/// Every live snapshot reads at the pin or above.
pub proof fn lemma_snapshots_above_pin(engine: RegolithEngine, seq: u64)
    requires
        engine.wf(),
        engine.registry().pins().dom().contains(seq),
    ensures
        engine.pin() <= seq,
{
    engine.lemma_registry_whole();
    engine.registry().lemma_oldest();
}

// ── what a table is ─────────────────────────────────────────────────────

/// The least key that point writes of `h` name.
pub open spec fn least_key(h: Seq<Logged>) -> Option<Seq<u8>>
    decreases h.len(),
{
    if h.len() == 0 {
        None
    } else {
        match (least_key(h.drop_last()), point_key(h.last().op)) {
            (before, None) => before,
            (None, Some(key)) => Some(key),
            (Some(least), Some(key)) => if bytes_lt(key, least) {
                Some(key)
            } else {
                Some(least)
            },
        }
    }
}

/// The greatest key that point writes of `h` name.
pub open spec fn greatest_key(h: Seq<Logged>) -> Option<Seq<u8>>
    decreases h.len(),
{
    if h.len() == 0 {
        None
    } else {
        match (greatest_key(h.drop_last()), point_key(h.last().op)) {
            (before, None) => before,
            (None, Some(key)) => Some(key),
            (Some(greatest), Some(key)) => if bytes_lt(greatest, key) {
                Some(key)
            } else {
                Some(greatest)
            },
        }
    }
}

/// `key` is one that a point write of `h` names.
spec fn named(h: Seq<Logged>, key: Seq<u8>) -> bool {
    exists|i: int| 0 <= i < h.len() && point_key((#[trigger] h[i]).op) == Some(key)
}

proof fn lemma_named_push(h: Seq<Logged>, key: Seq<u8>)
    requires
        h.len() > 0,
    ensures
        named(h, key) <==> named(h.drop_last(), key) || point_key(h.last().op) == Some(key),
{
    let rest = h.drop_last();
    assert(h[h.len() - 1] == h.last());
    if named(rest, key) {
        let i = choose|i: int| 0 <= i < rest.len() && point_key((#[trigger] rest[i]).op) == Some(key);
        assert(h[i] == rest[i]);
    }
    if named(h, key) {
        let i = choose|i: int| 0 <= i < h.len() && point_key((#[trigger] h[i]).op) == Some(key);
        if i < h.len() - 1 {
            assert(rest[i] == h[i]);
        }
    }
}

/// The least and the greatest key are named, and bound every named key.
proof fn lemma_key_bounds(h: Seq<Logged>, key: Seq<u8>)
    ensures
        least_key(h) matches Some(least) ==> named(h, least),
        greatest_key(h) matches Some(greatest) ==> named(h, greatest),
        named(h, key) ==> (least_key(h) matches Some(least) && !bytes_lt(key, least)) && (
        greatest_key(h) matches Some(greatest) && !bytes_lt(greatest, key)),
    decreases h.len(),
{
    if h.len() > 0 {
        let rest = h.drop_last();
        lemma_key_bounds(rest, key);
        lemma_named_push(h, key);
        if let Some(least) = least_key(h) {
            lemma_named_push(h, least);
        }
        if let Some(greatest) = greatest_key(h) {
            lemma_named_push(h, greatest);
        }
        lemma_bytes_lt_irreflexive(key);
        if let Some(last) = point_key(h.last().op) {
            lemma_bytes_lt_irreflexive(last);
            if let Some(least) = least_key(rest) {
                if bytes_lt(last, least) && bytes_lt(key, last) {
                    lemma_bytes_lt_transitive(key, last, least);
                }
            }
            if let Some(greatest) = greatest_key(rest) {
                if bytes_lt(greatest, last) && bytes_lt(last, key) {
                    lemma_bytes_lt_transitive(greatest, last, key);
                }
            }
        }
    }
}

impl TableFile {
    /// The level the table is at.
    pub fn level(&self) -> (r: usize)
        ensures
            r == self.at_level(),
    {
        self.level
    }

    /// The table's number.
    pub fn file_id(&self) -> (r: u64)
        ensures
            r == self.number(),
    {
        self.file_id
    }

    /// Bytes the table's writes hold.
    pub fn file_size(&self) -> (r: u64)
        requires
            self.wf(),
        ensures
            r == at_most_u64(weight_of(self.history())),
    {
        self.table.size()
    }

    /// How many point entries the table holds.
    pub fn num_entries(&self) -> (r: u64)
        requires
            self.wf(),
        ensures
            r == records_of(self.history()).len(),
    {
        self.table.num_entries() as u64
    }

    /// What listeners are told of the table when a flush produced it.
    pub fn flush_info(&self, duration: Duration) -> (r: FlushJobInfo)
        requires
            self.wf(),
        ensures
            is_flush_info(r, *self),
            r.duration == duration,
    {
        let (smallest_key, largest_key): (Vec<u8>, Vec<u8>) = match self.key_range() {
            Some((smallest, largest)) => (smallest, largest),
            None => (Vec::new(), Vec::new()),
        };
        FlushJobInfo {
            file_id: self.file_id,
            file_path: table_name(self.file_id),
            file_size: self.file_size(),
            num_entries: self.num_entries(),
            smallest_key,
            largest_key,
            duration,
        }
    }

    /// What listeners are told of the table when it was created.
    pub fn creation_info(&self, reason: TableFileCreationReason) -> (r: TableFileCreationInfo)
        requires
            self.wf(),
        ensures
            is_creation_info(r, *self, reason),
    {
        TableFileCreationInfo {
            file_id: self.file_id,
            file_path: table_name(self.file_id),
            level: self.level,
            reason,
            file_size: self.file_size(),
            num_entries: self.num_entries(),
        }
    }

    /// What listeners are told of the table when it was removed.
    pub fn deletion_info(&self) -> (r: TableFileDeletionInfo)
        ensures
            is_deletion_info(r, *self),
    {
        TableFileDeletionInfo { file_id: self.file_id, file_path: table_name(self.file_id) }
    }

    /// What listeners are told of a file whose entries went to the table.
    pub fn ingestion_info(&self, path: &str, num_entries: u64) -> (r: ExternalFileIngestionInfo)
        requires
            self.wf(),
        ensures
            is_ingestion_info(r, *self, path@, num_entries),
    {
        ExternalFileIngestionInfo {
            external_file_path: path.to_owned(),
            internal_file_id: self.file_id,
            level: self.level,
            num_entries,
            file_size: self.file_size(),
        }
    }

    /// The least and the greatest stored key that point writes of the table
    /// name.
    pub fn key_range(&self) -> (r: Option<(Vec<u8>, Vec<u8>)>)
        requires
            self.wf(),
        ensures
            match r {
                Some((least, greatest)) => least_key(self.history()) == Some(least@)
                    && greatest_key(self.history()) == Some(greatest@),
                None => least_key(self.history()) is None && greatest_key(self.history()) is None,
            },
    {
        let r: Option<(Vec<u8>, Vec<u8>)> = self.table.key_range();
        proof {
            let h = self.history();
            match &r {
                Some((a, b)) => {
                    assert(named(h, a@));
                    assert(named(h, b@));
                    lemma_key_bounds(h, a@);
                    lemma_key_bounds(h, b@);
                    let least = least_key(h)->0;
                    let greatest = greatest_key(h)->0;
                    let i = choose|i: int|
                        0 <= i < h.len() && point_key((#[trigger] h[i]).op) == Some(least);
                    let j = choose|j: int|
                        0 <= j < h.len() && point_key((#[trigger] h[j]).op) == Some(greatest);
                    assert(bytes_le(a@, point_key(h[i].op)->0));
                    assert(bytes_le(point_key(h[j].op)->0, b@));
                    lemma_bytes_lt_total(a@, least);
                    lemma_bytes_lt_total(b@, greatest);
                },
                None => {
                    lemma_key_bounds(h, Seq::empty());
                    if let Some(least) = least_key(h) {
                        let i = choose|i: int|
                            0 <= i < h.len() && point_key((#[trigger] h[i]).op) == Some(least);
                        assert(point_key(h[i].op) is None);
                    }
                    if let Some(greatest) = greatest_key(h) {
                        let i = choose|i: int|
                            0 <= i < h.len() && point_key((#[trigger] h[i]).op) == Some(greatest);
                        assert(point_key(h[i].op) is None);
                    }
                },
            }
        }
        r
    }
}

/// Total bytes of the tables at `level`.
pub open spec fn level_size(tables: Seq<TableFile>, level: usize) -> nat
    decreases tables.len(),
{
    if tables.len() == 0 {
        0
    } else if tables.last().at_level() == level {
        at_most_u64(
            level_size(tables.drop_last(), level) + at_most_u64(
                weight_of(tables.last().history()),
            ),
        )
    } else {
        level_size(tables.drop_last(), level)
    }
}

impl RegolithEngine {
    /// The finished tables, oldest first.
    pub fn tables(&self) -> (r: &Vec<TableFile>)
        requires
            self.wf(),
        ensures
            r@ == self.files(),
            forall|i: int| 0 <= i < r@.len() ==> (#[trigger] r@[i]).wf(),
    {
        &self.tables
    }

    /// The capacity of the block cache.
    pub fn block_cache_capacity(&self) -> (r: u64)
        ensures
            r == self.settings().block_cache_size,
    {
        self.options.block_cache_size as u64
    }

    /// Total bytes of the tables at `level`.
    pub fn level_bytes(&self, level: usize) -> (r: u64)
        requires
            self.wf(),
        ensures
            r == level_size(self.files(), level),
    {
        let mut n: u64 = 0;
        let mut i: usize = 0;
        assert(self.tables@.take(0) =~= Seq::<TableFile>::empty());
        while i < self.tables.len()
            invariant
                self.wf(),
                i <= self.tables@.len(),
                n == level_size(self.tables@.take(i as int), level),
            decreases self.tables@.len() - i,
        {
            proof {
                assert(self.tables@.take(i + 1).drop_last() =~= self.tables@.take(i as int));
                assert(self.tables@[i as int].wf());
            }
            if self.tables[i].level == level {
                n = n.saturating_add(self.tables[i].table.size());
            }
            i += 1;
        }
        assert(self.tables@.take(i as int) =~= self.tables@);
        n
    }

    /// The sizes of the level-0 tables, oldest first.
    fn level0_sizes(&self) -> (r: Vec<u64>)
        requires
            self.wf(),
        ensures
            r@ == level0_sizes(self.files()),
    {
        let mut sizes: Vec<u64> = Vec::new();
        let mut i: usize = 0;
        assert(self.tables@.take(0) =~= Seq::<TableFile>::empty());
        while i < self.tables.len()
            invariant
                self.wf(),
                i <= self.tables@.len(),
                sizes@ == level0_sizes(self.tables@.take(i as int)),
            decreases self.tables@.len() - i,
        {
            proof {
                assert(self.tables@.take(i + 1).drop_last() =~= self.tables@.take(i as int));
                assert(self.tables@[i as int].wf());
            }
            if self.tables[i].level == 0 {
                sizes.push(self.tables[i].table.size());
            }
            i += 1;
        }
        assert(self.tables@.take(i as int) =~= self.tables@);
        sizes
    }

    /// Every write of a finished table could be stored.
    proof fn lemma_table_storable(self, i: int)
        requires
            self.wf(),
            0 <= i < self.tables@.len(),
        ensures
            forall|j: int|
                0 <= j < self.tables@[i].history().len() ==> crate::engine::memtable::storable(
                    (#[trigger] self.tables@[i].history()[j]).op,
                ),
    {
        let all = self.tables@;
        let below = stacked(all.take(i));
        let h = all[i].history();
        lemma_stacked_split(all, i + 1);
        assert(all.take(i + 1).drop_last() =~= all.take(i));
        assert forall|j: int| 0 <= j < h.len() implies crate::engine::memtable::storable(
            (#[trigger] h[j]).op,
        ) by {
            assert(self.history()[below.len() + j] == h[j]);
        }
    }

    /// A copy of what the finished tables hold, with an empty log: what a
    /// store that holds exactly that would leave behind.
    pub fn copy_finished(&self) -> (r: Stored)
        requires
            self.wf(),
        ensures
            r.wf(),
            r.was_opened(),
            r.finished() == stacked(self.files()),
            r.log() == Seq::<u8>::empty(),
            r.mark() <= self.horizon(),
            self.active().len() == 0 ==> r.mark() == self.horizon(),
    {
        let mut tables: Vec<TableFile> = Vec::new();
        let mut i: usize = 0;
        assert(self.tables@.take(0) =~= Seq::<TableFile>::empty());
        while i < self.tables.len()
            invariant
                self.wf(),
                i <= self.tables@.len(),
                tables@.len() == i,
                forall|j: int| 0 <= j < i ==> (#[trigger] tables@[j]).wf(),
                stacked(tables@) == stacked(self.tables@.take(i as int)),
            decreases self.tables@.len() - i,
        {
            let file: &TableFile = &self.tables[i];
            let ghost before = tables@;
            assert(self.tables@[i as int].wf());
            proof {
                self.lemma_table_storable(i as int);
            }
            tables.push(
                TableFile {
                    table: file.table.duplicate(),
                    file_id: file.file_id,
                    level: file.level,
                },
            );
            proof {
                assert(self.tables@.take(i + 1).drop_last() =~= self.tables@.take(i as int));
                assert(tables@.drop_last() =~= before);
                assert forall|j: int| 0 <= j < i + 1 implies (#[trigger] tables@[j]).wf() by {
                    if j < i {
                        assert(tables@[j] == before[j]);
                    }
                }
            }
            i += 1;
        }
        assert(self.tables@.take(i as int) =~= self.tables@);
        proof {
            let below = stacked(self.tables@);
            assert(below =~= self.history().take(below.len() as int));
            lemma_prefix_whole(self.history(), below.len() as int, self.last_seq);
        }
        let log: Vec<u8> = Vec::new();
        assert(log@ =~= Seq::<u8>::empty());
        Stored { tables, log, floor: self.floor, opened: true }
    }
}

} // verus!
