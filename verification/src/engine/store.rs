//! The engine: tables of writes, the log behind the newest of them, and
//! reads across all of them.

pub mod files;
pub mod levels;
pub mod universal;

use std::sync::Arc;
use std::time::{Duration, Instant};

use vstd::prelude::*;

use crate::batch::{ops_of, WriteBatchOp};
use crate::bytes::{bytes_lt, lemma_bytes_lt_transitive, views};
use crate::column_family::CF_PREFIX_LEN;
use crate::engine::clock::{span, start_of_work, time_since};
use crate::engine::memtable::{
    ascending, at_most_u64, names_within, point_key, records_of, storable, tally, weight_of,
    Found, FoundEnd, MemTable,
};
use crate::engine::read::{
    is_scan, merge_failure, merge_failure_error, merge_keys, read_at, row_holds, row_views, settle,
    Read, Row,
};
use crate::engine::snapshot_registry::{Pin, SnapshotRegistry};
use crate::engine::wal::{
    capped, check_write_len, clean_from, logged, ops_record, ops_record_len, ops_record_size, replay, replay_of,
    stamp_of, Wal, WalEntry, MAX_RECORD_LEN, WAL_STAMP_LEN,
};
use crate::env::Capabilities;
use crate::error::{ErrorKind, IoError};
use crate::engine::store::levels::{
    is_creation_info, is_flush_info, told_created, told_flushed,
};
use crate::event_listener::{
    tell_all_created, tell_all_flushed, FlushJobInfo, TableFileCreationInfo,
    TableFileCreationReason,
};
use crate::history::{
    beyond, covers, layered, lemma_found_was_written, lemma_probe_layers, numbered, ordered, probe,
    within, End, Logged, Op, Probe,
};
use crate::options::{EngineOptions, MergeOperator};
use crate::text::{decimal_text, join2, zero_pad, zero_padded};

verus! {

/// A table of writes that no longer takes any.
pub struct TableFile {
    pub(crate) table: MemTable,
    pub(crate) file_id: u64,
    pub(crate) level: usize,
}

impl TableFile {
    /// The writes the table holds, in order.
    pub closed spec fn history(self) -> Seq<Logged> {
        self.table.history()
    }

    /// The table is whole.
    pub closed spec fn wf(self) -> bool {
        self.table.wf()
    }

    /// Sequence numbers grow along the writes of a table.
    pub proof fn lemma_table_ordered(self)
        requires
            self.wf(),
        ensures
            ordered(self.history()),
    {
        self.table.lemma_ordered();
    }
}

/// The writes of a stack of tables, oldest table first.
pub open spec fn stacked(tables: Seq<TableFile>) -> Seq<Logged>
    decreases tables.len(),
{
    if tables.len() == 0 {
        Seq::empty()
    } else {
        stacked(tables.drop_last()) + tables.last().history()
    }
}

/// What a refused write is told.
pub open spec fn write_refusal(ops: Seq<Op>, disable_wal: bool) -> Option<Seq<char>> {
    if !disable_wal && ops_record_size(ops) > MAX_RECORD_LEN {
        Some(
            "write is too large: it would log "@ + decimal_text(
                capped(ops_record_size(ops) as int) as nat,
            ) + " bytes and one write can log at most "@ + decimal_text(MAX_RECORD_LEN as nat)
                + "; split it into smaller writes"@,
        )
    } else if exists|i: int| 0 <= i < ops.len() && !storable(#[trigger] ops[i]) {
        Some("entry is too large to store"@)
    } else {
        None
    }
}

/// Fail where a write of `ops` would be refused.
pub(crate) fn check_ops(ops: &Vec<WriteBatchOp>, disable_wal: bool) -> (r: Result<(), IoError>)
    ensures
        match write_refusal(ops_of(ops@), disable_wal) {
            Some(message) => r matches Err(e) && e.kind == ErrorKind::InvalidInput && e.message@
                == message,
            None => r is Ok,
        },
{
    let ghost all = ops_of(ops@);
    if !disable_wal {
        if let Err(e) = check_write_len(ops_record_len(ops.as_slice())) {
            proof {
                assert(ops_record_size(all) > MAX_RECORD_LEN);
            }
            return Err(e);
        }
        assert(ops_record_size(all) <= MAX_RECORD_LEN);
    }
    let mut n: usize = 0;
    while n < ops.len()
        invariant
            n <= ops@.len(),
            all == ops_of(ops@),
            !disable_wal ==> ops_record_size(all) <= MAX_RECORD_LEN,
            forall|j: int| 0 <= j < n ==> storable(#[trigger] all[j]),
        decreases ops@.len() - n,
    {
        if !is_storable(&ops[n]) {
            assert(!storable(all[n as int]));
            return Err(
                IoError {
                    kind: ErrorKind::InvalidInput,
                    message: "entry is too large to store".to_owned(),
                },
            );
        }
        assert(storable(all[n as int]));
        n += 1;
    }
    Ok(())
}

/// A stack of histories probed one above the other.
proof fn lemma_layered_associative(a: Probe, b: Probe, c: Probe)
    ensures
        layered(layered(a, b), c) == layered(a, layered(b, c)),
{
    match c.end {
        End::Open => {
            match b.end {
                End::Open => {
                    assert((a.operands + b.operands) + c.operands =~= a.operands + (b.operands
                        + c.operands));
                },
                _ => {},
            }
        },
        _ => {},
    }
}

/// What was found of a key in an older and a newer stretch, together.
fn layer(older: Found, newer: Found) -> (r: Found)
    requires
        newer.end is Open,
    ensures
        r@ == layered(older@, newer@),
{
    let mut operands: Vec<Vec<u8>> = older.operands;
    let ghost first = views(operands@);
    let mut rest: Vec<Vec<u8>> = newer.operands;
    let ghost second = views(rest@);
    operands.append(&mut rest);
    assert(views(operands@) =~= first + second);
    Found { operands, end: older.end }
}

/// The engine.
pub struct RegolithEngine {
    // Oldest first.
    tables: Vec<TableFile>,
    mem: MemTable,
    wal: Wal,
    last_seq: u64,
    // Where the horizon stood when the log was begun.
    floor: u64,
    closed: bool,
    // Whether the memtable holds a write the log does not.
    unlogged: bool,
    // Whether a write asked for a sync that has not been reported done.
    sync_due: bool,
    next_file_id: u64,
    snapshots: SnapshotRegistry,
    unix_secs: Option<u64>,
    options: EngineOptions,
    logged: Ghost<Seq<Logged>>,
}

impl RegolithEngine {
    /// Every write the engine holds, in order.
    pub closed spec fn history(self) -> Seq<Logged> {
        stacked(self.tables@) + self.mem.history()
    }

    /// The writes that would survive a crash: those of finished tables, and
    /// those in the log.
    pub closed spec fn durable(self) -> Seq<Logged> {
        stacked(self.tables@) + self.logged@
    }

    /// The newest sequence number a read may use.
    pub closed spec fn horizon(self) -> u64 {
        self.last_seq
    }

    /// The engine was closed.
    pub closed spec fn is_shut(self) -> bool {
        self.closed
    }

    /// A sync was asked for and has not been reported done.
    pub closed spec fn owes_sync(self) -> bool {
        self.sync_due
    }

    /// What the engine was opened with.
    pub closed spec fn settings(self) -> EngineOptions {
        self.options
    }

    /// The live snapshots.
    pub closed spec fn registry(self) -> SnapshotRegistry {
        self.snapshots
    }

    /// The time the host last reported.
    pub closed spec fn clock(self) -> Option<u64> {
        self.unix_secs
    }

    /// Where the horizon stood when the log was begun.
    pub closed spec fn log_mark(self) -> u64 {
        self.floor
    }

    /// The bytes of the log.
    pub closed spec fn log(self) -> Seq<u8> {
        self.wal.log()
    }

    /// The name of the log.
    pub closed spec fn log_name(self) -> Seq<char> {
        self.wal.name()
    }

    /// The merge operator in use.
    pub open spec fn operator(self) -> Option<Arc<dyn MergeOperator>> {
        self.settings().merge_operator
    }

    /// The tables are whole and in order, no write is newer than the
    /// horizon, and the log replays to what it should.
    pub closed spec fn wf(self) -> bool {
        &&& self.mem.wf()
        &&& forall|i: int| 0 <= i < self.tables@.len() ==> (#[trigger] self.tables@[i]).wf()
        &&& ordered(self.history())
        &&& within(self.history(), self.last_seq)
        &&& self.wal.holds(self.logged@)
        &&& ordered(self.durable())
        &&& within(self.durable(), self.last_seq)
        &&& beyond(self.logged@, self.floor)
        &&& self.floor <= self.last_seq
        &&& self.mem.history().len() == 0 ==> self.floor == self.last_seq
        &&& !self.unlogged ==> self.logged@ == self.mem.history()
        &&& self.logged@.len() <= self.mem.history().len()
        &&& all_storable(self.history())
        &&& all_storable(self.durable())
        &&& self.snapshots.wf()
    }

    /// Every stored key carries its prefix.
    pub proof fn lemma_keyed(self)
        requires
            self.wf(),
        ensures
            all_storable(self.history()),
    {
    }

    /// Sequence numbers grow along the history, up to the horizon.
    pub proof fn lemma_ordered(self)
        requires
            self.wf(),
        ensures
            ordered(self.history()),
            within(self.history(), self.horizon()),
            ordered(self.durable()),
            within(self.durable(), self.horizon()),
    {
    }

    /// What the engine holds of the stored key `key`, as a read at `seq`
    /// sees it.
    pub fn lookup(&self, key: &[u8], seq: u64) -> (r: Found)
        requires
            self.wf(),
        ensures
            r@ == probe(self.history(), key@, seq),
    {
        let mut found: Found = self.mem.lookup(key, seq);
        let mut i: usize = self.tables.len();
        proof {
            lemma_probe_layers(stacked(self.tables@), self.mem.history(), key@, seq);
            assert(self.tables@.take(i as int) =~= self.tables@);
        }
        while i > 0 && matches!(found.end, FoundEnd::Open)
            invariant
                self.wf(),
                i <= self.tables@.len(),
                probe(self.history(), key@, seq) == layered(
                    probe(stacked(self.tables@.take(i as int)), key@, seq),
                    found@,
                ),
            decreases i,
        {
            let ghost newer = found@;
            let older: Found = self.tables[i - 1].table.lookup(key, seq);
            let ghost below = self.tables@.take(i - 1);
            let ghost here = self.tables@[i - 1].history();
            proof {
                assert(self.tables@.take(i as int).drop_last() =~= below);
                assert(self.tables@.take(i as int).last() == self.tables@[i - 1]);
                lemma_probe_layers(stacked(below), here, key@, seq);
                lemma_layered_associative(
                    probe(stacked(below), key@, seq),
                    probe(here, key@, seq),
                    newer,
                );
            }
            found = layer(older, found);
            i -= 1;
        }
        proof {
            if i == 0 {
                assert(self.tables@.take(0) =~= Seq::<TableFile>::empty());
                let none = probe(Seq::<Logged>::empty(), key@, seq);
                assert(none.operands + found@.operands =~= found@.operands);
            }
        }
        found
    }

    /// The value of the stored key `key` as a read at `seq` sees it.
    pub fn get(&self, key: &[u8], seq: u64) -> (r: Result<Option<Vec<u8>>, IoError>)
        requires
            self.wf(),
        ensures
            match read_at(self.operator(), self.history(), key@, seq) {
                Read::Value(value) => r matches Ok(v) && crate::bytes::opt_view(v) == value,
                Read::MergeFailed => r matches Err(e) && e.kind == ErrorKind::InvalidData
                    && e.message@ == merge_failure(self.operator()),
            },
    {
        let found: Found = self.lookup(key, seq);
        settle(&self.options.merge_operator, key, found)
    }

    /// The value of the stored key `key` as a read at `seq` sees it, unless
    /// the engine was closed.
    pub fn read(&self, key: &[u8], seq: u64) -> (r: Result<Option<Vec<u8>>, IoError>)
        requires
            self.wf(),
        ensures
            if self.is_shut() {
                r matches Err(e) && e.kind == ErrorKind::NotConnected && e.message@
                    == "database is closed"@
            } else {
                match read_at(self.operator(), self.history(), key@, seq) {
                    Read::Value(value) => r matches Ok(v) && crate::bytes::opt_view(v) == value,
                    Read::MergeFailed => r matches Err(e) && e.kind == ErrorKind::InvalidData
                        && e.message@ == merge_failure(self.operator()),
                }
            },
    {
        if self.closed {
            return Err(IoError::new(ErrorKind::NotConnected, "database is closed"));
        }
        self.get(key, seq)
    }

    /// How a failed merge is reported.
    pub fn merge_failure_message(&self) -> (r: String)
        ensures
            r@ == merge_failure(self.operator()),
    {
        merge_failure_error(&self.options.merge_operator).message
    }

    /// The stored keys in `[lo, hi)` that point writes name, each once, in
    /// order.
    fn keys_in(&self, lo: &[u8], hi: &[u8]) -> (r: Vec<Vec<u8>>)
        requires
            self.wf(),
        ensures
            ascending(views(r@)),
            forall|k: Seq<u8>| #[trigger] views(r@).contains(k) ==> covers(lo@, hi@, k),
            forall|i: int|
                0 <= i < self.history().len() ==> names_within(
                    #[trigger] self.history()[i],
                    lo@,
                    hi@,
                    views(r@),
                ),
    {
        let mut keys: Vec<Vec<u8>> = self.mem.keys_in(lo, hi);
        let mut i: usize = 0;
        proof {
            assert forall|k: Seq<u8>| #[trigger] views(keys@).contains(k) implies covers(
                lo@,
                hi@,
                k,
            ) by {
                let x = choose|x: int| 0 <= x < views(keys@).len() && views(keys@)[x] == k;
                assert(covers(lo@, hi@, views(keys@)[x]));
            }
            assert(self.tables@.take(0) =~= Seq::<TableFile>::empty());
        }
        while i < self.tables.len()
            invariant
                self.wf(),
                i <= self.tables@.len(),
                ascending(views(keys@)),
                forall|k: Seq<u8>| #[trigger] views(keys@).contains(k) ==> covers(lo@, hi@, k),
                forall|x: int|
                    0 <= x < self.mem.history().len() ==> names_within(
                        #[trigger] self.mem.history()[x],
                        lo@,
                        hi@,
                        views(keys@),
                    ),
                forall|x: int|
                    0 <= x < stacked(self.tables@.take(i as int)).len() ==> names_within(
                        #[trigger] stacked(self.tables@.take(i as int))[x],
                        lo@,
                        hi@,
                        views(keys@),
                    ),
            decreases self.tables@.len() - i,
        {
            let ghost before = views(keys@);
            let more: Vec<Vec<u8>> = self.tables[i].table.keys_in(lo, hi);
            keys = merge_keys(&keys, &more);
            proof {
                let here = self.tables@[i as int].history();
                let below = stacked(self.tables@.take(i as int));
                assert(self.tables@.take(i + 1).drop_last() =~= self.tables@.take(i as int));
                assert(stacked(self.tables@.take(i + 1)) =~= below + here);
                assert forall|k: Seq<u8>| #[trigger] views(keys@).contains(k) implies covers(
                    lo@,
                    hi@,
                    k,
                ) by {
                    if views(more@).contains(k) {
                        let x = choose|x: int| 0 <= x < views(more@).len() && views(more@)[x] == k;
                        assert(covers(lo@, hi@, views(more@)[x]));
                    }
                }
                assert forall|x: int| 0 <= x < (below + here).len() implies names_within(
                    #[trigger] (below + here)[x],
                    lo@,
                    hi@,
                    views(keys@),
                ) by {
                    if x < below.len() {
                        assert(names_within(below[x], lo@, hi@, before));
                    } else {
                        assert(names_within(here[x - below.len()], lo@, hi@, views(more@)));
                    }
                }
            }
            i += 1;
        }
        proof {
            assert(self.tables@.take(i as int) =~= self.tables@);
            let below = stacked(self.tables@);
            assert forall|x: int| 0 <= x < self.history().len() implies names_within(
                #[trigger] self.history()[x],
                lo@,
                hi@,
                views(keys@),
            ) by {
                if x < below.len() {
                    assert(names_within(below[x], lo@, hi@, views(keys@)));
                } else {
                    assert(names_within(
                        self.mem.history()[x - below.len()],
                        lo@,
                        hi@,
                        views(keys@),
                    ));
                }
            }
        }
        keys
    }

    /// What a scan of the stored keys in `[lo, hi)` at `seq` comes to.
    pub fn scan(&self, lo: &[u8], hi: &[u8], seq: u64) -> (r: Vec<Row>)
        requires
            self.wf(),
        ensures
            is_scan(self.operator(), self.history(), lo@, hi@, seq, row_views(r@)),
    {
        let keys: Vec<Vec<u8>> = self.keys_in(lo, hi);
        let ghost names = views(keys@);
        let ghost h = self.history();
        let ghost operator = self.operator();
        let mut rows: Vec<Row> = Vec::new();
        let mut i: usize = 0;
        while i < keys.len()
            invariant
                self.wf(),
                h == self.history(),
                operator == self.operator(),
                names == views(keys@),
                ascending(names),
                forall|k: Seq<u8>| #[trigger] names.contains(k) ==> covers(lo@, hi@, k),
                i <= keys@.len(),
                forall|x: int, y: int|
                    0 <= x < y < row_views(rows@).len() ==> bytes_lt(
                        (#[trigger] row_views(rows@)[x]).key,
                        (#[trigger] row_views(rows@)[y]).key,
                    ),
                forall|x: int|
                    0 <= x < row_views(rows@).len() ==> covers(
                        lo@,
                        hi@,
                        (#[trigger] row_views(rows@)[x]).key,
                    ) && row_holds(
                        read_at(operator, h, row_views(rows@)[x].key, seq),
                        row_views(rows@)[x],
                    ),
                forall|x: int|
                    0 <= x < row_views(rows@).len() && i < names.len() ==> bytes_lt(
                        (#[trigger] row_views(rows@)[x]).key,
                        names[i as int],
                    ),
                forall|y: int|
                    0 <= y < i && read_at(operator, h, #[trigger] names[y], seq) != Read::Value(
                        None,
                    ) ==> exists|x: int|
                        0 <= x < row_views(rows@).len() && (#[trigger] row_views(rows@)[x]).key
                            == names[y],
            decreases keys@.len() - i,
        {
            let ghost before = row_views(rows@);
            let ghost k = names[i as int];
            proof {
                assert(names.contains(k));
                if i + 1 < names.len() {
                    assert(bytes_lt(names[i as int], names[i + 1]));
                    assert forall|x: int| 0 <= x < before.len() implies bytes_lt(
                        (#[trigger] before[x]).key,
                        names[i + 1],
                    ) by {
                        lemma_bytes_lt_transitive(before[x].key, k, names[i + 1]);
                    }
                }
            }
            let value: Option<Option<Vec<u8>>> = match self.get(keys[i].as_slice(), seq) {
                Ok(Some(value)) => Some(Some(value)),
                Ok(None) => None,
                Err(_) => Some(None),
            };
            if let Some(value) = value {
                rows.push(Row { key: crate::bytes::copy(keys[i].as_slice()), value });
                proof {
                    let after = row_views(rows@);
                    assert(after =~= before.push(after.last()));
                    assert(after.last().key == k);
                    assert forall|x: int, y: int| 0 <= x < y < after.len() implies bytes_lt(
                        (#[trigger] after[x]).key,
                        (#[trigger] after[y]).key,
                    ) by {
                        assert(after[x] == before[x]);
                        if y < before.len() {
                            assert(after[y] == before[y]);
                        }
                    }
                    assert forall|x: int| 0 <= x < after.len() implies covers(
                        lo@,
                        hi@,
                        (#[trigger] after[x]).key,
                    ) && row_holds(read_at(operator, h, after[x].key, seq), after[x]) by {
                        if x < before.len() {
                            assert(after[x] == before[x]);
                        }
                    }
                    assert forall|x: int|
                        0 <= x < after.len() && i + 1 < names.len() implies bytes_lt(
                        (#[trigger] after[x]).key,
                        names[i + 1],
                    ) by {
                        if x < before.len() {
                            assert(after[x] == before[x]);
                        }
                    }
                    assert forall|y: int|
                        0 <= y < i + 1 && read_at(operator, h, #[trigger] names[y], seq)
                            != Read::Value(None) implies exists|x: int|
                        0 <= x < after.len() && (#[trigger] after[x]).key == names[y] by {
                        if y < i {
                            let x = choose|x: int|
                                0 <= x < before.len() && (#[trigger] before[x]).key == names[y];
                            assert(after[x] == before[x]);
                        } else {
                            assert(after[before.len() as int].key == names[y]);
                        }
                    }
                }
            }
            i += 1;
        }
        proof {
            let rv = row_views(rows@);
            assert forall|key: Seq<u8>|
                covers(lo@, hi@, key) && #[trigger] read_at(operator, h, key, seq) != Read::Value(
                    None,
                ) implies exists|x: int| 0 <= x < rv.len() && (#[trigger] rv[x]).key == key by {
                let w = lemma_found_was_written(h, key, seq);
                assert(names_within(h[w], lo@, hi@, names));
                assert(point_key(h[w].op) == Some(key));
                let y = choose|y: int| 0 <= y < names.len() && names[y] == key;
                assert(read_at(operator, h, names[y], seq) != Read::Value(None));
            }
        }
        rows
    }
}

/// What an engine leaves behind: its finished tables and its log.
pub struct Stored {
    tables: Vec<TableFile>,
    log: Vec<u8>,
    // Where the horizon stood when the log was begun.
    floor: u64,
    // Whether a database was ever opened there.
    opened: bool,
}

impl Stored {
    /// Whether a database was ever opened there.
    pub closed spec fn was_opened(self) -> bool {
        self.opened
    }

    /// The finished tables, oldest first.
    pub closed spec fn files(self) -> Seq<TableFile> {
        self.tables@
    }

    /// The writes of the finished tables.
    pub closed spec fn finished(self) -> Seq<Logged> {
        stacked(self.tables@)
    }

    /// The bytes of the log.
    pub closed spec fn log(self) -> Seq<u8> {
        self.log@
    }

    /// Where the horizon stood when the log was begun.
    pub closed spec fn mark(self) -> u64 {
        self.floor
    }

    /// The tables are whole and in order.
    pub closed spec fn wf(self) -> bool {
        &&& forall|i: int| 0 <= i < self.tables@.len() ==> (#[trigger] self.tables@[i]).wf()
        &&& ordered(stacked(self.tables@))
        &&& all_storable(stacked(self.tables@))
    }

    /// What a store that was never opened leaves behind: nothing.
    pub fn empty() -> (r: Self)
        ensures
            r.wf(),
            !r.was_opened(),
            r.files() == Seq::<TableFile>::empty(),
            r.finished() == Seq::<Logged>::empty(),
            r.log() == Seq::<u8>::empty(),
            r.mark() == 0,
    {
        let r = Stored { tables: Vec::new(), log: Vec::new(), floor: 0, opened: false };
        assert(r.log() =~= Seq::<u8>::empty());
        assert(r.files() =~= Seq::<TableFile>::empty());
        r
    }

    /// A store of which only a log is left.
    pub fn from_log(log: Vec<u8>) -> (r: Self)
        ensures
            r.wf(),
            r.was_opened(),
            r.files() == Seq::<TableFile>::empty(),
            r.finished() == Seq::<Logged>::empty(),
            r.log() == log@,
            r.mark() == 0,
    {
        let r = Stored { tables: Vec::new(), log, floor: 0, opened: true };
        assert(r.files() =~= Seq::<TableFile>::empty());
        r
    }

    /// Whether a database was ever opened there.
    pub fn is_opened(&self) -> (r: bool)
        ensures
            r == self.was_opened(),
    {
        self.opened
    }

    /// The bytes of the log that was left.
    pub fn log_bytes(&self) -> (r: &[u8])
        ensures
            r@ == self.log(),
    {
        self.log.as_slice()
    }
}

/// Every key of the operation carries a column-family prefix.
pub open spec fn keyed(op: Op) -> bool {
    match op {
        Op::DeleteRange { start, end } => start.len() >= CF_PREFIX_LEN && end.len()
            >= CF_PREFIX_LEN,
        _ => point_key(op)->0.len() >= CF_PREFIX_LEN,
    }
}

/// Every write can be stored, and every key carries its prefix.
pub open spec fn all_storable(h: Seq<Logged>) -> bool {
    forall|i: int| 0 <= i < h.len() ==> storable((#[trigger] h[i]).op) && keyed(h[i].op)
}

/// What opening what was left behind comes to: the writes it holds, or why
/// they cannot be taken.
pub open spec fn recovered(stored: Stored, name: Seq<char>) -> Result<Seq<Logged>, Seq<char>> {
    match replay_of(stored.log(), name) {
        Err(message) => Err(message),
        Ok(done) => if ordered(stored.finished() + done.entries) && all_storable(done.entries)
            && beyond(done.entries, stored.mark()) {
            Ok(stored.finished() + done.entries)
        } else {
            Err("log entries are out of sequence, unprefixed, or too large to store"@)
        },
    }
}

/// The newest sequence number of a history, zero for an empty one.
pub open spec fn newest(h: Seq<Logged>) -> u64 {
    if h.len() == 0 {
        0
    } else {
        h.last().seq
    }
}

/// Where the horizon stands once a history is recovered: no lower than it
/// stood when the log was begun.
pub open spec fn reached(stored: Stored, h: Seq<Logged>) -> u64 {
    if newest(h) < stored.mark() {
        stored.mark()
    } else {
        newest(h)
    }
}

/// One more write of a growing history keeps it in order.
proof fn lemma_ordered_push(h: Seq<Logged>, l: Logged)
    requires
        ordered(h),
        l.seq >= 1,
        within(h, (l.seq - 1) as u64),
    ensures
        ordered(h.push(l)),
        within(h.push(l), l.seq),
{
    let g = h.push(l);
    assert forall|i: int| 0 <= i < g.len() implies (#[trigger] g[i]).seq >= 1 by {
        if i < h.len() {
            assert(g[i] == h[i]);
        }
    }
    assert forall|i: int, j: int| 0 <= i < j < g.len() implies (#[trigger] g[i]).seq < (
    #[trigger] g[j]).seq by {
        assert(g[i] == h[i]);
        if j < h.len() {
            assert(g[j] == h[j]);
        }
    }
    assert forall|i: int| 0 <= i < g.len() implies (#[trigger] g[i]).seq <= l.seq by {
        if i < h.len() {
            assert(g[i] == h[i]);
        }
    }
}

/// Writes numbered on from the bound of a history keep it in order.
pub proof fn lemma_ordered_numbered(h: Seq<Logged>, bound: u64, ops: Seq<Op>)
    requires
        ordered(h),
        within(h, bound),
        bound + ops.len() <= u64::MAX,
    ensures
        ordered(h + numbered(ops, bound + 1)),
        within(h + numbered(ops, bound + 1), (bound + ops.len()) as u64),
        beyond(numbered(ops, bound + 1), bound),
{
    let more = numbered(ops, bound + 1);
    let g = h + more;
    assert forall|i: int| 0 <= i < more.len() implies (#[trigger] more[i]).seq == bound + 1
        + i by {}
    assert forall|i: int| 0 <= i < g.len() implies (#[trigger] g[i]).seq >= 1 && g[i].seq <= bound
        + ops.len() by {
        if i < h.len() {
            assert(g[i] == h[i]);
        } else {
            assert(g[i] == more[i - h.len()]);
        }
    }
    assert forall|i: int, j: int| 0 <= i < j < g.len() implies (#[trigger] g[i]).seq < (
    #[trigger] g[j]).seq by {
        if i < h.len() {
            assert(g[i] == h[i]);
        } else {
            assert(g[i] == more[i - h.len()]);
        }
        if j < h.len() {
            assert(g[j] == h[j]);
        } else {
            assert(g[j] == more[j - h.len()]);
        }
    }
}

/// Part of an ordered history is ordered.
proof fn lemma_ordered_prefix(h: Seq<Logged>, n: int)
    requires
        ordered(h),
        0 <= n <= h.len(),
    ensures
        ordered(h.take(n)),
{
    let g = h.take(n);
    assert forall|i: int| 0 <= i < g.len() implies (#[trigger] g[i]).seq >= 1 by {
        assert(g[i] == h[i]);
    }
    assert forall|i: int, j: int| 0 <= i < j < g.len() implies (#[trigger] g[i]).seq < (
    #[trigger] g[j]).seq by {
        assert(g[i] == h[i]);
        assert(g[j] == h[j]);
    }
}

fn is_storable(op: &WriteBatchOp) -> (r: bool)
    ensures
        r == storable(op@),
{
    match op {
        WriteBatchOp::Put { key, value } => fits(key.len(), value.len()),
        WriteBatchOp::Delete { key } => fits(key.len(), 0),
        WriteBatchOp::Merge { key, operand } => fits(key.len(), operand.len()),
        WriteBatchOp::DeleteRange { .. } => true,
    }
}

fn fits(key_len: usize, value_len: usize) -> (r: bool)
    ensures
        r == (key_len + 9 <= u32::MAX && value_len <= u32::MAX),
{
    key_len <= 0xFFFF_FFF6 && value_len <= 0xFFFF_FFFF
}

impl RegolithEngine {
    /// What no write changes.
    pub open spec fn same_setting(self, before: Self) -> bool {
        &&& self.settings() == before.settings()
        &&& self.registry() == before.registry()
        &&& self.clock() == before.clock()
        &&& self.is_shut() == before.is_shut()
        &&& self.log_name() == before.log_name()
    }

    /// Open what an engine left behind, under the log name `name`.
    pub fn recover(name: &str, stored: Stored, options: EngineOptions) -> (r: Result<Self, IoError>)
        requires
            stored.wf(),
        ensures
            match recovered(stored, name@) {
                Ok(h) => r matches Ok(engine) && engine.wf() && engine.files() == stored.files()
                    && engine.history() == h
                    && engine.durable() == h && engine.horizon() == reached(stored, h) && engine.settings()
                    == options && engine.registry().pins() == Map::<u64, Pin>::empty()
                    && engine.registry().live() == 0 && engine.registry().wakes() == 0
                    && engine.registry().waiters() == 0
                    && engine.clock() is None && !engine.is_shut() && !engine.owes_sync()
                    && engine.log_name() == name@,
                Err(message) => r matches Err(e) && e.kind == ErrorKind::InvalidData && e.message@
                    == message,
            },
    {
        let ghost finished = stored.finished();
        let tables: Vec<TableFile> = stored.tables;
        let mut image: Vec<u8> = stored.log;
        let done = match replay(name, image.as_slice()) {
            Ok(done) => done,
            Err(e) => {
                return Err(e);
            },
        };
        let entries: Vec<WalEntry> = done.entries;
        let ghost all = logged(entries@);
        let floor: u64 = stored.floor;
        let mut last: u64 = newest_of(&tables);
        if last < floor {
            last = floor;
        }
        let mut mem: MemTable = MemTable::new();
        let mut i: usize = 0;
        proof {
            assert(all.take(0) =~= Seq::<Logged>::empty());
            assert(finished + all.take(0) =~= finished);
        }
        while i < entries.len()
            invariant
                i <= entries@.len(),
                all == logged(entries@),
                finished == stacked(tables@),
                mem.wf(),
                mem.history() == all.take(i as int),
                all_storable(all.take(i as int)),
                ordered(finished + all.take(i as int)),
                within(finished + all.take(i as int), last),
                beyond(all.take(i as int), floor),
                last == reached(stored, finished + all.take(i as int)),
                floor == stored.mark(),
                recovered(stored, name@) == (if ordered(finished + all) && all_storable(all)
                    && beyond(all, floor) {
                    Ok(finished + all)
                } else {
                    Err("log entries are out of sequence, unprefixed, or too large to store"@)
                }),
            decreases entries@.len() - i,
        {
            let entry = &entries[i];
            let ghost l = all[i as int];
            let ghost before = finished + all.take(i as int);
            let (seq, storable_entry): (u64, bool) = match entry {
                WalEntry::Put { key, value, seq } => (
                    *seq,
                    key.len() >= CF_PREFIX_LEN && fits(key.len(), value.len()),
                ),
                WalEntry::Delete { key, seq } => (
                    *seq,
                    key.len() >= CF_PREFIX_LEN && fits(key.len(), 0),
                ),
                WalEntry::Merge { key, operand, seq } => (
                    *seq,
                    key.len() >= CF_PREFIX_LEN && fits(key.len(), operand.len()),
                ),
                WalEntry::DeleteRange { start, end, seq } => (
                    *seq,
                    start.len() >= CF_PREFIX_LEN && end.len() >= CF_PREFIX_LEN,
                ),
            };
            assert(seq == l.seq);
            assert(storable_entry == (storable(l.op) && keyed(l.op)));
            if seq <= last || !storable_entry {
                proof {
                    if !storable_entry {
                        assert(!(storable(all[i as int].op) && keyed(all[i as int].op)));
                    } else if seq <= floor {
                        assert(!(all[i as int].seq > floor));
                    } else {
                        let whole = finished + all;
                        let n = finished.len() + i;
                        assert(whole[n as int] == l);
                        if before.len() > 0 {
                            assert(before.last() == whole[n - 1]);
                            assert(!(whole[n - 1].seq < whole[n as int].seq));
                        } else {
                            assert(!(whole[n as int].seq >= 1));
                        }
                        assert(!ordered(whole));
                    }
                }
                return Err(
                    IoError {
                        kind: ErrorKind::InvalidData,
                        message: "log entries are out of sequence, unprefixed, or too large to store".to_owned(),
                    },
                );
            }
            proof {
                assert(within(mem.history(), (seq - 1) as u64)) by {
                    assert forall|x: int| 0 <= x < mem.history().len() implies (
                    #[trigger] mem.history()[x]).seq <= (seq - 1) as u64 by {
                        assert(before[finished.len() + x] == mem.history()[x]);
                    }
                }
                assert(all.take(i + 1) =~= all.take(i as int).push(l));
                assert(finished + all.take(i + 1) =~= before.push(l));
                lemma_ordered_push(before, l);
                assert forall|x: int| 0 <= x < i + 1 implies (#[trigger] all.take(i + 1)[x]).seq
                    > floor by {
                    if x < i {
                        assert(all.take(i as int)[x].seq > floor);
                    }
                }
            }
            match entry {
                WalEntry::Put { key, value, .. } => mem.put(seq, key.as_slice(), value.as_slice()),
                WalEntry::Delete { key, .. } => mem.delete(seq, key.as_slice()),
                WalEntry::Merge { key, operand, .. } => mem.merge(
                    seq,
                    key.as_slice(),
                    operand.as_slice(),
                ),
                WalEntry::DeleteRange { start, end, .. } => mem.delete_range(
                    seq,
                    start.as_slice(),
                    end.as_slice(),
                ),
            }
            last = seq;
            i += 1;
        }
        proof {
            assert(all.take(i as int) =~= all);
            if stamp_of(image@) matches Ok(Some(_)) {
                crate::engine::wal::lemma_replay_kept(image@, name@, WAL_STAMP_LEN as int);
            }
        }
        // A torn tail is cut off, so that what is appended next follows the
        // last whole record; a log without its stamp holds nothing and is
        // begun anew.
        let kept: usize = match &done.tail {
            Some(tail) => tail.offset as usize,
            None => image.len(),
        };
        let wal: Wal = if kept < WAL_STAMP_LEN {
            let wal = Wal::create(name);
            proof {
                wal.lemma_new_holds();
                assert(all =~= Seq::<Logged>::empty());
            }
            wal
        } else {
            let ghost whole = image@;
            image.truncate(kept);
            proof {
                assert(image@ =~= whole.take(kept as int));
                assert(whole =~= whole.take(kept as int) + whole.skip(kept as int));
                crate::engine::wal::lemma_stamp_stable(whole.take(kept as int), whole.skip(kept as int));
            }
            Wal::resume(name, image)
        };
        proof {
            lemma_storable_add(finished, all);
        }
        let next_file_id: u64 = unused_file_id(&tables);
        let engine = RegolithEngine {
            tables,
            mem,
            wal,
            last_seq: last,
            floor: if entries.len() == 0 {
                last
            } else {
                floor
            },
            closed: false,
            unlogged: false,
            sync_due: false,
            next_file_id,
            snapshots: SnapshotRegistry::new(),
            unix_secs: None,
            options,
            logged: Ghost(all),
        };
        Ok(engine)
    }

    /// Write `ops` as one, under consecutive sequence numbers, and return
    /// the last of them: the new horizon. Unless told otherwise the write
    /// goes to the log first.
    pub fn apply(&mut self, ops: &Vec<WriteBatchOp>, sync: bool, disable_wal: bool) -> (r: Result<
        u64,
        IoError,
    >)
        requires
            old(self).wf(),
            ops@.len() > 0,
            forall|i: int| 0 <= i < ops@.len() ==> keyed(#[trigger] ops_of(ops@)[i]),
            old(self).horizon() + ops@.len() < u64::MAX,
        ensures
            final(self).wf(),
            match write_refusal(ops_of(ops@), disable_wal) {
                Some(message) => r matches Err(e) && e.kind == ErrorKind::InvalidInput
                    && e.message@ == message && *final(self) == *old(self),
                None => {
                    let written = numbered(ops_of(ops@), old(self).horizon() + 1);
                    &&& r == Ok::<u64, IoError>((old(self).horizon() + ops@.len()) as u64)
                    &&& final(self).same_setting(*old(self))
                    &&& final(self).horizon() == old(self).horizon() + ops@.len()
                    &&& final(self).history() == old(self).history() + written
                    &&& final(self).durable() == (if disable_wal {
                        old(self).durable()
                    } else {
                        old(self).durable() + written
                    })
                    &&& final(self).log() == (if disable_wal {
                        old(self).log()
                    } else {
                        old(self).log() + ops_record(ops_of(ops@), old(self).horizon() + 1)
                    })
                    &&& final(self).owes_sync() == (old(self).owes_sync() || (sync && !disable_wal))
                    &&& final(self).active() == old(self).active() + written
                    &&& final(self).files() == old(self).files()
                },
            },
    {
        let ghost before = *self;
        let ghost all = ops_of(ops@);
        if let Err(e) = check_ops(ops, disable_wal) {
            return Err(e);
        }
        let base: u64 = self.last_seq + 1;
        let ghost written = numbered(all, base as int);
        proof {
            lemma_ordered_numbered(before.history(), before.last_seq, all);
            lemma_ordered_numbered(before.durable(), before.last_seq, all);
        }
        if !disable_wal {
            proof {
                crate::engine::wal::lemma_record_covers(all, 0);
            }
            self.wal.append_ops(ops.as_slice(), base);
            let ghost grown = self.logged@ + written;
            self.logged = Ghost(grown);
            proof {
                Wal::lemma_append_holds(before.wal, self.wal, before.logged@, all, base as int);
                assert(stacked(self.tables@) + grown =~= before.durable() + written);
            }
        }
        let ghost logged_now = self.logged@;
        let ghost wal_now = self.wal;
        let mut i: usize = 0;
        assert(written.take(0) =~= Seq::<Logged>::empty());
        assert(before.mem.history() + written.take(0) =~= before.mem.history());
        while i < ops.len()
            invariant
                i <= ops@.len(),
                all == ops_of(ops@),
                before.wf(),
                base == before.last_seq + 1,
                before.last_seq + ops@.len() < u64::MAX,
                written == numbered(all, base as int),
                forall|j: int| 0 <= j < all.len() ==> storable(#[trigger] all[j]),
                self.mem.wf(),
                self.mem.history() == before.mem.history() + written.take(i as int),
                self.tables == before.tables,
                self.wal == wal_now,
                self.last_seq == before.last_seq,
                self.floor == before.floor,
                self.closed == before.closed,
                self.unlogged == before.unlogged,
                self.sync_due == before.sync_due,
                self.next_file_id == before.next_file_id,
                self.snapshots == before.snapshots,
                self.unix_secs == before.unix_secs,
                self.options == before.options,
                self.logged@ == logged_now,
            decreases ops@.len() - i,
        {
            let seq: u64 = base + i as u64;
            let ghost held = self.mem.history();
            proof {
                let h = before.mem.history();
                assert(storable(all[i as int]));
                assert forall|x: int| 0 <= x < held.len() implies (#[trigger] held[x]).seq <= (seq
                    - 1) as u64 by {
                    if x < h.len() {
                        assert(held[x] == h[x]);
                        let below = stacked(before.tables@);
                        assert(before.history()[below.len() + x] == h[x]);
                    } else {
                        assert(held[x] == written[x - h.len()]);
                    }
                }
                assert(written.take(i + 1) =~= written.take(i as int).push(written[i as int]));
                assert(h + written.take(i + 1) =~= held.push(written[i as int]));
            }
            match &ops[i] {
                WriteBatchOp::Put { key, value } => self.mem.put(
                    seq,
                    key.as_slice(),
                    value.as_slice(),
                ),
                WriteBatchOp::Delete { key } => self.mem.delete(seq, key.as_slice()),
                WriteBatchOp::DeleteRange { start, end } => self.mem.delete_range(
                    seq,
                    start.as_slice(),
                    end.as_slice(),
                ),
                WriteBatchOp::Merge { key, operand } => self.mem.merge(
                    seq,
                    key.as_slice(),
                    operand.as_slice(),
                ),
            }
            i += 1;
        }
        self.last_seq = self.last_seq + ops.len() as u64;
        if disable_wal {
            self.unlogged = true;
        } else if sync {
            self.sync_due = true;
        }
        proof {
            assert(written.take(i as int) =~= written);
            assert(self.history() =~= before.history() + written);
            assert(all_storable(written)) by {
                assert forall|x: int| 0 <= x < written.len() implies storable(
                    (#[trigger] written[x]).op,
                ) && keyed(written[x].op) by {
                    assert(written[x].op == all[x]);
                    assert(storable(all[x]) && keyed(all[x]));
                }
            }
            lemma_storable_add(before.history(), written);
            if !disable_wal {
                lemma_storable_add(before.durable(), written);
            } else {
                assert(self.durable() =~= before.durable());
                assert(within(self.durable(), self.last_seq)) by {
                    let d = before.durable();
                    assert forall|x: int| 0 <= x < d.len() implies (#[trigger] d[x]).seq
                        <= self.last_seq by {}
                }
            }
        }
        Ok(self.last_seq)
    }
}

/// Total bytes of a stack of tables.
pub open spec fn stacked_size(tables: Seq<TableFile>) -> nat
    decreases tables.len(),
{
    if tables.len() == 0 {
        0
    } else {
        at_most_u64(
            stacked_size(tables.drop_last()) + at_most_u64(weight_of(tables.last().history())),
        )
    }
}

/// Total point entries of a stack of tables.
pub open spec fn stacked_entries(tables: Seq<TableFile>) -> nat
    decreases tables.len(),
{
    if tables.len() == 0 {
        0
    } else {
        at_most_u64(
            stacked_entries(tables.drop_last()) + records_of(tables.last().history()).len(),
        )
    }
}

/// Bytes a stack of tables holds on keys in `[lo, hi)`.
pub open spec fn stacked_size_in(tables: Seq<TableFile>, lo: Seq<u8>, hi: Seq<u8>) -> nat
    decreases tables.len(),
{
    if tables.len() == 0 {
        0
    } else {
        at_most_u64(
            stacked_size_in(tables.drop_last(), lo, hi) + at_most_u64(
                tally(tables.last().history(), lo, hi).size,
            ),
        )
    }
}

/// How many tables of a stack are at `level`.
pub open spec fn files_at(tables: Seq<TableFile>, level: usize) -> nat
    decreases tables.len(),
{
    if tables.len() == 0 {
        0
    } else {
        files_at(tables.drop_last(), level) + (if tables.last().at_level() == level {
            1nat
        } else {
            0nat
        })
    }
}

/// What the table numbered `id` is called.
pub open spec fn table_name_text(id: u64) -> Seq<char> {
    zero_padded(decimal_text(id as nat), 6) + ".sst"@
}

/// What the table numbered `id` is called.
pub fn table_name(id: u64) -> (r: String)
    ensures
        r@ == table_name_text(id),
{
    join2(zero_pad(id, 6).as_str(), ".sst")
}

impl TableFile {
    /// The level the table is at.
    pub closed spec fn at_level(self) -> usize {
        self.level
    }

    /// The table's number.
    pub closed spec fn number(self) -> u64 {
        self.file_id
    }
}

impl RegolithEngine {
    /// The history is that of the finished tables, and that of the active
    /// memtable after it.
    pub proof fn lemma_history_parts(self)
        ensures
            self.history() == stacked(self.files()) + self.active(),
    {
    }

    /// The registry of snapshots is whole.
    pub proof fn lemma_registry_whole(self)
        requires
            self.wf(),
        ensures
            self.registry().wf(),
    {
    }

    /// The finished tables, oldest first.
    pub closed spec fn files(self) -> Seq<TableFile> {
        self.tables@
    }

    /// The writes of the active memtable.
    pub closed spec fn active(self) -> Seq<Logged> {
        self.mem.history()
    }

    /// `writes` became a table at level 0, on top of `below`, and the active
    /// memtable holds none.
    pub open spec fn stacked_onto(self, below: Seq<TableFile>, writes: Seq<Logged>) -> bool {
        &&& self.files().len() == below.len() + 1
        &&& self.files().drop_last() == below
        &&& self.files().last().history() == writes
        &&& self.files().last().at_level() == 0
        &&& self.active() == Seq::<Logged>::empty()
    }

    /// A flush made a table of `writes`, on top of `below`, and the listeners
    /// were told.
    pub open spec fn finished_onto(self, below: Seq<TableFile>, writes: Seq<Logged>) -> bool {
        &&& self.stacked_onto(below, writes)
        &&& self.settings().listeners@.len() > 0 ==> self.told_finished()
    }

    /// `writes` were ingested as a table of their own, on top of `below`, and
    /// the listeners were told of the table.
    pub open spec fn ingested_onto(self, below: Seq<TableFile>, writes: Seq<Logged>) -> bool {
        &&& self.stacked_onto(below, writes)
        &&& self.settings().listeners@.len() > 0 ==> told_created(
            self.settings().listeners@,
            self.files().last(),
            TableFileCreationReason::Recovery,
        )
    }

    /// Every listener was told of the newest table: that it was created, and
    /// that a flush made it.
    pub open spec fn told_finished(self) -> bool {
        &&& told_created(
            self.settings().listeners@,
            self.files().last(),
            TableFileCreationReason::Flush,
        )
        &&& told_flushed(
            self.settings().listeners@,
            self.files().last(),
            self.settings().env.monotonic_clock,
        )
    }

    /// Finish the active memtable: its writes become a table at level 0, and
    /// the log starts anew. Nothing happens when it holds no writes.
    pub fn flush_active_memtable(&mut self)
        requires
            old(self).wf(),
        ensures
            final(self).wf(),
            final(self).same_setting(*old(self)),
            final(self).horizon() == old(self).horizon(),
            final(self).history() == old(self).history(),
            final(self).durable() == final(self).history(),
            final(self).active() == Seq::<Logged>::empty(),
            final(self).owes_sync() == old(self).owes_sync(),
            old(self).active().len() == 0 ==> *final(self) == *old(self),
            old(self).active().len() > 0 ==> final(self).finished_onto(
                old(self).files(),
                old(self).active(),
            ),
    {
        if self.mem.len() == 0 {
            proof {
                self.lemma_empty_active();
            }
            return ;
        }
        let begun: Option<Instant> = start_of_work(self.options.env.monotonic_clock);
        self.stack_memtable();
        self.announce_flush(time_since(&begun));
    }

    /// Make a table at level 0 of what the active memtable holds, and start
    /// the log anew.
    fn stack_memtable(&mut self)
        requires
            old(self).wf(),
            old(self).active().len() > 0,
        ensures
            final(self).wf(),
            final(self).same_setting(*old(self)),
            final(self).horizon() == old(self).horizon(),
            final(self).history() == old(self).history(),
            final(self).durable() == final(self).history(),
            final(self).owes_sync() == old(self).owes_sync(),
            final(self).stacked_onto(old(self).files(), old(self).active()),
    {
        let ghost before = *self;
        let mut full: MemTable = MemTable::new();
        std::mem::swap(&mut full, &mut self.mem);
        let file_id: u64 = self.next_file_id;
        self.tables.push(TableFile { table: full, file_id, level: 0 });
        self.next_file_id = self.next_file_id.saturating_add(1);
        let name: String = self.wal.path().to_owned();
        self.wal = Wal::create(name.as_str());
        self.logged = Ghost(Seq::<Logged>::empty());
        self.unlogged = false;
        self.floor = self.last_seq;
        proof {
            self.wal.lemma_new_holds();
            assert(self.tables@.drop_last() =~= before.tables@);
            assert(self.tables@.last().history() == before.mem.history());
            assert(self.history() =~= before.history());
            assert(self.durable() =~= before.history());
            assert forall|i: int| 0 <= i < self.tables@.len() implies (
            #[trigger] self.tables@[i]).wf() by {
                if i < before.tables@.len() {
                    assert(self.tables@[i] == before.tables@[i]);
                }
            }
        }
    }

    /// Take in `ops` as a table of their own, under consecutive sequence
    /// numbers, on top of everything that was written before. Nothing of it
    /// goes to the log.
    pub fn ingest(&mut self, ops: &Vec<WriteBatchOp>) -> (r: Result<(), IoError>)
        requires
            old(self).wf(),
            ops@.len() > 0,
            forall|i: int| 0 <= i < ops@.len() ==> keyed(#[trigger] ops_of(ops@)[i]),
            old(self).horizon() + ops@.len() < u64::MAX,
        ensures
            final(self).wf(),
            match write_refusal(ops_of(ops@), true) {
                Some(message) => r matches Err(e) && e.kind == ErrorKind::InvalidInput
                    && e.message@ == message && *final(self) == *old(self),
                None => {
                    let written = numbered(ops_of(ops@), old(self).horizon() + 1);
                    &&& r is Ok
                    &&& final(self).same_setting(*old(self))
                    &&& final(self).horizon() == old(self).horizon() + ops@.len()
                    &&& final(self).history() == old(self).history() + written
                    &&& final(self).durable() == final(self).history()
                    &&& final(self).owes_sync() == old(self).owes_sync()
                    &&& exists|flushed: RegolithEngine| #[trigger]
                        flushed.is_flush_of(*old(self)) && final(self).ingested_onto(
                            flushed.files(),
                            written,
                        )
                },
            },
    {
        let ghost before = *self;
        let ghost all = ops_of(ops@);
        if let Err(e) = check_ops(ops, true) {
            return Err(e);
        }
        self.flush_active_memtable();
        let ghost flushed = *self;
        proof {
            before.lemma_history_parts();
            flushed.lemma_history_parts();
            assert(stacked(flushed.files()) =~= before.history());
            assert(flushed.is_flush_of(before));
        }
        if let Err(e) = self.apply(ops, false, true) {
            return Err(e);
        }
        let ghost written = numbered(all, before.horizon() + 1);
        assert(self.active() =~= written);
        self.stack_memtable();
        self.announce_ingested_table();
        Ok(())
    }

    /// Tell the listeners of the table that was just taken in.
    fn announce_ingested_table(&self)
        requires
            self.wf(),
            self.files().len() > 0,
        ensures
            self.settings().listeners@.len() > 0 ==> told_created(
                self.settings().listeners@,
                self.files().last(),
                TableFileCreationReason::Recovery,
            ),
    {
        if self.options.listeners.len() == 0 {
            return ;
        }
        let file: &TableFile = &self.tables[self.tables.len() - 1];
        let created: TableFileCreationInfo = file.creation_info(TableFileCreationReason::Recovery);
        tell_all_created(&self.options.listeners, &created);
        assert(is_creation_info(created, self.files().last(), TableFileCreationReason::Recovery));
    }

    /// Tell the listeners of the table that was just finished, and how long
    /// that took.
    fn announce_flush(&self, took: Duration)
        requires
            self.wf(),
            self.files().len() > 0,
            !self.settings().env.monotonic_clock ==> took == span(0),
        ensures
            self.settings().listeners@.len() > 0 ==> self.told_finished(),
    {
        if self.options.listeners.len() == 0 {
            return ;
        }
        let file: &TableFile = &self.tables[self.tables.len() - 1];
        let created: TableFileCreationInfo = file.creation_info(TableFileCreationReason::Flush);
        let flushed: FlushJobInfo = file.flush_info(took);
        tell_all_created(&self.options.listeners, &created);
        tell_all_flushed(&self.options.listeners, &flushed);
        assert(is_creation_info(created, self.files().last(), TableFileCreationReason::Flush));
        assert(is_flush_info(flushed, self.files().last()));
    }

    /// With nothing in the memtable, everything is durable.
    proof fn lemma_empty_active(self)
        requires
            self.wf(),
            self.mem.history().len() == 0,
        ensures
            self.durable() == self.history(),
            self.mem.history() == Seq::<Logged>::empty(),
    {
        assert(self.mem.history() =~= Seq::<Logged>::empty());
        assert(self.logged@ =~= Seq::<Logged>::empty());
    }
}

impl RegolithEngine {
    /// Finish the active memtable once it holds `write_buffer_size` bytes.
    pub fn flush_when_full(&mut self)
        requires
            old(self).wf(),
        ensures
            final(self).wf(),
            final(self).same_setting(*old(self)),
            final(self).horizon() == old(self).horizon(),
            final(self).history() == old(self).history(),
            final(self).owes_sync() == old(self).owes_sync(),
            if weight_of(old(self).active()) >= old(self).settings().write_buffer_size
                && old(self).active().len() > 0 {
                &&& final(self).durable() == final(self).history()
                &&& final(self).finished_onto(old(self).files(), old(self).active())
            } else {
                *final(self) == *old(self)
            },
    {
        if self.mem.size() >= self.options.write_buffer_size as u64 {
            self.flush_active_memtable();
        }
    }

    /// Drop every write. The horizon stays, so that sequence numbers go on
    /// growing.
    pub fn drop_all(&mut self)
        requires
            old(self).wf(),
        ensures
            final(self).wf(),
            final(self).same_setting(*old(self)),
            final(self).horizon() == old(self).horizon(),
            final(self).history() == Seq::<Logged>::empty(),
            final(self).durable() == Seq::<Logged>::empty(),
            final(self).owes_sync() == old(self).owes_sync(),
            final(self).files() == Seq::<TableFile>::empty(),
            final(self).active() == Seq::<Logged>::empty(),
    {
        self.tables = Vec::new();
        self.mem = MemTable::new();
        let name: String = self.wal.path().to_owned();
        self.wal = Wal::create(name.as_str());
        self.logged = Ghost(Seq::<Logged>::empty());
        self.unlogged = false;
        self.floor = self.last_seq;
        proof {
            self.wal.lemma_new_holds();
            assert(self.history() =~= Seq::<Logged>::empty());
            assert(self.durable() =~= Seq::<Logged>::empty());
        }
    }

    /// Finish the active memtable and take no more requests. Closing twice
    /// is closing once.
    pub fn close(&mut self)
        requires
            old(self).wf(),
        ensures
            final(self).wf(),
            final(self).is_shut(),
            final(self).settings() == old(self).settings(),
            final(self).registry() == old(self).registry(),
            final(self).clock() == old(self).clock(),
            final(self).log_name() == old(self).log_name(),
            final(self).horizon() == old(self).horizon(),
            final(self).history() == old(self).history(),
            final(self).durable() == final(self).history(),
            final(self).owes_sync() == old(self).owes_sync(),
            final(self).active() == Seq::<Logged>::empty(),
            if old(self).active().len() == 0 {
                final(self).files() == old(self).files()
            } else {
                final(self).finished_onto(old(self).files(), old(self).active())
            },
    {
        self.flush_active_memtable();
        self.closed = true;
    }

    /// What the engine leaves behind when it stops here: a crash, unless it
    /// was closed first.
    pub fn into_stored(self) -> (r: Stored)
        requires
            self.wf(),
        ensures
            r.wf(),
            recovered(r, self.log_name()) == Ok::<Seq<Logged>, Seq<char>>(self.durable()),
            r.log() == self.log(),
            r.mark() == self.log_mark(),
            r.was_opened(),
            r.files() == self.files(),
            r.finished() == stacked(self.files()),
            stamp_of(r.log()) == Ok::<Option<int>, Seq<char>>(Some(WAL_STAMP_LEN as int)),
            clean_from(r.log(), self.log_name(), WAL_STAMP_LEN as int),
            r.mark() <= self.horizon(),
            self.active().len() == 0 ==> r.mark() == self.horizon(),
    {
        proof {
            self.lemma_left_behind();
        }
        let RegolithEngine { tables, wal, floor, .. } = self;
        Stored { tables, log: wal.into_image(), floor, opened: true }
    }

    /// Where the horizon stood when the log was begun.
    pub fn log_begun_at(&self) -> (r: u64)
        ensures
            r == self.log_mark(),
    {
        self.floor
    }

    /// Whether the engine was closed.
    pub fn is_closed(&self) -> (r: bool)
        ensures
            r == self.is_shut(),
    {
        self.closed
    }

    /// The newest sequence number a read may use.
    pub fn snapshot_seq(&self) -> (r: u64)
        ensures
            r == self.horizon(),
    {
        self.last_seq
    }

    /// What the host can do.
    pub fn capabilities(&self) -> (r: Capabilities)
        ensures
            r == self.settings().env.capabilities,
    {
        self.options.env.capabilities()
    }

    /// Pin the horizon for a snapshot.
    pub fn register_snapshot_at_horizon(&mut self) -> (r: u64)
        requires
            old(self).wf(),
            old(self).registry().live() < u64::MAX,
        ensures
            final(self).wf(),
            r == old(self).horizon(),
            final(self).history() == old(self).history(),
            final(self).durable() == old(self).durable(),
            final(self).horizon() == old(self).horizon(),
            final(self).settings() == old(self).settings(),
            final(self).clock() == old(self).clock(),
            final(self).is_shut() == old(self).is_shut(),
            final(self).log_name() == old(self).log_name(),
            final(self).log() == old(self).log(),
            final(self).owes_sync() == old(self).owes_sync(),
            final(self).files() == old(self).files(),
            final(self).active() == old(self).active(),
            final(self).registry().live() == old(self).registry().live() + 1,
            final(self).registry().pins() == old(self).registry().pins().insert(
                r,
                if old(self).registry().pins().dom().contains(r) {
                    Pin {
                        refcount: old(self).registry().pins()[r].refcount + 1,
                        registered_at_unix: old(self).registry().pins()[r].registered_at_unix,
                    }
                } else {
                    Pin { refcount: 1, registered_at_unix: old(self).clock() }
                },
            ),
            final(self).registry().wakes() == old(self).registry().wakes(),
            final(self).registry().waiters() == old(self).registry().waiters(),
    {
        self.snapshots.register_at(self.last_seq, self.unix_secs)
    }

    /// Pin `seq` for a snapshot.
    pub fn register_snapshot(&mut self, seq: u64)
        requires
            old(self).wf(),
            old(self).registry().live() < u64::MAX,
        ensures
            final(self).wf(),
            final(self).history() == old(self).history(),
            final(self).durable() == old(self).durable(),
            final(self).horizon() == old(self).horizon(),
            final(self).settings() == old(self).settings(),
            final(self).clock() == old(self).clock(),
            final(self).is_shut() == old(self).is_shut(),
            final(self).log_name() == old(self).log_name(),
            final(self).log() == old(self).log(),
            final(self).owes_sync() == old(self).owes_sync(),
            final(self).files() == old(self).files(),
            final(self).active() == old(self).active(),
            final(self).registry().live() == old(self).registry().live() + 1,
            final(self).registry().pins() == old(self).registry().pins().insert(
                seq,
                if old(self).registry().pins().dom().contains(seq) {
                    Pin {
                        refcount: old(self).registry().pins()[seq].refcount + 1,
                        registered_at_unix: old(self).registry().pins()[seq].registered_at_unix,
                    }
                } else {
                    Pin { refcount: 1, registered_at_unix: old(self).clock() }
                },
            ),
            final(self).registry().wakes() == old(self).registry().wakes(),
            final(self).registry().waiters() == old(self).registry().waiters(),
    {
        self.snapshots.register(seq, self.unix_secs);
    }

    /// Release one pin at `seq`.
    pub fn release_snapshot(&mut self, seq: u64)
        requires
            old(self).wf(),
            old(self).registry().wakes() < u64::MAX,
        ensures
            final(self).wf(),
            final(self).history() == old(self).history(),
            final(self).durable() == old(self).durable(),
            final(self).horizon() == old(self).horizon(),
            final(self).settings() == old(self).settings(),
            final(self).clock() == old(self).clock(),
            final(self).is_shut() == old(self).is_shut(),
            final(self).log_name() == old(self).log_name(),
            final(self).log() == old(self).log(),
            final(self).owes_sync() == old(self).owes_sync(),
            final(self).files() == old(self).files(),
            final(self).active() == old(self).active(),
            final(self).registry().live() == (if old(self).registry().pins().dom().contains(seq) {
                (old(self).registry().live() - 1) as nat
            } else {
                old(self).registry().live()
            }),
            final(self).registry().pins() == (if !old(self).registry().pins().dom().contains(seq) {
                old(self).registry().pins()
            } else if old(self).registry().pins()[seq].refcount == 1 {
                old(self).registry().pins().remove(seq)
            } else {
                old(self).registry().pins().insert(
                    seq,
                    Pin {
                        refcount: (old(self).registry().pins()[seq].refcount - 1) as nat,
                        registered_at_unix: old(self).registry().pins()[seq].registered_at_unix,
                    },
                )
            }),
            final(self).registry().waiters() == old(self).registry().waiters(),
            final(self).registry().wakes() == old(self).registry().wakes() + (if final(self).registry().live() == 0 && old(self).registry().waiters() > 0 {
                1nat
            } else {
                0nat
            }),
    {
        self.snapshots.release(seq);
    }

    /// How many times callers that waited for the snapshots to go were woken.
    pub fn snapshot_wakes(&self) -> (r: u64)
        ensures
            r == self.registry().wakes(),
    {
        self.snapshots.wakes_issued()
    }

    /// How many snapshots are live.
    pub fn live_snapshot_count(&self) -> (r: u64)
        requires
            self.wf(),
        ensures
            r == self.registry().live(),
    {
        self.snapshots.live_count()
    }

    /// The time the oldest live snapshot was taken, where it is known.
    pub fn oldest_snapshot_time_unix(&self) -> (r: Option<u64>)
        requires
            self.wf(),
        ensures
            self.registry().live() == 0 ==> r is None,
            self.registry().live() > 0 ==> exists|oldest: u64|
                #[trigger] self.registry().pins().dom().contains(oldest) && (forall|seq: u64|
                    #[trigger]
                    self.registry().pins().dom().contains(seq) ==> oldest <= seq) && r
                    == self.registry().pins()[oldest].registered_at_unix,
    {
        self.snapshots.oldest_snapshot_time_unix()
    }

    /// Learn the time from the host, in seconds since the epoch.
    pub fn report_time(&mut self, unix_secs: u64)
        requires
            old(self).wf(),
        ensures
            final(self).wf(),
            final(self).clock() == Some(unix_secs),
            final(self).history() == old(self).history(),
            final(self).durable() == old(self).durable(),
            final(self).horizon() == old(self).horizon(),
            final(self).settings() == old(self).settings(),
            final(self).registry() == old(self).registry(),
            final(self).is_shut() == old(self).is_shut(),
            final(self).log_name() == old(self).log_name(),
            final(self).log() == old(self).log(),
            final(self).owes_sync() == old(self).owes_sync(),
            final(self).files() == old(self).files(),
            final(self).active() == old(self).active(),
    {
        self.unix_secs = Some(unix_secs);
    }

    /// The bytes of the log, for the host to write.
    pub fn log_bytes(&self) -> (r: &[u8])
        ensures
            r@ == self.log(),
    {
        self.wal.image()
    }

    /// Whether a write asked for a sync that has not been reported done.
    pub fn sync_due(&self) -> (r: bool)
        ensures
            r == self.owes_sync(),
    {
        self.sync_due
    }

    /// The host has made the log durable.
    pub fn report_synced(&mut self)
        requires
            old(self).wf(),
        ensures
            final(self).wf(),
            !final(self).owes_sync(),
            final(self).same_setting(*old(self)),
            final(self).history() == old(self).history(),
            final(self).durable() == old(self).durable(),
            final(self).horizon() == old(self).horizon(),
            final(self).log() == old(self).log(),
            final(self).files() == old(self).files(),
            final(self).active() == old(self).active(),
    {
        self.sync_due = false;
    }

    /// How many tables are at `level`.
    pub fn num_files_at_level(&self, level: usize) -> (r: u64)
        ensures
            r == files_at(self.files(), level),
    {
        let mut n: u64 = 0;
        let mut i: usize = 0;
        assert(self.tables@.take(0) =~= Seq::<TableFile>::empty());
        while i < self.tables.len()
            invariant
                i <= self.tables@.len(),
                n <= i,
                n == files_at(self.tables@.take(i as int), level),
            decreases self.tables@.len() - i,
        {
            proof {
                assert(self.tables@.take(i + 1).drop_last() =~= self.tables@.take(i as int));
            }
            if self.tables[i].level == level {
                n = n + 1;
            }
            i += 1;
        }
        assert(self.tables@.take(i as int) =~= self.tables@);
        n
    }

    /// Total bytes of the finished tables.
    pub fn total_sst_size(&self) -> (r: u64)
        requires
            self.wf(),
        ensures
            r == stacked_size(self.files()),
    {
        let mut n: u64 = 0;
        let mut i: usize = 0;
        assert(self.tables@.take(0) =~= Seq::<TableFile>::empty());
        while i < self.tables.len()
            invariant
                self.wf(),
                i <= self.tables@.len(),
                n == stacked_size(self.tables@.take(i as int)),
            decreases self.tables@.len() - i,
        {
            proof {
                assert(self.tables@.take(i + 1).drop_last() =~= self.tables@.take(i as int));
                assert(self.tables@[i as int].wf());
            }
            n = n.saturating_add(self.tables[i].table.size());
            i += 1;
        }
        assert(self.tables@.take(i as int) =~= self.tables@);
        n
    }

    /// Total point entries of the finished tables.
    pub fn total_sst_num_entries(&self) -> (r: u64)
        requires
            self.wf(),
        ensures
            r == stacked_entries(self.files()),
    {
        let mut n: u64 = 0;
        let mut i: usize = 0;
        assert(self.tables@.take(0) =~= Seq::<TableFile>::empty());
        while i < self.tables.len()
            invariant
                self.wf(),
                i <= self.tables@.len(),
                n == stacked_entries(self.tables@.take(i as int)),
            decreases self.tables@.len() - i,
        {
            proof {
                assert(self.tables@.take(i + 1).drop_last() =~= self.tables@.take(i as int));
                assert(self.tables@[i as int].wf());
            }
            n = n.saturating_add(self.tables[i].table.num_entries() as u64);
            i += 1;
        }
        assert(self.tables@.take(i as int) =~= self.tables@);
        n
    }

    /// Bytes the finished tables hold on keys in `[lo, hi)`.
    pub fn approximate_size_in_range(&self, lo: &[u8], hi: &[u8]) -> (r: u64)
        requires
            self.wf(),
        ensures
            r == stacked_size_in(self.files(), lo@, hi@),
    {
        let mut n: u64 = 0;
        let mut i: usize = 0;
        assert(self.tables@.take(0) =~= Seq::<TableFile>::empty());
        while i < self.tables.len()
            invariant
                self.wf(),
                i <= self.tables@.len(),
                n == stacked_size_in(self.tables@.take(i as int), lo@, hi@),
            decreases self.tables@.len() - i,
        {
            proof {
                assert(self.tables@.take(i + 1).drop_last() =~= self.tables@.take(i as int));
                assert(self.tables@[i as int].wf());
            }
            let (_, size) = self.tables[i].table.stats_in(lo, hi);
            n = n.saturating_add(size);
            i += 1;
        }
        assert(self.tables@.take(i as int) =~= self.tables@);
        n
    }

    /// Entries and bytes the active memtable holds on keys in `[lo, hi)`.
    pub fn approximate_memtable_stats(&self, lo: &[u8], hi: &[u8]) -> (r: (u64, u64))
        requires
            self.wf(),
        ensures
            r.0 == tally(self.active(), lo@, hi@).count,
            r.1 == at_most_u64(tally(self.active(), lo@, hi@).size),
    {
        self.mem.stats_in(lo, hi)
    }

    /// Bytes the active memtable's writes hold.
    pub fn active_memtable_size(&self) -> (r: u64)
        requires
            self.wf(),
        ensures
            r == at_most_u64(weight_of(self.active())),
    {
        self.mem.size()
    }

    /// A log and tables that are left behind hold what was durable.
    proof fn lemma_left_behind(self)
        requires
            self.wf(),
        ensures
            replay_of(self.log(), self.log_name()) matches Ok(done) && done.entries == self.logged@,
            all_storable(self.logged@),
            ordered(stacked(self.tables@)),
            all_storable(stacked(self.tables@)),
    {
        let d = self.durable();
        let below = stacked(self.tables@);
        assert(below =~= d.take(below.len() as int));
        lemma_ordered_prefix(d, below.len() as int);
        assert forall|i: int| 0 <= i < below.len() implies storable((#[trigger] below[i]).op)
            && keyed(below[i].op) by {
            assert(d[i] == below[i]);
        }
        assert forall|i: int| 0 <= i < self.logged@.len() implies storable(
            (#[trigger] self.logged@[i]).op,
        ) && keyed(self.logged@[i].op) by {
            assert(d[below.len() + i] == self.logged@[i]);
        }
    }
}

/// Storable writes on top of storable writes.
proof fn lemma_storable_add(a: Seq<Logged>, b: Seq<Logged>)
    requires
        all_storable(a),
        all_storable(b),
    ensures
        all_storable(a + b),
{
    assert forall|i: int| 0 <= i < (a + b).len() implies storable((#[trigger] (a + b)[i]).op)
        && keyed((a + b)[i].op) by {
        if i < a.len() {
            assert((a + b)[i] == a[i]);
        } else {
            assert((a + b)[i] == b[i - a.len()]);
        }
    }
}

/// A number above that of every table.
fn unused_file_id(tables: &Vec<TableFile>) -> (r: u64)
    ensures
        r >= 1,
        forall|i: int|
            0 <= i < tables@.len() && (#[trigger] tables@[i]).number() < u64::MAX
                ==> tables@[i].number() < r,
{
    let mut next: u64 = 1;
    let mut i: usize = 0;
    while i < tables.len()
        invariant
            i <= tables@.len(),
            next >= 1,
            forall|j: int|
                0 <= j < i && (#[trigger] tables@[j]).number() < u64::MAX ==> tables@[j].number()
                    < next,
        decreases tables@.len() - i,
    {
        if tables[i].file_id >= next {
            next = tables[i].file_id.saturating_add(1);
        }
        i += 1;
    }
    next
}

/// The newest sequence number in a stack of tables.
fn newest_of(tables: &Vec<TableFile>) -> (r: u64)
    requires
        forall|i: int| 0 <= i < tables@.len() ==> (#[trigger] tables@[i]).wf(),
        ordered(stacked(tables@)),
    ensures
        r == newest(stacked(tables@)),
        within(stacked(tables@), r),
{
    let mut i: usize = tables.len();
    let ghost all = stacked(tables@);
    assert(tables@.take(i as int) =~= tables@);
    while i > 0
        invariant
            i <= tables@.len(),
            forall|j: int| 0 <= j < tables@.len() ==> (#[trigger] tables@[j]).wf(),
            all == stacked(tables@.take(i as int)),
            ordered(all),
            all == stacked(tables@),
        decreases i,
    {
        let here: &TableFile = &tables[i - 1];
        assert(here.wf());
        proof {
            assert(tables@.take(i as int).drop_last() =~= tables@.take(i - 1));
            assert(tables@.take(i as int).last() == tables@[i - 1]);
        }
        match here.table.newest_seq() {
            Some(seq) => {
                proof {
                    assert(all.last() == here.history().last());
                    assert forall|x: int| 0 <= x < all.len() implies (#[trigger] all[x]).seq
                        <= seq by {
                        if x < all.len() - 1 {
                            assert(all[x].seq < all[all.len() - 1].seq);
                        }
                    }
                }
                return seq;
            },
            None => {
                assert(stacked(tables@.take(i - 1)) + here.history() =~= stacked(
                    tables@.take(i - 1),
                ));
            },
        }
        i -= 1;
    }
    assert(tables@.take(0) =~= Seq::<TableFile>::empty());
    0
}

} // verus!
