//! Tables as files: what an engine leaves behind, in bytes a host can keep.
//!
//! A table is kept as a log of its writes. The host puts each table and the
//! log into a file of its own; read back and put together, they are what the
//! engine left behind.

use vstd::prelude::*;

use crate::bytes;
use crate::bytes::{
    le_bytes, le_value, lemma_le_bytes_len, lemma_le_round_trip, lemma_u64_fits,
};
use crate::column_family::CF_PREFIX_LEN;
use crate::engine::memtable::{storable, MemTable};
use crate::engine::store::{
    all_storable, fits, keyed, lemma_ordered_push, lemma_storable_add, newest, reached, recovered,
    stacked, table_name, table_name_text, Stored, TableFile,
};
use crate::engine::wal::{
    logged, ops_record_size, replay, replay_of, Replayed, Wal, WalEntry, MAX_RECORD_LEN,
};
use crate::error::{ErrorKind, IoError};
use crate::history::{numbered, ordered, within, Logged};

verus! {

/// One record of a log can hold the write.
pub open spec fn recordable(l: Logged) -> bool {
    ops_record_size(seq![l.op]) <= MAX_RECORD_LEN && l.seq < u64::MAX
}

/// The log `image`, called `name`, replays to exactly these writes.
pub open spec fn images(image: Seq<u8>, name: Seq<char>, h: Seq<Logged>) -> bool {
    replay_of(image, name) == Ok::<Replayed, Seq<char>>(
        Replayed { entries: h, stopped: image.len() as int },
    )
}

/// How a table that cannot be kept as a file is reported.
pub open spec fn unrecordable_text() -> Seq<char> {
    "a write of the table is too large for one log record"@
}

/// How a file that holds no table is reported.
pub open spec fn no_table_text() -> Seq<char> {
    "table entries are torn, out of sequence, unprefixed, or too large to store"@
}

/// How tables that do not follow one another are reported.
pub open spec fn no_stack_text() -> Seq<char> {
    "tables are out of sequence"@
}

fn record_fits(a: usize, b: usize) -> (r: bool)
    ensures
        r == (25 + a + b <= MAX_RECORD_LEN),
{
    a <= 0x3FFF_FFE7 && b <= 0x3FFF_FFE7 - a
}

/// Append one write to a whole log.
fn append_entry(wal: &mut Wal, entry: &WalEntry, held: Ghost<Seq<Logged>>) -> (r: bool)
    requires
        old(wal).holds(held@),
    ensures
        r == recordable(entry@),
        final(wal).name() == old(wal).name(),
        r ==> final(wal).holds(held@.push(entry@)),
{
    let ghost l = entry@;
    let ghost before = *wal;
    proof {
        reveal_with_fuel(crate::engine::wal::batch_items_len, 2);
        crate::engine::wal::lemma_ops_record_size(seq![l.op], l.seq as int);
    }
    match entry {
        WalEntry::Put { key, value, seq } => {
            if !record_fits(key.len(), value.len()) || *seq == u64::MAX {
                return false;
            }
            wal.append_put(key.as_slice(), value.as_slice(), *seq);
        },
        WalEntry::Delete { key, seq } => {
            if key.len() > 0x3FFF_FFEB || *seq == u64::MAX {
                return false;
            }
            wal.append_delete(key.as_slice(), *seq);
        },
        WalEntry::Merge { key, operand, seq } => {
            if !record_fits(key.len(), operand.len()) || *seq == u64::MAX {
                return false;
            }
            wal.append_merge(key.as_slice(), operand.as_slice(), *seq);
        },
        WalEntry::DeleteRange { start, end, seq } => {
            if !record_fits(start.len(), end.len()) || *seq == u64::MAX {
                return false;
            }
            wal.append_delete_range(start.as_slice(), end.as_slice(), *seq);
        },
    }
    proof {
        Wal::lemma_append_holds(before, *wal, held@, seq![l.op], l.seq as int);
        assert(held@ + numbered(seq![l.op], l.seq as int) =~= held@.push(l));
    }
    true
}

impl TableFile {
    /// The table as the bytes of a file: a log of its writes. Fails where a
    /// write is too large for one record.
    pub fn image(&self) -> (r: Result<Vec<u8>, IoError>)
        requires
            self.wf(),
        ensures
            match r {
                Ok(bytes) => images(bytes@, table_name_text(self.number()), self.history()),
                Err(e) => e.kind == ErrorKind::InvalidInput && e.message@ == unrecordable_text(),
            },
            r is Ok <==> (forall|i: int|
                0 <= i < self.history().len() ==> recordable(#[trigger] self.history()[i])),
    {
        let entries: Vec<WalEntry> = self.table.export();
        let name: String = table_name(self.file_id);
        let ghost h = logged(entries@);
        let mut wal: Wal = Wal::create(name.as_str());
        let mut i: usize = 0;
        proof {
            wal.lemma_new_holds();
            assert(h.take(0) =~= Seq::<Logged>::empty());
        }
        while i < entries.len()
            invariant
                h == logged(entries@),
                h == self.history(),
                i <= entries@.len(),
                wal.holds(h.take(i as int)),
                wal.name() == name@,
                forall|j: int| 0 <= j < i ==> recordable(#[trigger] h[j]),
            decreases entries@.len() - i,
        {
            let ghost held = h.take(i as int);
            assert(h[i as int] == entries@[i as int]@);
            if !append_entry(&mut wal, &entries[i], Ghost(held)) {
                assert(!recordable(self.history()[i as int]));
                return Err(
                    IoError::new(
                        ErrorKind::InvalidInput,
                        "a write of the table is too large for one log record",
                    ),
                );
            }
            assert(h.take(i + 1) =~= h.take(i as int).push(h[i as int]));
            i += 1;
        }
        assert(h.take(i as int) =~= h);
        Ok(wal.into_image())
    }

    /// The table a file holds, under its number and at its level.
    pub fn from_image(file_id: u64, level: usize, image: &[u8]) -> (r: Result<Self, IoError>)
        ensures
            match replay_of(image@, table_name_text(file_id)) {
                Err(message) => r matches Err(e) && e.kind == ErrorKind::InvalidData && e.message@
                    == message,
                Ok(done) => if done.stopped == image@.len() && ordered(done.entries)
                    && all_storable(done.entries) {
                    &&& r matches Ok(table)
                    &&& table.wf()
                    &&& table.history() == done.entries
                    &&& table.number() == file_id
                    &&& table.at_level() == level
                } else {
                    r matches Err(e) && e.kind == ErrorKind::InvalidData && e.message@
                        == no_table_text()
                },
            },
    {
        let name: String = table_name(file_id);
        let done = match replay(name.as_str(), image) {
            Ok(done) => done,
            Err(e) => {
                return Err(e);
            },
        };
        if let Some(tail) = &done.tail {
            if tail.offset != image.len() as u64 {
                return Err(IoError::invalid_data(
                    "table entries are torn, out of sequence, unprefixed, or too large to store",
                ));
            }
        }
        let entries: Vec<WalEntry> = done.entries;
        let ghost all = logged(entries@);
        let mut table: MemTable = MemTable::new();
        let mut last: u64 = 0;
        let mut i: usize = 0;
        assert(all.take(0) =~= Seq::<Logged>::empty());
        while i < entries.len()
            invariant
                all == logged(entries@),
                i <= entries@.len(),
                table.wf(),
                table.history() == all.take(i as int),
                ordered(all.take(i as int)),
                all_storable(all.take(i as int)),
                within(all.take(i as int), last),
                i > 0 ==> last == all[i - 1].seq,
                i == 0 ==> last == 0,
                replay_of(image@, table_name_text(file_id)) matches Ok(d) && d.entries == all,
            decreases entries@.len() - i,
        {
            let ghost l = all[i as int];
            assert(l == entries@[i as int]@);
            let (seq, storable_entry): (u64, bool) = match &entries[i] {
                WalEntry::Put { key, value, seq } => (
                    *seq,
                    key.len() >= CF_PREFIX_LEN && fits(key.len(), value.len()),
                ),
                WalEntry::Delete { key, seq } => (
                    *seq,
                    key.len() >= CF_PREFIX_LEN && fits(key.len(), 0),
                ),
                WalEntry::Merge { key, operand, seq } => (
                    *seq,
                    key.len() >= CF_PREFIX_LEN && fits(key.len(), operand.len()),
                ),
                WalEntry::DeleteRange { start, end, seq } => (
                    *seq,
                    start.len() >= CF_PREFIX_LEN && end.len() >= CF_PREFIX_LEN,
                ),
            };
            assert(storable_entry == (storable(l.op) && keyed(l.op)));
            if seq <= last || !storable_entry {
                proof {
                    if !storable_entry {
                        assert(!(storable(all[i as int].op) && keyed(all[i as int].op)));
                    } else if i > 0 {
                        assert(!(all[i - 1].seq < all[i as int].seq));
                    } else {
                        assert(!(all[0].seq >= 1));
                    }
                }
                return Err(IoError::invalid_data(
                    "table entries are torn, out of sequence, unprefixed, or too large to store",
                ));
            }
            proof {
                assert(all.take(i + 1) =~= all.take(i as int).push(l));
                lemma_ordered_push(all.take(i as int), l);
            }
            match &entries[i] {
                WalEntry::Put { key, value, .. } => table.put(seq, key.as_slice(), value.as_slice()),
                WalEntry::Delete { key, .. } => table.delete(seq, key.as_slice()),
                WalEntry::Merge { key, operand, .. } => table.merge(
                    seq,
                    key.as_slice(),
                    operand.as_slice(),
                ),
                WalEntry::DeleteRange { start, end, .. } => table.delete_range(
                    seq,
                    start.as_slice(),
                    end.as_slice(),
                ),
            }
            last = seq;
            i += 1;
        }
        assert(all.take(i as int) =~= all);
        Ok(TableFile { table, file_id, level })
    }
}

impl Stored {
    /// The finished tables, oldest first.
    pub fn table_files(&self) -> (r: &Vec<TableFile>)
        requires
            self.wf(),
        ensures
            r@ == self.files(),
            stacked(r@) == self.finished(),
            forall|i: int| 0 <= i < r@.len() ==> (#[trigger] r@[i]).wf() && all_storable(
                r@[i].history(),
            ),
    {
        proof {
            assert forall|i: int| 0 <= i < self.tables@.len() implies all_storable(
                (#[trigger] self.tables@[i]).history(),
            ) by {
                lemma_part_storable(self.tables@, i);
            }
        }
        &self.tables
    }

    /// Where the horizon stood when the log was begun.
    pub fn begun_at(&self) -> (r: u64)
        ensures
            r == self.mark(),
    {
        self.floor
    }

    /// Put together what was left behind: tables, oldest first, the log, and
    /// where the horizon stood when the log was begun.
    pub fn from_parts(tables: Vec<TableFile>, log: Vec<u8>, begun_at: u64) -> (r: Result<
        Self,
        IoError,
    >)
        requires
            forall|i: int| 0 <= i < tables@.len() ==> (#[trigger] tables@[i]).wf() && all_storable(
                tables@[i].history(),
            ),
        ensures
            if ordered(stacked(tables@)) {
                &&& r matches Ok(stored)
                &&& stored.wf()
                &&& stored.was_opened()
                &&& stored.files() == tables@
                &&& stored.finished() == stacked(tables@)
                &&& stored.log() == log@
                &&& stored.mark() == begun_at
            } else {
                r matches Err(e) && e.kind == ErrorKind::InvalidData && e.message@ == no_stack_text()
            },
    {
        let mut last: u64 = 0;
        let mut i: usize = 0;
        assert(tables@.take(0) =~= Seq::<TableFile>::empty());
        while i < tables.len()
            invariant
                forall|j: int| 0 <= j < tables@.len() ==> (#[trigger] tables@[j]).wf()
                    && all_storable(tables@[j].history()),
                i <= tables@.len(),
                ordered(stacked(tables@.take(i as int))),
                all_storable(stacked(tables@.take(i as int))),
                last == newest(stacked(tables@.take(i as int))),
                within(stacked(tables@.take(i as int)), last),
            decreases tables@.len() - i,
        {
            let ghost below = stacked(tables@.take(i as int));
            assert(tables@[i as int].wf());
            let entries: Vec<WalEntry> = tables[i].table.export();
            let ghost h = logged(entries@);
            proof {
                assert(tables@.take(i + 1).drop_last() =~= tables@.take(i as int));
                assert(tables@.take(i + 1).last() == tables@[i as int]);
                assert(stacked(tables@.take(i + 1)) == below + h);
                lemma_stack_split(tables@, i + 1);
                lemma_storable_add(below, h);
                tables@[i as int].lemma_table_ordered();
            }
            if entries.len() > 0 {
                let first: u64 = entries[0].seq();
                assert(first == h[0].seq);
                if first <= last {
                    proof {
                        let whole = below + h;
                        let n = below.len() as int;
                        assert(whole[n] == h[0]);
                        if n > 0 {
                            assert(whole[n - 1] == below.last());
                            assert(!(whole[n - 1].seq < whole[n].seq));
                        } else {
                            assert(!(whole[n].seq >= 1));
                        }
                        assert(!ordered(whole));
                        lemma_ordered_part(stacked(tables@), whole.len() as int);
                    }
                    return Err(IoError::invalid_data("tables are out of sequence"));
                }
                let ghost before = last;
                last = entries[entries.len() - 1].seq();
                proof {
                    assert(last == h.last().seq);
                    lemma_ordered_join(below, h, before);
                    assert((below + h).last() == h.last());
                }
            } else {
                assert(below + h =~= below);
            }
            i += 1;
        }
        assert(tables@.take(i as int) =~= tables@);
        Ok(Stored { tables, log, floor: begun_at, opened: true })
    }
}

/// The tables a database consists of, and where its horizon stood when its
/// log was begun: what a host has to know beside the files themselves.
#[derive(Debug)]
pub struct TableList {
    pub begun_at: u64,
    /// The number and the level of each table, oldest first.
    pub tables: Vec<(u64, u64)>,
}

/// The number in the eight bytes at `at`.
pub open spec fn number_at(bytes: Seq<u8>, at: int) -> nat {
    le_value(bytes.subrange(at, at + 8))
}

/// `bytes` is the list of these tables: eight bytes for where the horizon
/// stood, then eight for the number and eight for the level of each table.
pub open spec fn lists(bytes: Seq<u8>, begun_at: u64, tables: Seq<(u64, u64)>) -> bool {
    &&& bytes.len() == 8 + 16 * tables.len()
    &&& number_at(bytes, 0) == begun_at
    &&& forall|i: int|
        0 <= i < tables.len() ==> (#[trigger] tables[i]).0 == number_at(bytes, 8 + 16 * i)
            && tables[i].1 == number_at(bytes, 16 + 16 * i)
}

/// Bytes that were there stay where they are when more are appended.
proof fn lemma_number_stays(a: Seq<u8>, b: Seq<u8>, at: int)
    requires
        0 <= at,
        at + 8 <= a.len(),
    ensures
        number_at(a + b, at) == number_at(a, at),
{
    assert((a + b).subrange(at, at + 8) =~= a.subrange(at, at + 8));
}

/// A number appended is read back from where it was put.
proof fn lemma_number_put(a: Seq<u8>, x: u64)
    ensures
        (a + le_bytes(x as nat, 8)).len() == a.len() + 8,
        number_at(a + le_bytes(x as nat, 8), a.len() as int) == x,
{
    lemma_le_bytes_len(x as nat, 8);
    lemma_u64_fits();
    lemma_le_round_trip(x as nat, 8);
    let b = le_bytes(x as nat, 8);
    assert((a + b).subrange(a.len() as int, (a.len() + 8) as int) =~= b);
}

impl TableList {
    /// The list as bytes.
    pub fn encode(&self) -> (r: Vec<u8>)
        ensures
            lists(r@, self.begun_at, self.tables@),
    {
        let mut out: Vec<u8> = Vec::new();
        bytes::push_le64(&mut out, self.begun_at);
        proof {
            lemma_number_put(Seq::empty(), self.begun_at);
            assert(out@ =~= Seq::<u8>::empty() + le_bytes(self.begun_at as nat, 8));
        }
        let mut i: usize = 0;
        while i < self.tables.len()
            invariant
                i <= self.tables@.len(),
                lists(out@, self.begun_at, self.tables@.take(i as int)),
            decreases self.tables@.len() - i,
        {
            let ghost a = out@;
            let (number, level): (u64, u64) = self.tables[i];
            bytes::push_le64(&mut out, number);
            let ghost b = out@;
            bytes::push_le64(&mut out, level);
            proof {
                lemma_number_put(a, number);
                lemma_number_put(b, level);
                lemma_number_stays(b, le_bytes(level as nat, 8), a.len() as int);
                lemma_number_stays(a, le_bytes(number as nat, 8), 0);
                lemma_number_stays(b, le_bytes(level as nat, 8), 0);
                let now = self.tables@.take(i + 1);
                let before = self.tables@.take(i as int);
                assert forall|j: int| 0 <= j < now.len() implies (#[trigger] now[j]).0 == number_at(
                    out@,
                    8 + 16 * j,
                ) && now[j].1 == number_at(out@, 16 + 16 * j) by {
                    if j < i {
                        assert(before[j] == now[j]);
                        lemma_number_stays(a, le_bytes(number as nat, 8), 8 + 16 * j);
                        lemma_number_stays(b, le_bytes(level as nat, 8), 8 + 16 * j);
                        lemma_number_stays(a, le_bytes(number as nat, 8), 16 + 16 * j);
                        lemma_number_stays(b, le_bytes(level as nat, 8), 16 + 16 * j);
                    }
                }
            }
            i += 1;
        }
        assert(self.tables@.take(i as int) =~= self.tables@);
        out
    }

    /// The list that bytes hold: `None` where their number is not that of a
    /// list.
    pub fn decode(bytes: &[u8]) -> (r: Option<Self>)
        ensures
            match r {
                Some(list) => lists(bytes@, list.begun_at, list.tables@),
                None => bytes@.len() < 8 || (bytes@.len() - 8) % 16 != 0,
            },
    {
        if bytes.len() < 8 || (bytes.len() - 8) % 16 != 0 {
            return None;
        }
        let begun_at: u64 = bytes::read_le64(bytes, 0);
        let mut tables: Vec<(u64, u64)> = Vec::new();
        let mut at: usize = 8;
        while at < bytes.len()
            invariant
                8 <= at <= bytes@.len(),
                (bytes@.len() - at) % 16 == 0,
                at == 8 + 16 * tables@.len(),
                begun_at == number_at(bytes@, 0),
                forall|i: int|
                    0 <= i < tables@.len() ==> (#[trigger] tables@[i]).0 == number_at(
                        bytes@,
                        8 + 16 * i,
                    ) && tables@[i].1 == number_at(bytes@, 16 + 16 * i),
            decreases bytes@.len() - at,
        {
            let number: u64 = bytes::read_le64(bytes, at);
            let level: u64 = bytes::read_le64(bytes, at + 8);
            tables.push((number, level));
            at += 16;
        }
        Some(TableList { begun_at, tables })
    }
}

/// A list of tables reads back as it was written.
pub proof fn law_list_round_trip(
    bytes: Seq<u8>,
    begun_at: u64,
    tables: Seq<(u64, u64)>,
    read_at: u64,
    read: Seq<(u64, u64)>,
)
    requires
        lists(bytes, begun_at, tables),
        lists(bytes, read_at, read),
    ensures
        read_at == begun_at,
        read == tables,
{
    assert(read.len() == tables.len());
    assert forall|i: int| 0 <= i < read.len() implies read[i] == tables[i] by {
        assert(read[i].0 == tables[i].0);
    }
    assert(read =~= tables);
}

/// The writes of a stack of tables begin with those of its first tables.
proof fn lemma_stack_split(tables: Seq<TableFile>, n: int)
    requires
        0 <= n <= tables.len(),
    ensures
        stacked(tables.take(n)).len() <= stacked(tables).len(),
        stacked(tables).take(stacked(tables.take(n)).len() as int) == stacked(tables.take(n)),
    decreases tables.len(),
{
    if n == tables.len() {
        assert(tables.take(n) =~= tables);
        assert(stacked(tables).take(stacked(tables).len() as int) =~= stacked(tables));
    } else {
        let rest = tables.drop_last();
        lemma_stack_split(rest, n);
        assert(rest.take(n) =~= tables.take(n));
        let head = stacked(tables.take(n));
        assert(stacked(tables) == stacked(rest) + tables.last().history());
        assert(stacked(tables).take(head.len() as int) =~= stacked(rest).take(head.len() as int));
    }
}

/// The first writes of a history in order are in order.
proof fn lemma_ordered_part(h: Seq<Logged>, n: int)
    requires
        0 <= n <= h.len(),
        !ordered(h.take(n)),
    ensures
        !ordered(h),
{
    if ordered(h) {
        let g = h.take(n);
        assert forall|i: int| 0 <= i < g.len() implies (#[trigger] g[i]).seq >= 1 by {
            assert(g[i] == h[i]);
        }
        assert forall|i: int, j: int| 0 <= i < j < g.len() implies (#[trigger] g[i]).seq < (
        #[trigger] g[j]).seq by {
            assert(g[i] == h[i]);
            assert(g[j] == h[j]);
        }
    }
}

/// Two histories in order, the second later than the first, are in order.
proof fn lemma_ordered_join(a: Seq<Logged>, b: Seq<Logged>, bound: u64)
    requires
        ordered(a),
        ordered(b),
        within(a, bound),
        b.len() > 0,
        b[0].seq > bound,
    ensures
        ordered(a + b),
        within(a + b, b.last().seq),
{
    let g = a + b;
    assert forall|i: int| 0 <= i < b.len() implies (#[trigger] b[i]).seq > bound && b[i].seq
        <= b.last().seq by {
        if i > 0 {
            assert(b[0].seq < b[i].seq);
        }
        if i < b.len() - 1 {
            assert(b[i].seq < b[b.len() - 1].seq);
        }
    }
    assert forall|i: int| 0 <= i < g.len() implies (#[trigger] g[i]).seq >= 1 && g[i].seq
        <= b.last().seq by {
        if i < a.len() {
            assert(g[i] == a[i]);
            assert(b[0].seq <= b.last().seq);
        } else {
            assert(g[i] == b[i - a.len()]);
        }
    }
    assert forall|i: int, j: int| 0 <= i < j < g.len() implies (#[trigger] g[i]).seq < (
    #[trigger] g[j]).seq by {
        if j < a.len() {
            assert(g[i] == a[i] && g[j] == a[j]);
        } else if i < a.len() {
            assert(g[i] == a[i] && g[j] == b[j - a.len()]);
        } else {
            assert(g[i] == b[i - a.len()] && g[j] == b[j - a.len()]);
        }
    }
}

/// Each table of a stack that can be stored can be stored.
proof fn lemma_part_storable(tables: Seq<TableFile>, n: int)
    requires
        0 <= n < tables.len(),
        all_storable(stacked(tables)),
    ensures
        all_storable(tables[n].history()),
    decreases tables.len(),
{
    let rest = tables.drop_last();
    let below = stacked(rest);
    let whole = stacked(tables);
    assert(whole == below + tables.last().history());
    if n == tables.len() - 1 {
        let h = tables[n].history();
        assert forall|i: int| 0 <= i < h.len() implies storable((#[trigger] h[i]).op) && keyed(
            h[i].op,
        ) by {
            assert(whole[below.len() + i] == h[i]);
        }
    } else {
        assert forall|i: int| 0 <= i < below.len() implies storable((#[trigger] below[i]).op)
            && keyed(below[i].op) by {
            assert(whole[i] == below[i]);
        }
        lemma_part_storable(rest, n);
        assert(rest[n] == tables[n]);
    }
}

/// What was left behind is told by its tables, its log and where the horizon
/// stood: put together again from the three, it opens as it would have.
pub proof fn law_parts_restore(left: Stored, again: Stored, name: Seq<char>)
    requires
        again.finished() == left.finished(),
        again.log() == left.log(),
        again.mark() == left.mark(),
    ensures
        recovered(again, name) == recovered(left, name),
        recovered(left, name) matches Ok(h) ==> reached(again, h) == reached(left, h),
{
}

/// A table read back from its own file is the table.
pub proof fn law_table_round_trip(table: TableFile, image: Seq<u8>)
    requires
        table.wf(),
        all_storable(table.history()),
        images(image, table_name_text(table.number()), table.history()),
    ensures
        ({
            let done = replay_of(image, table_name_text(table.number()))->Ok_0;
            &&& done.stopped == image.len()
            &&& done.entries == table.history()
            &&& ordered(done.entries)
            &&& all_storable(done.entries)
        }),
{
    table.lemma_table_ordered();
}

} // verus!
