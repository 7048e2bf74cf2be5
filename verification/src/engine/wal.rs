//! The write-ahead log: the durable record of every write.
//!
//! # Format
//!
//! A log opens with a self-checksummed stamp and is followed by records:
//!
//! ```text
//! ["REGO"][format: u16 LE][reserved: u16 LE = 0][stamp checksum: u32 LE]
//! [len: u32 LE][type: u8][payload: len bytes][checksum: u32 LE]
//! ...
//! ```
//!
//! A log whose first four bytes are not `REGO` is one a crash caught during
//! creation: it holds no acknowledged write and is discarded rather than
//! parsed. The checksum covers the length, the type byte and the payload.
//!
//! # How replay tells a crash from corruption
//!
//! A record is *whole* when the log holds its five-byte header, the payload
//! the header promises, and the four checksum bytes after it.
//!
//! * A record the log ends inside is what a crash leaves: replay stops there
//!   and keeps every record before it.
//! * A whole record that fails its checksum, carries an unknown type, or does
//!   not parse is corruption, unless nothing but zeros follows from there on.
//! * An incomplete record after which the rest of the log still parses as
//!   whole records, ending at the last byte, is corruption too: a torn write
//!   leaves nothing behind it.

use vstd::prelude::*;
use vstd::slice::slice_subrange;

use super::checksum;
use super::checksum::{record_sum, stamp_sum};
use crate::batch::{ops_of, WriteBatchOp};
use crate::bytes;
use crate::bytes::{
    le_bytes, le_value, lemma_le_bytes_len, lemma_le_round_trip, lemma_u32_fits, lemma_u64_fits,
};
use crate::error::{ErrorKind, IoError};
use crate::history::{numbered, Logged, Op};
use crate::text;
use crate::text::{decimal_text, zero_padded};

verus! {

pub const RECORD_PUT: u8 = 0x01;

pub const RECORD_DELETE: u8 = 0x02;

pub const RECORD_DELETE_RANGE: u8 = 0x03;

pub const RECORD_MERGE: u8 = 0x04;

pub const RECORD_BATCH: u8 = 0x05;

/// Stamp layout: magic, format, reserved, checksum.
pub const WAL_STAMP_LEN: usize = 12;

/// The log format this build writes.
pub const WAL_FORMAT_V1: u16 = 1;

/// Largest framed record a write may become.
pub const MAX_RECORD_LEN: u32 = 0x4000_0000;

/// Bytes before a record's payload: its length and its type.
pub const RECORD_HEADER_LEN: usize = 5;

/// Bytes after a record's payload.
pub const RECORD_CHECKSUM_LEN: usize = 4;

/// `REGO`, the four bytes every log begins with.
pub open spec fn wal_magic() -> Seq<u8> {
    seq![0x52u8, 0x45u8, 0x47u8, 0x4Fu8]
}

/// A byte string with its length before it.
pub open spec fn part(s: Seq<u8>) -> Seq<u8> {
    le_bytes(s.len(), 4) + s
}

/// The type byte of an operation's record.
pub open spec fn type_of(op: Op) -> u8 {
    match op {
        Op::Put { .. } => RECORD_PUT,
        Op::Delete { .. } => RECORD_DELETE,
        Op::DeleteRange { .. } => RECORD_DELETE_RANGE,
        Op::Merge { .. } => RECORD_MERGE,
    }
}

/// The payload of an operation's record: its byte strings, each with its
/// length, and its sequence number.
pub open spec fn payload(op: Op, seq: u64) -> Seq<u8> {
    match op {
        Op::Put { key, value } => part(key) + part(value) + le_bytes(seq as nat, 8),
        Op::Delete { key } => part(key) + le_bytes(seq as nat, 8),
        Op::DeleteRange { start, end } => part(start) + part(end) + le_bytes(seq as nat, 8),
        Op::Merge { key, operand } => part(key) + part(operand) + le_bytes(seq as nat, 8),
    }
}

/// How many bytes an operation's payload takes.
pub open spec fn payload_len(op: Op) -> nat {
    match op {
        Op::Put { key, value } => 16 + key.len() + value.len(),
        Op::Delete { key } => 12 + key.len(),
        Op::DeleteRange { start, end } => 16 + start.len() + end.len(),
        Op::Merge { key, operand } => 16 + key.len() + operand.len(),
    }
}

/// One framed record.
pub open spec fn record(record_type: u8, data: Seq<u8>) -> Seq<u8> {
    le_bytes(data.len(), 4) + seq![record_type] + data + le_bytes(
        record_sum(data.len() as u32, record_type, data) as nat,
        4,
    )
}

/// One entry of a batch record.
pub open spec fn batch_item(op: Op, seq: u64) -> Seq<u8> {
    seq![type_of(op)] + part(payload(op, seq))
}

/// The entries of a batch record, numbered from `base`.
pub open spec fn batch_items(ops: Seq<Op>, base: int) -> Seq<u8>
    decreases ops.len(),
{
    if ops.len() == 0 {
        Seq::empty()
    } else {
        batch_item(ops[0], base as u64) + batch_items(ops.drop_first(), base + 1)
    }
}

/// The payload of a batch record.
pub open spec fn batch_payload(ops: Seq<Op>, base: int) -> Seq<u8> {
    le_bytes(ops.len(), 4) + batch_items(ops, base)
}

/// How many bytes the entries of a batch take.
pub open spec fn batch_items_len(ops: Seq<Op>) -> nat
    decreases ops.len(),
{
    if ops.len() == 0 {
        0
    } else {
        batch_items_len(ops.drop_last()) + 5 + payload_len(ops.last())
    }
}

/// What a write of `ops` adds to the log: nothing for no operation, the
/// operation's own record for one, a batch record for several.
pub open spec fn ops_record(ops: Seq<Op>, base: int) -> Seq<u8> {
    if ops.len() == 0 {
        Seq::empty()
    } else if ops.len() == 1 {
        record(type_of(ops[0]), payload(ops[0], base as u64))
    } else {
        record(RECORD_BATCH, batch_payload(ops, base))
    }
}

/// How many bytes a write of `ops` adds to the log.
pub open spec fn ops_record_size(ops: Seq<Op>) -> nat {
    if ops.len() == 0 {
        0
    } else if ops.len() == 1 {
        9 + payload_len(ops[0])
    } else {
        9 + 4 + batch_items_len(ops)
    }
}

/// `x`, or the largest `usize` where `x` is larger.
pub open spec fn capped(x: int) -> int {
    if x > usize::MAX {
        usize::MAX as int
    } else {
        x
    }
}

proof fn lemma_part_len(s: Seq<u8>)
    ensures
        part(s).len() == 4 + s.len(),
{
    lemma_le_bytes_len(s.len(), 4);
}

/// The length account matches the bytes of each payload.
pub proof fn lemma_payload_len(op: Op, seq: u64)
    ensures
        payload(op, seq).len() == payload_len(op),
{
    lemma_le_bytes_len(seq as nat, 8);
    match op {
        Op::Put { key, value } => {
            lemma_part_len(key);
            lemma_part_len(value);
        },
        Op::Delete { key } => {
            lemma_part_len(key);
        },
        Op::DeleteRange { start, end } => {
            lemma_part_len(start);
            lemma_part_len(end);
        },
        Op::Merge { key, operand } => {
            lemma_part_len(key);
            lemma_part_len(operand);
        },
    }
}

/// A record is nine bytes longer than its payload.
pub proof fn lemma_record_len(record_type: u8, data: Seq<u8>)
    ensures
        record(record_type, data).len() == 9 + data.len(),
{
    lemma_le_bytes_len(data.len(), 4);
    lemma_le_bytes_len(record_sum(data.len() as u32, record_type, data) as nat, 4);
}

/// A batch's entries end with its last operation's.
proof fn lemma_batch_items_push(ops: Seq<Op>, op: Op, base: int)
    ensures
        batch_items(ops.push(op), base) == batch_items(ops, base) + batch_item(
            op,
            (base + ops.len()) as u64,
        ),
    decreases ops.len(),
{
    if ops.len() == 0 {
        assert(ops.push(op).drop_first() =~= ops);
        assert(batch_items(ops, base + 1) =~= Seq::<u8>::empty());
        assert(batch_items(ops.push(op), base) =~= batch_item(op, base as u64));
        assert(batch_items(ops, base) + batch_item(op, base as u64) =~= batch_item(
            op,
            base as u64,
        ));
    } else {
        assert(ops.push(op).drop_first() =~= ops.drop_first().push(op));
        lemma_batch_items_push(ops.drop_first(), op, base + 1);
        assert(batch_items(ops.push(op), base) =~= batch_items(ops, base) + batch_item(
            op,
            (base + ops.len()) as u64,
        ));
    }
}

/// The length account matches the bytes of a batch's entries.
proof fn lemma_batch_items_len(ops: Seq<Op>, base: int)
    ensures
        batch_items(ops, base).len() == batch_items_len(ops),
    decreases ops.len(),
{
    if ops.len() > 0 {
        let rest = ops.drop_last();
        lemma_batch_items_len(rest, base);
        lemma_batch_items_push(rest, ops.last(), base);
        assert(rest.push(ops.last()) =~= ops);
        let seq = (base + rest.len()) as u64;
        lemma_payload_len(ops.last(), seq);
        lemma_part_len(payload(ops.last(), seq));
    }
}

/// The length account of a write is the length of the bytes it logs.
pub proof fn lemma_ops_record_size(ops: Seq<Op>, base: int)
    ensures
        ops_record(ops, base).len() == ops_record_size(ops),
{
    if ops.len() == 1 {
        lemma_payload_len(ops[0], base as u64);
        lemma_record_len(type_of(ops[0]), payload(ops[0], base as u64));
    } else if ops.len() > 1 {
        lemma_batch_items_len(ops, base);
        lemma_le_bytes_len(ops.len(), 4);
        lemma_record_len(RECORD_BATCH, batch_payload(ops, base));
    }
}

// ── parsing ─────────────────────────────────────────────────────────────

/// A payload of two byte strings and a sequence number, taken apart.
pub ghost enum Parts {
    Short,
    FirstOverflows,
    SecondOverflows,
    Whole { first: Seq<u8>, second: Seq<u8>, seq: u64 },
}

/// Take apart a payload of two byte strings and a sequence number.
pub open spec fn two_parts(data: Seq<u8>) -> Parts {
    if data.len() < 16 {
        Parts::Short
    } else {
        let n = le_value(data.subrange(0, 4)) as int;
        if 4 + n + 4 > data.len() {
            Parts::FirstOverflows
        } else {
            let m = le_value(data.subrange(4 + n, 8 + n)) as int;
            if 8 + n + m + 8 > data.len() {
                Parts::SecondOverflows
            } else {
                Parts::Whole {
                    first: data.subrange(4, 4 + n),
                    second: data.subrange(8 + n, 8 + n + m),
                    seq: le_value(data.subrange(8 + n + m, 16 + n + m)) as u64,
                }
            }
        }
    }
}

/// What a put record's payload says, or why it says nothing.
pub open spec fn put_of(data: Seq<u8>) -> Result<Logged, Seq<char>> {
    match two_parts(data) {
        Parts::Short => Err("put record too short"@),
        Parts::FirstOverflows => Err("put record key overflow"@),
        Parts::SecondOverflows => Err("put record value overflow"@),
        Parts::Whole { first, second, seq } => Ok(
            Logged { seq, op: Op::Put { key: first, value: second } },
        ),
    }
}

/// What a delete record's payload says, or why it says nothing.
pub open spec fn delete_of(data: Seq<u8>) -> Result<Logged, Seq<char>> {
    if data.len() < 12 {
        Err("delete record too short"@)
    } else {
        let n = le_value(data.subrange(0, 4)) as int;
        if 4 + n + 8 > data.len() {
            Err("delete record key overflow"@)
        } else {
            Ok(
                Logged {
                    seq: le_value(data.subrange(4 + n, 12 + n)) as u64,
                    op: Op::Delete { key: data.subrange(4, 4 + n) },
                },
            )
        }
    }
}

/// What a range-delete record's payload says, or why it says nothing.
pub open spec fn delete_range_of(data: Seq<u8>) -> Result<Logged, Seq<char>> {
    match two_parts(data) {
        Parts::Short => Err("delete_range record too short"@),
        Parts::FirstOverflows => Err("delete_range record start overflow"@),
        Parts::SecondOverflows => Err("delete_range record end overflow"@),
        Parts::Whole { first, second, seq } => Ok(
            Logged { seq, op: Op::DeleteRange { start: first, end: second } },
        ),
    }
}

/// What a merge record's payload says, or why it says nothing.
pub open spec fn merge_of(data: Seq<u8>) -> Result<Logged, Seq<char>> {
    match two_parts(data) {
        Parts::Short => Err("merge record too short"@),
        Parts::FirstOverflows => Err("merge record key overflow"@),
        Parts::SecondOverflows => Err("merge record operand overflow"@),
        Parts::Whole { first, second, seq } => Ok(
            Logged { seq, op: Op::Merge { key: first, operand: second } },
        ),
    }
}

/// What one entry of a batch says, or why it says nothing.
pub open spec fn batch_entry_of(record_type: u8, data: Seq<u8>) -> Result<Logged, Seq<char>> {
    if record_type == RECORD_PUT {
        put_of(data)
    } else if record_type == RECORD_DELETE {
        delete_of(data)
    } else if record_type == RECORD_DELETE_RANGE {
        delete_range_of(data)
    } else if record_type == RECORD_MERGE {
        merge_of(data)
    } else if record_type == RECORD_BATCH {
        Err("nested batch records are not supported"@)
    } else {
        Err("unknown WAL batch entry type "@ + decimal_text(record_type as nat))
    }
}

/// `item` before what `rest` holds.
pub open spec fn before(
    item: Seq<Logged>,
    rest: Result<Seq<Logged>, Seq<char>>,
) -> Result<Seq<Logged>, Seq<char>> {
    match rest {
        Ok(rest) => Ok(item + rest),
        Err(e) => Err(e),
    }
}

/// The `count` entries of a batch from offset `pos` on.
pub open spec fn batch_entries_of(data: Seq<u8>, pos: int, count: nat) -> Result<
    Seq<Logged>,
    Seq<char>,
>
    decreases count,
{
    if count == 0 {
        if pos == data.len() {
            Ok(Seq::empty())
        } else {
            Err("batch record has trailing bytes"@)
        }
    } else if pos + 5 > data.len() {
        Err("batch entry header overflow"@)
    } else {
        let n = le_value(data.subrange(pos + 1, pos + 5)) as int;
        if n > data.len() - (pos + 5) {
            Err("batch entry payload overflow"@)
        } else {
            match batch_entry_of(data[pos], data.subrange(pos + 5, pos + 5 + n)) {
                Err(e) => Err(e),
                Ok(item) => before(
                    seq![item],
                    batch_entries_of(data, pos + 5 + n, (count - 1) as nat),
                ),
            }
        }
    }
}

/// What a batch record's payload says, or why it says nothing.
pub open spec fn batch_of(data: Seq<u8>) -> Result<Seq<Logged>, Seq<char>> {
    if data.len() < 4 {
        Err("batch record too short"@)
    } else {
        batch_entries_of(data, 4, le_value(data.subrange(0, 4)))
    }
}

/// Whether `record_type` is a type this build writes.
pub open spec fn known_type(record_type: u8) -> bool {
    RECORD_PUT <= record_type <= RECORD_BATCH
}

/// What a record of a known type says, or why it says nothing.
pub open spec fn record_of(record_type: u8, data: Seq<u8>) -> Result<Seq<Logged>, Seq<char>> {
    if record_type == RECORD_BATCH {
        batch_of(data)
    } else {
        match batch_entry_of(record_type, data) {
            Ok(item) => Ok(seq![item]),
            Err(e) => Err(e),
        }
    }
}

/// A replayed log entry.
#[derive(Debug, Clone, PartialEq, Eq)]
pub enum WalEntry {
    Put { key: Vec<u8>, value: Vec<u8>, seq: u64 },
    Delete { key: Vec<u8>, seq: u64 },
    DeleteRange { start: Vec<u8>, end: Vec<u8>, seq: u64 },
    Merge { key: Vec<u8>, operand: Vec<u8>, seq: u64 },
}

impl View for WalEntry {
    type V = Logged;

    open spec fn view(&self) -> Logged {
        match self {
            WalEntry::Put { key, value, seq } => Logged {
                seq: *seq,
                op: Op::Put { key: key@, value: value@ },
            },
            WalEntry::Delete { key, seq } => Logged { seq: *seq, op: Op::Delete { key: key@ } },
            WalEntry::DeleteRange { start, end, seq } => Logged {
                seq: *seq,
                op: Op::DeleteRange { start: start@, end: end@ },
            },
            WalEntry::Merge { key, operand, seq } => Logged {
                seq: *seq,
                op: Op::Merge { key: key@, operand: operand@ },
            },
        }
    }
}

impl WalEntry {
    /// The sequence number of the write.
    pub fn seq(&self) -> (r: u64)
        ensures
            r == self@.seq,
    {
        match self {
            WalEntry::Put { seq, .. } => *seq,
            WalEntry::Delete { seq, .. } => *seq,
            WalEntry::DeleteRange { seq, .. } => *seq,
            WalEntry::Merge { seq, .. } => *seq,
        }
    }
}

/// The logged writes a run of entries stands for.
pub open spec fn logged(s: Seq<WalEntry>) -> Seq<Logged> {
    Seq::new(s.len(), |i: int| s[i]@)
}

/// A parse came out as `expected` says: the entry, or a data error with the
/// expected message.
pub open spec fn parsed(
    r: Result<WalEntry, IoError>,
    expected: Result<Logged, Seq<char>>,
) -> bool {
    match expected {
        Ok(item) => r matches Ok(entry) && entry@ == item,
        Err(message) => r matches Err(e) && e.kind == ErrorKind::InvalidData && e.message@
            == message,
    }
}

/// As [`parsed`], of a record that may hold several entries.
pub open spec fn parsed_all(
    r: Result<Vec<WalEntry>, IoError>,
    expected: Result<Seq<Logged>, Seq<char>>,
) -> bool {
    match expected {
        Ok(items) => r matches Ok(entries) && logged(entries@) == items,
        Err(message) => r matches Err(e) && e.kind == ErrorKind::InvalidData && e.message@
            == message,
    }
}

/// A payload of two byte strings and a sequence number, taken apart.
enum Split<'a> {
    Short,
    FirstOverflows,
    SecondOverflows,
    Whole { first: &'a [u8], second: &'a [u8], seq: u64 },
}

fn split_parts<'a>(data: &'a [u8]) -> (r: Split<'a>)
    ensures
        match two_parts(data@) {
            Parts::Short => r is Short,
            Parts::FirstOverflows => r is FirstOverflows,
            Parts::SecondOverflows => r is SecondOverflows,
            Parts::Whole { first, second, seq } => r matches Split::Whole {
                first: f,
                second: s,
                seq: q,
            } && f@ == first && s@ == second && q == seq,
        },
{
    let len: usize = data.len();
    if len < 16 {
        return Split::Short;
    }
    let n: usize = bytes::read_le32(data, 0) as usize;
    if n > len - 8 {
        return Split::FirstOverflows;
    }
    let m: usize = bytes::read_le32(data, 4 + n) as usize;
    let left: usize = len - (8 + n);
    if left < 8 || m > left - 8 {
        return Split::SecondOverflows;
    }
    let seq: u64 = bytes::read_le64(data, 8 + n + m);
    Split::Whole {
        first: slice_subrange(data, 4, 4 + n),
        second: slice_subrange(data, 8 + n, 8 + n + m),
        seq,
    }
}

/// Parse the payload of a put record.
pub fn parse_put_record(data: &[u8]) -> (r: Result<WalEntry, IoError>)
    ensures
        parsed(r, put_of(data@)),
{
    match split_parts(data) {
        Split::Short => Err(IoError::invalid_data("put record too short")),
        Split::FirstOverflows => Err(IoError::invalid_data("put record key overflow")),
        Split::SecondOverflows => Err(IoError::invalid_data("put record value overflow")),
        Split::Whole { first, second, seq } => Ok(
            WalEntry::Put { key: bytes::copy(first), value: bytes::copy(second), seq },
        ),
    }
}

/// Parse the payload of a delete record.
pub fn parse_delete_record(data: &[u8]) -> (r: Result<WalEntry, IoError>)
    ensures
        parsed(r, delete_of(data@)),
{
    let len: usize = data.len();
    if len < 12 {
        return Err(IoError::invalid_data("delete record too short"));
    }
    let n: usize = bytes::read_le32(data, 0) as usize;
    if n > len - 12 {
        return Err(IoError::invalid_data("delete record key overflow"));
    }
    let key: Vec<u8> = bytes::copy(slice_subrange(data, 4, 4 + n));
    let seq: u64 = bytes::read_le64(data, 4 + n);
    Ok(WalEntry::Delete { key, seq })
}

/// Parse the payload of a range-delete record.
pub fn parse_delete_range_record(data: &[u8]) -> (r: Result<WalEntry, IoError>)
    ensures
        parsed(r, delete_range_of(data@)),
{
    match split_parts(data) {
        Split::Short => Err(IoError::invalid_data("delete_range record too short")),
        Split::FirstOverflows => Err(IoError::invalid_data("delete_range record start overflow")),
        Split::SecondOverflows => Err(IoError::invalid_data("delete_range record end overflow")),
        Split::Whole { first, second, seq } => Ok(
            WalEntry::DeleteRange { start: bytes::copy(first), end: bytes::copy(second), seq },
        ),
    }
}

/// Parse the payload of a merge record.
pub fn parse_merge_record(data: &[u8]) -> (r: Result<WalEntry, IoError>)
    ensures
        parsed(r, merge_of(data@)),
{
    match split_parts(data) {
        Split::Short => Err(IoError::invalid_data("merge record too short")),
        Split::FirstOverflows => Err(IoError::invalid_data("merge record key overflow")),
        Split::SecondOverflows => Err(IoError::invalid_data("merge record operand overflow")),
        Split::Whole { first, second, seq } => Ok(
            WalEntry::Merge { key: bytes::copy(first), operand: bytes::copy(second), seq },
        ),
    }
}

/// Parse one entry of a batch.
fn parse_batch_entry(record_type: u8, data: &[u8]) -> (r: Result<WalEntry, IoError>)
    ensures
        parsed(r, batch_entry_of(record_type, data@)),
{
    if record_type == RECORD_PUT {
        parse_put_record(data)
    } else if record_type == RECORD_DELETE {
        parse_delete_record(data)
    } else if record_type == RECORD_DELETE_RANGE {
        parse_delete_range_record(data)
    } else if record_type == RECORD_MERGE {
        parse_merge_record(data)
    } else if record_type == RECORD_BATCH {
        Err(IoError::invalid_data("nested batch records are not supported"))
    } else {
        Err(
            IoError::invalid_data(
                text::join2(
                    "unknown WAL batch entry type ",
                    text::decimal(record_type as u64).as_str(),
                ).as_str(),
            ),
        )
    }
}

/// Parse the payload of a batch record.
pub fn parse_batch_record(data: &[u8]) -> (r: Result<Vec<WalEntry>, IoError>)
    ensures
        parsed_all(r, batch_of(data@)),
{
    let len: usize = data.len();
    if len < 4 {
        return Err(IoError::invalid_data("batch record too short"));
    }
    let mut left: u32 = bytes::read_le32(data, 0);
    let mut pos: usize = 4;
    let mut entries: Vec<WalEntry> = Vec::new();
    proof {
        let rest = batch_entries_of(data@, 4, left as nat);
        assert(logged(entries@) =~= Seq::<Logged>::empty());
        if rest is Ok {
            assert(logged(entries@) + rest->Ok_0 =~= rest->Ok_0);
        }
    }
    while left > 0
        invariant
            len == data@.len(),
            4 <= pos <= len,
            batch_of(data@) == before(
                logged(entries@),
                batch_entries_of(data@, pos as int, left as nat),
            ),
        decreases left,
    {
        if len - pos < 5 {
            return Err(IoError::invalid_data("batch entry header overflow"));
        }
        let record_type: u8 = data[pos];
        let n: usize = bytes::read_le32(data, pos + 1) as usize;
        if n > len - (pos + 5) {
            return Err(IoError::invalid_data("batch entry payload overflow"));
        }
        let entry: Result<WalEntry, IoError> = parse_batch_entry(
            record_type,
            slice_subrange(data, pos + 5, pos + 5 + n),
        );
        match entry {
            Err(e) => {
                return Err(e);
            },
            Ok(item) => {
                let ghost was = logged(entries@);
                entries.push(item);
                pos = pos + 5 + n;
                left = left - 1;
                proof {
                    let rest = batch_entries_of(data@, pos as int, left as nat);
                    assert(logged(entries@) =~= was + seq![item@]);
                    if rest is Ok {
                        assert(was + (seq![item@] + rest->Ok_0) =~= logged(entries@) + rest->Ok_0);
                    }
                }
            },
        }
    }
    if pos != len {
        return Err(IoError::invalid_data("batch record has trailing bytes"));
    }
    assert(logged(entries@) + Seq::<Logged>::empty() =~= logged(entries@));
    Ok(entries)
}

/// Parse the payload of a record of a known type.
fn parse_record(record_type: u8, data: &[u8]) -> (r: Result<Vec<WalEntry>, IoError>)
    ensures
        parsed_all(r, record_of(record_type, data@)),
{
    if record_type == RECORD_BATCH {
        parse_batch_record(data)
    } else {
        match parse_batch_entry(record_type, data) {
            Ok(item) => {
                let mut entries: Vec<WalEntry> = Vec::new();
                entries.push(item);
                assert(logged(entries@) =~= seq![item@]);
                Ok(entries)
            },
            Err(e) => Err(e),
        }
    }
}

// ── encoding ────────────────────────────────────────────────────────────

/// The file name of log number `id`.
pub fn wal_filename(id: u64) -> (r: String)
    ensures
        r@ == "wal_"@ + zero_padded(decimal_text(id as nat), 6) + ".log"@,
{
    text::join3("wal_", text::zero_pad(id, 6).as_str(), ".log")
}

/// Total size of a record with a payload of `payload_len` bytes. Saturating:
/// a length near the largest must fail a limit check, not wrap past it.
pub fn record_len(payload_len: usize) -> (r: usize)
    ensures
        r == capped(payload_len + 9),
{
    RECORD_HEADER_LEN.saturating_add(payload_len).saturating_add(RECORD_CHECKSUM_LEN)
}

/// Frame one record into `out`.
pub fn encode_record(out: &mut Vec<u8>, record_type: u8, data: &[u8])
    requires
        data@.len() <= u32::MAX,
    ensures
        final(out)@ == old(out)@ + record(record_type, data@),
{
    let len: u32 = data.len() as u32;
    let sum: u32 = checksum::wal_record(len, record_type, data);
    bytes::push_le32(out, len);
    out.push(record_type);
    out.extend_from_slice(data);
    bytes::push_le32(out, sum);
    assert(out@ =~= old(out)@ + record(record_type, data@));
}

/// Append a byte string with its length before it.
fn push_part(out: &mut Vec<u8>, s: &[u8])
    requires
        s@.len() <= u32::MAX,
    ensures
        final(out)@ == old(out)@ + part(s@),
{
    bytes::push_le32(out, s.len() as u32);
    out.extend_from_slice(s);
    assert(out@ =~= old(out)@ + part(s@));
}

fn encode_put_payload(out: &mut Vec<u8>, key: &[u8], value: &[u8], seq: u64)
    requires
        key@.len() <= u32::MAX,
        value@.len() <= u32::MAX,
    ensures
        final(out)@ == old(out)@ + payload(Op::Put { key: key@, value: value@ }, seq),
{
    push_part(out, key);
    push_part(out, value);
    bytes::push_le64(out, seq);
    assert(out@ =~= old(out)@ + payload(Op::Put { key: key@, value: value@ }, seq));
}

fn encode_delete_payload(out: &mut Vec<u8>, key: &[u8], seq: u64)
    requires
        key@.len() <= u32::MAX,
    ensures
        final(out)@ == old(out)@ + payload(Op::Delete { key: key@ }, seq),
{
    push_part(out, key);
    bytes::push_le64(out, seq);
    assert(out@ =~= old(out)@ + payload(Op::Delete { key: key@ }, seq));
}

fn encode_delete_range_payload(out: &mut Vec<u8>, start: &[u8], end: &[u8], seq: u64)
    requires
        start@.len() <= u32::MAX,
        end@.len() <= u32::MAX,
    ensures
        final(out)@ == old(out)@ + payload(Op::DeleteRange { start: start@, end: end@ }, seq),
{
    push_part(out, start);
    push_part(out, end);
    bytes::push_le64(out, seq);
    assert(out@ =~= old(out)@ + payload(Op::DeleteRange { start: start@, end: end@ }, seq));
}

fn encode_merge_payload(out: &mut Vec<u8>, key: &[u8], operand: &[u8], seq: u64)
    requires
        key@.len() <= u32::MAX,
        operand@.len() <= u32::MAX,
    ensures
        final(out)@ == old(out)@ + payload(Op::Merge { key: key@, operand: operand@ }, seq),
{
    push_part(out, key);
    push_part(out, operand);
    bytes::push_le64(out, seq);
    assert(out@ =~= old(out)@ + payload(Op::Merge { key: key@, operand: operand@ }, seq));
}

/// The payload of one operation.
fn op_payload(op: &WriteBatchOp, seq: u64) -> (r: Vec<u8>)
    requires
        payload_len(op@) <= u32::MAX,
    ensures
        r@ == payload(op@, seq),
        r@.len() == payload_len(op@),
{
    let mut data: Vec<u8> = Vec::new();
    match op {
        WriteBatchOp::Put { key, value } => {
            encode_put_payload(&mut data, key.as_slice(), value.as_slice(), seq);
        },
        WriteBatchOp::Delete { key } => {
            encode_delete_payload(&mut data, key.as_slice(), seq);
        },
        WriteBatchOp::DeleteRange { start, end } => {
            encode_delete_range_payload(&mut data, start.as_slice(), end.as_slice(), seq);
        },
        WriteBatchOp::Merge { key, operand } => {
            encode_merge_payload(&mut data, key.as_slice(), operand.as_slice(), seq);
        },
    }
    proof {
        lemma_payload_len(op@, seq);
        assert(data@ =~= payload(op@, seq));
    }
    data
}

/// The type byte of one operation's record.
fn op_type(op: &WriteBatchOp) -> (r: u8)
    ensures
        r == type_of(op@),
{
    match op {
        WriteBatchOp::Put { .. } => RECORD_PUT,
        WriteBatchOp::Delete { .. } => RECORD_DELETE,
        WriteBatchOp::DeleteRange { .. } => RECORD_DELETE_RANGE,
        WriteBatchOp::Merge { .. } => RECORD_MERGE,
    }
}

/// Encode a single put as one framed record.
pub fn encode_put_record(out: &mut Vec<u8>, key: &[u8], value: &[u8], seq: u64)
    requires
        16 + key@.len() + value@.len() <= u32::MAX,
    ensures
        final(out)@ == old(out)@ + record(
            RECORD_PUT,
            payload(Op::Put { key: key@, value: value@ }, seq),
        ),
{
    let mut data: Vec<u8> = Vec::new();
    encode_put_payload(&mut data, key, value, seq);
    proof {
        lemma_payload_len(Op::Put { key: key@, value: value@ }, seq);
        assert(data@ =~= payload(Op::Put { key: key@, value: value@ }, seq));
    }
    encode_record(out, RECORD_PUT, data.as_slice());
}

/// Encode one write-batch operation as one framed record at `seq`.
pub fn encode_op_record(out: &mut Vec<u8>, op: &WriteBatchOp, seq: u64)
    requires
        payload_len(op@) <= u32::MAX,
    ensures
        final(out)@ == old(out)@ + record(type_of(op@), payload(op@, seq)),
{
    let data: Vec<u8> = op_payload(op, seq);
    encode_record(out, op_type(op), data.as_slice());
}

fn encode_batch_op(out: &mut Vec<u8>, op: &WriteBatchOp, seq: u64)
    requires
        payload_len(op@) <= u32::MAX,
    ensures
        final(out)@ == old(out)@ + batch_item(op@, seq),
{
    let data: Vec<u8> = op_payload(op, seq);
    out.push(op_type(op));
    push_part(out, data.as_slice());
    assert(out@ =~= old(out)@ + batch_item(op@, seq));
}

/// No operation's payload is longer than the whole batch's entries.
proof fn lemma_batch_items_bound(ops: Seq<Op>)
    ensures
        forall|i: int|
            0 <= i < ops.len() ==> payload_len(#[trigger] ops[i]) <= batch_items_len(ops),
    decreases ops.len(),
{
    if ops.len() > 0 {
        lemma_batch_items_bound(ops.drop_last());
        assert forall|i: int| 0 <= i < ops.len() implies payload_len(#[trigger] ops[i])
            <= batch_items_len(ops) by {
            if i < ops.len() - 1 {
                assert(ops.drop_last()[i] == ops[i]);
            }
        }
    }
}

/// Encode `ops` as one framed batch record, the unit replay restores as one.
pub fn encode_ops_batch_record(out: &mut Vec<u8>, ops: &[WriteBatchOp], base_seq: u64)
    requires
        ops@.len() <= u32::MAX,
        4 + batch_items_len(ops_of(ops@)) <= u32::MAX,
        base_seq + ops@.len() <= u64::MAX,
    ensures
        final(out)@ == old(out)@ + record(
            RECORD_BATCH,
            batch_payload(ops_of(ops@), base_seq as int),
        ),
{
    let ghost all = ops_of(ops@);
    let mut data: Vec<u8> = Vec::new();
    bytes::push_le32(&mut data, ops.len() as u32);
    let mut i: usize = 0;
    assert(all.take(0) =~= Seq::<Op>::empty());
    assert(data@ =~= le_bytes(ops@.len(), 4) + batch_items(all.take(0), base_seq as int));
    while i < ops.len()
        invariant
            i <= ops.len(),
            all == ops_of(ops@),
            base_seq + ops@.len() <= u64::MAX,
            4 + batch_items_len(all) <= u32::MAX,
            data@ == le_bytes(ops@.len(), 4) + batch_items(all.take(i as int), base_seq as int),
        decreases ops.len() - i,
    {
        proof {
            lemma_batch_items_bound(all);
            assert(all[i as int] == ops@[i as int]@);
            lemma_batch_items_push(all.take(i as int), all[i as int], base_seq as int);
            assert(all.take(i + 1) =~= all.take(i as int).push(all[i as int]));
        }
        let ghost before = data@;
        encode_batch_op(&mut data, &ops[i], base_seq + i as u64);
        assert(data@ =~= le_bytes(ops@.len(), 4) + batch_items(all.take(i + 1), base_seq as int));
        i += 1;
    }
    proof {
        assert(all.take(all.len() as int) =~= all);
        lemma_batch_items_len(all, base_seq as int);
        lemma_le_bytes_len(ops@.len(), 4);
    }
    encode_record(out, RECORD_BATCH, data.as_slice());
}

/// Encode `ops` into `out` the way the engine writes them: a lone operation
/// becomes its own record, several become one batch record.
pub fn encode_ops_record(out: &mut Vec<u8>, ops: &[WriteBatchOp], base_seq: u64)
    requires
        ops@.len() <= u32::MAX,
        ops_record_size(ops_of(ops@)) <= u32::MAX,
        base_seq + ops@.len() <= u64::MAX,
    ensures
        final(out)@ == old(out)@ + ops_record(ops_of(ops@), base_seq as int),
{
    let ghost all = ops_of(ops@);
    if ops.len() == 0 {
        assert(out@ =~= old(out)@ + ops_record(all, base_seq as int));
    } else if ops.len() == 1 {
        assert(all[0] == ops@[0]@);
        encode_op_record(out, &ops[0], base_seq);
    } else {
        encode_ops_batch_record(out, ops, base_seq);
    }
}

fn put_payload_len(key: &[u8], value: &[u8]) -> (r: usize)
    ensures
        r == capped(payload_len(Op::Put { key: key@, value: value@ }) as int),
{
    key.len().saturating_add(value.len()).saturating_add(16)
}

fn delete_payload_len(key: &[u8]) -> (r: usize)
    ensures
        r == capped(payload_len(Op::Delete { key: key@ }) as int),
{
    key.len().saturating_add(12)
}

fn delete_range_payload_len(start: &[u8], end: &[u8]) -> (r: usize)
    ensures
        r == capped(payload_len(Op::DeleteRange { start: start@, end: end@ }) as int),
{
    start.len().saturating_add(end.len()).saturating_add(16)
}

fn merge_payload_len(key: &[u8], operand: &[u8]) -> (r: usize)
    ensures
        r == capped(payload_len(Op::Merge { key: key@, operand: operand@ }) as int),
{
    key.len().saturating_add(operand.len()).saturating_add(16)
}

fn batch_op_payload_len(op: &WriteBatchOp) -> (r: usize)
    ensures
        r == capped(payload_len(op@) as int),
{
    match op {
        WriteBatchOp::Put { key, value } => put_payload_len(key.as_slice(), value.as_slice()),
        WriteBatchOp::Delete { key } => delete_payload_len(key.as_slice()),
        WriteBatchOp::DeleteRange { start, end } => delete_range_payload_len(
            start.as_slice(),
            end.as_slice(),
        ),
        WriteBatchOp::Merge { key, operand } => merge_payload_len(
            key.as_slice(),
            operand.as_slice(),
        ),
    }
}

/// Size of the record [`encode_put_record`] emits.
pub fn put_record_len(key: &[u8], value: &[u8]) -> (r: usize)
    ensures
        r == capped(9 + payload_len(Op::Put { key: key@, value: value@ }) as int),
{
    record_len(put_payload_len(key, value))
}

/// Framed length of the record one write becomes, accumulated one operation
/// at a time: nothing for no operation, a record of its own for one, a batch
/// record for several.
#[derive(Clone, Copy, Debug)]
pub struct RecordLen {
    ops: usize,
    /// Payload of the first operation, the whole record when it is the only
    /// one.
    first: usize,
    /// Sum of the batch entries so far.
    entries: usize,
}

/// The bytes of batch entries with the given payload lengths.
pub open spec fn entries_len(lens: Seq<nat>) -> nat
    decreases lens.len(),
{
    if lens.len() == 0 {
        0
    } else {
        entries_len(lens.drop_last()) + 5 + lens.last()
    }
}

/// The framed length of a write whose operations have the given payload
/// lengths.
pub open spec fn framed_len(lens: Seq<nat>) -> nat {
    if lens.len() == 0 {
        0
    } else if lens.len() == 1 {
        9 + lens[0]
    } else {
        9 + 4 + entries_len(lens)
    }
}

/// The payload lengths of a run of operations.
pub open spec fn payload_lens(ops: Seq<Op>) -> Seq<nat> {
    Seq::new(ops.len(), |i: int| payload_len(ops[i]))
}

/// The account by payload lengths is the account by operations.
pub proof fn lemma_framed_len(ops: Seq<Op>)
    ensures
        framed_len(payload_lens(ops)) == ops_record_size(ops),
        entries_len(payload_lens(ops)) == batch_items_len(ops),
    decreases ops.len(),
{
    if ops.len() > 0 {
        lemma_framed_len(ops.drop_last());
        assert(payload_lens(ops).drop_last() =~= payload_lens(ops.drop_last()));
    }
}

impl Default for RecordLen {
    fn default() -> (r: Self)
        ensures
            r.accounts(Seq::empty()),
    {
        RecordLen { ops: 0, first: 0, entries: 0 }
    }
}

impl RecordLen {
    /// The account covers operations of exactly these payload lengths.
    pub closed spec fn accounts(self, lens: Seq<nat>) -> bool {
        &&& self.ops == if lens.len() < 2 {
            lens.len()
        } else {
            2
        }
        &&& lens.len() > 0 ==> self.first == capped(lens[0] as int)
        &&& self.entries == capped(entries_len(lens) as int)
    }

    /// Account for one more operation, of `payload` payload bytes.
    pub fn push(&mut self, payload: usize)
        ensures
            forall|lens: Seq<nat>, n: nat|
                old(self).accounts(lens) && capped(n as int) == payload
                    ==> #[trigger] final(self).accounts(lens.push(n)),
    {
        if self.ops == 0 {
            self.first = payload;
        }
        if self.ops < 2 {
            self.ops = self.ops + 1;
        }
        self.entries = self.entries.saturating_add(payload.saturating_add(5));
        assert forall|lens: Seq<nat>, n: nat|
            old(self).accounts(lens) && capped(n as int) == payload implies #[trigger] self.accounts(
            lens.push(n),
        ) by {
            assert(lens.push(n).drop_last() =~= lens);
        }
    }

    pub fn put(&mut self, key: &[u8], value: &[u8])
        ensures
            forall|lens: Seq<nat>|
                old(self).accounts(lens) ==> #[trigger] final(self).accounts(
                    lens.push(payload_len(Op::Put { key: key@, value: value@ })),
                ),
    {
        self.push(put_payload_len(key, value))
    }

    pub fn delete(&mut self, key: &[u8])
        ensures
            forall|lens: Seq<nat>|
                old(self).accounts(lens) ==> #[trigger] final(self).accounts(
                    lens.push(payload_len(Op::Delete { key: key@ })),
                ),
    {
        self.push(delete_payload_len(key))
    }

    pub fn delete_range(&mut self, start: &[u8], end: &[u8])
        ensures
            forall|lens: Seq<nat>|
                old(self).accounts(lens) ==> #[trigger] final(self).accounts(
                    lens.push(payload_len(Op::DeleteRange { start: start@, end: end@ })),
                ),
    {
        self.push(delete_range_payload_len(start, end))
    }

    pub fn merge(&mut self, key: &[u8], operand: &[u8])
        ensures
            forall|lens: Seq<nat>|
                old(self).accounts(lens) ==> #[trigger] final(self).accounts(
                    lens.push(payload_len(Op::Merge { key: key@, operand: operand@ })),
                ),
    {
        self.push(merge_payload_len(key, operand))
    }

    pub fn op(&mut self, op: &WriteBatchOp)
        ensures
            forall|lens: Seq<nat>|
                old(self).accounts(lens) ==> #[trigger] final(self).accounts(
                    lens.push(payload_len(op@)),
                ),
    {
        self.push(batch_op_payload_len(op))
    }

    /// Framed bytes [`encode_ops_record`] emits for the operations so far.
    pub fn framed(&self) -> (r: usize)
        ensures
            forall|lens: Seq<nat>| #[trigger] self.accounts(lens) ==> r == capped(
                framed_len(lens) as int,
            ),
    {
        if self.ops == 0 {
            0
        } else if self.ops == 1 {
            record_len(self.first)
        } else {
            record_len(self.entries.saturating_add(4))
        }
    }
}

/// Size of the record [`encode_ops_record`] emits for `ops`.
pub fn ops_record_len(ops: &[WriteBatchOp]) -> (r: usize)
    ensures
        r == capped(ops_record_size(ops_of(ops@)) as int),
{
    let ghost all = ops_of(ops@);
    let mut len: RecordLen = RecordLen::default();
    let mut i: usize = 0;
    assert(payload_lens(all.take(0)) =~= Seq::<nat>::empty());
    while i < ops.len()
        invariant
            i <= ops.len(),
            all == ops_of(ops@),
            len.accounts(payload_lens(all.take(i as int))),
        decreases ops.len() - i,
    {
        let ghost was = payload_lens(all.take(i as int));
        len.op(&ops[i]);
        assert(payload_lens(all.take(i + 1)) =~= was.push(payload_len(ops@[i as int]@)));
        i += 1;
    }
    proof {
        assert(all.take(all.len() as int) =~= all);
        lemma_framed_len(all);
    }
    len.framed()
}

/// Refuse a write whose framed log record is longer than `limit` bytes.
pub fn check_record_len(framed_len: usize, limit: usize) -> (r: Result<(), IoError>)
    ensures
        r is Ok <==> framed_len <= limit,
        r matches Err(e) ==> e.kind == ErrorKind::InvalidInput && e.message@
            == "write is too large: it would log "@ + decimal_text(framed_len as nat)
            + " bytes and one write can log at most "@ + decimal_text(limit as nat)
            + "; split it into smaller writes"@,
{
    if framed_len <= limit {
        return Ok(());
    }
    Err(
        IoError {
            kind: ErrorKind::InvalidInput,
            message: text::join5(
                "write is too large: it would log ",
                text::decimal(framed_len as u64).as_str(),
                " bytes and one write can log at most ",
                text::decimal(limit as u64).as_str(),
                "; split it into smaller writes",
            ),
        },
    )
}

/// [`check_record_len`] at the format's limit, the bound every write path
/// enforces.
pub fn check_write_len(framed_len: usize) -> (r: Result<(), IoError>)
    ensures
        r is Ok <==> framed_len <= MAX_RECORD_LEN,
        r matches Err(e) ==> e.kind == ErrorKind::InvalidInput && e.message@
            == "write is too large: it would log "@ + decimal_text(framed_len as nat)
            + " bytes and one write can log at most "@ + decimal_text(MAX_RECORD_LEN as nat)
            + "; split it into smaller writes"@,
{
    check_record_len(framed_len, MAX_RECORD_LEN as usize)
}

// ── round trips ─────────────────────────────────────────────────────────

proof fn lemma_two_parts_whole(a: Seq<u8>, b: Seq<u8>, seq: u64)
    requires
        a.len() <= u32::MAX,
        b.len() <= u32::MAX,
    ensures
        two_parts(part(a) + part(b) + le_bytes(seq as nat, 8)) == (Parts::Whole {
            first: a,
            second: b,
            seq,
        }),
{
    let data = part(a) + part(b) + le_bytes(seq as nat, 8);
    lemma_u32_fits();
    lemma_u64_fits();
    lemma_le_bytes_len(a.len(), 4);
    lemma_le_bytes_len(b.len(), 4);
    lemma_le_bytes_len(seq as nat, 8);
    lemma_le_round_trip(a.len(), 4);
    lemma_le_round_trip(b.len(), 4);
    lemma_le_round_trip(seq as nat, 8);
    let n = a.len() as int;
    let m = b.len() as int;
    assert(data.subrange(0, 4) =~= le_bytes(a.len(), 4));
    assert(data.subrange(4, 4 + n) =~= a);
    assert(data.subrange(4 + n, 8 + n) =~= le_bytes(b.len(), 4));
    assert(data.subrange(8 + n, 8 + n + m) =~= b);
    assert(data.subrange(8 + n + m, 16 + n + m) =~= le_bytes(seq as nat, 8));
}

/// Every operation's payload parses back as the operation and the sequence
/// number it was written with.
pub proof fn lemma_entry_round_trip(op: Op, seq: u64)
    requires
        payload_len(op) <= u32::MAX,
    ensures
        batch_entry_of(type_of(op), payload(op, seq)) == Ok::<Logged, Seq<char>>(
            Logged { seq, op },
        ),
{
    match op {
        Op::Put { key, value } => {
            lemma_two_parts_whole(key, value, seq);
        },
        Op::DeleteRange { start, end } => {
            lemma_two_parts_whole(start, end, seq);
        },
        Op::Merge { key, operand } => {
            lemma_two_parts_whole(key, operand, seq);
        },
        Op::Delete { key } => {
            let data = payload(op, seq);
            lemma_u32_fits();
            lemma_u64_fits();
            lemma_le_bytes_len(key.len(), 4);
            lemma_le_bytes_len(seq as nat, 8);
            lemma_le_round_trip(key.len(), 4);
            lemma_le_round_trip(seq as nat, 8);
            let n = key.len() as int;
            assert(data.subrange(0, 4) =~= le_bytes(key.len(), 4));
            assert(data.subrange(4, 4 + n) =~= key);
            assert(data.subrange(4 + n, 12 + n) =~= le_bytes(seq as nat, 8));
        },
    }
}

#[verifier::spinoff_prover]
#[verifier::rlimit(40)]
proof fn lemma_batch_items_parse(head: Seq<u8>, ops: Seq<Op>, base: int)
    requires
        0 <= base,
        base + ops.len() <= u64::MAX,
        forall|i: int| 0 <= i < ops.len() ==> payload_len(#[trigger] ops[i]) <= u32::MAX,
    ensures
        batch_entries_of(head + batch_items(ops, base), head.len() as int, ops.len()) == Ok::<
            Seq<Logged>,
            Seq<char>,
        >(numbered(ops, base)),
    decreases ops.len(),
{
    let data = head + batch_items(ops, base);
    if ops.len() == 0 {
        assert(data =~= head);
        assert(numbered(ops, base) =~= Seq::<Logged>::empty());
    } else {
        let op = ops[0];
        let seq = base as u64;
        let rest = ops.drop_first();
        let item = batch_item(op, seq);
        let body = payload(op, seq);
        let pos = head.len() as int;
        lemma_payload_len(op, seq);
        lemma_le_bytes_len(body.len(), 4);
        lemma_u32_fits();
        lemma_le_round_trip(body.len(), 4);
        lemma_entry_round_trip(op, seq);
        assert(item.len() == 5 + body.len());
        assert(data =~= (head + item) + batch_items(rest, base + 1));
        assert(data[pos] == type_of(op));
        assert(data.subrange(pos + 1, pos + 5) =~= le_bytes(body.len(), 4));
        assert(data.subrange(pos + 5, pos + 5 + body.len()) =~= body);
        assert forall|i: int| 0 <= i < rest.len() implies payload_len(#[trigger] rest[i])
            <= u32::MAX by {
            assert(rest[i] == ops[i + 1]);
        }
        lemma_batch_items_parse(head + item, rest, base + 1);
        assert((head + item).len() == pos + 5 + body.len());
        assert(seq![Logged { seq, op }] + numbered(rest, base + 1) =~= numbered(ops, base));
    }
}

/// A batch record's payload parses back as the operations in order, with
/// consecutive sequence numbers.
pub proof fn lemma_batch_round_trip(ops: Seq<Op>, base: int)
    requires
        ops.len() <= u32::MAX,
        0 <= base,
        base + ops.len() <= u64::MAX,
        forall|i: int| 0 <= i < ops.len() ==> payload_len(#[trigger] ops[i]) <= u32::MAX,
    ensures
        batch_of(batch_payload(ops, base)) == Ok::<Seq<Logged>, Seq<char>>(numbered(ops, base)),
{
    let head = le_bytes(ops.len(), 4);
    lemma_le_bytes_len(ops.len(), 4);
    lemma_u32_fits();
    lemma_le_round_trip(ops.len(), 4);
    lemma_batch_items_parse(head, ops, base);
    assert(batch_payload(ops, base).subrange(0, 4) =~= head);
}

// ── frames ──────────────────────────────────────────────────────────────

/// One record framed inside a log.
pub ghost struct Framed {
    pub record_type: u8,
    pub data: Seq<u8>,
    pub stored: u32,
    pub end: int,
}

/// The record starting at `offset`, where the log holds all of it.
pub open spec fn framed_at(log: Seq<u8>, offset: int) -> Option<Framed> {
    if offset < 0 || offset + 5 > log.len() {
        None
    } else {
        let n = le_value(log.subrange(offset, offset + 4)) as int;
        if offset + 5 + n + 4 > log.len() {
            None
        } else {
            Some(
                Framed {
                    record_type: log[offset + 4],
                    data: log.subrange(offset + 5, offset + 5 + n),
                    stored: le_value(log.subrange(offset + 5 + n, offset + 5 + n + 4)) as u32,
                    end: offset + 5 + n + 4,
                },
            )
        }
    }
}

/// Whether a framed record's stored checksum is that of its bytes.
pub open spec fn sound(f: Framed) -> bool {
    f.stored == record_sum(f.data.len() as u32, f.record_type, f.data)
}

/// Whether the log from `offset` on is nothing but whole records, ending at
/// its last byte.
pub open spec fn tiles(log: Seq<u8>, offset: int) -> bool
    decreases log.len() - offset,
{
    match framed_at(log, offset) {
        None => false,
        Some(f) => f.end == log.len() || tiles(log, f.end),
    }
}

/// Whether a sound record of a known type stands at `offset`, from which the
/// rest of the log tiles.
pub open spec fn resumes(log: Seq<u8>, offset: int) -> bool {
    &&& tiles(log, offset)
    &&& known_type(framed_at(log, offset)->0.record_type)
    &&& sound(framed_at(log, offset)->0)
}

/// The first offset from `from` on at which the log resumes.
pub open spec fn first_resumption(log: Seq<u8>, from: int) -> Option<int>
    decreases log.len() - from,
{
    if from >= log.len() {
        None
    } else if resumes(log, from) {
        Some(from)
    } else {
        first_resumption(log, from + 1)
    }
}

/// One record framed inside a log.
pub struct Frame<'a> {
    pub record_type: u8,
    pub data: &'a [u8],
    pub stored_checksum: u32,
    /// Offset one past this record's checksum: where the next one starts.
    pub end: usize,
}

impl<'a> Frame<'a> {
    /// What the frame holds.
    pub open spec fn framed(self) -> Framed {
        Framed {
            record_type: self.record_type,
            data: self.data@,
            stored: self.stored_checksum,
            end: self.end as int,
        }
    }

    /// Whether the stored checksum matches the bytes of this record.
    pub fn checksum_matches(&self) -> (r: bool)
        requires
            self.data@.len() <= u32::MAX,
        ensures
            r == sound(self.framed()),
    {
        self.stored_checksum == checksum::wal_record(
            self.data.len() as u32,
            self.record_type,
            self.data,
        )
    }
}

/// What is left to do once part of a record header was read.
#[derive(Debug, Clone, Copy, PartialEq, Eq, Structural)]
pub enum HeaderRead {
    /// Read on: so many bytes of the header are there.
    More(usize),
    /// The header is complete.
    Complete,
    /// The log ended before the header began.
    EndOfLog,
}

/// One step of reading a record header from a source that hands out as much
/// as it has: `read` bytes are there, and the next read gave `outcome`. An
/// interrupted read is made again; a source that ends inside the header is a
/// truncated log, one that ends before it a complete one.
pub fn read_wal_header(read: usize, outcome: Result<usize, IoError>) -> (r: Result<
    HeaderRead,
    IoError,
>)
    requires
        read < RECORD_HEADER_LEN,
        outcome matches Ok(n) ==> n <= RECORD_HEADER_LEN - read,
    ensures
        match outcome {
            Ok(n) => if n == 0 && read == 0 {
                r == Ok::<HeaderRead, IoError>(HeaderRead::EndOfLog)
            } else if n == 0 {
                r matches Err(e) && e.kind == ErrorKind::UnexpectedEof && e.message@
                    == "truncated WAL record header"@
            } else if read + n == RECORD_HEADER_LEN {
                r == Ok::<HeaderRead, IoError>(HeaderRead::Complete)
            } else {
                r == Ok::<HeaderRead, IoError>(HeaderRead::More((read + n) as usize))
            },
            Err(e) => if e.kind == ErrorKind::Interrupted {
                r == Ok::<HeaderRead, IoError>(HeaderRead::More(read))
            } else {
                r == Err::<HeaderRead, IoError>(e)
            },
        },
{
    match outcome {
        Ok(n) => if n == 0 && read == 0 {
            Ok(HeaderRead::EndOfLog)
        } else if n == 0 {
            Err(IoError::new(ErrorKind::UnexpectedEof, "truncated WAL record header"))
        } else if read + n == RECORD_HEADER_LEN {
            Ok(HeaderRead::Complete)
        } else {
            Ok(HeaderRead::More(read + n))
        },
        Err(e) => if e.kind == ErrorKind::Interrupted {
            Ok(HeaderRead::More(read))
        } else {
            Err(e)
        },
    }
}

/// How a read of exactly so many bytes is reported: a source that ended too
/// early reads as `message`, any other failure is passed on.
pub fn read_exact_or_truncated(outcome: Result<(), IoError>, message: &str) -> (r: Result<
    (),
    IoError,
>)
    ensures
        match outcome {
            Ok(()) => r is Ok,
            Err(e) => if e.kind == ErrorKind::UnexpectedEof {
                r matches Err(t) && t.kind == ErrorKind::UnexpectedEof && t.message@ == message@
            } else {
                r == Err::<(), IoError>(e)
            },
        },
{
    match outcome {
        Ok(()) => Ok(()),
        Err(e) => if e.kind == ErrorKind::UnexpectedEof {
            Err(IoError::new(ErrorKind::UnexpectedEof, message))
        } else {
            Err(e)
        },
    }
}

/// Frame the record starting at `offset`, or `None` when the log ends inside
/// it. The length field is untrusted: nothing is sized from it until the
/// bytes it promises are known to be present.
pub fn frame_at<'a>(log: &'a [u8], offset: usize) -> (r: Option<Frame<'a>>)
    ensures
        match framed_at(log@, offset as int) {
            None => r is None,
            Some(f) => r matches Some(frame) && frame.framed() == f && f.end <= log@.len()
                && offset < f.end && f.data.len() <= u32::MAX,
        },
{
    let len: usize = log.len();
    if offset > len || len - offset < RECORD_HEADER_LEN {
        return None;
    }
    let n: usize = bytes::read_le32(log, offset) as usize;
    let start: usize = offset + RECORD_HEADER_LEN;
    let left: usize = len - start;
    if left < RECORD_CHECKSUM_LEN || n > left - RECORD_CHECKSUM_LEN {
        return None;
    }
    let stored_checksum: u32 = bytes::read_le32(log, start + n);
    Some(
        Frame {
            record_type: log[offset + 4],
            data: slice_subrange(log, start, start + n),
            stored_checksum,
            end: start + n + RECORD_CHECKSUM_LEN,
        },
    )
}

/// Whether `record_type` is a type this build writes.
fn is_known_type(record_type: u8) -> (r: bool)
    ensures
        r == known_type(record_type),
{
    RECORD_PUT <= record_type && record_type <= RECORD_BATCH
}

/// Offset of the first whole, sound, known-type record after the incomplete
/// one at `pos` from which the rest of the log parses as nothing but whole
/// records, ending at the last byte.
///
/// The tiling is computed once, backwards, in a single pass: each offset
/// takes one frame and one lookup of the answer for the offset it ends at,
/// and only the offsets that survive that are checksummed.
pub fn resync_after(log: &[u8], pos: usize) -> (r: Option<usize>)
    ensures
        match first_resumption(log@, pos + 1) {
            None => r is None,
            Some(at) => r matches Some(o) && o == at,
        },
{
    let len: usize = log.len();
    if pos >= len || pos + 1 >= len {
        return None;
    }
    let scan_start: usize = pos + 1;
    let span: usize = len - scan_start;
    let mut tiled: Vec<bool> = vec![false; span];
    let mut first: Option<usize> = None;
    let mut offset: usize = len;
    while offset > scan_start
        invariant
            len == log@.len(),
            scan_start <= offset <= len,
            tiled@.len() == len - scan_start,
            forall|k: int| 0 <= k < offset - scan_start ==> !#[trigger] tiled@[k],
            forall|o: int|
                offset <= o < len ==> #[trigger] tiled@[o - scan_start] == tiles(log@, o),
            match first_resumption(log@, offset as int) {
                None => first is None,
                Some(at) => first matches Some(o) && o == at,
            },
        decreases offset,
    {
        offset -= 1;
        let ghost was = tiled@;
        match frame_at(log, offset) {
            None => {
                assert(!tiles(log@, offset as int));
            },
            Some(frame) => {
                let whole: bool = frame.end == len || tiled[frame.end - scan_start];
                assert(whole == tiles(log@, offset as int));
                if whole {
                    tiled.set(offset - scan_start, true);
                    if is_known_type(frame.record_type) && frame.checksum_matches() {
                        first = Some(offset);
                    }
                }
            },
        }
        proof {
            assert forall|o: int| offset <= o < len implies #[trigger] tiled@[o - scan_start]
                == tiles(log@, o) by {
                if o > offset {
                    assert(was[o - scan_start] == tiles(log@, o));
                } else {
                    assert(!was[o - scan_start]);
                }
            }
        }
    }
    first
}

// ── the stamp ───────────────────────────────────────────────────────────

/// The stamp of a log of the given format.
pub open spec fn stamp(format: u16) -> Seq<u8> {
    wal_magic() + le_bytes(format as nat, 2) + le_bytes(0, 2) + le_bytes(
        stamp_sum(wal_magic(), format, 0) as nat,
        4,
    )
}

/// What the head of a log says: how long its stamp is, or that it has none,
/// or why it must be refused.
pub open spec fn stamp_of(log: Seq<u8>) -> Result<Option<int>, Seq<char>> {
    if log.len() < WAL_STAMP_LEN || log.subrange(0, 4) != wal_magic() {
        Ok(None)
    } else {
        let format = le_value(log.subrange(4, 6)) as u16;
        let reserved = le_value(log.subrange(6, 8)) as u16;
        if le_value(log.subrange(8, 12)) != stamp_sum(wal_magic(), format, reserved) {
            Err("WAL stamp checksum mismatch"@)
        } else if format > WAL_FORMAT_V1 {
            Err(
                "WAL format "@ + decimal_text(format as nat)
                    + " was written by a newer regolith than this build, which understands up to "@
                    + decimal_text(WAL_FORMAT_V1 as nat),
            )
        } else {
            Ok(Some(WAL_STAMP_LEN as int))
        }
    }
}

/// The four bytes every log begins with.
fn magic() -> (r: Vec<u8>)
    ensures
        r@ == wal_magic(),
{
    let mut m: Vec<u8> = Vec::new();
    m.push(0x52);
    m.push(0x45);
    m.push(0x47);
    m.push(0x4F);
    assert(m@ =~= wal_magic());
    m
}

/// Encode the stamp a fresh log begins with.
pub fn encode_wal_stamp() -> (r: Vec<u8>)
    ensures
        r@ == stamp(WAL_FORMAT_V1),
        r@.len() == WAL_STAMP_LEN,
{
    let head: Vec<u8> = magic();
    let sum: u32 = checksum::wal_stamp(head.as_slice(), WAL_FORMAT_V1, 0);
    let mut out: Vec<u8> = head;
    bytes::push_le16(&mut out, WAL_FORMAT_V1);
    bytes::push_le16(&mut out, 0);
    bytes::push_le32(&mut out, sum);
    proof {
        lemma_le_bytes_len(WAL_FORMAT_V1 as nat, 2);
        lemma_le_bytes_len(0, 2);
        lemma_le_bytes_len(sum as nat, 4);
    }
    out
}

/// Validate the stamp at the head of `log` and return its length.
///
/// Too short for a stamp, or not beginning with the magic, is a log that a
/// crash caught during creation: it holds no record, and that is `None`. A
/// stamp that is present and damaged, or of a newer format, is refused.
pub fn validate_wal_stamp(log: &[u8]) -> (r: Result<Option<usize>, IoError>)
    ensures
        match stamp_of(log@) {
            Ok(None) => r == Ok::<Option<usize>, IoError>(None),
            Ok(Some(n)) => r matches Ok(Some(len)) && len == n,
            Err(m) => r matches Err(e) && e.kind == ErrorKind::InvalidData && e.message@ == m,
        },
{
    if log.len() < WAL_STAMP_LEN {
        return Ok(None);
    }
    let magic: Vec<u8> = magic();
    if !bytes::same(slice_subrange(log, 0, 4), magic.as_slice()) {
        return Ok(None);
    }
    let format: u16 = bytes::read_le16(log, 4);
    let reserved: u16 = bytes::read_le16(log, 6);
    let stored: u32 = bytes::read_le32(log, 8);
    if stored != checksum::wal_stamp(magic.as_slice(), format, reserved) {
        return Err(IoError::invalid_data("WAL stamp checksum mismatch"));
    }
    if format > WAL_FORMAT_V1 {
        let mut message: String = text::join3(
            "WAL format ",
            text::decimal(format as u64).as_str(),
            " was written by a newer regolith than this build, which understands up to ",
        );
        message.append(text::decimal(WAL_FORMAT_V1 as u64).as_str());
        return Err(IoError { kind: ErrorKind::InvalidData, message });
    }
    Ok(Some(WAL_STAMP_LEN))
}

/// A fresh stamp is accepted, whatever follows it.
pub proof fn lemma_stamp_round_trip(rest: Seq<u8>)
    ensures
        stamp_of(stamp(WAL_FORMAT_V1) + rest) == Ok::<Option<int>, Seq<char>>(
            Some(WAL_STAMP_LEN as int),
        ),
        stamp(WAL_FORMAT_V1).len() == WAL_STAMP_LEN,
{
    let log = stamp(WAL_FORMAT_V1) + rest;
    let sum = stamp_sum(wal_magic(), WAL_FORMAT_V1, 0) as nat;
    lemma_le_bytes_len(1, 2);
    lemma_le_bytes_len(0, 2);
    lemma_le_bytes_len(sum, 4);
    reveal_with_fuel(crate::bytes::radix, 3);
    lemma_u32_fits();
    lemma_le_round_trip(1, 2);
    lemma_le_round_trip(0, 2);
    lemma_le_round_trip(sum, 4);
    assert(log.subrange(0, 4) =~= wal_magic());
    assert(log.subrange(4, 6) =~= le_bytes(1, 2));
    assert(log.subrange(6, 8) =~= le_bytes(0, 2));
    assert(log.subrange(8, 12) =~= le_bytes(sum, 4));
}

/// The magic read as a record length is larger than any record a write may
/// become, so a stamp is never taken for a record.
pub proof fn lemma_stamp_is_no_record_length()
    ensures
        le_value(wal_magic()) > MAX_RECORD_LEN,
{
    let m = wal_magic();
    assert(m.drop_first() =~= seq![0x45u8, 0x47u8, 0x4Fu8]);
    assert(m.drop_first().drop_first() =~= seq![0x47u8, 0x4Fu8]);
    assert(m.drop_first().drop_first().drop_first() =~= seq![0x4Fu8]);
    assert(m.drop_first().drop_first().drop_first().drop_first() =~= Seq::<u8>::empty());
    reveal_with_fuel(le_value, 5);
}

// ── replay ──────────────────────────────────────────────────────────────

/// What replaying a log yields: the writes of its whole records, and the
/// offset it stopped at, the log's length unless a torn tail was discarded.
pub ghost struct Replayed {
    pub entries: Seq<Logged>,
    pub stopped: int,
}

/// Every byte from `pos` on is zero.
pub open spec fn unwritten(log: Seq<u8>, pos: int) -> bool {
    forall|i: int| pos <= i < log.len() ==> #[trigger] log[i] == 0
}

/// How a replay of the log at `path` says that a record runs past the end
/// though whole records follow it.
pub open spec fn resumption_message(log: Seq<u8>, path: Seq<char>, pos: int, next: int) -> Seq<
    char,
> {
    path + " is corrupt: the WAL record at offset "@ + decimal_text(pos as nat)
        + " runs past the end of the file, but a whole record follows it at offset "@
        + decimal_text(next as nat) + ", so the "@ + decimal_text((log.len() - pos) as nat)
        + " trailing byte(s) are damage rather than a torn write. Refusing to open rather than discard them."@
}

/// How a replay of the log at `path` says that a whole record is unusable.
pub open spec fn mismatch_message(path: Seq<char>, pos: int) -> Seq<char> {
    "WAL checksum mismatch in "@ + path + " at offset "@ + decimal_text(pos as nat)
}

/// `entries` before what `rest` replayed.
pub open spec fn replayed_before(
    entries: Seq<Logged>,
    rest: Result<Replayed, Seq<char>>,
) -> Result<Replayed, Seq<char>> {
    match rest {
        Ok(r) => Ok(Replayed { entries: entries + r.entries, stopped: r.stopped }),
        Err(e) => Err(e),
    }
}

/// Replay the records from `pos` on.
#[verifier::opaque]
pub open spec fn replay_from(log: Seq<u8>, path: Seq<char>, pos: int) -> Result<Replayed, Seq<char>>
    decreases log.len() - pos,
{
    if pos >= log.len() {
        Ok(Replayed { entries: Seq::empty(), stopped: pos })
    } else {
        match framed_at(log, pos) {
            None => match first_resumption(log, pos + 1) {
                Some(next) => Err(resumption_message(log, path, pos, next)),
                None => Ok(Replayed { entries: Seq::empty(), stopped: pos }),
            },
            Some(f) => if f.end <= pos {
                Ok(Replayed { entries: Seq::empty(), stopped: pos })
            } else if !known_type(f.record_type) || !sound(f) {
                if unwritten(log, pos) {
                    Ok(Replayed { entries: Seq::empty(), stopped: pos })
                } else {
                    Err(mismatch_message(path, pos))
                }
            } else {
                match record_of(f.record_type, f.data) {
                    Err(e) => Err(e),
                    Ok(entries) => replayed_before(entries, replay_from(log, path, f.end)),
                }
            },
        }
    }
}

/// Replay a whole log: an unstamped one holds nothing.
pub open spec fn replay_of(log: Seq<u8>, path: Seq<char>) -> Result<Replayed, Seq<char>> {
    match stamp_of(log) {
        Err(e) => Err(e),
        Ok(None) => Ok(Replayed { entries: Seq::empty(), stopped: 0 }),
        Ok(Some(n)) => replay_from(log, path, n),
    }
}

/// Whether every byte from `pos` on is zero, which is how bytes a crash never
/// wrote read back.
fn tail_is_unwritten(log: &[u8], pos: usize) -> (r: bool)
    requires
        pos <= log@.len(),
    ensures
        r == unwritten(log@, pos as int),
{
    let mut i: usize = pos;
    while i < log.len()
        invariant
            pos <= i <= log@.len(),
            forall|j: int| pos <= j < i ==> #[trigger] log@[j] == 0,
        decreases log@.len() - i,
    {
        if log[i] != 0 {
            return false;
        }
        i += 1;
    }
    true
}

/// Where a replay stopped short of the last byte, and how much it threw away.
#[derive(Clone, Copy, Debug)]
pub struct TailVerdict {
    pub offset: u64,
    pub discarded_bytes: u64,
}

impl TailVerdict {
    /// Everything from `pos` on is discarded.
    fn discarded(log: &[u8], pos: usize) -> (r: Self)
        requires
            pos <= log@.len(),
        ensures
            r.offset == pos,
            r.discarded_bytes == log@.len() - pos,
    {
        TailVerdict { offset: pos as u64, discarded_bytes: (log.len() - pos) as u64 }
    }
}

/// Decide whether the incomplete record at `pos` is the end of the log or
/// whole records still follow it, which no torn write can leave.
fn end_of_log_or_corruption(path: &str, log: &[u8], pos: usize) -> (r: Result<(), IoError>)
    requires
        pos <= log@.len(),
    ensures
        match first_resumption(log@, pos + 1) {
            None => r is Ok,
            Some(next) => r matches Err(e) && e.kind == ErrorKind::InvalidData && e.message@
                == resumption_message(log@, path@, pos as int, next),
        },
{
    match resync_after(log, pos) {
        None => Ok(()),
        Some(next) => {
            let mut message: String = text::join5(
                path,
                " is corrupt: the WAL record at offset ",
                text::decimal(pos as u64).as_str(),
                " runs past the end of the file, but a whole record follows it at offset ",
                text::decimal(next as u64).as_str(),
            );
            message.append(", so the ");
            message.append(text::decimal((log.len() - pos) as u64).as_str());
            message.append(
                " trailing byte(s) are damage rather than a torn write. Refusing to open rather than discard them.",
            );
            assert(message@ =~= resumption_message(log@, path@, pos as int, next as int));
            Err(IoError { kind: ErrorKind::InvalidData, message })
        },
    }
}

/// Decide what an incomplete record beginning at `record_start` means: a torn
/// tail to discard, or, where whole records follow it, damage.
pub fn classify_incomplete_record(path: &str, log: &[u8], record_start: u64) -> (r: Result<
    TailVerdict,
    IoError,
>)
    ensures
        ({
            let pos = if record_start > log@.len() {
                log@.len() as int
            } else {
                record_start as int
            };
            match first_resumption(log@, pos + 1) {
                None => r matches Ok(v) && v.offset == pos && v.discarded_bytes == log@.len() - pos,
                Some(next) => r matches Err(e) && e.kind == ErrorKind::InvalidData && e.message@
                    == resumption_message(log@, path@, pos, next),
            }
        }),
{
    let pos: usize = if record_start > log.len() as u64 {
        log.len()
    } else {
        record_start as usize
    };
    match end_of_log_or_corruption(path, log, pos) {
        Ok(_) => Ok(TailVerdict::discarded(log, pos)),
        Err(e) => Err(e),
    }
}

/// Decide what a whole record of an unusable type or with a failing checksum
/// means: the end of the log where nothing but zeros follows, else damage.
pub fn classify_unusable_record(path: &str, log: &[u8], record_start: u64) -> (r: Result<
    TailVerdict,
    IoError,
>)
    ensures
        ({
            let pos = if record_start > log@.len() {
                log@.len() as int
            } else {
                record_start as int
            };
            if unwritten(log@, pos) {
                r matches Ok(v) && v.offset == pos && v.discarded_bytes == log@.len() - pos
            } else {
                r matches Err(e) && e.kind == ErrorKind::InvalidData && e.message@
                    == mismatch_message(path@, pos)
            }
        }),
{
    let pos: usize = if record_start > log.len() as u64 {
        log.len()
    } else {
        record_start as usize
    };
    if !tail_is_unwritten(log, pos) {
        let mut message: String = text::join3("WAL checksum mismatch in ", path, " at offset ");
        message.append(text::decimal(pos as u64).as_str());
        return Err(IoError { kind: ErrorKind::InvalidData, message });
    }
    Ok(TailVerdict::discarded(log, pos))
}

/// The writes of a replayed log, and the tail it discarded, if any.
pub struct Replay {
    pub entries: Vec<WalEntry>,
    pub tail: Option<TailVerdict>,
}

/// Replay the log `log` that `path` names.
pub fn replay(path: &str, log: &[u8]) -> (r: Result<Replay, IoError>)
    ensures
        match replay_of(log@, path@) {
            Err(m) => r matches Err(e) && e.kind == ErrorKind::InvalidData && e.message@ == m,
            Ok(done) => r matches Ok(replay) && logged(replay.entries@) == done.entries && (
            replay.tail matches Some(v) ==> v.offset == done.stopped && v.discarded_bytes
                == log@.len() - done.stopped) && (replay.tail is None ==> done.stopped
                == log@.len()),
        },
{
    let start: usize = match validate_wal_stamp(log) {
        Err(e) => {
            return Err(e);
        },
        Ok(None) => {
            let entries: Vec<WalEntry> = Vec::new();
            assert(logged(entries@) =~= Seq::<Logged>::empty());
            return Ok(Replay { entries, tail: Some(TailVerdict::discarded(log, 0)) });
        },
        Ok(Some(n)) => n,
    };
    let mut entries: Vec<WalEntry> = Vec::new();
    let mut pos: usize = start;
    proof {
        let rest = replay_from(log@, path@, pos as int);
        assert(logged(entries@) =~= Seq::<Logged>::empty());
        if rest is Ok {
            assert(logged(entries@) + rest->Ok_0.entries =~= rest->Ok_0.entries);
        }
    }
    while pos < log.len()
        invariant
            pos <= log@.len(),
            replay_of(log@, path@) == replayed_before(
                logged(entries@),
                replay_from(log@, path@, pos as int),
            ),
        decreases log@.len() - pos,
    {
        proof {
            reveal_with_fuel(replay_from, 1);
        }
        assert(logged(entries@) + Seq::<Logged>::empty() =~= logged(entries@));
        match frame_at(log, pos) {
            None => {
                return match classify_incomplete_record(path, log, pos as u64) {
                    Ok(v) => Ok(Replay { entries, tail: Some(v) }),
                    Err(e) => Err(e),
                };
            },
            Some(frame) => {
                if !is_known_type(frame.record_type) || !frame.checksum_matches() {
                    return match classify_unusable_record(path, log, pos as u64) {
                        Ok(v) => Ok(Replay { entries, tail: Some(v) }),
                        Err(e) => Err(e),
                    };
                }
                let end: usize = frame.end;
                match parse_record(frame.record_type, frame.data) {
                    Err(e) => {
                        return Err(e);
                    },
                    Ok(items) => {
                        let ghost was = logged(entries@);
                        let ghost more = logged(items@);
                        let ghost rest = replay_from(log@, path@, end as int);
                        let mut items: Vec<WalEntry> = items;
                        entries.append(&mut items);
                        assert(logged(entries@) =~= was + more);
                        proof {
                            if rest is Ok {
                                assert(was + (more + rest->Ok_0.entries) =~= (was + more)
                                    + rest->Ok_0.entries);
                            }
                        }
                        pos = end;
                    },
                }
            },
        }
    }
    proof {
        reveal_with_fuel(replay_from, 1);
    }
    assert(logged(entries@) + Seq::<Logged>::empty() =~= logged(entries@));
    Ok(Replay { entries, tail: None })
}

// ── laws of replay ──────────────────────────────────────────────────────

/// A record framed into a log is found there, sound and entire, whatever
/// stands before and after it.
pub proof fn lemma_framed_record(head: Seq<u8>, record_type: u8, data: Seq<u8>, tail: Seq<u8>)
    requires
        data.len() <= u32::MAX,
    ensures
        framed_at(head + record(record_type, data) + tail, head.len() as int) == Some(
            Framed {
                record_type,
                data,
                stored: record_sum(data.len() as u32, record_type, data),
                end: (head.len() + 9 + data.len()) as int,
            },
        ),
{
    let rec = record(record_type, data);
    let log = head + rec + tail;
    let at = head.len() as int;
    let n = data.len() as int;
    let sum = record_sum(data.len() as u32, record_type, data);
    lemma_record_len(record_type, data);
    lemma_le_bytes_len(data.len(), 4);
    lemma_le_bytes_len(sum as nat, 4);
    lemma_u32_fits();
    lemma_le_round_trip(data.len(), 4);
    lemma_le_round_trip(sum as nat, 4);
    assert(log.subrange(at, at + 4) =~= le_bytes(data.len(), 4));
    assert(log[at + 4] == record_type);
    assert(log.subrange(at + 5, at + 5 + n) =~= data);
    assert(log.subrange(at + 5 + n, at + 9 + n) =~= le_bytes(sum as nat, 4));
}

/// What follows a whole record does not change how it is framed.
proof fn lemma_frame_stable(log: Seq<u8>, longer: Seq<u8>, pos: int)
    requires
        log.is_prefix_of(longer),
        framed_at(log, pos) is Some,
    ensures
        framed_at(longer, pos) == framed_at(log, pos),
{
    let n = le_value(log.subrange(pos, pos + 4)) as int;
    assert(longer.subrange(pos, pos + 4) =~= log.subrange(pos, pos + 4));
    assert(longer.subrange(pos + 5, pos + 5 + n) =~= log.subrange(pos + 5, pos + 5 + n));
    assert(longer.subrange(pos + 5 + n, pos + 9 + n) =~= log.subrange(pos + 5 + n, pos + 9 + n));
}

/// The log from `pos` on is nothing but usable records.
pub open spec fn clean_from(log: Seq<u8>, path: Seq<char>, pos: int) -> bool {
    replay_from(log, path, pos) matches Ok(r) && r.stopped == log.len()
}

/// A replay passes over a usable record to the one after it.
pub proof fn lemma_replay_step(log: Seq<u8>, path: Seq<char>, pos: int)
    requires
        0 <= pos,
        framed_at(log, pos) matches Some(f) && known_type(f.record_type) && sound(f) && record_of(
            f.record_type,
            f.data,
        ) is Ok,
    ensures
        replay_from(log, path, pos) == replayed_before(
            record_of(framed_at(log, pos)->0.record_type, framed_at(log, pos)->0.data)->Ok_0,
            replay_from(log, path, framed_at(log, pos)->0.end),
        ),
{
    reveal_with_fuel(replay_from, 1);
}

/// The first record of a clean log is usable, and the rest is clean.
proof fn lemma_clean_step(log: Seq<u8>, path: Seq<char>, pos: int)
    requires
        0 <= pos < log.len(),
        clean_from(log, path, pos),
    ensures
        framed_at(log, pos) matches Some(f) && pos < f.end <= log.len() && known_type(
            f.record_type,
        ) && sound(f) && record_of(f.record_type, f.data) is Ok && clean_from(log, path, f.end),
        replay_from(log, path, pos) == replayed_before(
            record_of(framed_at(log, pos)->0.record_type, framed_at(log, pos)->0.data)->Ok_0,
            replay_from(log, path, framed_at(log, pos)->0.end),
        ),
{
    reveal_with_fuel(replay_from, 1);
}

/// A record of a known type parses to the write it was made from.
proof fn lemma_ops_record_parses(ops: Seq<Op>, base: int)
    requires
        0 < ops.len() <= u32::MAX,
        ops_record_size(ops) <= u32::MAX,
        0 <= base,
        base + ops.len() <= u64::MAX,
    ensures
        ({
            let data = if ops.len() == 1 {
                payload(ops[0], base as u64)
            } else {
                batch_payload(ops, base)
            };
            let record_type = if ops.len() == 1 {
                type_of(ops[0])
            } else {
                RECORD_BATCH
            };
            &&& ops_record(ops, base) == record(record_type, data)
            &&& data.len() <= u32::MAX
            &&& known_type(record_type)
            &&& record_of(record_type, data) == Ok::<Seq<Logged>, Seq<char>>(numbered(ops, base))
        }),
{
    lemma_ops_record_size(ops, base);
    if ops.len() == 1 {
        lemma_payload_len(ops[0], base as u64);
        lemma_entry_round_trip(ops[0], base as u64);
        assert(seq![Logged { seq: base as u64, op: ops[0] }] =~= numbered(ops, base));
    } else {
        lemma_record_len(RECORD_BATCH, batch_payload(ops, base));
        lemma_batch_items_len(ops, base);
        lemma_batch_items_bound(ops);
        lemma_batch_round_trip(ops, base);
    }
}

/// The record of a write, last in a log, replays as the write.
#[verifier::rlimit(40)]
#[verifier::spinoff_prover]
proof fn lemma_replay_last(log: Seq<u8>, path: Seq<char>, ops: Seq<Op>, base: int)
    requires
        0 < ops.len() <= u32::MAX,
        ops_record_size(ops) <= u32::MAX,
        0 <= base,
        base + ops.len() <= u64::MAX,
    ensures
        replay_from(log + ops_record(ops, base), path, log.len() as int) == Ok::<
            Replayed,
            Seq<char>,
        >(
            Replayed {
                entries: numbered(ops, base),
                stopped: (log + ops_record(ops, base)).len() as int,
            },
        ),
{
    reveal_with_fuel(replay_from, 2);
    let longer = log + ops_record(ops, base);
    let pos = log.len() as int;
    let data = if ops.len() == 1 {
        payload(ops[0], base as u64)
    } else {
        batch_payload(ops, base)
    };
    let record_type = if ops.len() == 1 {
        type_of(ops[0])
    } else {
        RECORD_BATCH
    };
    lemma_ops_record_parses(ops, base);
    lemma_record_len(record_type, data);
    assert(log + record(record_type, data) + Seq::<u8>::empty() =~= longer);
    lemma_framed_record(log, record_type, data, Seq::empty());
    let f = framed_at(longer, pos)->0;
    assert(f.end == longer.len());
    assert(replay_from(longer, path, f.end) == Ok::<Replayed, Seq<char>>(
        Replayed { entries: Seq::empty(), stopped: f.end },
    ));
    assert(numbered(ops, base) + Seq::<Logged>::empty() =~= numbered(ops, base));
}

/// A write appended to a clean log replays after everything before it, as
/// the operations it was made of with consecutive sequence numbers.
pub proof fn lemma_replay_appended(
    log: Seq<u8>,
    path: Seq<char>,
    pos: int,
    ops: Seq<Op>,
    base: int,
)
    requires
        0 <= pos <= log.len(),
        clean_from(log, path, pos),
        0 < ops.len() <= u32::MAX,
        ops_record_size(ops) <= u32::MAX,
        0 <= base,
        base + ops.len() <= u64::MAX,
    ensures
        clean_from(log + ops_record(ops, base), path, pos),
        replay_from(log + ops_record(ops, base), path, pos)->Ok_0.entries == replay_from(
            log,
            path,
            pos,
        )->Ok_0.entries + numbered(ops, base),
    decreases log.len() - pos,
{
    let longer = log + ops_record(ops, base);
    if pos == log.len() {
        lemma_replay_last(log, path, ops, base);
        assert(replay_from(log, path, pos)->Ok_0.entries =~= Seq::<Logged>::empty()) by {
            reveal_with_fuel(replay_from, 1);
        }
        assert(Seq::<Logged>::empty() + numbered(ops, base) =~= numbered(ops, base));
    } else {
        lemma_clean_step(log, path, pos);
        let f = framed_at(log, pos)->0;
        assert(log.is_prefix_of(longer));
        lemma_frame_stable(log, longer, pos);
        let items = record_of(f.record_type, f.data)->Ok_0;
        lemma_replay_appended(log, path, f.end, ops, base);
        lemma_replay_step(longer, path, pos);
        let rest = replay_from(log, path, f.end)->Ok_0.entries;
        assert(items + (rest + numbered(ops, base)) =~= (items + rest) + numbered(ops, base));
    }
}

/// The last record boundary at or before `cut`, of the records from `pos` on.
pub open spec fn boundary_before(log: Seq<u8>, pos: int, cut: int) -> int
    decreases log.len() - pos,
{
    match framed_at(log, pos) {
        None => pos,
        Some(f) => if pos < f.end <= cut {
            boundary_before(log, f.end, cut)
        } else {
            pos
        },
    }
}

/// The writes of the records from `pos` on that end at or before `cut`.
pub open spec fn entries_before(log: Seq<u8>, pos: int, cut: int) -> Seq<Logged>
    decreases log.len() - pos,
{
    match framed_at(log, pos) {
        None => Seq::empty(),
        Some(f) => if pos < f.end <= cut {
            record_of(f.record_type, f.data)->Ok_0 + entries_before(log, f.end, cut)
        } else {
            Seq::empty()
        },
    }
}

/// A crash costs at most the record it landed in: a clean log cut anywhere
/// replays to exactly the writes of the records that survived whole, and
/// stops where they end. The bytes of the torn record must not themselves
/// read as whole records up to the cut, which is what a replay refuses.
pub proof fn lemma_replay_cut(log: Seq<u8>, path: Seq<char>, pos: int, cut: int)
    requires
        0 <= pos <= cut <= log.len(),
        clean_from(log, path, pos),
        boundary_before(log, pos, cut) < cut ==> first_resumption(
            log.take(cut),
            boundary_before(log, pos, cut) + 1,
        ) is None,
    ensures
        replay_from(log.take(cut), path, pos) == Ok::<Replayed, Seq<char>>(
            Replayed {
                entries: entries_before(log, pos, cut),
                stopped: boundary_before(log, pos, cut),
            },
        ),
    decreases log.len() - pos,
{
    let short = log.take(cut);
    reveal_with_fuel(replay_from, 1);
    if pos == log.len() {
        assert(framed_at(log, pos) is None);
    } else {
        let f = framed_at(log, pos)->0;
        let n = le_value(log.subrange(pos, pos + 4)) as int;
        if f.end <= cut {
            assert(short.subrange(pos, pos + 4) =~= log.subrange(pos, pos + 4));
            assert(short.subrange(pos + 5, pos + 5 + n) =~= log.subrange(pos + 5, pos + 5 + n));
            assert(short.subrange(pos + 5 + n, pos + 9 + n) =~= log.subrange(
                pos + 5 + n,
                pos + 9 + n,
            ));
            assert(framed_at(short, pos) == framed_at(log, pos));
            lemma_replay_cut(log, path, f.end, cut);
        } else if pos < cut {
            if pos + 5 <= cut {
                assert(short.subrange(pos, pos + 4) =~= log.subrange(pos, pos + 4));
            }
            assert(framed_at(short, pos) is None);
        }
    }
}

/// The writes of the records up to a cut come first among all the writes of
/// a log.
pub proof fn lemma_entries_before_first(log: Seq<u8>, path: Seq<char>, pos: int, cut: int)
    requires
        0 <= pos <= cut <= log.len(),
        clean_from(log, path, pos),
    ensures
        entries_before(log, pos, cut).is_prefix_of(replay_from(log, path, pos)->Ok_0.entries),
    decreases log.len() - pos,
{
    if pos < log.len() {
        lemma_clean_step(log, path, pos);
        let f = framed_at(log, pos)->0;
        if f.end <= cut {
            lemma_entries_before_first(log, path, f.end, cut);
            let items = record_of(f.record_type, f.data)->Ok_0;
            let rest = replay_from(log, path, f.end)->Ok_0.entries;
            let kept = entries_before(log, f.end, cut);
            assert((items + kept).is_prefix_of(items + rest)) by {
                assert(kept =~= rest.take(kept.len() as int));
                assert(items + kept =~= (items + rest).take((items + kept).len() as int));
            }
        }
    }
}

/// A replay stops inside the log, and the log up to there replays to the
/// same writes with nothing left over.
pub proof fn lemma_replay_kept(log: Seq<u8>, path: Seq<char>, pos: int)
    requires
        0 <= pos <= log.len(),
        replay_from(log, path, pos) is Ok,
    ensures
        ({
            let done = replay_from(log, path, pos)->Ok_0;
            &&& pos <= done.stopped <= log.len()
            &&& replay_from(log.take(done.stopped), path, pos) == Ok::<Replayed, Seq<char>>(done)
        }),
    decreases log.len() - pos,
{
    reveal_with_fuel(replay_from, 1);
    let done = replay_from(log, path, pos)->Ok_0;
    let short = log.take(done.stopped);
    let f = framed_at(log, pos)->0;
    if pos < log.len() && framed_at(log, pos) is Some && pos < f.end && known_type(f.record_type)
        && sound(f) {
        let n = le_value(log.subrange(pos, pos + 4)) as int;
        lemma_replay_kept(log, path, f.end);
        let rest = replay_from(log, path, f.end)->Ok_0;
        assert(rest.stopped == done.stopped);
        assert(short.subrange(pos, pos + 4) =~= log.subrange(pos, pos + 4));
        assert(short.subrange(pos + 5, pos + 5 + n) =~= log.subrange(pos + 5, pos + 5 + n));
        assert(short.subrange(pos + 5 + n, pos + 9 + n) =~= log.subrange(pos + 5 + n, pos + 9 + n));
        assert(framed_at(short, pos) == framed_at(log, pos));
    }
}

/// What follows a stamp does not change it.
pub proof fn lemma_stamp_stable(log: Seq<u8>, rest: Seq<u8>)
    requires
        log.len() >= WAL_STAMP_LEN,
    ensures
        stamp_of(log + rest) == stamp_of(log),
{
    let longer = log + rest;
    assert(longer.subrange(0, 4) =~= log.subrange(0, 4));
    assert(longer.subrange(4, 6) =~= log.subrange(4, 6));
    assert(longer.subrange(6, 8) =~= log.subrange(6, 8));
    assert(longer.subrange(8, 12) =~= log.subrange(8, 12));
}

/// No operation of a write that the log takes is longer than the record.
pub proof fn lemma_record_covers(ops: Seq<Op>, i: int)
    requires
        0 <= i < ops.len(),
    ensures
        payload_len(ops[i]) <= ops_record_size(ops),
        ops.len() <= ops_record_size(ops),
{
    lemma_items_cover(ops, i);
}

proof fn lemma_items_cover(ops: Seq<Op>, i: int)
    requires
        0 <= i < ops.len(),
    ensures
        payload_len(ops[i]) <= batch_items_len(ops),
        ops.len() <= batch_items_len(ops),
    decreases ops.len(),
{
    if i < ops.len() - 1 {
        lemma_items_cover(ops.drop_last(), i);
    } else if ops.len() > 1 {
        lemma_items_cover(ops.drop_last(), 0);
    }
}

// ── the log ─────────────────────────────────────────────────────────────

/// A write-ahead log: its bytes so far, and whether the directory entry that
/// names it has been made durable.
pub struct Wal {
    image: Vec<u8>,
    path: String,
    parent_synced: bool,
}

impl Wal {
    /// The bytes of the log.
    pub closed spec fn log(self) -> Seq<u8> {
        self.image@
    }

    /// The name of the log.
    pub closed spec fn name(self) -> Seq<char> {
        self.path@
    }

    /// Whether the directory entry is durable.
    pub closed spec fn named(self) -> bool {
        self.parent_synced
    }

    /// A new log, holding its stamp alone.
    pub fn create(path: &str) -> (r: Self)
        ensures
            r.log() == stamp(WAL_FORMAT_V1),
            r.name() == path@,
            !r.named(),
    {
        Wal { image: encode_wal_stamp(), path: path.to_owned(), parent_synced: false }
    }

    /// The log whose bytes so far are `image`.
    pub fn resume(path: &str, image: Vec<u8>) -> (r: Self)
        ensures
            r.log() == image@,
            r.name() == path@,
            !r.named(),
    {
        Wal { image, path: path.to_owned(), parent_synced: false }
    }

    /// The log is whole, and replays to these writes.
    pub open spec fn holds(self, entries: Seq<Logged>) -> bool {
        &&& stamp_of(self.log()) == Ok::<Option<int>, Seq<char>>(Some(WAL_STAMP_LEN as int))
        &&& self.log().len() >= WAL_STAMP_LEN
        &&& clean_from(self.log(), self.name(), WAL_STAMP_LEN as int)
        &&& replay_from(self.log(), self.name(), WAL_STAMP_LEN as int)->Ok_0.entries == entries
    }

    /// A new log is whole and holds nothing.
    pub proof fn lemma_new_holds(self)
        requires
            self.log() == stamp(WAL_FORMAT_V1),
        ensures
            self.holds(Seq::empty()),
    {
        lemma_stamp_round_trip(Seq::empty());
        assert(stamp(WAL_FORMAT_V1) + Seq::<u8>::empty() =~= stamp(WAL_FORMAT_V1));
        reveal_with_fuel(replay_from, 1);
    }

    /// A write appended to a whole log adds its operations to what the log
    /// holds.
    pub proof fn lemma_append_holds(
        before: Self,
        after: Self,
        entries: Seq<Logged>,
        ops: Seq<Op>,
        base: int,
    )
        requires
            before.holds(entries),
            after.log() == before.log() + ops_record(ops, base),
            after.name() == before.name(),
            0 < ops.len() <= u32::MAX,
            ops_record_size(ops) <= u32::MAX,
            0 <= base,
            base + ops.len() <= u64::MAX,
        ensures
            after.holds(entries + numbered(ops, base)),
    {
        lemma_stamp_stable(before.log(), ops_record(ops, base));
        lemma_replay_appended(before.log(), before.name(), WAL_STAMP_LEN as int, ops, base);
    }

    /// Append one fully formed group of records.
    pub fn append_group(&mut self, group: &[u8])
        requires
            group@.len() <= MAX_RECORD_LEN,
        ensures
            final(self).log() == old(self).log() + group@,
            final(self).name() == old(self).name(),
            final(self).named() == old(self).named(),
    {
        self.image.extend_from_slice(group);
    }

    /// Byte offset one past the last appended record.
    pub fn offset(&self) -> (r: u64)
        ensures
            r == self.log().len(),
    {
        self.image.len() as u64
    }

    /// Truncate back to `offset`. The stamp is never rolled back over.
    pub fn rollback_to(&mut self, offset: u64)
        requires
            WAL_STAMP_LEN <= offset <= old(self).log().len(),
        ensures
            final(self).log() == old(self).log().take(offset as int),
            final(self).name() == old(self).name(),
            final(self).named() == old(self).named(),
    {
        self.image.truncate(offset as usize);
        assert(self.image@ =~= old(self).image@.take(offset as int));
    }

    /// Append a put record.
    pub fn append_put(&mut self, key: &[u8], value: &[u8], seq: u64)
        requires
            25 + key@.len() + value@.len() <= MAX_RECORD_LEN,
        ensures
            final(self).log() == old(self).log() + record(
                RECORD_PUT,
                payload(Op::Put { key: key@, value: value@ }, seq),
            ),
            final(self).name() == old(self).name(),
            final(self).named() == old(self).named(),
    {
        encode_put_record(&mut self.image, key, value, seq);
    }

    /// Append a delete record.
    pub fn append_delete(&mut self, key: &[u8], seq: u64)
        requires
            21 + key@.len() <= MAX_RECORD_LEN,
        ensures
            final(self).log() == old(self).log() + record(
                RECORD_DELETE,
                payload(Op::Delete { key: key@ }, seq),
            ),
            final(self).name() == old(self).name(),
            final(self).named() == old(self).named(),
    {
        let mut data: Vec<u8> = Vec::new();
        encode_delete_payload(&mut data, key, seq);
        proof {
            lemma_payload_len(Op::Delete { key: key@ }, seq);
            assert(data@ =~= payload(Op::Delete { key: key@ }, seq));
        }
        encode_record(&mut self.image, RECORD_DELETE, data.as_slice());
    }

    /// Append a merge record: an operand layered on whatever `key` has.
    pub fn append_merge(&mut self, key: &[u8], operand: &[u8], seq: u64)
        requires
            25 + key@.len() + operand@.len() <= MAX_RECORD_LEN,
        ensures
            final(self).log() == old(self).log() + record(
                RECORD_MERGE,
                payload(Op::Merge { key: key@, operand: operand@ }, seq),
            ),
            final(self).name() == old(self).name(),
            final(self).named() == old(self).named(),
    {
        let mut data: Vec<u8> = Vec::new();
        encode_merge_payload(&mut data, key, operand, seq);
        proof {
            lemma_payload_len(Op::Merge { key: key@, operand: operand@ }, seq);
            assert(data@ =~= payload(Op::Merge { key: key@, operand: operand@ }, seq));
        }
        encode_record(&mut self.image, RECORD_MERGE, data.as_slice());
    }

    /// Append a range-delete record covering `[start, end)`.
    pub fn append_delete_range(&mut self, start: &[u8], end: &[u8], seq: u64)
        requires
            25 + start@.len() + end@.len() <= MAX_RECORD_LEN,
        ensures
            final(self).log() == old(self).log() + record(
                RECORD_DELETE_RANGE,
                payload(Op::DeleteRange { start: start@, end: end@ }, seq),
            ),
            final(self).name() == old(self).name(),
            final(self).named() == old(self).named(),
    {
        let mut data: Vec<u8> = Vec::new();
        encode_delete_range_payload(&mut data, start, end, seq);
        proof {
            lemma_payload_len(Op::DeleteRange { start: start@, end: end@ }, seq);
            assert(data@ =~= payload(Op::DeleteRange { start: start@, end: end@ }, seq));
        }
        encode_record(&mut self.image, RECORD_DELETE_RANGE, data.as_slice());
    }

    /// Append a write of `ops`, as one record.
    pub fn append_ops(&mut self, ops: &[WriteBatchOp], base_seq: u64)
        requires
            ops@.len() <= u32::MAX,
            ops_record_size(ops_of(ops@)) <= MAX_RECORD_LEN,
            base_seq + ops@.len() <= u64::MAX,
        ensures
            final(self).log() == old(self).log() + ops_record(ops_of(ops@), base_seq as int),
            final(self).name() == old(self).name(),
            final(self).named() == old(self).named(),
    {
        encode_ops_record(&mut self.image, ops, base_seq);
    }

    /// Whether the next sync must sync the parent directory too: the entry
    /// naming the log is made durable once per log, on the first sync that
    /// succeeds.
    pub fn needs_parent_sync(&self) -> (r: bool)
        ensures
            r == !self.named(),
    {
        !self.parent_synced
    }

    /// Settle a sync from what the host reported of its two halves: the data
    /// sync, and the parent sync where one was needed. The data's failure
    /// comes first; a failed parent sync is due again on the next sync.
    pub fn sync_with_parent_sync(
        &mut self,
        data: Result<(), IoError>,
        parent: Result<(), IoError>,
    ) -> (r: Result<(), IoError>)
        ensures
            final(self).log() == old(self).log(),
            final(self).name() == old(self).name(),
            final(self).named() == (old(self).named() || (data is Ok && parent is Ok)),
            match data {
                Err(e) => r == Err::<(), IoError>(e),
                Ok(_) => if old(self).named() {
                    r is Ok
                } else {
                    r == parent
                },
            },
    {
        if data.is_err() {
            return data;
        }
        if self.parent_synced {
            return Ok(());
        }
        if parent.is_ok() {
            self.parent_synced = true;
        }
        parent
    }

    /// The name of this log.
    pub fn path(&self) -> (r: &str)
        ensures
            r@ == self.name(),
    {
        self.path.as_str()
    }

    /// The bytes of this log, given up.
    pub fn into_image(self) -> (r: Vec<u8>)
        ensures
            r@ == self.log(),
    {
        self.image
    }

    /// The bytes of this log, for the host to write.
    pub fn image(&self) -> (r: &[u8])
        ensures
            r@ == self.log(),
    {
        self.image.as_slice()
    }
}

} // verus!
