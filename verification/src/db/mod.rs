//! The database handle: column families, checks on what callers pass, reads
//! and writes.

pub mod admin;
pub mod families;
pub mod ingest;
pub mod laws;
pub mod properties;
pub mod read;
pub mod runs;
pub mod snapshot;
pub mod stream;
pub mod tailing;
pub mod write;

use std::sync::Arc;

use vstd::prelude::*;
use vstd::slice::slice_subrange;

use crate::batch::{ops_of, WriteBatch, WriteBatchOp};
use crate::bytes;
use crate::bytes::opt_view;
use crate::column_family::{
    family_of, prefixed, unprefixed, CfRegistry, ColumnFamilyHandle, CF_PREFIX_LEN, DEFAULT_CF_ID,
    DEFAULT_CF_NAME,
};
use crate::engine::memtable::{point_key, weight_of};
use crate::engine::read::{read_at, Read};
use crate::engine::store::{keyed, write_refusal, RegolithEngine};
use crate::error::{checked, error_of, is_fault, Error, ErrorKind, Fault, IoError, Result};
use crate::history::{numbered, Logged, Op};
use crate::iter::{dead_handle_message, dead_handle_text};
use crate::options::{
    bool_text, bool_word, durability_text, durability_word, DurabilityMode, MergeOperator,
};
use crate::text::{decimal, decimal_text, join2, join3, join5, starts_with};

verus! {

// ── errors ──────────────────────────────────────────────────────────────

/// The first of two faults.
pub open spec fn first_fault(a: Option<Fault>, b: Option<Fault>) -> Option<Fault> {
    if a is Some {
        a
    } else {
        b
    }
}

fn invalid_cf_handle_error(cf: &ColumnFamilyHandle) -> (r: Error)
    ensures
        is_fault(
            r,
            Fault::InvalidColumnFamily(dead_handle_text(cf.name_text(), cf.id_number())),
        ),
{
    Error::invalid_column_family(dead_handle_message(cf).as_str())
}

/// How an id of no live family is reported.
pub open spec fn dead_id_text(id: u32) -> Seq<char> {
    "column family id "@ + decimal_text(id as nat) + " is not live"@
}

fn dead_id_message(id: u32) -> (r: String)
    ensures
        r@ == dead_id_text(id),
{
    let number: String = decimal(id as u64);
    join3("column family id ", number.as_str(), " is not live")
}

fn invalid_cf_id_error(id: u32) -> (r: Error)
    ensures
        is_fault(r, Fault::InvalidColumnFamily(dead_id_text(id))),
{
    Error::invalid_column_family(dead_id_message(id).as_str())
}

fn invalid_cf_id_io_error(id: u32) -> (r: IoError)
    ensures
        r.kind == ErrorKind::InvalidInput,
        r.message@ == dead_id_text(id),
{
    IoError { kind: ErrorKind::InvalidInput, message: dead_id_message(id) }
}

/// A failed read says that a merge failed.
pub open spec fn is_merge_failure(err: IoError) -> bool {
    err.kind == ErrorKind::InvalidData && "merge operator "@.is_prefix_of(err.message@)
}

/// The error of a failed point read, for a caller that holds the user key:
/// a merge that failed names the key, anything else is reported as it is.
pub fn map_point_read_error_for(err: IoError, user_key: &[u8]) -> (r: Error)
    ensures
        if is_merge_failure(err) {
            is_fault(r, Fault::MergeFailed(user_key@))
        } else {
            r == error_of(err)
        },
{
    if err.kind == ErrorKind::InvalidData && starts_with(err.message.as_str(), "merge operator ") {
        Error::MergeFailed(bytes::copy(user_key))
    } else {
        Error::from(err)
    }
}

/// The error of a failed point read, for a caller that holds the stored
/// key.
pub fn map_point_read_error(err: IoError, prefixed_key: &[u8]) -> (r: Error)
    ensures
        ({
            let user_key = crate::engine::read::user_key_of(prefixed_key@);
            if is_merge_failure(err) {
                is_fault(r, Fault::MergeFailed(user_key))
            } else {
                r == error_of(err)
            }
        }),
{
    let user_key = if prefixed_key.len() >= CF_PREFIX_LEN {
        slice_subrange(prefixed_key, CF_PREFIX_LEN, prefixed_key.len())
    } else {
        prefixed_key
    };
    assert(user_key@ =~= crate::engine::read::user_key_of(prefixed_key@));
    map_point_read_error_for(err, user_key)
}

/// How a stored key too short for its prefix is reported.
pub open spec fn short_key_text() -> Seq<char> {
    "internal key is shorter than the column-family prefix"@
}

/// The user key of a stored key.
pub fn strip_cf_prefix_key(key: &[u8]) -> (r: Result<Vec<u8>>)
    ensures
        if key@.len() >= CF_PREFIX_LEN {
            r matches Ok(user_key) && user_key@ == unprefixed(key@)
        } else {
            r matches Err(e) && is_fault(e, Fault::Corruption(short_key_text()))
        },
{
    if key.len() >= CF_PREFIX_LEN {
        let user_key = slice_subrange(key, CF_PREFIX_LEN, key.len());
        assert(user_key@ =~= unprefixed(key@));
        Ok(bytes::copy(user_key))
    } else {
        Err(Error::corruption("internal key is shorter than the column-family prefix"))
    }
}

/// A key and its value, as contracts speak of them.
pub open spec fn pair_view(p: (Vec<u8>, Vec<u8>)) -> (Seq<u8>, Seq<u8>) {
    (p.0@, p.1@)
}

/// A run of keys and values.
pub open spec fn pair_views(v: Seq<(Vec<u8>, Vec<u8>)>) -> Seq<(Seq<u8>, Seq<u8>)> {
    Seq::new(v.len(), |i: int| pair_view(v[i]))
}

/// Every key is long enough to carry a prefix.
pub open spec fn all_prefixed(s: Seq<(Seq<u8>, Seq<u8>)>) -> bool {
    forall|i: int| 0 <= i < s.len() ==> (#[trigger] s[i]).0.len() >= CF_PREFIX_LEN
}

/// The pairs with the prefix stripped from every key.
pub open spec fn stripped(s: Seq<(Seq<u8>, Seq<u8>)>) -> Seq<(Seq<u8>, Seq<u8>)> {
    Seq::new(s.len(), |i: int| (unprefixed(s[i].0), s[i].1))
}

/// Strip the prefix from every key.
pub fn strip_cf_prefix_entries(raw: Vec<(Vec<u8>, Vec<u8>)>) -> (r: Result<
    Vec<(Vec<u8>, Vec<u8>)>,
>)
    ensures
        if all_prefixed(pair_views(raw@)) {
            r matches Ok(entries) && pair_views(entries@) == stripped(pair_views(raw@))
        } else {
            r matches Err(e) && is_fault(e, Fault::Corruption(short_key_text()))
        },
{
    let mut out: Vec<(Vec<u8>, Vec<u8>)> = Vec::new();
    let mut i: usize = 0;
    let ghost all = pair_views(raw@);
    while i < raw.len()
        invariant
            i <= raw@.len(),
            all == pair_views(raw@),
            pair_views(out@) == stripped(all).take(i as int),
            forall|j: int| 0 <= j < i ==> (#[trigger] all[j]).0.len() >= CF_PREFIX_LEN,
        decreases raw@.len() - i,
    {
        let ghost before = pair_views(out@);
        assert(all[i as int].0 == raw@[i as int].0@);
        match strip_cf_prefix_key(raw[i].0.as_slice()) {
            Err(e) => {
                assert(all[i as int].0.len() < CF_PREFIX_LEN);
                return Err(e);
            },
            Ok(key) => {
                out.push((key, bytes::copy(raw[i].1.as_slice())));
                proof {
                    assert(pair_views(out@) =~= before.push((key@, raw@[i as int].1@)));
                    assert(stripped(all).take(i + 1) =~= stripped(all).take(i as int).push(
                        stripped(all)[i as int],
                    ));
                }
            },
        }
        i += 1;
    }
    assert(stripped(all).take(i as int) =~= stripped(all));
    Ok(out)
}

/// One bounded page of ordered scan results.
#[derive(Debug, PartialEq, Eq)]
pub struct ScanPage {
    /// Key-value pairs returned for this page, ordered by key.
    pub entries: Vec<(Vec<u8>, Vec<u8>)>,
    /// Inclusive start key to pass to the next page request: the first
    /// matching key that was not returned. `None` when the range has been
    /// exhausted.
    pub next_start: Option<Vec<u8>>,
}

/// Strip the prefix from every key of a page.
pub fn strip_cf_prefix_page(page: ScanPage) -> (r: Result<ScanPage>)
    ensures
        ({
            let raw = pair_views(page.entries@);
            let next = opt_view(page.next_start);
            if all_prefixed(raw) && (next is Some ==> next->0.len() >= CF_PREFIX_LEN) {
                r matches Ok(p) && pair_views(p.entries@) == stripped(raw) && opt_view(
                    p.next_start,
                ) == (match next {
                    Some(key) => Some(unprefixed(key)),
                    None => None,
                })
            } else {
                r matches Err(e) && is_fault(e, Fault::Corruption(short_key_text()))
            }
        }),
{
    let entries: Vec<(Vec<u8>, Vec<u8>)> = match strip_cf_prefix_entries(page.entries) {
        Ok(entries) => entries,
        Err(e) => {
            return Err(e);
        },
    };
    let next_start: Option<Vec<u8>> = match page.next_start {
        None => None,
        Some(key) => match strip_cf_prefix_key(key.as_slice()) {
            Ok(key) => Some(key),
            Err(e) => {
                return Err(e);
            },
        },
    };
    Ok(ScanPage { entries, next_start })
}

/// How a stored key too short for a family id is reported.
pub open spec fn short_id_text() -> Seq<char> {
    "prefixed key is shorter than the column-family id"@
}

/// The column family of a stored key.
pub fn prefixed_cf_id(prefixed_key: &[u8]) -> (r: std::result::Result<u32, IoError>)
    ensures
        if prefixed_key@.len() >= CF_PREFIX_LEN {
            r == Ok::<u32, IoError>(family_of(prefixed_key@))
        } else {
            r matches Err(e) && e.kind == ErrorKind::InvalidInput && e.message@ == short_id_text()
        },
{
    if prefixed_key.len() >= CF_PREFIX_LEN {
        let id: u32 = bytes::read_be32(prefixed_key, 0);
        assert(prefixed_key@.subrange(0, 4) =~= prefixed_key@.take(4));
        Ok(id)
    } else {
        Err(
            IoError::new(
                ErrorKind::InvalidInput,
                "prefixed key is shorter than the column-family id",
            ),
        )
    }
}

/// A half-open key range `[start, end)`.
#[derive(Debug, Clone, Copy, PartialEq, Eq)]
pub struct Range<'a> {
    /// Inclusive lower bound.
    pub start: &'a [u8],
    /// Exclusive upper bound.
    pub end: &'a [u8],
}

impl<'a> Range<'a> {
    /// The range from `start` up to `end`.
    pub fn new(start: &'a [u8], end: &'a [u8]) -> (r: Self)
        ensures
            r.start@ == start@,
            r.end@ == end@,
    {
        Range { start, end }
    }
}

/// Memtable statistics: `count` raw entries, every version and every
/// deletion among them, and their `size` in bytes.
#[derive(Debug, Clone, Copy, PartialEq, Eq, Structural)]
pub struct MemTableStats {
    /// Number of raw entries in the range.
    pub count: u64,
    /// Total bytes in the range.
    pub size: u64,
}

impl Default for MemTableStats {
    fn default() -> (r: Self)
        ensures
            r.count == 0,
            r.size == 0,
    {
        MemTableStats { count: 0, size: 0 }
    }
}

// ── the handle ──────────────────────────────────────────────────────────

/// A key-value database.
pub struct Db {
    pub(crate) engine: RegolithEngine,
    pub(crate) durability: DurabilityMode,
    pub(crate) cfs: CfRegistry,
    read_only: bool,
    max_key_size: usize,
    max_value_size: usize,
    transaction_keys_inline: usize,
}

impl Db {
    /// The engine behind the handle.
    pub closed spec fn store(self) -> RegolithEngine {
        self.engine
    }

    /// The live column families.
    pub closed spec fn families(self) -> CfRegistry {
        self.cfs
    }

    /// When writes are made durable.
    pub closed spec fn mode(self) -> DurabilityMode {
        self.durability
    }

    /// Whether the handle refuses writes.
    pub closed spec fn is_read_only(self) -> bool {
        self.read_only
    }

    /// Longest user key a write takes.
    pub closed spec fn key_limit(self) -> usize {
        self.max_key_size
    }

    /// Longest value a write takes.
    pub closed spec fn value_limit(self) -> usize {
        self.max_value_size
    }

    /// Keys a transaction buffers before indexing them.
    pub closed spec fn keys_inline(self) -> usize {
        self.transaction_keys_inline
    }

    /// Every write the database holds, in order.
    pub open spec fn history(self) -> Seq<Logged> {
        self.store().history()
    }

    /// The writes that would survive a crash.
    pub open spec fn durable(self) -> Seq<Logged> {
        self.store().durable()
    }

    /// The newest sequence number a read may use.
    pub open spec fn horizon(self) -> u64 {
        self.store().horizon()
    }

    /// Whether the handle was closed.
    pub open spec fn is_closed(self) -> bool {
        self.store().is_shut()
    }

    /// The merge operator in use.
    pub open spec fn operator(self) -> Option<Arc<dyn MergeOperator>> {
        self.store().operator()
    }

    /// The engine and the families are whole, and the default family is
    /// there.
    pub closed spec fn wf(self) -> bool {
        &&& self.engine.wf()
        &&& self.cfs.wf()
        &&& self.cfs.live().dom().contains(DEFAULT_CF_NAME@)
        &&& self.cfs.live()[DEFAULT_CF_NAME@] == DEFAULT_CF_ID
    }

    /// A whole database has a whole engine and whole families.
    pub proof fn lemma_parts(self)
        requires
            self.wf(),
        ensures
            self.store().wf(),
            self.families().wf(),
    {
    }

    /// The default family is always live, under its own number.
    pub proof fn lemma_default_live(self)
        requires
            self.wf(),
        ensures
            self.families().live().dom().contains(DEFAULT_CF_NAME@),
            self.families().live()[DEFAULT_CF_NAME@] == DEFAULT_CF_ID,
    {
    }

    /// What writes and reads leave alone.
    pub open spec fn same_handle(self, before: Self) -> bool {
        &&& self.mode() == before.mode()
        &&& self.is_read_only() == before.is_read_only()
        &&& self.key_limit() == before.key_limit()
        &&& self.value_limit() == before.value_limit()
        &&& self.keys_inline() == before.keys_inline()
    }

    /// What a read of `key` in family `id` at `seq` comes to.
    pub open spec fn reads(self, id: u32, key: Seq<u8>, seq: u64) -> Read {
        read_at(self.operator(), self.history(), prefixed(id, key), seq)
    }

    /// Why a write is refused before it is looked at, if it is.
    pub open spec fn gate(self) -> Option<Fault> {
        if self.is_closed() {
            Some(Fault::Closed)
        } else if self.is_read_only() {
            Some(Fault::ReadOnly)
        } else {
            None
        }
    }

    /// Why a key of this length is refused, if it is.
    pub open spec fn key_fault(self, len: int) -> Option<Fault> {
        if len <= self.key_limit() {
            None
        } else {
            Some(
                Fault::InvalidArgument(
                    "key length "@ + decimal_text(len as nat)
                        + " exceeds configured max_key_size "@ + decimal_text(
                        self.key_limit() as nat,
                    ),
                ),
            )
        }
    }

    /// Why a value of this length is refused, if it is.
    pub open spec fn value_fault(self, len: int) -> Option<Fault> {
        if len <= self.value_limit() {
            None
        } else {
            Some(
                Fault::InvalidArgument(
                    "value length "@ + decimal_text(len as nat)
                        + " exceeds configured max_value_size "@ + decimal_text(
                        self.value_limit() as nat,
                    ),
                ),
            )
        }
    }

    /// Why a handle is refused, if it is.
    pub open spec fn handle_fault(self, cf: ColumnFamilyHandle) -> Option<Fault> {
        if self.families().is_live(cf) {
            None
        } else {
            Some(Fault::InvalidColumnFamily(dead_handle_text(cf.name_text(), cf.id_number())))
        }
    }

    /// Why a read through a handle is refused: the database is closed, or the
    /// handle is not live.
    pub open spec fn read_fault(self, cf: ColumnFamilyHandle) -> Option<Fault> {
        if self.is_closed() {
            Some(Fault::Closed)
        } else {
            self.handle_fault(cf)
        }
    }

    /// Why the engine refuses a write, if it does.
    pub open spec fn engine_fault(self, ops: Seq<Op>, disable_wal: bool) -> Option<Fault> {
        match write_refusal(ops, disable_wal) {
            Some(message) => Some(Fault::InvalidArgument(message)),
            None => None,
        }
    }

    /// What a write of `ops` leaves: the database as it was where it was
    /// refused, and the operations under the next sequence numbers where it
    /// was not. A logged write is durable, and so is everything once the
    /// memtable is full.
    pub open spec fn wrote(
        self,
        before: Self,
        fault: Option<Fault>,
        ops: Seq<Op>,
        sync: bool,
        disable_wal: bool,
    ) -> bool {
        if fault is Some {
            self == before
        } else {
            &&& self.same_handle(before)
            &&& self.families() == before.families()
            &&& self.stored(before, ops, sync, disable_wal)
        }
    }

    /// What the engine holds after it took `ops`.
    pub open spec fn stored(self, before: Self, ops: Seq<Op>, sync: bool, disable_wal: bool) -> bool {
        let written = numbered(ops, before.horizon() + 1);
        &&& self.store().same_setting(before.store())
        &&& self.horizon() == before.horizon() + ops.len()
        &&& self.history() == before.history() + written
        &&& self.durable() == (if weight_of(before.store().active() + written)
            >= before.store().settings().write_buffer_size {
            self.history()
        } else if disable_wal {
            before.durable()
        } else {
            before.durable() + written
        })
        &&& self.store().owes_sync() == (before.store().owes_sync() || (sync && !disable_wal))
        &&& if weight_of(before.store().active() + written)
            >= before.store().settings().write_buffer_size {
            self.store().finished_onto(before.store().files(), before.store().active() + written)
        } else {
            &&& self.store().files() == before.store().files()
            &&& self.store().active() == before.store().active() + written
        }
    }

    /// The handle as text, for people.
    pub fn to_text(&self) -> (r: String)
        ensures
            r@ == "Db { durability: "@ + durability_text(self.mode()) + ", read_only: "@ + bool_text(
                self.is_read_only(),
            ) + ", .. }"@,
    {
        join5(
            "Db { durability: ",
            durability_word(self.durability),
            ", read_only: ",
            bool_word(self.read_only),
            ", .. }",
        )
    }

    // ── checks ──────────────────────────────────────────────────────────

    fn ensure_open(&self) -> (r: Result<()>)
        ensures
            checked(
                r,
                if self.is_closed() {
                    Some(Fault::Closed)
                } else {
                    None
                },
            ),
    {
        if self.engine.is_closed() {
            Err(Error::Closed)
        } else {
            Ok(())
        }
    }

    fn ensure_writable(&self) -> (r: Result<()>)
        ensures
            checked(r, self.gate()),
    {
        if let Err(e) = self.ensure_open() {
            return Err(e);
        }
        if self.read_only {
            Err(Error::ReadOnly)
        } else {
            Ok(())
        }
    }

    fn check_key_len(&self, len: usize) -> (r: Result<()>)
        ensures
            checked(r, self.key_fault(len as int)),
    {
        if len <= self.max_key_size {
            return Ok(());
        }
        let got: String = decimal(len as u64);
        let limit: String = decimal(self.max_key_size as u64);
        Err(
            Error::invalid_argument(
                join2(
                    join3("key length ", got.as_str(), " exceeds configured max_key_size ").as_str(),
                    limit.as_str(),
                ).as_str(),
            ),
        )
    }

    fn validate_key_size(&self, key: &[u8]) -> (r: Result<()>)
        ensures
            checked(r, self.key_fault(key@.len() as int)),
    {
        self.check_key_len(key.len())
    }

    fn validate_value_size(&self, value: &[u8]) -> (r: Result<()>)
        ensures
            checked(r, self.value_fault(value@.len() as int)),
    {
        if value.len() <= self.max_value_size {
            return Ok(());
        }
        let got: String = decimal(value.len() as u64);
        let limit: String = decimal(self.max_value_size as u64);
        Err(
            Error::invalid_argument(
                join2(
                    join3(
                        "value length ",
                        got.as_str(),
                        " exceeds configured max_value_size ",
                    ).as_str(),
                    limit.as_str(),
                ).as_str(),
            ),
        )
    }

    fn validate_write_kv_sizes(&self, key: &[u8], value: &[u8]) -> (r: Result<()>)
        ensures
            checked(
                r,
                first_fault(
                    self.key_fault(key@.len() as int),
                    self.value_fault(value@.len() as int),
                ),
            ),
    {
        if let Err(e) = self.validate_key_size(key) {
            return Err(e);
        }
        self.validate_value_size(value)
    }

    /// The length of the user key in a stored key.
    pub open spec fn user_len(prefixed_key: Seq<u8>) -> int {
        if prefixed_key.len() >= CF_PREFIX_LEN {
            prefixed_key.len() - CF_PREFIX_LEN
        } else {
            0
        }
    }

    fn validate_prefixed_key_size(&self, prefixed_key: &[u8]) -> (r: Result<()>)
        ensures
            checked(r, self.key_fault(Db::user_len(prefixed_key@))),
    {
        let user_key_len: usize = if prefixed_key.len() >= CF_PREFIX_LEN {
            prefixed_key.len() - CF_PREFIX_LEN
        } else {
            0
        };
        self.check_key_len(user_key_len)
    }

    /// Why an operation's sizes are refused, if they are.
    pub open spec fn op_size_fault(self, op: Op) -> Option<Fault> {
        match op {
            Op::Put { key, value } => first_fault(
                self.key_fault(Db::user_len(key)),
                self.value_fault(value.len() as int),
            ),
            Op::Delete { key } => self.key_fault(Db::user_len(key)),
            Op::DeleteRange { start, end } => first_fault(
                self.key_fault(Db::user_len(start)),
                self.key_fault(Db::user_len(end)),
            ),
            Op::Merge { key, operand } => first_fault(
                self.key_fault(Db::user_len(key)),
                self.value_fault(operand.len() as int),
            ),
        }
    }

    /// Why a batch's sizes are refused: the first operation at fault.
    pub open spec fn batch_size_fault(self, ops: Seq<Op>) -> Option<Fault>
        decreases ops.len(),
    {
        if ops.len() == 0 {
            None
        } else {
            first_fault(self.batch_size_fault(ops.drop_last()), self.op_size_fault(ops.last()))
        }
    }

    fn validate_op_sizes(&self, op: &WriteBatchOp) -> (r: Result<()>)
        ensures
            checked(r, self.op_size_fault(op@)),
    {
        match op {
            WriteBatchOp::Put { key, value } => {
                if let Err(e) = self.validate_prefixed_key_size(key.as_slice()) {
                    return Err(e);
                }
                self.validate_value_size(value.as_slice())
            },
            WriteBatchOp::Delete { key } => self.validate_prefixed_key_size(key.as_slice()),
            WriteBatchOp::DeleteRange { start, end } => {
                if let Err(e) = self.validate_prefixed_key_size(start.as_slice()) {
                    return Err(e);
                }
                self.validate_prefixed_key_size(end.as_slice())
            },
            WriteBatchOp::Merge { key, operand } => {
                if let Err(e) = self.validate_prefixed_key_size(key.as_slice()) {
                    return Err(e);
                }
                self.validate_value_size(operand.as_slice())
            },
        }
    }

    proof fn lemma_size_fault_stays(self, ops: Seq<Op>, n: int)
        requires
            0 <= n <= ops.len(),
            self.batch_size_fault(ops.take(n)) is Some,
        ensures
            self.batch_size_fault(ops) == self.batch_size_fault(ops.take(n)),
        decreases ops.len(),
    {
        if n < ops.len() {
            assert(ops.drop_last().take(n) =~= ops.take(n));
            self.lemma_size_fault_stays(ops.drop_last(), n);
        } else {
            assert(ops.take(n) =~= ops);
        }
    }

    fn validate_batch_sizes(&self, batch: &WriteBatch) -> (r: Result<()>)
        ensures
            checked(r, self.batch_size_fault(batch.ops())),
    {
        let ops: &Vec<WriteBatchOp> = batch.entries();
        let ghost all = ops_of(ops@);
        let mut i: usize = 0;
        assert(all.take(0) =~= Seq::<Op>::empty());
        while i < ops.len()
            invariant
                i <= ops@.len(),
                all == ops_of(ops@),
                all == batch.ops(),
                self.batch_size_fault(all.take(i as int)) is None,
            decreases ops@.len() - i,
        {
            proof {
                assert(all.take(i + 1).drop_last() =~= all.take(i as int));
                assert(all.take(i + 1).last() == ops@[i as int]@);
            }
            if let Err(e) = self.validate_op_sizes(&ops[i]) {
                proof {
                    self.lemma_size_fault_stays(all, i + 1);
                }
                return Err(e);
            }
            i += 1;
        }
        assert(all.take(i as int) =~= all);
        Ok(())
    }

    /// Why the family of a stored key is refused, if it is.
    pub open spec fn prefix_fault(self, key: Seq<u8>) -> Option<Fault> {
        if key.len() < CF_PREFIX_LEN {
            Some(Fault::InvalidArgument(short_id_text()))
        } else if !self.families().has_id(family_of(key)) {
            Some(Fault::InvalidColumnFamily(dead_id_text(family_of(key))))
        } else {
            None
        }
    }

    /// Why the families an operation names are refused, if they are.
    pub open spec fn op_family_fault(self, op: Op) -> Option<Fault> {
        match op {
            Op::DeleteRange { start, end } => first_fault(
                self.prefix_fault(start),
                self.prefix_fault(end),
            ),
            _ => self.prefix_fault(point_key(op)->0),
        }
    }

    /// Why the families a batch names are refused: the first operation at
    /// fault.
    pub open spec fn batch_family_fault(self, ops: Seq<Op>) -> Option<Fault>
        decreases ops.len(),
    {
        if ops.len() == 0 {
            None
        } else {
            first_fault(self.batch_family_fault(ops.drop_last()), self.op_family_fault(ops.last()))
        }
    }

    proof fn lemma_family_fault_stays(self, ops: Seq<Op>, n: int)
        requires
            0 <= n <= ops.len(),
            self.batch_family_fault(ops.take(n)) is Some,
        ensures
            self.batch_family_fault(ops) == self.batch_family_fault(ops.take(n)),
        decreases ops.len(),
    {
        if n < ops.len() {
            assert(ops.drop_last().take(n) =~= ops.take(n));
            self.lemma_family_fault_stays(ops.drop_last(), n);
        } else {
            assert(ops.take(n) =~= ops);
        }
    }

    /// The operations of a batch of live families carry their prefixes.
    proof fn lemma_live_batch_keyed(self, ops: Seq<Op>, i: int)
        requires
            self.batch_family_fault(ops) is None,
            0 <= i < ops.len(),
        ensures
            keyed(ops[i]),
        decreases ops.len(),
    {
        if i < ops.len() - 1 {
            self.lemma_live_batch_keyed(ops.drop_last(), i);
        }
    }

    /// Check one stored key's column family, remembering the last id found
    /// live so that a run of operations in one family looks it up once.
    fn validate_prefixed_cf(&self, live: &mut Option<u32>, prefixed_key: &[u8]) -> (r: Result<()>)
        requires
            self.wf(),
            *old(live) matches Some(id) ==> self.families().has_id(id),
        ensures
            checked(r, self.prefix_fault(prefixed_key@)),
            *final(live) matches Some(id) ==> self.families().has_id(id),
    {
        let cf_id: u32 = match prefixed_cf_id(prefixed_key) {
            Ok(id) => id,
            Err(e) => {
                return Err(Error::from(e));
            },
        };
        if let Some(last) = *live {
            if last == cf_id {
                return Ok(());
            }
        }
        if !self.cfs.contains_id(cf_id) {
            return Err(invalid_cf_id_error(cf_id));
        }
        *live = Some(cf_id);
        Ok(())
    }

    fn validate_batch_cf_liveness(&self, batch: &WriteBatch) -> (r: Result<()>)
        requires
            self.wf(),
        ensures
            checked(r, self.batch_family_fault(batch.ops())),
    {
        let ops: &Vec<WriteBatchOp> = batch.entries();
        let ghost all = ops_of(ops@);
        let mut live: Option<u32> = None;
        let mut i: usize = 0;
        assert(all.take(0) =~= Seq::<Op>::empty());
        while i < ops.len()
            invariant
                self.wf(),
                i <= ops@.len(),
                all == ops_of(ops@),
                all == batch.ops(),
                live matches Some(id) ==> self.families().has_id(id),
                self.batch_family_fault(all.take(i as int)) is None,
            decreases ops@.len() - i,
        {
            proof {
                assert(all.take(i + 1).drop_last() =~= all.take(i as int));
                assert(all.take(i + 1).last() == ops@[i as int]@);
            }
            let outcome: Result<()> = match &ops[i] {
                WriteBatchOp::Put { key, .. } => self.validate_prefixed_cf(
                    &mut live,
                    key.as_slice(),
                ),
                WriteBatchOp::Delete { key } => self.validate_prefixed_cf(
                    &mut live,
                    key.as_slice(),
                ),
                WriteBatchOp::Merge { key, .. } => self.validate_prefixed_cf(
                    &mut live,
                    key.as_slice(),
                ),
                WriteBatchOp::DeleteRange { start, end } => {
                    match self.validate_prefixed_cf(&mut live, start.as_slice()) {
                        Err(e) => Err(e),
                        Ok(()) => self.validate_prefixed_cf(&mut live, end.as_slice()),
                    }
                },
            };
            if outcome.is_err() {
                proof {
                    self.lemma_family_fault_stays(all, i + 1);
                }
                return outcome;
            }
            i += 1;
        }
        assert(all.take(i as int) =~= all);
        Ok(())
    }

    /// Check that the database is open and the handle live.
    fn validate_cf_read(&self, cf: &ColumnFamilyHandle) -> (r: Result<()>)
        requires
            self.wf(),
        ensures
            checked(r, self.read_fault(*cf)),
    {
        if let Err(e) = self.ensure_open() {
            return Err(e);
        }
        self.validate_cf_handle(cf)
    }

    fn validate_cf_handle(&self, cf: &ColumnFamilyHandle) -> (r: Result<()>)
        requires
            self.wf(),
        ensures
            checked(r, self.handle_fault(*cf)),
    {
        if self.cfs.is_live_handle(cf) {
            Ok(())
        } else {
            Err(invalid_cf_handle_error(cf))
        }
    }

    fn is_live_cf_handle(&self, cf: &ColumnFamilyHandle) -> (r: bool)
        requires
            self.wf(),
        ensures
            r == self.families().is_live(*cf),
    {
        self.cfs.is_live_handle(cf)
    }

    /// Check one stored key's column family on an I/O boundary.
    pub fn validate_prefixed_cf_io(&self, prefixed_key: &[u8]) -> (r: std::result::Result<
        (),
        IoError,
    >)
        requires
            self.wf(),
        ensures
            if prefixed_key@.len() < CF_PREFIX_LEN {
                r matches Err(e) && e.kind == ErrorKind::InvalidInput && e.message@
                    == short_id_text()
            } else if !self.families().has_id(family_of(prefixed_key@)) {
                r matches Err(e) && e.kind == ErrorKind::InvalidInput && e.message@
                    == dead_id_text(family_of(prefixed_key@))
            } else {
                r is Ok
            },
    {
        let cf_id: u32 = match prefixed_cf_id(prefixed_key) {
            Ok(id) => id,
            Err(e) => {
                return Err(e);
            },
        };
        if self.cfs.contains_id(cf_id) {
            Ok(())
        } else {
            Err(invalid_cf_id_io_error(cf_id))
        }
    }
}

} // verus!
