//! Writes: single operations, batches, and what each leaves behind.

use vstd::prelude::*;

use crate::batch::{ops_of, WriteBatch, WriteBatchOp};
use crate::bytes;
use crate::bytes::bytes_lt;
use crate::column_family::{
    lemma_prefixed_parts, prefix_key, prefixed, ColumnFamilyHandle, DEFAULT_CF_ID,
};
use crate::db::{first_fault, Db};
use crate::engine::store::keyed;
use crate::error::{checked, is_fault, Error, Fault, Result};
use crate::history::Op;
use crate::options::{DurabilityMode, WriteOptions};

verus! {

impl Db {
    /// The database takes writes that need no more sequence numbers than
    /// are left.
    pub open spec fn has_room(self, n: nat) -> bool {
        self.horizon() + n < u64::MAX
    }

    /// Whether a write under these options is synced.
    pub open spec fn syncs(self, opts: WriteOptions) -> bool {
        opts.sync || self.mode() == DurabilityMode::Immediate
    }

    /// Whether a write under these options is synced, where a durability mode
    /// that is given for the one call overrides them.
    pub open spec fn syncs_as(self, opts: WriteOptions, durability: Option<DurabilityMode>) -> bool {
        match durability {
            Some(mode) => mode == DurabilityMode::Immediate,
            None => self.syncs(opts),
        }
    }

    /// What a write under these options needs: a durability mode, and
    /// whether the log is skipped. `sync` wins over the database's own mode.
    fn resolve_write_opts(&self, opts: &WriteOptions) -> (r: (DurabilityMode, bool))
        ensures
            (r.0 == DurabilityMode::Immediate) == self.syncs(*opts),
            r.1 == opts.disable_wal,
    {
        let mode: DurabilityMode = if opts.sync {
            DurabilityMode::Immediate
        } else {
            self.durability
        };
        (mode, opts.disable_wal)
    }

    /// Why a write is refused for a stall, if it is: the write will not wait,
    /// or waiting would not help.
    pub open spec fn stall_fault(self, no_slowdown: bool) -> Option<Fault> {
        match self.store().stall() {
            Some(reason) if no_slowdown || self.store().stalled_for_good() => Some(
                Fault::Busy(reason),
            ),
            _ => None,
        }
    }

    /// Refuse a write that will not wait while the engine is stalling, and
    /// any write where waiting would not help. A write that can wait is the
    /// host's to hold back, by [`Db::write_stall`].
    fn wait_for_write_capacity(&self, opts: &WriteOptions) -> (r: Result<()>)
        requires
            self.wf(),
        ensures
            checked(r, self.stall_fault(opts.no_slowdown)),
    {
        match self.engine.write_stall() {
            Some(reason) => if opts.no_slowdown || self.engine.write_stall_is_permanent() {
                Err(Error::Busy(reason))
            } else {
                Ok(())
            },
            None => Ok(()),
        }
    }

    /// Why writes should be held back, if they should: too much waits to be
    /// compacted. The host waits, or compacts, before it writes on.
    pub fn write_stall(&self) -> (r: Option<&'static str>)
        requires
            self.wf(),
        ensures
            match self.store().stall() {
                Some(reason) => r matches Some(text) && text@ == reason,
                None => r is None,
            },
    {
        self.engine.write_stall()
    }

    /// Write `ops` as one, and return the new horizon.
    pub(crate) fn submit(
        &mut self,
        ops: &Vec<WriteBatchOp>,
        durability: DurabilityMode,
        disable_wal: bool,
    ) -> (r: Result<u64>)
        requires
            old(self).wf(),
            ops@.len() > 0,
            forall|i: int| 0 <= i < ops@.len() ==> keyed(#[trigger] ops_of(ops@)[i]),
            old(self).has_room(ops@.len()),
        ensures
            final(self).wf(),
            ({
                let fault = old(self).engine_fault(ops_of(ops@), disable_wal);
                &&& final(self).wrote(
                    *old(self),
                    fault,
                    ops_of(ops@),
                    durability == DurabilityMode::Immediate,
                    disable_wal,
                )
                &&& match fault {
                    Some(f) => r matches Err(e) && is_fault(e, f),
                    None => r matches Ok(seq) && seq == final(self).horizon(),
                }
            }),
    {
        let sync = matches!(durability, DurabilityMode::Immediate);
        match self.engine.apply(ops, sync, disable_wal) {
            Err(e) => Err(Error::from(e)),
            Ok(seq) => {
                self.engine.flush_when_full();
                Ok(seq)
            },
        }
    }

    /// Write one operation.
    fn submit_one(&mut self, op: WriteBatchOp, durability: DurabilityMode, disable_wal: bool) -> (r:
        Result<()>)
        requires
            old(self).wf(),
            keyed(op@),
            old(self).has_room(1),
        ensures
            final(self).wf(),
            ({
                let ops = seq![op@];
                let fault = old(self).engine_fault(ops, disable_wal);
                &&& final(self).wrote(
                    *old(self),
                    fault,
                    ops,
                    durability == DurabilityMode::Immediate,
                    disable_wal,
                )
                &&& checked(r, fault)
            }),
    {
        let mut ops: Vec<WriteBatchOp> = Vec::new();
        ops.push(op);
        assert(ops_of(ops@) =~= seq![op@]);
        match self.submit(&ops, durability, disable_wal) {
            Ok(_) => Ok(()),
            Err(e) => Err(e),
        }
    }

    /// Set a key to a value in the default column family, under the database's own
    /// durability mode.
    pub fn put(&mut self, key: &[u8], value: &[u8]) -> (r: Result<()>)
        requires
            old(self).wf(),
            old(self).has_room(1),
        ensures
            final(self).wf(),
            ({
                let ops = seq![(Op::Put { key: prefixed(DEFAULT_CF_ID, key@), value: value@ })];
                let fault = first_fault(
                    old(self).gate(),
                    first_fault(first_fault(
                        old(self).key_fault(key@.len() as int),
                        old(self).value_fault(value@.len() as int),
                    ), first_fault(old(self).stall_fault(false), old(self).engine_fault(ops, false))),
                );
                &&& checked(r, fault)
                &&& final(self).wrote(
                    *old(self),
                    fault,
                    ops,
                    old(self).mode() == DurabilityMode::Immediate,
                    false,
                )
            }),
    {
        let opts: WriteOptions = WriteOptions::default();
        self.put_opt(&opts, key, value)
    }

    /// [`Db::put`] with an explicit [`WriteOptions`] override.
    pub fn put_opt(&mut self, opts: &WriteOptions, key: &[u8], value: &[u8]) -> (r: Result<()>)
        requires
            old(self).wf(),
            old(self).has_room(1),
        ensures
            final(self).wf(),
            ({
                let ops = seq![(Op::Put { key: prefixed(DEFAULT_CF_ID, key@), value: value@ })];
                let fault = first_fault(
                    old(self).gate(),
                    first_fault(first_fault(
                        old(self).key_fault(key@.len() as int),
                        old(self).value_fault(value@.len() as int),
                    ), first_fault(old(self).stall_fault(opts.no_slowdown), old(self).engine_fault(ops, opts.disable_wal))),
                );
                &&& checked(r, fault)
                &&& final(self).wrote(
                    *old(self),
                    fault,
                    ops,
                    old(self).syncs(*opts),
                    opts.disable_wal,
                )
            }),
    {
        if let Err(e) = self.ensure_writable() {
            return Err(e);
        }
        if let Err(e) = self.validate_write_kv_sizes(key, value) {
            return Err(e);
        }
        proof {
            lemma_prefixed_parts(DEFAULT_CF_ID, key@);
        }
        if let Err(e) = self.wait_for_write_capacity(opts) {
            return Err(e);
        }
        let (mode, disable_wal) = self.resolve_write_opts(opts);
        self.submit_one(WriteBatchOp::Put { key: prefix_key(DEFAULT_CF_ID, key), value: bytes::copy(value) }, mode, disable_wal)
    }

    /// Set a key to a value in column family `cf`.
    pub fn put_cf(&mut self, cf: &ColumnFamilyHandle, key: &[u8], value: &[u8]) -> (r: Result<()>)
        requires
            old(self).wf(),
            old(self).has_room(1),
        ensures
            final(self).wf(),
            ({
                let ops = seq![(Op::Put { key: prefixed(cf.id_number(), key@), value: value@ })];
                let fault = first_fault(
                    old(self).gate(),
                    first_fault(
                        old(self).handle_fault(*cf),
                        first_fault(first_fault(
                        old(self).key_fault(key@.len() as int),
                        old(self).value_fault(value@.len() as int),
                    ), first_fault(old(self).stall_fault(false), old(self).engine_fault(ops, false))),
                    ),
                );
                &&& checked(r, fault)
                &&& final(self).wrote(
                    *old(self),
                    fault,
                    ops,
                    old(self).mode() == DurabilityMode::Immediate,
                    false,
                )
            }),
    {
        if let Err(e) = self.ensure_writable() {
            return Err(e);
        }
        if let Err(e) = self.validate_cf_handle(cf) {
            return Err(e);
        }
        if let Err(e) = self.validate_write_kv_sizes(key, value) {
            return Err(e);
        }
        proof {
            lemma_prefixed_parts(cf.id_number(), key@);
        }
        let opts: WriteOptions = WriteOptions::default();
        if let Err(e) = self.wait_for_write_capacity(&opts) {
            return Err(e);
        }
        let mode: DurabilityMode = self.durability;
        self.submit_one(WriteBatchOp::Put { key: prefix_key(cf.id(), key), value: bytes::copy(value) }, mode, false)
    }

    /// Delete a key in the default column family, under the database's own
    /// durability mode.
    pub fn delete(&mut self, key: &[u8]) -> (r: Result<()>)
        requires
            old(self).wf(),
            old(self).has_room(1),
        ensures
            final(self).wf(),
            ({
                let ops = seq![(Op::Delete { key: prefixed(DEFAULT_CF_ID, key@) })];
                let fault = first_fault(
                    old(self).gate(),
                    first_fault(old(self).key_fault(key@.len() as int), first_fault(old(self).stall_fault(false), old(self).engine_fault(ops, false))),
                );
                &&& checked(r, fault)
                &&& final(self).wrote(
                    *old(self),
                    fault,
                    ops,
                    old(self).mode() == DurabilityMode::Immediate,
                    false,
                )
            }),
    {
        let opts: WriteOptions = WriteOptions::default();
        self.delete_opt(&opts, key)
    }

    /// [`Db::delete`] with an explicit [`WriteOptions`] override.
    pub fn delete_opt(&mut self, opts: &WriteOptions, key: &[u8]) -> (r: Result<()>)
        requires
            old(self).wf(),
            old(self).has_room(1),
        ensures
            final(self).wf(),
            ({
                let ops = seq![(Op::Delete { key: prefixed(DEFAULT_CF_ID, key@) })];
                let fault = first_fault(
                    old(self).gate(),
                    first_fault(old(self).key_fault(key@.len() as int), first_fault(old(self).stall_fault(opts.no_slowdown), old(self).engine_fault(ops, opts.disable_wal))),
                );
                &&& checked(r, fault)
                &&& final(self).wrote(
                    *old(self),
                    fault,
                    ops,
                    old(self).syncs(*opts),
                    opts.disable_wal,
                )
            }),
    {
        if let Err(e) = self.ensure_writable() {
            return Err(e);
        }
        if let Err(e) = self.validate_key_size(key) {
            return Err(e);
        }
        proof {
            lemma_prefixed_parts(DEFAULT_CF_ID, key@);
        }
        if let Err(e) = self.wait_for_write_capacity(opts) {
            return Err(e);
        }
        let (mode, disable_wal) = self.resolve_write_opts(opts);
        self.submit_one(WriteBatchOp::Delete { key: prefix_key(DEFAULT_CF_ID, key) }, mode, disable_wal)
    }

    /// Delete a key in column family `cf`.
    pub fn delete_cf(&mut self, cf: &ColumnFamilyHandle, key: &[u8]) -> (r: Result<()>)
        requires
            old(self).wf(),
            old(self).has_room(1),
        ensures
            final(self).wf(),
            ({
                let ops = seq![(Op::Delete { key: prefixed(cf.id_number(), key@) })];
                let fault = first_fault(
                    old(self).gate(),
                    first_fault(
                        old(self).handle_fault(*cf),
                        first_fault(old(self).key_fault(key@.len() as int), first_fault(old(self).stall_fault(false), old(self).engine_fault(ops, false))),
                    ),
                );
                &&& checked(r, fault)
                &&& final(self).wrote(
                    *old(self),
                    fault,
                    ops,
                    old(self).mode() == DurabilityMode::Immediate,
                    false,
                )
            }),
    {
        if let Err(e) = self.ensure_writable() {
            return Err(e);
        }
        if let Err(e) = self.validate_cf_handle(cf) {
            return Err(e);
        }
        if let Err(e) = self.validate_key_size(key) {
            return Err(e);
        }
        proof {
            lemma_prefixed_parts(cf.id_number(), key@);
        }
        let opts: WriteOptions = WriteOptions::default();
        if let Err(e) = self.wait_for_write_capacity(&opts) {
            return Err(e);
        }
        let mode: DurabilityMode = self.durability;
        self.submit_one(WriteBatchOp::Delete { key: prefix_key(cf.id(), key) }, mode, false)
    }

    /// Layer a merge operand on top of a key in the default column family, under the database's own
    /// durability mode.
    pub fn merge(&mut self, key: &[u8], operand: &[u8]) -> (r: Result<()>)
        requires
            old(self).wf(),
            old(self).has_room(1),
        ensures
            final(self).wf(),
            ({
                let ops = seq![(Op::Merge { key: prefixed(DEFAULT_CF_ID, key@), operand: operand@ })];
                let fault = first_fault(
                    old(self).gate(),
                    first_fault(first_fault(
                        old(self).key_fault(key@.len() as int),
                        old(self).value_fault(operand@.len() as int),
                    ), first_fault(old(self).stall_fault(false), old(self).engine_fault(ops, false))),
                );
                &&& checked(r, fault)
                &&& final(self).wrote(
                    *old(self),
                    fault,
                    ops,
                    old(self).mode() == DurabilityMode::Immediate,
                    false,
                )
            }),
    {
        let opts: WriteOptions = WriteOptions::default();
        self.merge_opt(&opts, key, operand)
    }

    /// [`Db::merge`] with an explicit [`WriteOptions`] override.
    pub fn merge_opt(&mut self, opts: &WriteOptions, key: &[u8], operand: &[u8]) -> (r: Result<()>)
        requires
            old(self).wf(),
            old(self).has_room(1),
        ensures
            final(self).wf(),
            ({
                let ops = seq![(Op::Merge { key: prefixed(DEFAULT_CF_ID, key@), operand: operand@ })];
                let fault = first_fault(
                    old(self).gate(),
                    first_fault(first_fault(
                        old(self).key_fault(key@.len() as int),
                        old(self).value_fault(operand@.len() as int),
                    ), first_fault(old(self).stall_fault(opts.no_slowdown), old(self).engine_fault(ops, opts.disable_wal))),
                );
                &&& checked(r, fault)
                &&& final(self).wrote(
                    *old(self),
                    fault,
                    ops,
                    old(self).syncs(*opts),
                    opts.disable_wal,
                )
            }),
    {
        if let Err(e) = self.ensure_writable() {
            return Err(e);
        }
        if let Err(e) = self.validate_write_kv_sizes(key, operand) {
            return Err(e);
        }
        proof {
            lemma_prefixed_parts(DEFAULT_CF_ID, key@);
        }
        if let Err(e) = self.wait_for_write_capacity(opts) {
            return Err(e);
        }
        let (mode, disable_wal) = self.resolve_write_opts(opts);
        self.submit_one(WriteBatchOp::Merge { key: prefix_key(DEFAULT_CF_ID, key), operand: bytes::copy(operand) }, mode, disable_wal)
    }

    /// Layer a merge operand on top of a key in column family `cf`.
    pub fn merge_cf(&mut self, cf: &ColumnFamilyHandle, key: &[u8], operand: &[u8]) -> (r: Result<()>)
        requires
            old(self).wf(),
            old(self).has_room(1),
        ensures
            final(self).wf(),
            ({
                let ops = seq![(Op::Merge { key: prefixed(cf.id_number(), key@), operand: operand@ })];
                let fault = first_fault(
                    old(self).gate(),
                    first_fault(
                        old(self).handle_fault(*cf),
                        first_fault(first_fault(
                        old(self).key_fault(key@.len() as int),
                        old(self).value_fault(operand@.len() as int),
                    ), first_fault(old(self).stall_fault(false), old(self).engine_fault(ops, false))),
                    ),
                );
                &&& checked(r, fault)
                &&& final(self).wrote(
                    *old(self),
                    fault,
                    ops,
                    old(self).mode() == DurabilityMode::Immediate,
                    false,
                )
            }),
    {
        if let Err(e) = self.ensure_writable() {
            return Err(e);
        }
        if let Err(e) = self.validate_cf_handle(cf) {
            return Err(e);
        }
        if let Err(e) = self.validate_write_kv_sizes(key, operand) {
            return Err(e);
        }
        proof {
            lemma_prefixed_parts(cf.id_number(), key@);
        }
        let opts: WriteOptions = WriteOptions::default();
        if let Err(e) = self.wait_for_write_capacity(&opts) {
            return Err(e);
        }
        let mode: DurabilityMode = self.durability;
        self.submit_one(WriteBatchOp::Merge { key: prefix_key(cf.id(), key), operand: bytes::copy(operand) }, mode, false)
    }

    /// Delete every key in `[start, end)`, an empty range being still a write
    /// that a read-only or closed handle rejects, in the default column family, under the database's own
    /// durability mode.
    pub fn delete_range(&mut self, start: &[u8], end: &[u8]) -> (r: Result<()>)
        requires
            old(self).wf(),
            old(self).has_room(1),
        ensures
            final(self).wf(),
            ({
                let ops = seq![(Op::DeleteRange { start: prefixed(DEFAULT_CF_ID, start@), end: prefixed(DEFAULT_CF_ID, end@) })];
                if old(self).gate() is None && !bytes_lt(start@, end@) {
                    r is Ok && *final(self) == *old(self)
                } else {
                    let fault = first_fault(
                    old(self).gate(),
                    first_fault(first_fault(
                        old(self).key_fault(start@.len() as int),
                        old(self).key_fault(end@.len() as int),
                    ), first_fault(old(self).stall_fault(false), old(self).engine_fault(ops, false))),
                );
                    &&& checked(r, fault)
                    &&& final(self).wrote(
                        *old(self),
                        fault,
                        ops,
                        old(self).mode() == DurabilityMode::Immediate,
                        false,
                    )
                }
            }),
    {
        let opts: WriteOptions = WriteOptions::default();
        self.delete_range_opt(&opts, start, end)
    }

    /// [`Db::delete_range`] with an explicit [`WriteOptions`] override.
    pub fn delete_range_opt(&mut self, opts: &WriteOptions, start: &[u8], end: &[u8]) -> (r: Result<()>)
        requires
            old(self).wf(),
            old(self).has_room(1),
        ensures
            final(self).wf(),
            ({
                let ops = seq![(Op::DeleteRange { start: prefixed(DEFAULT_CF_ID, start@), end: prefixed(DEFAULT_CF_ID, end@) })];
                if old(self).gate() is None && !bytes_lt(start@, end@) {
                    r is Ok && *final(self) == *old(self)
                } else {
                    let fault = first_fault(
                    old(self).gate(),
                    first_fault(first_fault(
                        old(self).key_fault(start@.len() as int),
                        old(self).key_fault(end@.len() as int),
                    ), first_fault(old(self).stall_fault(opts.no_slowdown), old(self).engine_fault(ops, opts.disable_wal))),
                );
                    &&& checked(r, fault)
                    &&& final(self).wrote(
                        *old(self),
                        fault,
                        ops,
                        old(self).syncs(*opts),
                        opts.disable_wal,
                    )
                }
            }),
    {
        if let Err(e) = self.ensure_writable() {
            return Err(e);
        }
        if !bytes::lt(start, end) {
            return Ok(());
        }
        if let Err(e) = self.validate_key_size(start) {
            return Err(e);
        }
        if let Err(e) = self.validate_key_size(end) {
            return Err(e);
        }
        proof {
            lemma_prefixed_parts(DEFAULT_CF_ID, start@);
            lemma_prefixed_parts(DEFAULT_CF_ID, end@);
        }
        if let Err(e) = self.wait_for_write_capacity(opts) {
            return Err(e);
        }
        let (mode, disable_wal) = self.resolve_write_opts(opts);
        self.submit_one(WriteBatchOp::DeleteRange { start: prefix_key(DEFAULT_CF_ID, start), end: prefix_key(DEFAULT_CF_ID, end) }, mode, disable_wal)
    }

    /// Delete every key in `[start, end)`, an empty range being still a write
    /// that a read-only or closed handle rejects, in column family `cf`.
    pub fn delete_range_cf(&mut self, cf: &ColumnFamilyHandle, start: &[u8], end: &[u8]) -> (r: Result<()>)
        requires
            old(self).wf(),
            old(self).has_room(1),
        ensures
            final(self).wf(),
            ({
                let ops = seq![(Op::DeleteRange { start: prefixed(cf.id_number(), start@), end: prefixed(cf.id_number(), end@) })];
                if old(self).gate() is None && !bytes_lt(start@, end@) {
                    r is Ok && *final(self) == *old(self)
                } else {
                    let fault = first_fault(
                    old(self).gate(),
                    first_fault(
                        old(self).handle_fault(*cf),
                        first_fault(first_fault(
                        old(self).key_fault(start@.len() as int),
                        old(self).key_fault(end@.len() as int),
                    ), first_fault(old(self).stall_fault(false), old(self).engine_fault(ops, false))),
                    ),
                );
                    &&& checked(r, fault)
                    &&& final(self).wrote(
                        *old(self),
                        fault,
                        ops,
                        old(self).mode() == DurabilityMode::Immediate,
                        false,
                    )
                }
            }),
    {
        if let Err(e) = self.ensure_writable() {
            return Err(e);
        }
        if !bytes::lt(start, end) {
            return Ok(());
        }
        if let Err(e) = self.validate_cf_handle(cf) {
            return Err(e);
        }
        if let Err(e) = self.validate_key_size(start) {
            return Err(e);
        }
        if let Err(e) = self.validate_key_size(end) {
            return Err(e);
        }
        proof {
            lemma_prefixed_parts(cf.id_number(), start@);
            lemma_prefixed_parts(cf.id_number(), end@);
        }
        let opts: WriteOptions = WriteOptions::default();
        if let Err(e) = self.wait_for_write_capacity(&opts) {
            return Err(e);
        }
        let mode: DurabilityMode = self.durability;
        self.submit_one(WriteBatchOp::DeleteRange { start: prefix_key(cf.id(), start), end: prefix_key(cf.id(), end) }, mode, false)
    }

    /// Why a batch is refused, if it is: the handle, then the families it
    /// names, then its sizes, then a stall it will not wait out, then the
    /// engine. An empty batch is refused by
    /// the handle alone.
    pub open spec fn batch_fault(self, ops: Seq<Op>, no_slowdown: bool, disable_wal: bool) -> Option<
        Fault,
    > {
        if ops.len() == 0 {
            self.gate()
        } else {
            first_fault(
                self.gate(),
                first_fault(
                    self.batch_family_fault(ops),
                    first_fault(
                        self.batch_size_fault(ops),
                        first_fault(
                            self.stall_fault(no_slowdown),
                            self.engine_fault(ops, disable_wal),
                        ),
                    ),
                ),
            )
        }
    }

    /// What a batch leaves behind.
    pub open spec fn wrote_batch(
        self,
        before: Self,
        ops: Seq<Op>,
        sync: bool,
        no_slowdown: bool,
        disable_wal: bool,
    ) -> bool {
        if ops.len() == 0 {
            self == before
        } else {
            self.wrote(
                before,
                before.batch_fault(ops, no_slowdown, disable_wal),
                ops,
                sync,
                disable_wal,
            )
        }
    }

    /// Shared body of the batch writes. A durability mode that is given
    /// overrides the database's own and what the options ask for.
    fn write_opt_inner(
        &mut self,
        opts: &WriteOptions,
        durability: Option<DurabilityMode>,
        batch: WriteBatch,
    ) -> (r: Result<u64>)
        requires
            old(self).wf(),
            old(self).has_room(batch.ops().len()),
        ensures
            final(self).wf(),
            final(self).wrote_batch(
                *old(self),
                batch.ops(),
                old(self).syncs_as(*opts, durability),
                opts.no_slowdown,
                opts.disable_wal,
            ),
            match old(self).batch_fault(batch.ops(), opts.no_slowdown, opts.disable_wal) {
                Some(f) => r matches Err(e) && is_fault(e, f),
                None => r matches Ok(seq) && seq == final(self).horizon(),
            },
    {
        // Checked before the empty-batch shortcut: an empty batch is still a
        // write, so a read-only or closed handle rejects it rather than
        // reporting a horizon it could not have advanced.
        if let Err(e) = self.ensure_writable() {
            return Err(e);
        }
        if batch.is_empty() {
            return Ok(self.engine.snapshot_seq());
        }
        if let Err(e) = self.validate_batch_cf_liveness(&batch) {
            return Err(e);
        }
        if let Err(e) = self.validate_batch_sizes(&batch) {
            return Err(e);
        }
        if let Err(e) = self.wait_for_write_capacity(opts) {
            return Err(e);
        }
        let (resolved, disable_wal) = self.resolve_write_opts(opts);
        let mode: DurabilityMode = match durability {
            Some(mode) => mode,
            None => resolved,
        };
        let ops: &Vec<WriteBatchOp> = batch.entries();
        proof {
            assert forall|i: int| 0 <= i < ops@.len() implies keyed(
                #[trigger] ops_of(ops@)[i],
            ) by {
                self.lemma_live_batch_keyed(batch.ops(), i);
            }
        }
        self.submit(ops, mode, disable_wal)
    }

    /// Apply a batch of writes atomically under the database's own
    /// durability mode.
    pub fn write(&mut self, batch: WriteBatch) -> (r: Result<()>)
        requires
            old(self).wf(),
            old(self).has_room(batch.ops().len()),
        ensures
            final(self).wf(),
            final(self).wrote_batch(
                *old(self),
                batch.ops(),
                old(self).mode() == DurabilityMode::Immediate,
                false,
                false,
            ),
            checked(r, old(self).batch_fault(batch.ops(), false, false)),
    {
        let opts: WriteOptions = WriteOptions::default();
        self.write_opt(&opts, batch)
    }

    /// Apply a batch of writes atomically with explicit [`WriteOptions`].
    pub fn write_opt(&mut self, opts: &WriteOptions, batch: WriteBatch) -> (r: Result<()>)
        requires
            old(self).wf(),
            old(self).has_room(batch.ops().len()),
        ensures
            final(self).wf(),
            final(self).wrote_batch(
                *old(self),
                batch.ops(),
                old(self).syncs(*opts),
                opts.no_slowdown,
                opts.disable_wal,
            ),
            checked(r, old(self).batch_fault(batch.ops(), opts.no_slowdown, opts.disable_wal)),
    {
        match self.write_opt_inner(opts, None, batch) {
            Ok(_) => Ok(()),
            Err(e) => Err(e),
        }
    }

    /// Apply a batch and return the sequence number it committed at: the
    /// horizon once the batch is applied. An empty batch commits nothing and
    /// returns the current horizon.
    pub fn write_sequenced(&mut self, batch: WriteBatch) -> (r: Result<u64>)
        requires
            old(self).wf(),
            old(self).has_room(batch.ops().len()),
        ensures
            final(self).wf(),
            final(self).wrote_batch(
                *old(self),
                batch.ops(),
                old(self).mode() == DurabilityMode::Immediate,
                false,
                false,
            ),
            match old(self).batch_fault(batch.ops(), false, false) {
                Some(f) => r matches Err(e) && is_fault(e, f),
                None => r matches Ok(seq) && seq == final(self).horizon(),
            },
    {
        let opts: WriteOptions = WriteOptions::default();
        self.write_sequenced_opt(&opts, batch)
    }

    /// [`Db::write_sequenced`] with explicit [`WriteOptions`].
    pub fn write_sequenced_opt(&mut self, opts: &WriteOptions, batch: WriteBatch) -> (r: Result<
        u64,
    >)
        requires
            old(self).wf(),
            old(self).has_room(batch.ops().len()),
        ensures
            final(self).wf(),
            final(self).wrote_batch(
                *old(self),
                batch.ops(),
                old(self).syncs(*opts),
                opts.no_slowdown,
                opts.disable_wal,
            ),
            match old(self).batch_fault(batch.ops(), opts.no_slowdown, opts.disable_wal) {
                Some(f) => r matches Err(e) && is_fault(e, f),
                None => r matches Ok(seq) && seq == final(self).horizon(),
            },
    {
        self.write_opt_inner(opts, None, batch)
    }

    /// Apply a batch of writes atomically with an explicit
    /// [`DurabilityMode`], which overrides the database's own for this call.
    pub fn write_with_durability(&mut self, batch: WriteBatch, durability: DurabilityMode) -> (r:
        Result<()>)
        requires
            old(self).wf(),
            old(self).has_room(batch.ops().len()),
        ensures
            final(self).wf(),
            final(self).wrote_batch(
                *old(self),
                batch.ops(),
                durability == DurabilityMode::Immediate,
                false,
                false,
            ),
            checked(r, old(self).batch_fault(batch.ops(), false, false)),
    {
        let opts: WriteOptions = WriteOptions::default();
        match self.write_opt_inner(&opts, Some(durability), batch) {
            Ok(_) => Ok(()),
            Err(e) => Err(e),
        }
    }

    /// The newest sequence number visible to a snapshot taken now.
    pub fn latest_sequence(&self) -> (r: u64)
        ensures
            r == self.horizon(),
    {
        self.engine.snapshot_seq()
    }
}

} // verus!
