//! Batches of writes applied as one.

use vstd::prelude::*;

use crate::bytes;
use crate::bytes::bytes_lt;
use crate::column_family::{prefix_key, prefixed, ColumnFamilyHandle, DEFAULT_CF_ID};
use crate::history::Op;

verus! {

/// One ordered operation of a batch. Its keys carry their column-family
/// prefix.
#[derive(Debug)]
pub enum WriteBatchOp {
    /// Write a value for `key`.
    Put { key: Vec<u8>, value: Vec<u8> },
    /// Delete the point value for `key`.
    Delete { key: Vec<u8> },
    /// Delete every key in `[start, end)`.
    DeleteRange { start: Vec<u8>, end: Vec<u8> },
    /// Add one merge operand for `key`.
    Merge { key: Vec<u8>, operand: Vec<u8> },
}

impl View for WriteBatchOp {
    type V = Op;

    open spec fn view(&self) -> Op {
        match self {
            WriteBatchOp::Put { key, value } => Op::Put { key: key@, value: value@ },
            WriteBatchOp::Delete { key } => Op::Delete { key: key@ },
            WriteBatchOp::DeleteRange { start, end } => Op::DeleteRange { start: start@, end: end@ },
            WriteBatchOp::Merge { key, operand } => Op::Merge { key: key@, operand: operand@ },
        }
    }
}

/// The operations a run of batch entries stands for.
pub open spec fn ops_of(s: Seq<WriteBatchOp>) -> Seq<Op> {
    Seq::new(s.len(), |i: int| s[i]@)
}

/// Bytes one operation holds.
pub open spec fn op_bytes(op: Op) -> nat {
    match op {
        Op::Put { key, value } => key.len() + value.len(),
        Op::Delete { key } => key.len(),
        Op::DeleteRange { start, end } => start.len() + end.len(),
        Op::Merge { key, operand } => key.len() + operand.len(),
    }
}

/// Bytes a run of operations holds.
pub open spec fn ops_bytes(ops: Seq<Op>) -> nat
    decreases ops.len(),
{
    if ops.len() == 0 {
        0
    } else {
        ops_bytes(ops.drop_last()) + op_bytes(ops.last())
    }
}

/// The first operations of a run hold no more than all of them.
proof fn lemma_ops_bytes_prefix(ops: Seq<Op>, n: int)
    requires
        0 <= n <= ops.len(),
    ensures
        ops_bytes(ops.take(n)) <= ops_bytes(ops),
    decreases ops.len() - n,
{
    if n < ops.len() {
        lemma_ops_bytes_prefix(ops, n + 1);
        assert(ops.take(n + 1).drop_last() =~= ops.take(n));
    } else {
        assert(ops.take(n) =~= ops);
    }
}

impl WriteBatchOp {
    /// Bytes this operation holds.
    pub fn buffered_bytes(&self) -> (r: usize)
        requires
            op_bytes(self@) <= usize::MAX,
        ensures
            r == op_bytes(self@),
    {
        match self {
            WriteBatchOp::Put { key, value } => key.len() + value.len(),
            WriteBatchOp::Delete { key } => key.len(),
            WriteBatchOp::DeleteRange { start, end } => start.len() + end.len(),
            WriteBatchOp::Merge { key, operand } => key.len() + operand.len(),
        }
    }
}

/// What a batch adds to the counts that are kept of writes.
#[derive(Debug, Clone, Copy, PartialEq, Eq, Structural)]
pub struct WriteTally {
    /// Values written.
    pub puts: u64,
    /// Keys deleted.
    pub deletes: u64,
    /// Ranges deleted.
    pub range_deletes: u64,
    /// Merge operands added.
    pub merges: u64,
    /// Bytes of the keys and values of the puts and deletes.
    pub bytes: u64,
}

/// A batch of write operations to apply atomically, in the order they were
/// added.
#[derive(Debug)]
pub struct WriteBatch {
    ops: Vec<WriteBatchOp>,
}

impl Default for WriteBatch {
    fn default() -> (r: Self)
        ensures
            r.ops() == Seq::<Op>::empty(),
    {
        WriteBatch::new()
    }
}

impl WriteBatch {
    /// The operations of the batch, in order.
    pub closed spec fn ops(self) -> Seq<Op> {
        ops_of(self.ops@)
    }

    /// An empty batch.
    pub fn new() -> (r: Self)
        ensures
            r.ops() == Seq::<Op>::empty(),
    {
        let r = WriteBatch { ops: Vec::new() };
        assert(r.ops() =~= Seq::<Op>::empty());
        r
    }

    /// The operations of the batch, in order.
    pub fn entries(&self) -> (r: &Vec<WriteBatchOp>)
        ensures
            ops_of(r@) == self.ops(),
    {
        &self.ops
    }

    fn add(&mut self, op: WriteBatchOp)
        ensures
            final(self).ops() == old(self).ops().push(op@),
    {
        self.ops.push(op);
        assert(self.ops() =~= old(self).ops().push(op@));
    }

    /// Add a put to the batch, in the default column family.
    pub fn put(&mut self, key: &[u8], value: &[u8])
        ensures
            final(self).ops() == old(self).ops().push(Op::Put { key: prefixed(DEFAULT_CF_ID, key@), value: value@ }),
    {
        self.add(WriteBatchOp::Put { key: prefix_key(DEFAULT_CF_ID, key), value: bytes::copy(value) });
    }

    /// [`WriteBatch::put`] for a value the caller already owns: the buffer is
    /// taken instead of copied.
    pub fn put_owned(&mut self, key: &[u8], value: Vec<u8>)
        ensures
            final(self).ops() == old(self).ops().push(Op::Put { key: prefixed(DEFAULT_CF_ID, key@), value: value@ }),
    {
        self.add(WriteBatchOp::Put { key: prefix_key(DEFAULT_CF_ID, key), value });
    }

    /// Add a delete to the batch, in the default column family.
    pub fn delete(&mut self, key: &[u8])
        ensures
            final(self).ops() == old(self).ops().push(Op::Delete { key: prefixed(DEFAULT_CF_ID, key@) }),
    {
        self.add(WriteBatchOp::Delete { key: prefix_key(DEFAULT_CF_ID, key) });
    }

    /// Delete every key in `[start, end)`, in the default column family. An empty
    /// range is ignored.
    pub fn delete_range(&mut self, start: &[u8], end: &[u8])
        ensures
            final(self).ops() == (if bytes_lt(start@, end@) {
                old(self).ops().push(Op::DeleteRange {
                    start: prefixed(DEFAULT_CF_ID, start@),
                    end: prefixed(DEFAULT_CF_ID, end@),
                })
            } else {
                old(self).ops()
            }),
    {
        if !bytes::lt(start, end) {
            return ;
        }
        self.add(
            WriteBatchOp::DeleteRange {
                start: prefix_key(DEFAULT_CF_ID, start),
                end: prefix_key(DEFAULT_CF_ID, end),
            },
        );
    }

    /// Add a merge operand for `key`, in the default column family.
    pub fn merge(&mut self, key: &[u8], operand: &[u8])
        ensures
            final(self).ops() == old(self).ops().push(Op::Merge { key: prefixed(DEFAULT_CF_ID, key@), operand: operand@ }),
    {
        self.add(WriteBatchOp::Merge { key: prefix_key(DEFAULT_CF_ID, key), operand: bytes::copy(operand) });
    }

    /// Add a put to the batch, in column family `cf`.
    pub fn put_cf(&mut self, cf: &ColumnFamilyHandle, key: &[u8], value: &[u8])
        ensures
            final(self).ops() == old(self).ops().push(Op::Put { key: prefixed(cf.id_number(), key@), value: value@ }),
    {
        self.add(WriteBatchOp::Put { key: prefix_key(cf.id(), key), value: bytes::copy(value) });
    }

    /// Add a delete to the batch, in column family `cf`.
    pub fn delete_cf(&mut self, cf: &ColumnFamilyHandle, key: &[u8])
        ensures
            final(self).ops() == old(self).ops().push(Op::Delete { key: prefixed(cf.id_number(), key@) }),
    {
        self.add(WriteBatchOp::Delete { key: prefix_key(cf.id(), key) });
    }

    /// Delete every key in `[start, end)`, in column family `cf`. An empty
    /// range is ignored.
    pub fn delete_range_cf(&mut self, cf: &ColumnFamilyHandle, start: &[u8], end: &[u8])
        ensures
            final(self).ops() == (if bytes_lt(start@, end@) {
                old(self).ops().push(Op::DeleteRange {
                    start: prefixed(cf.id_number(), start@),
                    end: prefixed(cf.id_number(), end@),
                })
            } else {
                old(self).ops()
            }),
    {
        if !bytes::lt(start, end) {
            return ;
        }
        self.add(
            WriteBatchOp::DeleteRange {
                start: prefix_key(cf.id(), start),
                end: prefix_key(cf.id(), end),
            },
        );
    }

    /// Add a merge operand for `key`, in column family `cf`.
    pub fn merge_cf(&mut self, cf: &ColumnFamilyHandle, key: &[u8], operand: &[u8])
        ensures
            final(self).ops() == old(self).ops().push(Op::Merge { key: prefixed(cf.id_number(), key@), operand: operand@ }),
    {
        self.add(WriteBatchOp::Merge { key: prefix_key(cf.id(), key), operand: bytes::copy(operand) });
    }

    /// Insert an already prefixed put.
    pub fn insert_raw_put(&mut self, prefixed_key: Vec<u8>, value: Vec<u8>)
        ensures
            final(self).ops() == old(self).ops().push(Op::Put { key: prefixed_key@, value: value@ }),
    {
        self.add(WriteBatchOp::Put { key: prefixed_key, value });
    }

    /// Insert an already prefixed delete.
    pub fn insert_raw_delete(&mut self, prefixed_key: Vec<u8>)
        ensures
            final(self).ops() == old(self).ops().push(Op::Delete { key: prefixed_key@ }),
    {
        self.add(WriteBatchOp::Delete { key: prefixed_key });
    }

    /// Insert an already prefixed range delete.
    pub fn insert_raw_range_delete(&mut self, prefixed_start: Vec<u8>, prefixed_end: Vec<u8>)
        ensures
            final(self).ops() == old(self).ops().push(Op::DeleteRange { start: prefixed_start@, end: prefixed_end@ }),
    {
        self.add(WriteBatchOp::DeleteRange { start: prefixed_start, end: prefixed_end });
    }

    /// Insert an already prefixed merge.
    pub fn insert_raw_merge(&mut self, prefixed_key: Vec<u8>, operand: Vec<u8>)
        ensures
            final(self).ops() == old(self).ops().push(Op::Merge { key: prefixed_key@, operand: operand@ }),
    {
        self.add(WriteBatchOp::Merge { key: prefixed_key, operand });
    }

    /// Bytes this batch is holding: the key and value of every buffered
    /// operation.
    pub fn buffered_bytes(&self) -> (r: usize)
        requires
            ops_bytes(self.ops()) <= usize::MAX,
        ensures
            r == ops_bytes(self.ops()),
    {
        let ghost all = self.ops();
        let mut total: usize = 0;
        let mut i: usize = 0;
        assert(all.take(0) =~= Seq::<Op>::empty());
        while i < self.ops.len()
            invariant
                i <= self.ops@.len(),
                all == ops_of(self.ops@),
                ops_bytes(all) <= usize::MAX,
                total == ops_bytes(all.take(i as int)),
            decreases self.ops@.len() - i,
        {
            proof {
                lemma_ops_bytes_prefix(all, i + 1);
                assert(all.take(i + 1).drop_last() =~= all.take(i as int));
                assert(all.take(i + 1).last() == self.ops@[i as int]@);
            }
            total = total + self.ops[i].buffered_bytes();
            i += 1;
        }
        assert(all.take(i as int) =~= all);
        total
    }

    /// Number of puts and deletes in the batch. Repeated operations on one key
    /// count separately.
    pub fn len(&self) -> (r: usize)
        ensures
            r == self.ops().filter(|op: Op| op is Put || op is Delete).len(),
    {
        let ghost keep = |op: Op| op is Put || op is Delete;
        let ghost all = self.ops();
        let mut n: usize = 0;
        let mut i: usize = 0;
        proof {
            reveal(Seq::filter);
            assert(all.take(0) =~= Seq::<Op>::empty());
        }
        while i < self.ops.len()
            invariant
                i <= self.ops@.len(),
                n <= i,
                all == ops_of(self.ops@),
                keep == (|op: Op| op is Put || op is Delete),
                n == all.take(i as int).filter(keep).len(),
            decreases self.ops@.len() - i,
        {
            proof {
                reveal(Seq::filter);
                assert(all.take(i + 1).drop_last() =~= all.take(i as int));
                assert(all.take(i + 1).last() == self.ops@[i as int]@);
            }
            let counted = matches!(&self.ops[i], WriteBatchOp::Put { .. } | WriteBatchOp::Delete { .. });
            if counted {
                n += 1;
            }
            i += 1;
        }
        assert(all.take(i as int) =~= all);
        n
    }

    /// Number of range deletes in the batch.
    pub fn range_delete_count(&self) -> (r: usize)
        ensures
            r == self.ops().filter(|op: Op| op is DeleteRange).len(),
    {
        let ghost keep = |op: Op| op is DeleteRange;
        let ghost all = self.ops();
        let mut n: usize = 0;
        let mut i: usize = 0;
        proof {
            reveal(Seq::filter);
            assert(all.take(0) =~= Seq::<Op>::empty());
        }
        while i < self.ops.len()
            invariant
                i <= self.ops@.len(),
                n <= i,
                all == ops_of(self.ops@),
                keep == (|op: Op| op is DeleteRange),
                n == all.take(i as int).filter(keep).len(),
            decreases self.ops@.len() - i,
        {
            proof {
                reveal(Seq::filter);
                assert(all.take(i + 1).drop_last() =~= all.take(i as int));
                assert(all.take(i + 1).last() == self.ops@[i as int]@);
            }
            let counted = matches!(&self.ops[i], WriteBatchOp::DeleteRange { .. });
            if counted {
                n += 1;
            }
            i += 1;
        }
        assert(all.take(i as int) =~= all);
        n
    }

    /// Number of merges in the batch.
    pub fn merge_count(&self) -> (r: usize)
        ensures
            r == self.ops().filter(|op: Op| op is Merge).len(),
    {
        let ghost keep = |op: Op| op is Merge;
        let ghost all = self.ops();
        let mut n: usize = 0;
        let mut i: usize = 0;
        proof {
            reveal(Seq::filter);
            assert(all.take(0) =~= Seq::<Op>::empty());
        }
        while i < self.ops.len()
            invariant
                i <= self.ops@.len(),
                n <= i,
                all == ops_of(self.ops@),
                keep == (|op: Op| op is Merge),
                n == all.take(i as int).filter(keep).len(),
            decreases self.ops@.len() - i,
        {
            proof {
                reveal(Seq::filter);
                assert(all.take(i + 1).drop_last() =~= all.take(i as int));
                assert(all.take(i + 1).last() == self.ops@[i as int]@);
            }
            let counted = matches!(&self.ops[i], WriteBatchOp::Merge { .. });
            if counted {
                n += 1;
            }
            i += 1;
        }
        assert(all.take(i as int) =~= all);
        n
    }

    /// Whether the batch contains no operations of any kind.
    pub fn is_empty(&self) -> (r: bool)
        ensures
            r == (self.ops().len() == 0),
    {
        self.ops.len() == 0
    }

    /// What the batch adds to the counts of writes.
    pub fn tally(&self) -> (r: WriteTally)
        requires
            ops_bytes(self.ops()) <= u64::MAX,
        ensures
            r.puts == self.ops().filter(|op: Op| op is Put).len(),
            r.deletes == self.ops().filter(|op: Op| op is Delete).len(),
            r.range_deletes == self.ops().filter(|op: Op| op is DeleteRange).len(),
            r.merges == self.ops().filter(|op: Op| op is Merge).len(),
            r.bytes == ops_bytes(self.ops().filter(|op: Op| op is Put || op is Delete)),
    {
        let ghost put = |op: Op| op is Put;
        let ghost delete = |op: Op| op is Delete;
        let ghost range = |op: Op| op is DeleteRange;
        let ghost merge = |op: Op| op is Merge;
        let ghost point = |op: Op| op is Put || op is Delete;
        let ghost all = self.ops();
        let mut r = WriteTally { puts: 0, deletes: 0, range_deletes: 0, merges: 0, bytes: 0 };
        let mut i: usize = 0;
        proof {
            reveal(Seq::filter);
            assert(all.take(0) =~= Seq::<Op>::empty());
        }
        while i < self.ops.len()
            invariant
                i <= self.ops@.len(),
                all == ops_of(self.ops@),
                ops_bytes(all) <= u64::MAX,
                put == (|op: Op| op is Put),
                delete == (|op: Op| op is Delete),
                range == (|op: Op| op is DeleteRange),
                merge == (|op: Op| op is Merge),
                point == (|op: Op| op is Put || op is Delete),
                r.puts <= i && r.deletes <= i && r.range_deletes <= i && r.merges <= i,
                r.puts == all.take(i as int).filter(put).len(),
                r.deletes == all.take(i as int).filter(delete).len(),
                r.range_deletes == all.take(i as int).filter(range).len(),
                r.merges == all.take(i as int).filter(merge).len(),
                r.bytes == ops_bytes(all.take(i as int).filter(point)),
                r.bytes <= ops_bytes(all.take(i as int)),
            decreases self.ops@.len() - i,
        {
            proof {
                reveal(Seq::filter);
                let seen = all.take(i as int).filter(point);
                let op = self.ops@[i as int]@;
                lemma_ops_bytes_prefix(all, i + 1);
                assert(all.take(i + 1).drop_last() =~= all.take(i as int));
                assert(all.take(i + 1).last() == op);
                assert(seen.push(op).drop_last() =~= seen);
            }
            match &self.ops[i] {
                WriteBatchOp::Put { key, value } => {
                    r.puts = r.puts + 1;
                    r.bytes = r.bytes + key.len() as u64 + value.len() as u64;
                },
                WriteBatchOp::Delete { key } => {
                    r.deletes = r.deletes + 1;
                    r.bytes = r.bytes + key.len() as u64;
                },
                WriteBatchOp::DeleteRange { .. } => {
                    r.range_deletes = r.range_deletes + 1;
                },
                WriteBatchOp::Merge { .. } => {
                    r.merges = r.merges + 1;
                },
            }
            i += 1;
        }
        assert(all.take(i as int) =~= all);
        r
    }
}

} // verus!
