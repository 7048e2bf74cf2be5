//! Ingesting entries that were prepared outside the database.

use vstd::prelude::*;

use crate::batch::{ops_of, WriteBatchOp};
use crate::column_family::{family_of, CF_PREFIX_LEN};
use crate::db::{dead_id_text, first_fault, short_id_text, Db};
use crate::engine::store::levels::told_ingested;
use crate::engine::store::{keyed, RegolithEngine};
use crate::error::{is_fault, Error, Fault, Result};
use crate::history::{numbered, Op};

verus! {

/// The entries of one file that was built outside the database, in key
/// order, as the host read them. Keys carry their column-family prefix.
pub struct ExternalFile {
    /// Where the file is.
    pub path: String,
    /// What it holds.
    pub ops: Vec<WriteBatchOp>,
}

/// What a run of files holds, in order.
pub open spec fn held_by(files: Seq<ExternalFile>) -> Seq<Op>
    decreases files.len(),
{
    if files.len() == 0 {
        Seq::empty()
    } else {
        held_by(files.drop_last()) + ops_of(files.last().ops@)
    }
}

impl Db {
    /// Why one stored key is not ingested, if it is not: its family is not
    /// live.
    pub open spec fn foreign_key_fault(self, key: Seq<u8>) -> Option<Fault> {
        if key.len() < CF_PREFIX_LEN {
            Some(Fault::InvalidArgument(short_id_text()))
        } else if !self.families().has_id(family_of(key)) {
            Some(Fault::InvalidArgument(dead_id_text(family_of(key))))
        } else {
            None
        }
    }

    /// Why one entry is not ingested, if it is not.
    pub open spec fn foreign_op_fault(self, op: Op) -> Option<Fault> {
        match op {
            Op::Put { key, .. } => self.foreign_key_fault(key),
            Op::Delete { key } => self.foreign_key_fault(key),
            Op::Merge { key, .. } => self.foreign_key_fault(key),
            Op::DeleteRange { start, end } => first_fault(
                self.foreign_key_fault(start),
                self.foreign_key_fault(end),
            ),
        }
    }

    /// Why entries are not ingested: the first at fault.
    pub open spec fn foreign_fault(self, ops: Seq<Op>) -> Option<Fault>
        decreases ops.len(),
    {
        if ops.len() == 0 {
            None
        } else {
            first_fault(self.foreign_fault(ops.drop_last()), self.foreign_op_fault(ops.last()))
        }
    }

    /// Why files are not ingested, if they are not.
    pub open spec fn ingest_fault(self, ops: Seq<Op>) -> Option<Fault> {
        first_fault(
            self.gate(),
            first_fault(
                self.foreign_fault(ops),
                if ops.len() == 0 {
                    None
                } else {
                    self.engine_fault(ops, true)
                },
            ),
        )
    }

    proof fn lemma_foreign_fault_stays(self, ops: Seq<Op>, n: int)
        requires
            0 <= n <= ops.len(),
            self.foreign_fault(ops.take(n)) is Some,
        ensures
            self.foreign_fault(ops) == self.foreign_fault(ops.take(n)),
        decreases ops.len(),
    {
        if n < ops.len() {
            assert(ops.drop_last().take(n) =~= ops.take(n));
            self.lemma_foreign_fault_stays(ops.drop_last(), n);
        } else {
            assert(ops.take(n) =~= ops);
        }
    }

    proof fn lemma_foreign_keyed(self, ops: Seq<Op>, i: int)
        requires
            self.foreign_fault(ops) is None,
            0 <= i < ops.len(),
        ensures
            keyed(ops[i]),
        decreases ops.len(),
    {
        if i < ops.len() - 1 {
            self.lemma_foreign_keyed(ops.drop_last(), i);
        }
    }

    fn check_foreign_key(&self, key: &[u8]) -> (r: Result<()>)
        requires
            self.wf(),
        ensures
            crate::error::checked(r, self.foreign_key_fault(key@)),
    {
        match self.validate_prefixed_cf_io(key) {
            Ok(()) => Ok(()),
            Err(e) => Err(Error::from(e)),
        }
    }

    fn check_foreign_op(&self, op: &WriteBatchOp) -> (r: Result<()>)
        requires
            self.wf(),
        ensures
            crate::error::checked(r, self.foreign_op_fault(op@)),
    {
        match op {
            WriteBatchOp::Put { key, .. } => self.check_foreign_key(key.as_slice()),
            WriteBatchOp::Delete { key } => self.check_foreign_key(key.as_slice()),
            WriteBatchOp::Merge { key, .. } => self.check_foreign_key(key.as_slice()),
            WriteBatchOp::DeleteRange { start, end } => {
                if let Err(e) = self.check_foreign_key(start.as_slice()) {
                    return Err(e);
                }
                self.check_foreign_key(end.as_slice())
            },
        }
    }

    /// Ingest the entries of one or more files. All of them are checked
    /// before any is taken, they become visible together, under sequence
    /// numbers of their own, as one table, they are durable once this
    /// returns, and every listener is told of the table and of each file.
    pub fn ingest_external_files(&mut self, files: Vec<ExternalFile>) -> (r: Result<()>)
        requires
            old(self).wf(),
            old(self).has_room(held_by(files@).len()),
        ensures
            final(self).wf(),
            final(self).same_families(*old(self)),
            ({
                let ops = held_by(files@);
                match old(self).ingest_fault(ops) {
                    Some(fault) => *final(self) == *old(self) && (r matches Err(e) && is_fault(
                        e,
                        fault,
                    )),
                    None => {
                        &&& r is Ok
                        &&& ops.len() == 0 ==> *final(self) == *old(self)
                        &&& ops.len() > 0 ==> {
                            &&& final(self).store().same_setting(old(self).store())
                            &&& final(self).horizon() == old(self).horizon() + ops.len()
                            &&& final(self).history() == old(self).history() + numbered(
                                ops,
                                old(self).horizon() + 1,
                            )
                            &&& final(self).durable() == final(self).history()
                            &&& final(self).store().owes_sync() == old(self).store().owes_sync()
                            &&& exists|flushed: RegolithEngine| #[trigger]
                                flushed.is_flush_of(old(self).store())
                                    && final(self).store().ingested_onto(
                                    flushed.files(),
                                    numbered(ops, old(self).horizon() + 1),
                                )
                            &&& forall|i: int|
                                0 <= i < files@.len() ==> told_ingested(
                                    final(self).store().settings().listeners@,
                                    final(self).store().files().last(),
                                    (#[trigger] files@[i]).path@,
                                    files@[i].ops@.len() as u64,
                                )
                        }
                    },
                }
            }),
    {
        if let Err(e) = self.ensure_writable() {
            return Err(e);
        }
        let ghost all = held_by(files@);
        let mut ops: Vec<WriteBatchOp> = Vec::new();
        let mut told: Vec<(String, u64)> = Vec::new();
        let ghost sources = files@;
        let mut rest: Vec<ExternalFile> = files;
        let ghost n = sources.len();
        proof {
            assert(sources.take(0) =~= Seq::<ExternalFile>::empty());
            assert(sources.skip(0) =~= sources);
            assert(ops_of(ops@) =~= Seq::<Op>::empty());
        }
        while rest.len() > 0
            invariant
                n == sources.len(),
                rest@.len() <= n,
                rest@ == sources.skip(n - rest@.len()),
                ops_of(ops@) == held_by(sources.take(n - rest@.len())),
                told@.len() == n - rest@.len(),
                forall|i: int|
                    0 <= i < told@.len() ==> (#[trigger] told@[i]).0@ == sources[i].path@
                        && told@[i].1 == sources[i].ops@.len() as u64,
            decreases rest@.len(),
        {
            let ghost done = n - rest@.len();
            let ghost held = ops@;
            let file: ExternalFile = rest.remove(0);
            proof {
                assert(file == sources[done]);
                assert(sources.take(done + 1).drop_last() =~= sources.take(done));
                assert(sources.take(done + 1).last() == file);
                assert(rest@ =~= sources.skip(done + 1));
            }
            let ExternalFile { path, ops: added_ops } = file;
            let mut more: Vec<WriteBatchOp> = added_ops;
            let ghost added = more@;
            told.push((path, more.len() as u64));
            ops.append(&mut more);
            assert(ops_of(ops@) =~= ops_of(held) + ops_of(added));
        }
        assert(sources.take(n as int) =~= sources);
        let mut i: usize = 0;
        assert(all.take(0) =~= Seq::<Op>::empty());
        while i < ops.len()
            invariant
                self.wf(),
                *self == *old(self),
                all == ops_of(ops@),
                i <= ops@.len(),
                self.foreign_fault(all.take(i as int)) is None,
                self.gate() is None,
                all == held_by(files@),
            decreases ops@.len() - i,
        {
            proof {
                assert(all.take(i + 1).drop_last() =~= all.take(i as int));
                assert(all.take(i + 1).last() == ops@[i as int]@);
            }
            if let Err(e) = self.check_foreign_op(&ops[i]) {
                proof {
                    self.lemma_foreign_fault_stays(all, i + 1);
                }
                return Err(e);
            }
            i += 1;
        }
        assert(all.take(i as int) =~= all);
        if ops.len() == 0 {
            return Ok(());
        }
        proof {
            assert forall|j: int| 0 <= j < ops@.len() implies keyed(
                #[trigger] ops_of(ops@)[j],
            ) by {
                self.lemma_foreign_keyed(all, j);
            }
        }
        if let Err(e) = self.engine.ingest(&ops) {
            return Err(Error::from(e));
        }
        self.engine.announce_ingested(&told);
        proof {
            assert forall|i: int| 0 <= i < files@.len() implies told_ingested(
                self.store().settings().listeners@,
                self.store().files().last(),
                (#[trigger] files@[i]).path@,
                files@[i].ops@.len() as u64,
            ) by {
                assert(told@[i].0@ == files@[i].path@);
            }
        }
        Ok(())
    }
}

} // verus!
