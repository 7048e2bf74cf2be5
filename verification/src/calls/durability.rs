//! What lasts: that flushing, compacting, closing, copying and opening again
//! leave what is read as it was.

use vstd::prelude::*;

use crate::batch::{ops_of, WriteBatch};
use crate::bytes::opt_slice_view;
use crate::calls::reads::alike;
use crate::column_family::{prefixed, ColumnFamilyHandle, DEFAULT_CF_ID};
use crate::db::ingest::{held_by, ExternalFile};
use crate::db::laws::{
    law_compaction_keeps_reads, law_flush_keeps_reads, law_logged_writes_durable,
    law_pass_keeps_reads, law_read_your_put, law_reopen_restores,
};
use crate::db::read::{stored_end, stored_start};
use crate::db::Db;
use crate::engine::store::levels::CompactionOutcome;
use crate::engine::store::{recovered, RegolithEngine, Stored};
use crate::error::{Error, Result};
use crate::history::{Logged, Op};
use crate::options::{DurabilityMode, Options};

verus! {

/// Flushing changes nothing that is read, and from then on everything is
/// durable: opened again from what it leaves, the database reads the same.
pub proof fn law_flush_changes_no_read(
    db: &mut Db,
    r: Result<()>,
    after: Db,
    cf: &ColumnFamilyHandle,
    key: &[u8],
    earlier: Result<Option<Vec<u8>>>,
    later: Result<Option<Vec<u8>>>,
)
    requires
        old(db).wf(),
        call_ensures(Db::flush, (db,), r),
        *final(db) == after,
        call_ensures(Db::get_cf, (&*old(db), cf, key), earlier),
        call_ensures(Db::get_cf, (&after, cf, key), later),
    ensures
        alike(earlier, later),
        old(db).is_closed() ==> r matches Err(Error::Closed),
        !old(db).is_closed() && old(db).is_read_only() ==> r matches Err(Error::ReadOnly),
        !old(db).is_closed() && !old(db).is_read_only() ==> r is Ok,
        r is Ok ==> after.durable() == after.history(),
        r is Err ==> after == *old(db),
{
    if r is Ok {
        law_flush_keeps_reads(*old(db), after, cf.id_number(), key@, old(db).horizon());
    }
}

/// Closing succeeds, and every call on the closed database says so.
pub proof fn law_close(
    db: &mut Db,
    r: Result<()>,
    after: Db,
    key: &[u8],
    g: Result<Option<Vec<u8>>>,
    all: Result<Vec<(Vec<u8>, Vec<u8>)>>,
)
    requires
        old(db).wf(),
        call_ensures(Db::close, (db,), r),
        *final(db) == after,
        call_ensures(Db::get, (&after, key), g),
        call_ensures(Db::scan, (&after, None, None), all),
    ensures
        r is Ok,
        after.is_closed(),
        g matches Err(Error::Closed),
        all matches Err(Error::Closed),
        after.history() == old(db).history(),
        after.durable() == after.history(),
{
}

/// A database that was closed and opened again reads what it read before it
/// was closed.
pub proof fn law_close_then_open(
    db: &mut Db,
    closed: Result<()>,
    between: Db,
    stored: Stored,
    name: &str,
    opts: Options,
    opened: Result<Db>,
    after: Db,
    key: &[u8],
    earlier: Result<Option<Vec<u8>>>,
    later: Result<Option<Vec<u8>>>,
)
    requires
        old(db).wf(),
        !old(db).is_closed(),
        call_ensures(Db::get, (&*old(db), key), earlier),
        call_ensures(Db::close, (db,), closed),
        *final(db) == between,
        call_ensures(Db::into_stored, (between,), stored),
        name@ == between.store().log_name(),
        opts.merge_operator == between.operator(),
        call_ensures(Db::open, (name, stored, opts), opened),
        opened matches Ok(o) && o == after,
        call_ensures(Db::get, (&after, key), later),
    ensures
        alike(earlier, later),
{
    law_reopen_restores(between, name@, stored, opts, after, DEFAULT_CF_ID, key@);
}

/// A put that was logged survives a crash: opened again from what the
/// database leaves behind at any moment after it, without a flush or a close,
/// a get gives the value.
pub proof fn law_put_survives_crash(
    db: &mut Db,
    key: &[u8],
    value: &[u8],
    r: Result<()>,
    between: Db,
    stored: Stored,
    name: &str,
    opts: Options,
    opened: Result<Db>,
    after: Db,
    g: Result<Option<Vec<u8>>>,
)
    requires
        old(db).wf(),
        old(db).durable() == old(db).history(),
        call_ensures(Db::put, (db, key, value), r),
        r is Ok,
        *final(db) == between,
        call_ensures(Db::into_stored, (between,), stored),
        name@ == between.store().log_name(),
        opts.merge_operator == between.operator(),
        call_ensures(Db::open, (name, stored, opts), opened),
        opened matches Ok(o) && o == after,
        call_ensures(Db::get, (&after, key), g),
    ensures
        g matches Ok(Some(v)) && v@ == value@,
        after.durable() == after.history(),
{
    let ops = seq![(Op::Put { key: prefixed(DEFAULT_CF_ID, key@), value: value@ })];
    let sync = old(db).mode() == DurabilityMode::Immediate;
    law_logged_writes_durable(*old(db), between, ops, sync);
    law_read_your_put(*old(db), between, sync, false, DEFAULT_CF_ID, key@, value@);
    law_reopen_restores(between, name@, stored, opts, after, DEFAULT_CF_ID, key@);
}

/// A copy made by a checkpoint, opened, reads what the database read when the
/// copy was made; and making it changes nothing that is read.
pub proof fn law_checkpoint_then_open(
    db: &mut Db,
    r: Result<Stored>,
    after: Db,
    copy: Stored,
    name: &str,
    opts: Options,
    opened: Result<Db>,
    beside: Db,
    key: &[u8],
    earlier: Result<Option<Vec<u8>>>,
    later: Result<Option<Vec<u8>>>,
    copied: Result<Option<Vec<u8>>>,
)
    requires
        old(db).wf(),
        call_ensures(Db::checkpoint, (db,), r),
        *final(db) == after,
        r matches Ok(c) && c == copy,
        opts.merge_operator == old(db).operator(),
        call_ensures(Db::open, (name, copy, opts), opened),
        opened matches Ok(o) && o == beside,
        call_ensures(Db::get, (&*old(db), key), earlier),
        call_ensures(Db::get, (&after, key), later),
        call_ensures(Db::get, (&beside, key), copied),
    ensures
        alike(earlier, later),
        alike(earlier, copied),
{
    law_flush_keeps_reads(*old(db), after, DEFAULT_CF_ID, key@, old(db).horizon());
    after.lemma_parts();
    after.store().lemma_ordered();
    let h = after.history();
    let none = Seq::<Logged>::empty();
    assert(h + none =~= h);
    assert(recovered(copy, name@) == Ok::<Seq<Logged>, Seq<char>>(h));
    law_reopen_restores(after, name@, copy, opts, beside, DEFAULT_CF_ID, key@);
}

/// Compacting a range changes nothing that is read, where no filter runs
/// and old tables are not dropped for their age.
pub proof fn law_compact_range_changes_no_read(
    db: &mut Db,
    start: Option<&[u8]>,
    end: Option<&[u8]>,
    r: Result<()>,
    after: Db,
    cf: &ColumnFamilyHandle,
    key: &[u8],
    earlier: Result<Option<Vec<u8>>>,
    later: Result<Option<Vec<u8>>>,
)
    requires
        old(db).wf(),
        old(db).store().settings().compaction_filter is None || old(db).live_snapshots() > 0,
        !(old(db).store().settings().compaction_style is Fifo),
        call_ensures(Db::compact_range, (db, start, end), r),
        *final(db) == after,
        call_ensures(Db::get_cf, (&*old(db), cf, key), earlier),
        call_ensures(Db::get_cf, (&after, cf, key), later),
    ensures
        alike(earlier, later),
{
    if r is Ok {
        let before = *old(db);
        before.lemma_parts();
        let (lo, hi) = (
            stored_start(DEFAULT_CF_ID, opt_slice_view(start)),
            stored_end(DEFAULT_CF_ID, opt_slice_view(end)),
        );
        let flushed = choose|flushed: RegolithEngine| #[trigger]
            flushed.is_flush_of(before.store()) && after.store().range_compacted(flushed, lo, hi);
        law_compaction_keeps_reads(
            before.store(),
            flushed,
            after.store(),
            lo,
            hi,
            prefixed(cf.id_number(), key@),
            before.horizon(),
        );
    }
}

/// A step of compaction changes nothing that is read, where no filter runs
/// and old tables are not dropped for their age. It says whether there was
/// anything to do, and does nothing where there was not.
pub proof fn law_compact_step_changes_no_read(
    db: &mut Db,
    r: Result<CompactionOutcome>,
    after: Db,
    cf: &ColumnFamilyHandle,
    key: &[u8],
    earlier: Result<Option<Vec<u8>>>,
    later: Result<Option<Vec<u8>>>,
)
    requires
        old(db).wf(),
        old(db).store().settings().compaction_filter is None || old(db).live_snapshots() > 0,
        !(old(db).store().settings().compaction_style is Fifo),
        call_ensures(Db::compact_step, (db,), r),
        *final(db) == after,
        call_ensures(Db::get_cf, (&*old(db), cf, key), earlier),
        call_ensures(Db::get_cf, (&after, cf, key), later),
    ensures
        alike(earlier, later),
        r matches Ok(outcome) ==> (outcome is Idle ==> after == *old(db)),
        r is Err ==> after == *old(db),
{
    let before = *old(db);
    before.lemma_parts();
    if r is Ok && before.store().compaction_due() {
        law_pass_keeps_reads(
            before.store(),
            after.store(),
            prefixed(cf.id_number(), key@),
            before.horizon(),
        );
    }
}

/// Telling the time, or that the log was synced, changes nothing that is
/// read.
pub proof fn law_reports_change_no_read(
    db: &mut Db,
    now: u64,
    after: Db,
    cf: &ColumnFamilyHandle,
    key: &[u8],
    earlier: Result<Option<Vec<u8>>>,
    later: Result<Option<Vec<u8>>>,
)
    requires
        old(db).wf(),
        call_ensures(Db::report_time, (db, now), ()) || call_ensures(Db::report_synced, (db,), ()),
        *final(db) == after,
        call_ensures(Db::get_cf, (&*old(db), cf, key), earlier),
        call_ensures(Db::get_cf, (&after, cf, key), later),
    ensures
        alike(earlier, later),
{
}

/// After a report that the log was synced no sync is due; after a write that
/// asks for one it is.
pub proof fn law_sync_due(db: &mut Db, due: bool)
    requires
        old(db).wf(),
        call_ensures(Db::report_synced, (db,), ()),
        call_ensures(Db::sync_due, (&*final(db),), due),
    ensures
        !due,
{
}

/// A put under immediate durability owes a sync.
pub proof fn law_put_owes_sync(db: &mut Db, key: &[u8], value: &[u8], r: Result<()>, due: bool)
    requires
        old(db).wf(),
        old(db).mode() == DurabilityMode::Immediate,
        call_ensures(Db::put, (db, key, value), r),
        r is Ok,
        call_ensures(Db::sync_due, (&*final(db),), due),
    ensures
        due,
{
}

/// Taking in external files reads, from then on, as if what they hold had
/// been written in one batch, file after file.
pub proof fn law_ingest_reads_like_write(
    db: &mut Db,
    files: Vec<ExternalFile>,
    r: Result<()>,
    after: Db,
    batch: WriteBatch,
    plain: &mut Db,
    q: Result<()>,
    beside: Db,
    cf: &ColumnFamilyHandle,
    key: &[u8],
    g: Result<Option<Vec<u8>>>,
    w: Result<Option<Vec<u8>>>,
)
    requires
        old(db).wf(),
        *old(plain) == *old(db),
        batch.ops() == Seq::new(
            files@.len(),
            |i: int| Seq::new(files@[i].ops@.len(), |j: int| files@[i].ops@[j]@),
        ).flatten(),
        call_ensures(Db::ingest_external_files, (db, files), r),
        *final(db) == after,
        call_ensures(Db::write, (plain, batch), q),
        *final(plain) == beside,
        r is Ok && q is Ok,
        call_ensures(Db::get_cf, (&after, cf, key), g),
        call_ensures(Db::get_cf, (&beside, cf, key), w),
    ensures
        alike(g, w),
{
    let ops = held_by(files@);
    lemma_held_by(files@);
    assert(ops == batch.ops());
}

/// What a run of files holds is what each holds, one after the other.
proof fn lemma_held_by(files: Seq<ExternalFile>)
    ensures
        held_by(files) == Seq::new(
            files.len(),
            |i: int| Seq::new(files[i].ops@.len(), |j: int| files[i].ops@[j]@),
        ).flatten(),
    decreases files.len(),
{
    let each = Seq::new(
        files.len(),
        |i: int| Seq::new(files[i].ops@.len(), |j: int| files[i].ops@[j]@),
    );
    each.lemma_flatten_and_flatten_alt_are_equivalent();
    if files.len() > 0 {
        let fewer = files.drop_last();
        let rest = Seq::new(
            fewer.len(),
            |i: int| Seq::new(fewer[i].ops@.len(), |j: int| fewer[i].ops@[j]@),
        );
        lemma_held_by(fewer);
        assert(rest =~= each.drop_last());
        rest.lemma_flatten_and_flatten_alt_are_equivalent();
        assert(ops_of(files.last().ops@) =~= each.last());
    }
}

} // verus!
