//! What holds through any run of calls.

use vstd::prelude::*;

use crate::column_family::{
    family_of, lemma_family_before, lemma_prefixed_parts, name_mark, prefixed, unprefixed,
    next_id_key_bytes, ColumnFamilyHandle, DEFAULT_CF_NAME, META_CF_ID,
};
use crate::db::families::{families_of, family_id};
use crate::db::laws::{
    joined, lemma_appended_elsewhere, law_all_pages_are_the_scan,
    law_compaction_keeps_numbers_free, law_compaction_keeps_reads, law_created_family,
    law_data_keeps_families, law_drop_all_keeps_families, law_drop_keeps_numbers_free,
    law_drop_recorded, law_fresh_numbers_free, law_open_finds_families, law_pass_keeps_reads,
    law_snapshot_isolation, law_writes_keep_numbers_free, turned,
};
use crate::db::read::lemma_stored_key_parts;
use crate::db::{pair_views, Db, ScanPage};
use crate::engine::memtable::point_key;
use crate::engine::read::{read_at, Read};
use crate::engine::store::levels::any_touches;
use crate::engine::store::{stacked, RegolithEngine, TableFile};
use crate::error::Result;
use crate::history::{beyond, effect, lemma_later_writes_invisible, numbered, Effect, Logged, Op};
use crate::options::{DurabilityMode, Options};

verus! {

/// One call that was made on a database, as far as it changed what the
/// database holds or knows.
pub ghost enum Call {
    /// Neither the history nor the families were changed: a read, a snapshot
    /// taken or given back, a flush, a report of the host, closing.
    Quiet,
    /// Operations on live families were written.
    Write { ops: Seq<Op>, sync: bool, disable_wal: bool },
    /// Files were ingested.
    Ingest { ops: Seq<Op> },
    /// A family was created.
    Create { name: Seq<char>, id: u32 },
    /// A family was dropped.
    Drop { cf: ColumnFamilyHandle, sync: bool },
    /// A range of stored keys was compacted, once the memtable was finished.
    CompactRange { flushed: RegolithEngine, lo: Seq<u8>, hi: Seq<u8> },
    /// A compaction pass was made.
    CompactPass,
    /// All data was deleted.
    DropAll { names: Seq<Seq<char>> },
}

/// What `call` made of `before` is `after`.
pub open spec fn did(call: Call, before: Db, after: Db) -> bool {
    match call {
        Call::Quiet => {
            &&& after.families() == before.families()
            &&& after.store().settings() == before.store().settings()
            &&& after.history() == before.history()
            &&& after.horizon() == before.horizon()
        },
        Call::Write { ops, sync, disable_wal } => {
            &&& before.batch_family_fault(ops) is None
            &&& after.families() == before.families()
            &&& after.stored(before, ops, sync, disable_wal)
        },
        Call::Ingest { ops } => {
            &&& before.foreign_fault(ops) is None
            &&& after.families() == before.families()
            &&& after.store().settings() == before.store().settings()
            &&& after.horizon() == before.horizon() + ops.len()
            &&& after.history() == before.history() + numbered(ops, before.horizon() + 1)
        },
        Call::Create { name, id } => {
            &&& name != DEFAULT_CF_NAME@
            &&& id < META_CF_ID
            &&& after.gained(before, name, id)
        },
        Call::Drop { cf, sync } => {
            &&& before.drop_fault(cf) is None
            &&& after.stored(before, Db::dropping(cf), sync, false)
            &&& after.families().live() == before.families().live().remove(cf.name_text())
            &&& after.families().upcoming() == before.families().upcoming()
        },
        Call::CompactRange { flushed, lo, hi } => {
            &&& after.families() == before.families()
            &&& flushed.is_flush_of(before.store())
            &&& after.store().range_compacted(flushed, lo, hi)
        },
        Call::CompactPass => {
            &&& after.families() == before.families()
            &&& after.store().pass_done(before.store())
        },
        Call::DropAll { names } => after.dropped_all(before, names),
    }
}

/// A run of calls: `states[i]` is the database before call `i`.
pub open spec fn ran(states: Seq<Db>, calls: Seq<Call>) -> bool {
    &&& states.len() == calls.len() + 1
    &&& forall|i: int| 0 <= i < states.len() ==> (#[trigger] states[i]).wf()
    &&& forall|i: int| 0 <= i < calls.len() ==> #[trigger] did(calls[i], states[i], states[i + 1])
}

// ── snapshots ───────────────────────────────────────────────────────────

/// No call but the one that deletes everything changes what a live snapshot
/// sees, where tables are not dropped by age.
proof fn lemma_snapshot_step(call: Call, before: Db, after: Db, id: u32, key: Seq<u8>, seq: u64)
    requires
        before.wf(),
        did(call, before, after),
        !(call is DropAll),
        !(before.store().settings().compaction_style is Fifo),
        before.pins().dom().contains(seq),
        seq <= before.horizon(),
    ensures
        after.reads(id, key, seq) == before.reads(id, key, seq),
        before.horizon() <= after.horizon(),
        after.store().settings() == before.store().settings(),
{
    let stored = prefixed(id, key);
    match call {
        Call::Write { ops, sync, disable_wal } => {
            law_snapshot_isolation(before, after, ops, sync, disable_wal, id, key, seq);
        },
        Call::Ingest { ops } => {
            let written = numbered(ops, before.horizon() + 1);
            assert(beyond(written, seq)) by {
                assert forall|j: int| 0 <= j < written.len() implies (#[trigger] written[j]).seq
                    > seq by {
                    assert(before.horizon() + 1 + j <= after.horizon());
                }
            }
            lemma_later_writes_invisible(before.history(), written, stored, seq);
        },
        Call::Create { name, id: new } => {
            let ops = Db::registering(name, new);
            let sync = before.mode() == DurabilityMode::Immediate;
            law_snapshot_isolation(before, after, ops, sync, false, id, key, seq);
        },
        Call::Drop { cf, sync } => {
            law_snapshot_isolation(before, after, Db::dropping(cf), sync, false, id, key, seq);
        },
        Call::CompactRange { flushed, lo, hi } => {
            lemma_no_filter(before, seq);
            law_compaction_keeps_reads(
                before.store(),
                flushed,
                after.store(),
                lo,
                hi,
                stored,
                seq,
            );
        },
        Call::CompactPass => {
            lemma_no_filter(before, seq);
            law_pass_keeps_reads(before.store(), after.store(), stored, seq);
        },
        _ => {},
    }
}

/// While a snapshot is live, compaction runs no filter.
proof fn lemma_no_filter(db: Db, seq: u64)
    requires
        db.wf(),
        db.pins().dom().contains(seq),
    ensures
        db.store().wf(),
        db.store().filter() is None,
{
    db.store().lemma_registry_whole();
    db.store().registry().lemma_drained();
}

/// A snapshot sees the same through any run of calls, for as long as it is
/// live: writes, flushes, compactions, families created and dropped. Only
/// deleting everything, and dropping tables by age, take what it sees.
pub proof fn law_snapshot_through_calls(
    states: Seq<Db>,
    calls: Seq<Call>,
    id: u32,
    key: Seq<u8>,
    seq: u64,
    n: int,
)
    requires
        ran(states, calls),
        forall|i: int| 0 <= i < calls.len() ==> !(#[trigger] calls[i] is DropAll),
        !(states[0].store().settings().compaction_style is Fifo),
        forall|i: int|
            0 <= i < states.len() ==> (#[trigger] states[i]).pins().dom().contains(seq),
        seq <= states[0].horizon(),
        0 <= n < states.len(),
    ensures
        states[n].reads(id, key, seq) == states[0].reads(id, key, seq),
        states[0].horizon() <= states[n].horizon(),
        states[n].store().settings() == states[0].store().settings(),
    decreases n,
{
    if n > 0 {
        law_snapshot_through_calls(states, calls, id, key, seq, n - 1);
        assert(did(calls[n - 1], states[n - 1], states[n - 1 + 1]));
        lemma_snapshot_step(calls[n - 1], states[n - 1], states[n], id, key, seq);
    }
}

/// The pages of a snapshot, turned one by one while calls go on, are its scan:
/// joined they hold what one scan of the range gives.
pub proof fn law_pages_through_calls(
    states: Seq<Db>,
    calls: Seq<Call>,
    at: Seq<int>,
    id: u32,
    start: Option<Seq<u8>>,
    end: Option<Seq<u8>>,
    limit: usize,
    seq: u64,
    pages: Seq<ScanPage>,
    whole: Result<Vec<(Vec<u8>, Vec<u8>)>>,
)
    requires
        ran(states, calls),
        forall|i: int| 0 <= i < calls.len() ==> !(#[trigger] calls[i] is DropAll),
        !(states[0].store().settings().compaction_style is Fifo),
        forall|i: int|
            0 <= i < states.len() ==> (#[trigger] states[i]).pins().dom().contains(seq),
        seq <= states[0].horizon(),
        forall|i: int| 0 <= i < at.len() ==> 0 <= #[trigger] at[i] < states.len(),
        at.len() > 0,
        at[0] == 0,
        turned(Seq::new(at.len(), |i: int| states[at[i]]), id, start, end, limit, seq, pages),
        limit > 0,
        states[0].scanned(id, start, end, seq, whole),
    ensures
        whole matches Ok(entries) && joined(pages, 0) == pair_views(entries@),
        forall|i: int|
            0 <= i < pages.len() ==> {
                &&& (#[trigger] pages[i]).entries@.len() <= limit
                &&& i < pages.len() - 1 ==> pages[i].entries@.len() == limit
            },
{
    let read = Seq::new(at.len(), |i: int| states[at[i]]);
    assert forall|j: int, key: Seq<u8>| 0 <= j < read.len() implies #[trigger] read[j].reads(
        id,
        key,
        seq,
    ) == read[0].reads(id, key, seq) by {
        law_snapshot_through_calls(states, calls, id, key, seq, at[j]);
    }
    law_all_pages_are_the_scan(read, id, start, end, limit, seq, pages, whole);
}

// ── families ────────────────────────────────────────────────────────────

impl Db {
    /// The families are the ones the metadata holds, and the numbers of new
    /// ones are free.
    pub open spec fn families_sound(self) -> bool {
        &&& self.families_current()
        &&& self.numbers_free()
    }
}

/// The families of a new database are sound.
pub proof fn law_new_database_is_sound(
    db: Db,
    name: Seq<char>,
    files: Seq<TableFile>,
    seq: u64,
    opts: Options,
)
    requires
        db.fresh(name, files, Seq::empty(), seq, opts),
    ensures
        db.families_sound(),
{
    let none = Seq::<Logged>::empty();
    assert(read_at(opts.merge_operator, none, next_id_key_bytes(), seq) == Read::Value(None));
    law_open_finds_families(db, name, files, none, seq, opts);
    law_fresh_numbers_free(db, name, files, seq, opts);
}

/// An operation on live families touches no metadata.
proof fn lemma_data_spares_metadata(db: Db, ops: Seq<Op>, j: int, key: Seq<u8>)
    requires
        db.numbers_free(),
        db.batch_family_fault(ops) is None || db.foreign_fault(ops) is None,
        0 <= j < ops.len(),
    ensures
        effect(ops[j], prefixed(META_CF_ID, key)) == Effect::Nothing,
    decreases ops.len(),
{
    lemma_prefixed_parts(META_CF_ID, key);
    if j < ops.len() - 1 {
        lemma_data_spares_metadata(db, ops.drop_last(), j, key);
    } else {
        let op = ops[j];
        assert(db.op_family_fault(op) is None || db.foreign_op_fault(op) is None);
        match op {
            Op::DeleteRange { start, end } => {
                let last = family_of(end);
                assert(db.families().has_id(last));
                lemma_stored_key_parts(end);
                lemma_family_before(last, unprefixed(end), META_CF_ID, key);
            },
            _ => {
                assert(db.families().has_id(family_of(point_key(op)->0)));
            },
        }
    }
}

/// Two databases that read their metadata alike know the same families.
proof fn lemma_same_metadata(before: Db, after: Db)
    requires
        before.families_current(),
        after.families() == before.families(),
        forall|key: Seq<u8>| #[trigger]
            after.reads(META_CF_ID, key, after.horizon()) == before.reads(
                META_CF_ID,
                key,
                before.horizon(),
            ),
    ensures
        after.families_current(),
{
    assert forall|name: Seq<char>| #[trigger]
        family_id(after.operator(), after.history(), after.horizon(), name) == family_id(
            before.operator(),
            before.history(),
            before.horizon(),
            name,
        ) by {
        let key = name_mark() + vstd::utf8::encode_utf8(name);
        assert(after.reads(META_CF_ID, key, after.horizon()) == before.reads(
            META_CF_ID,
            key,
            before.horizon(),
        ));
    }
    let next = seq![110u8, 101u8, 120u8, 116u8, 95u8, 105u8, 100u8];
    assert(after.reads(META_CF_ID, next, after.horizon()) == before.reads(
        META_CF_ID,
        next,
        before.horizon(),
    ));
    assert(families_of(after.operator(), after.history(), after.horizon()) =~= families_of(
        before.operator(),
        before.history(),
        before.horizon(),
    ));
}

/// Every call keeps the families sound, where compaction runs no filter and
/// tables are not dropped by age.
proof fn lemma_families_step(call: Call, before: Db, after: Db)
    requires
        before.wf(),
        after.wf(),
        before.families_sound(),
        did(call, before, after),
        !(before.store().settings().compaction_style is Fifo),
        before.store().settings().compaction_filter is None,
    ensures
        after.families_sound(),
        after.store().settings() == before.store().settings(),
        before.families().upcoming() <= after.families().upcoming(),
{
    match call {
        Call::Quiet => {
            lemma_same_metadata(before, after);
        },
        Call::Write { ops, sync, disable_wal } => {
            assert forall|j: int, key: Seq<u8>| 0 <= j < ops.len() implies effect(
                #[trigger] ops[j],
                #[trigger] prefixed(META_CF_ID, key),
            ) == Effect::Nothing by {
                lemma_data_spares_metadata(before, ops, j, key);
            }
            law_data_keeps_families(before, after, ops, sync, disable_wal);
            law_writes_keep_numbers_free(before, after, ops);
        },
        Call::Ingest { ops } => {
            assert forall|key: Seq<u8>| #[trigger]
                after.reads(META_CF_ID, key, after.horizon()) == before.reads(
                    META_CF_ID,
                    key,
                    before.horizon(),
                ) by {
                assert forall|j: int| 0 <= j < ops.len() implies effect(
                    #[trigger] ops[j],
                    prefixed(META_CF_ID, key),
                ) == Effect::Nothing by {
                    lemma_data_spares_metadata(before, ops, j, key);
                }
                lemma_appended_elsewhere(before, after, ops, META_CF_ID, key);
            }
            lemma_same_metadata(before, after);
            law_writes_keep_numbers_free(before, after, ops);
        },
        Call::Create { name, id } => {
            law_created_family(before, after, name, id);
        },
        Call::Drop { cf, sync } => {
            law_drop_recorded(before, after, cf, sync, Seq::empty());
            law_drop_keeps_numbers_free(before, after, cf, sync);
        },
        Call::CompactRange { flushed, lo, hi } => {
            assert forall|key: Seq<u8>| #[trigger]
                after.reads(META_CF_ID, key, after.horizon()) == before.reads(
                    META_CF_ID,
                    key,
                    before.horizon(),
                ) by {
                law_compaction_keeps_reads(
                    before.store(),
                    flushed,
                    after.store(),
                    lo,
                    hi,
                    prefixed(META_CF_ID, key),
                    before.horizon(),
                );
            }
            lemma_same_metadata(before, after);
            let next = before.families().upcoming() as int;
            law_compaction_keeps_numbers_free(before.store(), flushed, next);
            if any_touches(stacked(flushed.files()), lo, hi) {
                assert(after.store().merged(flushed, flushed.merge_level(), 0));
                law_compaction_keeps_numbers_free(flushed, after.store(), next);
            }
        },
        Call::CompactPass => {
            assert forall|key: Seq<u8>| #[trigger]
                after.reads(META_CF_ID, key, after.horizon()) == before.reads(
                    META_CF_ID,
                    key,
                    before.horizon(),
                ) by {
                law_pass_keeps_reads(
                    before.store(),
                    after.store(),
                    prefixed(META_CF_ID, key),
                    before.horizon(),
                );
            }
            lemma_same_metadata(before, after);
            let old = before.store();
            assert(after.store().merged(old, old.merge_level(), old.merge_from()));
            law_compaction_keeps_numbers_free(
                old,
                after.store(),
                before.families().upcoming() as int,
            );
        },
        Call::DropAll { names } => {
            law_drop_all_keeps_families(before, after, names);
        },
    }
}

/// From a database whose families are sound on, they are sound through any run
/// of calls, and numbers that were given out are not given out again, where
/// compaction runs no filter and tables are not dropped by age.
pub proof fn law_families_through_calls(states: Seq<Db>, calls: Seq<Call>, n: int)
    requires
        ran(states, calls),
        states[0].families_sound(),
        !(states[0].store().settings().compaction_style is Fifo),
        states[0].store().settings().compaction_filter is None,
        0 <= n < states.len(),
    ensures
        states[n].families_sound(),
        states[n].store().settings() == states[0].store().settings(),
        states[0].families().upcoming() <= states[n].families().upcoming(),
    decreases n,
{
    if n > 0 {
        law_families_through_calls(states, calls, n - 1);
        assert(did(calls[n - 1], states[n - 1], states[n - 1 + 1]));
        lemma_families_step(calls[n - 1], states[n - 1], states[n]);
    }
}

/// A family created at any point of a run that began with a new database is
/// found under its name, holds no key at any point of the history, and has a
/// number that no family of any earlier state had, dropped ones among them.
/// Every other family reads as it did.
pub proof fn law_family_created_in_run(
    states: Seq<Db>,
    calls: Seq<Call>,
    n: int,
    name: Seq<char>,
    id: u32,
)
    requires
        ran(states, calls),
        states[0].families_sound(),
        !(states[0].store().settings().compaction_style is Fifo),
        states[0].store().settings().compaction_filter is None,
        0 <= n < calls.len(),
        calls[n] == (Call::Create { name, id }),
    ensures
        states[n + 1].families().live().dom().contains(name),
        states[n + 1].families().live()[name] == id,
        forall|key: Seq<u8>, seq: u64| #[trigger]
            states[n + 1].reads(id, key, seq) == Read::Value(None),
        forall|i: int, other: Seq<char>|
            0 <= i <= n && #[trigger] states[i].families().live().dom().contains(other)
                ==> states[i].families().live()[other] != id,
        forall|other: u32, key: Seq<u8>|
            other != META_CF_ID ==> #[trigger] states[n + 1].reads(
                other,
                key,
                states[n + 1].horizon(),
            ) == states[n].reads(other, key, states[n].horizon()),
        states[n + 1].families_sound(),
{
    law_families_through_calls(states, calls, n);
    assert(did(calls[n], states[n], states[n + 1]));
    law_created_family(states[n], states[n + 1], name, id);
    assert forall|i: int, other: Seq<char>|
        0 <= i <= n && #[trigger] states[i].families().live().dom().contains(
            other,
        ) implies states[i].families().live()[other] != id by {
        lemma_numbers_grow(states, calls, i, n);
    }
}

/// The number of the next family never falls.
proof fn lemma_numbers_grow(states: Seq<Db>, calls: Seq<Call>, i: int, n: int)
    requires
        ran(states, calls),
        states[0].families_sound(),
        !(states[0].store().settings().compaction_style is Fifo),
        states[0].store().settings().compaction_filter is None,
        0 <= i <= n < states.len(),
    ensures
        states[i].families_sound(),
        states[i].families().upcoming() <= states[n].families().upcoming(),
    decreases n - i,
{
    law_families_through_calls(states, calls, i);
    if i < n {
        lemma_numbers_grow(states, calls, i, n - 1);
        law_families_through_calls(states, calls, n - 1);
        assert(did(calls[n - 1], states[n - 1], states[n - 1 + 1]));
        lemma_families_step(calls[n - 1], states[n - 1], states[n]);
    }
}

} // verus!
