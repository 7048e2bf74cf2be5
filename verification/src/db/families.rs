//! Opening a database, and its column families.

use std::sync::Arc;

use vstd::prelude::*;
use vstd::utf8::encode_utf8;

use crate::batch::{ops_of, WriteBatchOp};
use crate::bytes;
use crate::bytes::{
    be_bytes, be_value, bytes_lt, lemma_be_value_bound, lemma_bytes_lt_common_prefix,
    lemma_bytes_lt_irreflexive, lemma_u32_fits,
};
use crate::column_family::{
    cf_lower_bound, cf_upper_bound, entry_views, lemma_family_range, lemma_name_round_trip,
    lemma_prefixed_parts, loaded, name_from_key, name_in, name_key, name_key_of, name_mark,
    name_scan_end, name_scan_prefix, name_scan_upper, names_ascend, next_id_key,
    next_id_key_bytes, past_family, prefixed, texts, CfRegistry, ColumnFamilyHandle,
    DEFAULT_CF_ID, DEFAULT_CF_NAME, META_CF_ID,
};
use crate::db::read::{any_failed, collect_range, pairs_of};
use crate::db::{first_fault, pair_views, Db};
use crate::engine::read::{
    is_scan, merge_failure, read_at, row_views, Read, Row, RowView,
};
use crate::engine::snapshot_registry::Pin;
use crate::engine::store::{
    check_ops, keyed, reached, recovered, RegolithEngine, Stored, TableFile,
};
use crate::error::{checked, is_fault, Error, ErrorKind, Fault, IoError, Result};
use crate::history::{covers, Logged, Op};
use crate::options::{complaint, complaint_text, DurabilityMode, MergeOperator, Options};
use crate::text::same_text;

verus! {

/// What a name entry registers: a name and its id. An entry whose value is
/// not four bytes, or whose name is not text, registers nothing.
pub open spec fn registers(key: Seq<u8>, value: Seq<u8>) -> Option<(Seq<char>, u32)> {
    if value.len() != 4 {
        None
    } else {
        match name_in(key) {
            Some(name) => Some((name, be_value(value) as u32)),
            None => None,
        }
    }
}

/// What a run of name entries registers, in order.
pub open spec fn registered(entries: Seq<(Seq<u8>, Seq<u8>)>) -> Seq<(Seq<char>, u32)>
    decreases entries.len(),
{
    if entries.len() == 0 {
        Seq::empty()
    } else {
        let before = registered(entries.drop_last());
        match registers(entries.last().0, entries.last().1) {
            Some(family) => before.push(family),
            None => before,
        }
    }
}

/// The id the next family gets, by what the database holds of it: one when
/// it holds nothing, or not four bytes.
pub open spec fn next_id_of(held: Option<Seq<u8>>) -> u32 {
    match held {
        Some(value) => if value.len() == 4 {
            be_value(value) as u32
        } else {
            1
        },
        None => 1,
    }
}

/// The id a database with this history has for the family `name`, if it has
/// one: what the family's name entry holds, where that is four bytes and not
/// the reserved id. The default family always has its own.
pub open spec fn family_id(
    operator: Option<Arc<dyn MergeOperator>>,
    h: Seq<Logged>,
    seq: u64,
    name: Seq<char>,
) -> Option<u32> {
    if name == DEFAULT_CF_NAME@ {
        Some(DEFAULT_CF_ID)
    } else {
        match read_at(operator, h, name_key_of(name), seq) {
            Read::Value(Some(value)) => if value.len() == 4 && be_value(value) < META_CF_ID {
                Some(be_value(value) as u32)
            } else {
                None
            },
            _ => None,
        }
    }
}

/// The families a database with this history has.
pub open spec fn families_of(
    operator: Option<Arc<dyn MergeOperator>>,
    h: Seq<Logged>,
    seq: u64,
) -> Map<Seq<char>, u32> {
    Map::new(
        |name: Seq<char>| family_id(operator, h, seq, name) is Some,
        |name: Seq<char>| family_id(operator, h, seq, name)->0,
    )
}

/// Some name entry cannot be read.
pub open spec fn names_unreadable(
    operator: Option<Arc<dyn MergeOperator>>,
    h: Seq<Logged>,
    seq: u64,
) -> bool {
    exists|key: Seq<u8>|
        covers(prefixed(META_CF_ID, name_mark()), name_scan_end(), key) && (#[trigger] read_at(
            operator,
            h,
            key,
            seq,
        )) is MergeFailed
}

/// Only its name entry names a family.
proof fn lemma_named_by(key: Seq<u8>, name: Seq<char>)
    requires
        name_in(key) == Some(name),
    ensures
        key == name_key_of(name),
{
    let head = prefixed(META_CF_ID, name_mark());
    vstd::utf8::decode_utf8_encode_utf8(key.skip(head.len() as int));
    assert(key =~= head + key.skip(head.len() as int));
    assert(head + encode_utf8(name) =~= name_key_of(name));
}

/// A name entry lies where name entries are looked for.
proof fn lemma_name_key_scanned(name: Seq<char>)
    ensures
        covers(prefixed(META_CF_ID, name_mark()), name_scan_end(), name_key_of(name)),
{
    let user = name_mark() + encode_utf8(name);
    let past = seq![110u8, 97u8, 109u8, 101u8, 59u8];
    lemma_family_range(META_CF_ID, name_mark(), past, META_CF_ID, user);
    let none = Seq::<u8>::empty();
    assert(name_mark() + none =~= name_mark());
    lemma_bytes_lt_common_prefix(name_mark(), encode_utf8(name), none);
    assert(!bytes_lt(encode_utf8(name), none));
    let stem = seq![110u8, 97u8, 109u8, 101u8];
    let rest = seq![58u8] + encode_utf8(name);
    assert(user =~= stem + rest);
    assert(past =~= stem + seq![59u8]);
    lemma_bytes_lt_common_prefix(stem, rest, seq![59u8]);
    assert(rest[0] == 58u8);
}

/// What a run of entries under distinct keys loads of one name: the id of
/// the one entry that names it, where there is one.
proof fn lemma_loaded(entries: Seq<(Seq<u8>, Seq<u8>)>, name: Seq<char>, id: u32)
    requires
        forall|i: int, j: int|
            0 <= i < j < entries.len() ==> (#[trigger] entries[i]).0 != (#[trigger] entries[j]).0,
        id < META_CF_ID,
    ensures
        loaded(registered(entries)).dom().contains(name) && loaded(registered(entries))[name] == id
            <==> exists|i: int|
            0 <= i < entries.len() && #[trigger] registers(entries[i].0, entries[i].1) == Some(
                (name, id),
            ),
        loaded(registered(entries)).dom().contains(name) ==> loaded(registered(entries))[name]
            < META_CF_ID,
    decreases entries.len(),
{
    if entries.len() > 0 {
        let rest = entries.drop_last();
        let n = entries.len() - 1;
        let last = registers(entries[n].0, entries[n].1);
        assert forall|i: int, j: int| 0 <= i < j < rest.len() implies (#[trigger] rest[i]).0 != (
        #[trigger] rest[j]).0 by {
            assert(rest[i] == entries[i]);
            assert(rest[j] == entries[j]);
        }
        lemma_loaded(rest, name, id);
        let had = loaded(registered(rest));
        let has = loaded(registered(entries));
        if last is Some {
            let run = registered(rest).push(last->0);
            assert(run.drop_last() =~= registered(rest));
            assert(registered(entries) == run);
        }
        let before = exists|i: int|
            0 <= i < rest.len() && #[trigger] registers(rest[i].0, rest[i].1) == Some((name, id));
        if before {
            let i = choose|i: int|
                0 <= i < rest.len() && #[trigger] registers(rest[i].0, rest[i].1) == Some((name, id));
            assert(rest[i] == entries[i]);
            assert(registers(entries[i].0, entries[i].1) == Some((name, id)));
            lemma_named_by(entries[i].0, name);
            if last is Some && (last->0).0 == name {
                lemma_named_by(entries[n].0, name);
                assert(false);
            }
        } else {
            if exists|i: int|
                0 <= i < entries.len() && #[trigger] registers(entries[i].0, entries[i].1) == Some(
                    (name, id),
                ) {
                let i = choose|i: int|
                    0 <= i < entries.len() && #[trigger] registers(entries[i].0, entries[i].1)
                        == Some((name, id));
                if i < n {
                    assert(rest[i] == entries[i]);
                    assert(registers(rest[i].0, rest[i].1) == Some((name, id)));
                }
                assert(i == n);
            }
        }
    } else {
        assert(registered(entries) =~= Seq::empty());
    }
}

/// The rows of a scan of the name entries load the families the database
/// has.
proof fn lemma_families_loaded(
    operator: Option<Arc<dyn MergeOperator>>,
    h: Seq<Logged>,
    seq: u64,
    rows: Seq<RowView>,
)
    requires
        is_scan(operator, h, prefixed(META_CF_ID, name_mark()), name_scan_end(), seq, rows),
        !any_failed(rows),
    ensures
        loaded(registered(pairs_of(rows)).push((DEFAULT_CF_NAME@, DEFAULT_CF_ID))) == families_of(
            operator,
            h,
            seq,
        ),
{
    let pairs = pairs_of(rows);
    let run = registered(pairs).push((DEFAULT_CF_NAME@, DEFAULT_CF_ID));
    assert(run.drop_last() =~= registered(pairs));
    assert forall|i: int, j: int| 0 <= i < j < pairs.len() implies (#[trigger] pairs[i]).0 != (
    #[trigger] pairs[j]).0 by {
        assert(bytes_lt(rows[i].key, rows[j].key));
        lemma_bytes_lt_irreflexive(rows[i].key);
    }
    assert forall|name: Seq<char>| #[trigger]
        loaded(run).dom().contains(name) == families_of(operator, h, seq).dom().contains(name) && (
        loaded(run).dom().contains(name) ==> loaded(run)[name] == families_of(
            operator,
            h,
            seq,
        )[name]) by {
        if name != DEFAULT_CF_NAME@ {
            let id = family_id(operator, h, seq, name);
            lemma_name_round_trip(name);
            lemma_name_key_scanned(name);
            if id is Some {
                let key = name_key_of(name);
                let i = choose|i: int| 0 <= i < rows.len() && (#[trigger] rows[i]).key == key;
                assert(rows[i].value is Some);
                assert(registers(pairs[i].0, pairs[i].1) == Some((name, id->0)));
                lemma_loaded(pairs, name, id->0);
            } else if loaded(registered(pairs)).dom().contains(name) {
                let held = loaded(registered(pairs))[name];
                lemma_loaded(pairs, name, 0);
                lemma_loaded(pairs, name, held);
                let i = choose|i: int|
                    0 <= i < pairs.len() && #[trigger] registers(pairs[i].0, pairs[i].1) == Some(
                        (name, held),
                    );
                lemma_named_by(pairs[i].0, name);
                assert(rows[i].value is Some);
                lemma_be_value_bound(rows[i].value->0);
                lemma_u32_fits();
                assert(false);
            }
        }
    }
    assert(loaded(run) =~= families_of(operator, h, seq));
}

/// What a read of the next id comes to.
pub open spec fn next_id_read(
    operator: Option<Arc<dyn MergeOperator>>,
    h: Seq<Logged>,
    seq: u64,
) -> Read {
    read_at(operator, h, next_id_key_bytes(), seq)
}

/// `names` are those of the live families, in order.
pub open spec fn lists_live(names: Seq<Seq<char>>, registry: CfRegistry) -> bool {
    &&& names_ascend(names)
    &&& forall|name: Seq<char>| #[trigger]
        names.contains(name) <==> registry.live().dom().contains(name)
}

/// An entry in the metadata for each of the families but the default one.
pub open spec fn name_entries(names: Seq<Seq<char>>, live: Map<Seq<char>, u32>) -> Seq<Op>
    decreases names.len(),
{
    if names.len() == 0 {
        Seq::empty()
    } else {
        let before = name_entries(names.drop_last(), live);
        if names.last() == DEFAULT_CF_NAME@ {
            before
        } else {
            before.push(
                Op::Put {
                    key: name_key_of(names.last()),
                    value: be_bytes(live[names.last()] as nat, 4),
                },
            )
        }
    }
}

/// Each entry is that of one of the families.
pub proof fn lemma_name_entry(names: Seq<Seq<char>>, live: Map<Seq<char>, u32>, i: int) -> (j: int)
    requires
        0 <= i < name_entries(names, live).len(),
    ensures
        0 <= j < names.len(),
        names[j] != DEFAULT_CF_NAME@,
        name_entries(names, live)[i] == (Op::Put {
            key: name_key_of(names[j]),
            value: be_bytes(live[names[j]] as nat, 4),
        }),
    decreases names.len(),
{
    let rest = names.drop_last();
    if i < name_entries(rest, live).len() {
        lemma_name_entry(rest, live, i)
    } else {
        names.len() - 1
    }
}

/// Every operation that records the families has a whole key.
proof fn lemma_recording_keyed(names: Seq<Seq<char>>, registry: CfRegistry)
    ensures
        forall|i: int|
            0 <= i < Db::recording(names, registry).len() ==> keyed(
                #[trigger] Db::recording(names, registry)[i],
            ),
{
    let ops = Db::recording(names, registry);
    let entries = name_entries(names, registry.live());
    lemma_prefixed_parts(META_CF_ID, seq![110u8, 101u8, 120u8, 116u8, 95u8, 105u8, 100u8]);
    assert forall|i: int| 0 <= i < ops.len() implies keyed(#[trigger] ops[i]) by {
        if i < entries.len() {
            let j = lemma_name_entry(names, registry.live(), i);
            lemma_prefixed_parts(META_CF_ID, name_mark() + vstd::utf8::encode_utf8(names[j]));
        }
    }
}

/// What opening a database comes to: its history, or why it fails.
pub open spec fn opened(name: Seq<char>, stored: Stored, opts: Options) -> std::result::Result<
    Seq<Logged>,
    Fault,
> {
    match complaint(opts) {
        Some(c) => Err(Fault::InvalidArgument(complaint_text(c))),
        None => if opts.read_only && !stored.was_opened() {
            Err(Fault::NotFound("there is no database to open read-only"@))
        } else {
            match recovered(stored, name) {
                Err(message) => Err(Fault::Corruption(message)),
                Ok(h) => if names_unreadable(opts.merge_operator, h, reached(stored, h))
                    || next_id_read(opts.merge_operator, h, reached(stored, h)) is MergeFailed {
                    Err(Fault::Corruption(merge_failure(opts.merge_operator)))
                } else {
                    Ok(h)
                },
            }
        },
    }
}

impl Db {
    /// A handle freshly opened on a database that left `files` behind, with
    /// history `h` up to `seq`: it holds what the database held, all of it
    /// durable, and knows its families.
    pub open spec fn fresh(
        self,
        name: Seq<char>,
        files: Seq<TableFile>,
        h: Seq<Logged>,
        seq: u64,
        opts: Options,
    ) -> bool {
        &&& self.wf()
        &&& self.store().files() == files
        &&& self.history() == h
        &&& self.durable() == h
        &&& self.horizon() == seq
        &&& opts.passes_on(self.store().settings())
        &&& self.store().log_name() == name
        &&& self.store().registry().pins() == Map::<u64, Pin>::empty()
        &&& self.store().registry().live() == 0
        &&& self.store().registry().waiters() == 0
        &&& self.store().registry().wakes() == 0
        &&& self.store().clock() is None
        &&& !self.store().owes_sync()
        &&& !self.is_closed()
        &&& self.mode() == opts.durability
        &&& self.is_read_only() == opts.read_only
        &&& self.key_limit() == opts.max_key_size
        &&& self.value_limit() == opts.max_value_size
        &&& self.keys_inline() == opts.transaction_keys_inline
        &&& self.families().live() == families_of(opts.merge_operator, h, seq)
        &&& self.families().upcoming() == next_id_of(
            next_id_read(opts.merge_operator, h, seq)->Value_0,
        )
    }

    /// Open what a database left behind, under the log name `name`. On a
    /// fresh database only the default column family is there. Invalid
    /// option combinations fail before anything else is looked at.
    pub fn open(name: &str, stored: Stored, opts: Options) -> (r: Result<Self>)
        requires
            stored.wf(),
        ensures
            match opened(name@, stored, opts) {
                Err(fault) => r matches Err(e) && is_fault(e, fault),
                Ok(h) => r matches Ok(db) && db.fresh(name@, stored.files(), h, reached(stored, h), opts),
            },
    {
        if let Err(e) = opts.validate() {
            return Err(e);
        }
        if opts.read_only && !stored.is_opened() {
            return Err(
                Error::Io(
                    IoError::new(ErrorKind::NotFound, "there is no database to open read-only"),
                ),
            );
        }
        let engine: RegolithEngine = match RegolithEngine::recover(
            name,
            stored,
            opts.to_engine_options(),
        ) {
            Ok(engine) => engine,
            Err(e) => {
                return Err(Error::from(e));
            },
        };
        let mut db = Db {
            engine,
            durability: opts.durability,
            cfs: CfRegistry::new(),
            read_only: opts.read_only,
            max_key_size: opts.max_key_size,
            max_value_size: opts.max_value_size,
            transaction_keys_inline: opts.transaction_keys_inline,
        };
        if let Err(e) = db.load_cf_registry() {
            return Err(e);
        }
        Ok(db)
    }

    /// Open what a database left behind for reading alone: writes through
    /// the handle are refused. Where there never was a database there is
    /// nothing to open.
    pub fn open_read_only(name: &str, stored: Stored, opts: Options) -> (r: Result<Self>)
        requires
            stored.wf(),
        ensures
            ({
                let opts = (Options { read_only: true, ..opts });
                match opened(name@, stored, opts) {
                    Err(fault) => r matches Err(e) && is_fault(e, fault),
                    Ok(h) => r matches Ok(db) && db.fresh(name@, stored.files(), h, reached(stored, h), opts),
                }
            }),
    {
        let opts = Options { read_only: true, ..opts };
        Self::open(name, stored, opts)
    }

    /// Fill the registry from the name entries. The default family is never
    /// among them: it always has the same id.
    fn load_cf_registry(&mut self) -> (r: Result<()>)
        requires
            old(self).engine.wf(),
            old(self).cfs.wf(),
        ensures
            final(self).same_handle(*old(self)),
            final(self).store() == old(self).store(),
            ({
                let h = old(self).history();
                let operator = old(self).operator();
                let seq = old(self).horizon();
                let next = next_id_read(operator, h, seq);
                if names_unreadable(operator, h, seq) || next is MergeFailed {
                    r matches Err(e) && is_fault(e, Fault::Corruption(merge_failure(operator)))
                } else {
                    &&& r is Ok
                    &&& final(self).wf()
                    &&& final(self).families().live() == families_of(operator, h, seq)
                    &&& final(self).families().upcoming() == next_id_of(next->Value_0)
                }
            }),
    {
        let lo: Vec<u8> = name_scan_prefix();
        let hi: Vec<u8> = name_scan_upper();
        let seq: u64 = self.engine.snapshot_seq();
        let rows: Vec<Row> = self.engine.scan(lo.as_slice(), hi.as_slice(), seq);
        let ghost operator = self.operator();
        let ghost h = self.history();
        proof {
            assert(is_scan(operator, h, lo@, hi@, seq, row_views(rows@)));
            let found = row_views(rows@);
            if any_failed(found) {
                let i = choose|i: int| 0 <= i < found.len() && (#[trigger] found[i]).value is None;
                assert(read_at(operator, h, found[i].key, seq) is MergeFailed);
            } else if names_unreadable(operator, h, seq) {
                let key = choose|key: Seq<u8>|
                    covers(lo@, hi@, key) && (#[trigger] read_at(operator, h, key, seq)) is MergeFailed;
                let i = choose|i: int| 0 <= i < found.len() && (#[trigger] found[i]).key == key;
                assert(found[i].value is None);
            } else {
                lemma_families_loaded(operator, h, seq, found);
            }
        }
        let pairs: Vec<(Vec<u8>, Vec<u8>)> = match collect_range(rows) {
            Ok(pairs) => pairs,
            Err(_) => {
                // A name entry is never a merge: the log or a table is damaged.
                return Err(Error::corruption(self.engine.merge_failure_message().as_str()));
            },
        };
        let mut entries: Vec<(String, u32)> = families_in(&pairs);
        let next_key: Vec<u8> = next_id_key();
        let held: Option<Vec<u8>> = match self.engine.get(next_key.as_slice(), seq) {
            Ok(held) => held,
            Err(e) => {
                return Err(Error::from(e));
            },
        };
        let next_id: u32 = match &held {
            Some(value) => if value.len() == 4 {
                assert(value@.subrange(0, 4) =~= value@);
                bytes::read_be32(value.as_slice(), 0)
            } else {
                DEFAULT_CF_ID + 1
            },
            None => DEFAULT_CF_ID + 1,
        };
        let ghost before = entry_views(entries@);
        entries.push((DEFAULT_CF_NAME.to_owned(), DEFAULT_CF_ID));
        proof {
            assert(entry_views(entries@) =~= before.push((DEFAULT_CF_NAME@, DEFAULT_CF_ID)));
            let all = entry_views(entries@);
            assert(all.drop_last() =~= before);
            assert(loaded(all) == loaded(before).insert(DEFAULT_CF_NAME@, DEFAULT_CF_ID));
        }
        self.cfs.load(&entries, next_id);
        Ok(())
    }

    // ── column families ─────────────────────────────────────────────────

    /// A handle to the default column family, which is always there.
    pub fn default_cf(&self) -> (r: ColumnFamilyHandle)
        requires
            self.wf(),
        ensures
            r.name_text() == DEFAULT_CF_NAME@,
            r.id_number() == DEFAULT_CF_ID,
            self.families().is_live(r),
    {
        ColumnFamilyHandle::named(DEFAULT_CF_NAME, DEFAULT_CF_ID)
    }

    /// Look up a column family by name. `None` when no family with that
    /// name is live.
    pub fn column_family(&self, name: &str) -> (r: Option<ColumnFamilyHandle>)
        requires
            self.wf(),
        ensures
            match r {
                Some(cf) => self.families().live().dom().contains(name@) && cf.name_text() == name@
                    && cf.id_number() == self.families().live()[name@],
                None => !self.families().live().dom().contains(name@),
            },
    {
        self.cfs.get(name)
    }

    /// The names of every live column family, `"default"` among them, in
    /// order.
    pub fn list_column_families(&self) -> (r: Vec<String>)
        requires
            self.wf(),
        ensures
            r@.len() == self.families().count(),
            names_ascend(texts(r@)),
            forall|name: Seq<char>| #[trigger]
                texts(r@).contains(name) <==> self.families().live().dom().contains(name),
    {
        self.cfs.names()
    }

    /// What registering the family `name` under `id` writes.
    pub open spec fn registering(name: Seq<char>, id: u32) -> Seq<Op> {
        seq![
            (Op::Put { key: name_key_of(name), value: be_bytes(id as nat, 4) }),
            (Op::Put { key: next_id_key_bytes(), value: be_bytes((id + 1) as nat, 4) }),
        ]
    }

    /// What recording the live families writes: an entry for each but the
    /// default one, which always has its id, and the next number. Where that
    /// would say nothing that a new database does not know, it is nothing.
    pub open spec fn recording(names: Seq<Seq<char>>, registry: CfRegistry) -> Seq<Op> {
        let entries = name_entries(names, registry.live());
        if entries.len() == 0 && registry.upcoming() == 1 {
            entries
        } else {
            entries.push(
                Op::Put {
                    key: next_id_key_bytes(),
                    value: be_bytes(registry.upcoming() as nat, 4),
                },
            )
        }
    }

    /// The database holds nothing any more, and is otherwise as it was.
    pub open spec fn cleared(self, before: Db) -> bool {
        &&& self.wf()
        &&& self.same_families(before)
        &&& self.store().same_setting(before.store())
        &&& self.horizon() == before.horizon()
        &&& self.history() == Seq::<Logged>::empty()
        &&& self.durable() == Seq::<Logged>::empty()
        &&& self.store().files() == Seq::<TableFile>::empty()
        &&& self.store().active() == Seq::<Logged>::empty()
        &&& self.store().owes_sync() == before.store().owes_sync()
    }

    /// What deleting all data leaves, `names` being those of the live
    /// families: nothing but the record of the families.
    pub open spec fn dropped_all(self, before: Db, names: Seq<Seq<char>>) -> bool {
        let ops = Db::recording(names, before.families());
        &&& lists_live(names, before.families())
        &&& exists|emptied: Db| #[trigger]
            emptied.cleared(before) && if ops.len() == 0 {
                self == emptied
            } else {
                self.same_families(emptied) && self.stored(
                    emptied,
                    ops,
                    before.mode() == DurabilityMode::Immediate,
                    false,
                )
            }
    }

    /// Delete all data in the database. The column families stay, empty, and
    /// are recorded anew, so that they are found again when the database is
    /// reopened. Sequence numbers go on growing.
    pub fn drop_all(&mut self) -> (r: Result<()>)
        requires
            old(self).wf(),
            old(self).has_room(old(self).families().count() + 1),
        ensures
            final(self).wf(),
            old(self).gate() is Some ==> checked(r, old(self).gate()),
            r is Err ==> *final(self) == *old(self),
            old(self).gate() is None ==> exists|names: Seq<Seq<char>>| #[trigger]
                lists_live(names, old(self).families()) && ({
                    let ops = Db::recording(names, old(self).families());
                    &&& checked(r, old(self).engine_fault(ops, false))
                    &&& r is Ok ==> final(self).dropped_all(*old(self), names)
                }),
    {
        if let Err(e) = self.ensure_writable() {
            return Err(e);
        }
        let listed: Vec<String> = self.cfs.names();
        let ghost names = texts(listed@);
        let ops: Vec<WriteBatchOp> = self.recorded_families(&listed);
        assert(lists_live(names, self.families()));
        if let Err(e) = check_ops(&ops, false) {
            return Err(Error::from(e));
        }
        self.engine.drop_all();
        let ghost emptied = *self;
        assert(emptied.cleared(*old(self)));
        if ops.len() == 0 {
            assert(self.dropped_all(*old(self), names));
            return Ok(());
        }
        proof {
            lemma_recording_keyed(names, old(self).families());
        }
        let mode: DurabilityMode = self.durability;
        match self.submit(&ops, mode, false) {
            Ok(_) => {
                assert(self.dropped_all(*old(self), names));
                Ok(())
            },
            Err(e) => Err(e),
        }
    }

    /// What recording the live families writes.
    fn recorded_families(&self, names: &Vec<String>) -> (r: Vec<WriteBatchOp>)
        requires
            self.wf(),
            lists_live(texts(names@), self.families()),
        ensures
            ops_of(r@) == Db::recording(texts(names@), self.families()),
            r@.len() <= names@.len() + 1,
    {
        let ghost all = texts(names@);
        let ghost live = self.families().live();
        let mut ops: Vec<WriteBatchOp> = Vec::new();
        let mut i: usize = 0;
        proof {
            assert(all.take(0) =~= Seq::<Seq<char>>::empty());
            assert(ops_of(ops@) =~= Seq::<Op>::empty());
        }
        while i < names.len()
            invariant
                self.wf(),
                all == texts(names@),
                live == self.families().live(),
                lists_live(all, self.families()),
                i <= names@.len(),
                ops@.len() <= i,
                ops_of(ops@) == name_entries(all.take(i as int), live),
            decreases names@.len() - i,
        {
            proof {
                assert(all.take(i + 1).drop_last() =~= all.take(i as int));
                assert(all.take(i + 1).last() == names@[i as int]@);
                assert(all.contains(all[i as int]));
            }
            let name: &str = names[i].as_str();
            if !same_text(name, DEFAULT_CF_NAME) {
                if let Some(cf) = self.cfs.get(name) {
                    let ghost before = ops@;
                    ops.push(WriteBatchOp::Put { key: name_key(name), value: bytes::be32(cf.id()) });
                    assert(ops_of(ops@) =~= ops_of(before).push(ops@.last()@));
                }
            }
            i += 1;
        }
        assert(all.take(i as int) =~= all);
        let next: u32 = self.cfs.next_id();
        if ops.len() > 0 || next != 1 {
            let ghost before = ops@;
            ops.push(WriteBatchOp::Put { key: next_id_key(), value: bytes::be32(next) });
            assert(ops_of(ops@) =~= ops_of(before).push(ops@.last()@));
        }
        ops
    }

    /// What creating the family `name` under the next free number leaves.
    pub open spec fn gained(self, before: Db, name: Seq<char>, id: u32) -> bool {
        &&& id == before.families().upcoming()
        &&& self.families().upcoming() == id + 1
        &&& self.families().live() == before.families().live().insert(name, id)
        &&& self.stored(
            before,
            Db::registering(name, id),
            before.mode() == DurabilityMode::Immediate,
            false,
        )
    }

    /// Why a family named `name` is not even registered, if it is not.
    pub open spec fn create_fault(self, name: Seq<char>) -> Option<Fault> {
        if self.gate() is Some {
            self.gate()
        } else if name.len() == 0 {
            Some(Fault::InvalidArgument("column family name must not be empty"@))
        } else if self.families().live().dom().contains(name) {
            None
        } else {
            first_fault(
                self.key_fault(Db::user_len(name_key_of(name))),
                if self.families().upcoming() >= META_CF_ID {
                    Some(Fault::InvalidArgument("the column-family id space is exhausted"@))
                } else {
                    None
                },
            )
        }
    }

    /// Create a column family. The name must not be empty; a name that is
    /// already live gives the handle it has. The new family is written to
    /// the database's metadata before this returns.
    ///
    /// Where the engine refuses the write, the family is not registered, and
    /// its number is not given out again.
    pub fn create_column_family(&mut self, name: &str) -> (r: Result<ColumnFamilyHandle>)
        requires
            old(self).wf(),
            old(self).has_room(2),
        ensures
            final(self).wf(),
            final(self).same_handle(*old(self)),
            match old(self).create_fault(name@) {
                Some(fault) => *final(self) == *old(self) && (r matches Err(e) && is_fault(
                    e,
                    fault,
                )),
                None => if old(self).families().live().dom().contains(name@) {
                    &&& *final(self) == *old(self)
                    &&& r matches Ok(cf)
                    &&& cf.name_text() == name@
                    &&& cf.id_number() == old(self).families().live()[name@]
                } else {
                    let id = old(self).families().upcoming();
                    let ops = Db::registering(name@, id);
                    let fault = old(self).engine_fault(ops, false);
                    &&& final(self).families().upcoming() == id + 1
                    &&& match fault {
                        Some(f) => final(self).store() == old(self).store()
                            && final(self).families().live() == old(self).families().live() && (
                        r matches Err(e) && is_fault(e, f)),
                        None => final(self).gained(*old(self), name@, id) && (r matches Ok(cf)
                            && cf.name_text() == name@ && cf.id_number() == id),
                    }
                },
            },
    {
        if let Err(e) = self.ensure_writable() {
            return Err(e);
        }
        if name.is_empty() {
            return Err(Error::invalid_argument("column family name must not be empty"));
        }
        if let Some(existing) = self.cfs.get(name) {
            return Ok(existing);
        }
        let key: Vec<u8> = name_key(name);
        if let Err(e) = self.validate_prefixed_key_size(key.as_slice()) {
            return Err(e);
        }
        let (handle, next_id): (ColumnFamilyHandle, u32) = match self.cfs.allocate(name) {
            Some(allocated) => allocated,
            None => {
                return Err(Error::invalid_argument("the column-family id space is exhausted"));
            },
        };
        let ghost registry = self.cfs;
        let id: u32 = handle.id();
        let mut ops: Vec<WriteBatchOp> = Vec::new();
        ops.push(WriteBatchOp::Put { key, value: bytes::be32(id) });
        ops.push(WriteBatchOp::Put { key: next_id_key(), value: bytes::be32(next_id) });
        proof {
            assert(ops_of(ops@) =~= Db::registering(name@, id));
            lemma_prefixed_parts(META_CF_ID, name_mark() + vstd::utf8::encode_utf8(name@));
            lemma_prefixed_parts(
                META_CF_ID,
                seq![110u8, 101u8, 120u8, 116u8, 95u8, 105u8, 100u8],
            );
            assert(registry.live().dom().contains(DEFAULT_CF_NAME@));
        }
        let mode: DurabilityMode = self.durability;
        match self.submit(&ops, mode, false) {
            Ok(_) => Ok(handle),
            Err(e) => {
                self.cfs.remove(name);
                assert(self.families().live() =~= old(self).families().live());
                Err(e)
            },
        }
    }

    /// What dropping a family writes: its name entry goes, and so does every
    /// key of the family.
    pub open spec fn dropping(cf: ColumnFamilyHandle) -> Seq<Op> {
        seq![
            (Op::Delete { key: name_key_of(cf.name_text()) }),
            (Op::DeleteRange {
                start: prefixed(cf.id_number(), Seq::empty()),
                end: past_family(cf.id_number()),
            }),
        ]
    }

    /// Why a family is not dropped, if it is not.
    pub open spec fn drop_fault(self, cf: ColumnFamilyHandle) -> Option<Fault> {
        if self.gate() is Some {
            self.gate()
        } else if cf.id_number() == DEFAULT_CF_ID {
            Some(Fault::InvalidArgument("cannot drop the default column family"@))
        } else if cf.id_number() == META_CF_ID {
            Some(Fault::InvalidArgument("cannot drop the reserved metadata column family"@))
        } else {
            first_fault(
                self.handle_fault(cf),
                self.engine_fault(Db::dropping(cf), false),
            )
        }
    }

    /// Drop a column family: every key of it goes, and its name with them,
    /// in one write. The default column family cannot be dropped.
    pub fn drop_column_family(&mut self, cf: ColumnFamilyHandle) -> (r: Result<()>)
        requires
            old(self).wf(),
            old(self).has_room(2),
        ensures
            final(self).wf(),
            final(self).same_handle(*old(self)),
            ({
                let fault = old(self).drop_fault(cf);
                &&& checked(r, fault)
                &&& if fault is Some {
                    *final(self) == *old(self)
                } else {
                    &&& final(self).stored(
                        *old(self),
                        Db::dropping(cf),
                        old(self).mode() == DurabilityMode::Immediate,
                        false,
                    )
                    &&& final(self).families().live() == old(self).families().live().remove(
                        cf.name_text(),
                    )
                    &&& final(self).families().upcoming() == old(self).families().upcoming()
                }
            }),
    {
        if let Err(e) = self.ensure_writable() {
            return Err(e);
        }
        if cf.id() == DEFAULT_CF_ID {
            return Err(Error::invalid_argument("cannot drop the default column family"));
        }
        if cf.id() == META_CF_ID {
            return Err(
                Error::invalid_argument("cannot drop the reserved metadata column family"),
            );
        }
        if let Err(e) = self.validate_cf_handle(&cf) {
            return Err(e);
        }
        proof {
            self.cfs.lemma_ids(cf.name_text());
        }
        // One write, so that a crash either leaves the family whole or takes
        // all of it.
        let mut ops: Vec<WriteBatchOp> = Vec::new();
        ops.push(WriteBatchOp::Delete { key: name_key(cf.name()) });
        ops.push(
            WriteBatchOp::DeleteRange {
                start: cf_lower_bound(cf.id()),
                end: cf_upper_bound(cf.id()),
            },
        );
        proof {
            assert(ops_of(ops@) =~= Db::dropping(cf));
            lemma_prefixed_parts(META_CF_ID, name_mark() + vstd::utf8::encode_utf8(cf.name_text()));
            lemma_prefixed_parts(cf.id_number(), Seq::empty());
            lemma_prefixed_parts((cf.id_number() + 1) as u32, Seq::empty());
        }
        let mode: DurabilityMode = self.durability;
        if let Err(e) = self.submit(&ops, mode, false) {
            return Err(e);
        }
        self.cfs.remove(cf.name());
        Ok(())
    }
}

/// The families that name entries register.
fn families_in(pairs: &Vec<(Vec<u8>, Vec<u8>)>) -> (r: Vec<(String, u32)>)
    ensures
        entry_views(r@) == registered(pair_views(pairs@)),
{
    let mut out: Vec<(String, u32)> = Vec::new();
    let ghost all = pair_views(pairs@);
    let mut i: usize = 0;
    proof {
        assert(all.take(0) =~= Seq::<(Seq<u8>, Seq<u8>)>::empty());
        assert(entry_views(out@) =~= Seq::<(Seq<char>, u32)>::empty());
    }
    while i < pairs.len()
        invariant
            i <= pairs@.len(),
            all == pair_views(pairs@),
            entry_views(out@) == registered(all.take(i as int)),
        decreases pairs@.len() - i,
    {
        let ghost before = entry_views(out@);
        proof {
            assert(all.take(i + 1).drop_last() =~= all.take(i as int));
            assert(all.take(i + 1).last() == all[i as int]);
        }
        let value: &[u8] = pairs[i].1.as_slice();
        if value.len() == 4 {
            if let Some(name) = name_from_key(pairs[i].0.as_slice()) {
                assert(value@.subrange(0, 4) =~= value@);
                let id: u32 = bytes::read_be32(value, 0);
                out.push((name, id));
                assert(entry_views(out@) =~= before.push((name@, id)));
            }
        }
        i += 1;
    }
    assert(all.take(i as int) =~= all);
    out
}

} // verus!
