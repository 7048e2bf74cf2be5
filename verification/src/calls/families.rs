//! Column families: how they come and go, and that they stay apart.

use vstd::prelude::*;
use vstd::utf8::encode_utf8;

use crate::bytes::{bytes_lt, lemma_bytes_lt_irreflexive};
use crate::calls::reads::alike;
use crate::column_family::{
    entry_views, lemma_family_order, loaded, name_key, name_scan_prefix, name_scan_upper,
    next_id_key, texts, CfRegistry, ColumnFamilyHandle, DEFAULT_CF_ID, DEFAULT_CF_NAME, META_CF_ID,
};
use crate::db::families::lists_live;
use crate::db::laws::{
    law_drop_all_keeps_families, law_new_family_is_empty, lemma_drop_elsewhere,
    lemma_registering_elsewhere,
};
use crate::db::Db;
use crate::error::{Error, Result};
use crate::options::DurabilityMode;


verus! {

/// Creating a family that is not there gives a handle of that name under a
/// number that no live family has. From then on the name is found, and every
/// other name is found as before.
pub proof fn law_create_then_find(
    db: &mut Db,
    name: &str,
    r: Result<ColumnFamilyHandle>,
    after: Db,
    other: &str,
    found: Option<ColumnFamilyHandle>,
    earlier: Option<ColumnFamilyHandle>,
    later: Option<ColumnFamilyHandle>,
)
    requires
        old(db).wf(),
        call_ensures(Db::create_column_family, (db, name), r),
        *final(db) == after,
        call_ensures(Db::column_family, (&after, name), found),
        call_ensures(Db::column_family, (&*old(db), other), earlier),
        call_ensures(Db::column_family, (&after, other), later),
    ensures
        r matches Ok(cf) ==> cf.name_text() == name@ && after.families().is_live(cf) && (found
            matches Some(h) && h.name_text() == name@ && h.id_number() == cf.id_number()),
        other@ != name@ || r is Err ==> match (earlier, later) {
            (Some(a), Some(b)) => a.name_text() == b.name_text() && a.id_number() == b.id_number(),
            (None, None) => true,
            _ => false,
        },
        other@ == name@ && r is Ok ==> (earlier matches Some(h) ==> after == *old(db) && (r
            matches Ok(cf) && cf.id_number() == h.id_number())),
{
}

/// When a family is created and when not: a closed database and a read-only
/// one create none, and a name must not be empty.
pub proof fn law_create_refused(db: &mut Db, name: &str, r: Result<ColumnFamilyHandle>)
    requires
        old(db).wf(),
        call_ensures(Db::create_column_family, (db, name), r),
    ensures
        old(db).is_closed() ==> r matches Err(Error::Closed),
        !old(db).is_closed() && old(db).is_read_only() ==> r matches Err(Error::ReadOnly),
        !old(db).is_closed() && !old(db).is_read_only() && name@.len() == 0 ==> r matches Err(
            Error::InvalidArgument(_),
        ),
        !old(db).is_closed() && !old(db).is_read_only() && name@.len() > 0 && old(
            db,
        ).families().live().dom().contains(name@) ==> r is Ok,
{
}

/// A family that was just created holds nothing, and creating it changed what
/// no other family reads.
pub proof fn law_created_family_is_apart(
    db: &mut Db,
    name: &str,
    r: Result<ColumnFamilyHandle>,
    after: Db,
    cf: &ColumnFamilyHandle,
    key: &[u8],
    empty: Result<Option<Vec<u8>>>,
    family: &ColumnFamilyHandle,
    earlier: Result<Option<Vec<u8>>>,
    later: Result<Option<Vec<u8>>>,
)
    requires
        old(db).wf(),
        old(db).numbers_free(),
        !old(db).families().live().dom().contains(name@),
        call_ensures(Db::create_column_family, (db, name), r),
        *final(db) == after,
        r matches Ok(made) && made == *cf,
        call_ensures(Db::get_cf, (&after, cf, key), empty),
        old(db).families().is_live(*family),
        call_ensures(Db::get_cf, (&*old(db), family, key), earlier),
        call_ensures(Db::get_cf, (&after, family, key), later),
    ensures
        empty matches Ok(None),
        alike(earlier, later),
        cf.id_number() != family.id_number(),
        after.numbers_free(),
{
    let before = *old(db);
    let id = cf.id_number();
    let sync = before.mode() == DurabilityMode::Immediate;
    law_new_family_is_empty(before, after, name@, id, sync, key@, after.horizon());
    before.lemma_live_id(*family);
    lemma_registering_elsewhere(before, after, name@, id, sync, family.id_number(), key@);
    assert(before.families().has_id(family.id_number()));
}

/// Dropping a family takes its name and all it holds: the handle reads no
/// more, and the name is not found. Every other family reads as before, under
/// the name it had.
pub proof fn law_drop_then_find(
    db: &mut Db,
    cf: ColumnFamilyHandle,
    r: Result<()>,
    after: Db,
    name: &str,
    found: Option<ColumnFamilyHandle>,
    key: &[u8],
    gone: Result<Option<Vec<u8>>>,
    family: &ColumnFamilyHandle,
    earlier: Result<Option<Vec<u8>>>,
    later: Result<Option<Vec<u8>>>,
)
    requires
        old(db).wf(),
        call_ensures(Db::drop_column_family, (db, cf), r),
        *final(db) == after,
        name@ == cf.name_text(),
        call_ensures(Db::column_family, (&after, name), found),
        call_ensures(Db::get_cf, (&after, &cf, key), gone),
        old(db).families().is_live(*family),
        family.name_text() != cf.name_text(),
        family.id_number() != cf.id_number(),
        call_ensures(Db::get_cf, (&*old(db), family, key), earlier),
        call_ensures(Db::get_cf, (&after, family, key), later),
    ensures
        r is Ok ==> found is None && (gone matches Err(Error::InvalidColumnFamily(_))),
        after.families().is_live(*family),
        alike(earlier, later),
        r is Err ==> after == *old(db),
        cf.id_number() == DEFAULT_CF_ID ==> r is Err,
{
    let before = *old(db);
    if r is Ok {
        before.lemma_live_id(*family);
        before.lemma_live_id(cf);
        lemma_drop_elsewhere(
            before,
            after,
            cf,
            before.mode() == DurabilityMode::Immediate,
            family.id_number(),
            key@,
        );
    }
}

/// Dropping is refused for a closed or read-only database, for the default
/// family, and for a handle that is not live.
pub proof fn law_drop_refused(db: &mut Db, cf: ColumnFamilyHandle, r: Result<()>)
    requires
        old(db).wf(),
        call_ensures(Db::drop_column_family, (db, cf), r),
    ensures
        old(db).is_closed() ==> r matches Err(Error::Closed),
        !old(db).is_closed() && old(db).is_read_only() ==> r matches Err(Error::ReadOnly),
        !old(db).is_closed() && !old(db).is_read_only() && cf.id_number() == DEFAULT_CF_ID ==> r
            matches Err(Error::InvalidArgument(_)),
        !old(db).is_closed() && !old(db).is_read_only() && cf.id_number() != DEFAULT_CF_ID
            && cf.id_number() != META_CF_ID && !old(db).families().is_live(cf) ==> r matches Err(
            Error::InvalidColumnFamily(_),
        ),
{
}

/// The list of families names each live one once, and no other; a name is
/// listed if and only if it is found. The names come in the order of their
/// bytes.
pub proof fn law_list_is_what_is_found(
    db: Db,
    list: Vec<String>,
    name: &str,
    found: Option<ColumnFamilyHandle>,
)
    requires
        db.wf(),
        call_ensures(Db::list_column_families, (&db,), list),
        call_ensures(Db::column_family, (&db, name), found),
    ensures
        (exists|i: int| 0 <= i < list@.len() && (#[trigger] list@[i])@ == name@) <==> found is Some,
        forall|i: int, j: int|
            0 <= i < j < list@.len() ==> (#[trigger] list@[i])@ != (#[trigger] list@[j])@
                && bytes_lt(
                vstd::utf8::encode_utf8(list@[i]@),
                vstd::utf8::encode_utf8(list@[j]@),
            ),
        exists|i: int| 0 <= i < list@.len() && (#[trigger] list@[i])@ == DEFAULT_CF_NAME@,
{
    let names = texts(list@);
    if exists|i: int| 0 <= i < list@.len() && (#[trigger] list@[i])@ == name@ {
        let i = choose|i: int| 0 <= i < list@.len() && (#[trigger] list@[i])@ == name@;
        assert(names[i] == name@);
        assert(names.contains(name@));
    }
    if found is Some {
        assert(names.contains(name@));
        let i = choose|i: int| 0 <= i < names.len() && names[i] == name@;
        assert(list@[i]@ == name@);
    }
    db.lemma_default_live();
    assert(names.contains(DEFAULT_CF_NAME@));
    let d = choose|d: int| 0 <= d < names.len() && names[d] == DEFAULT_CF_NAME@;
    assert(list@[d]@ == DEFAULT_CF_NAME@);
    assert forall|i: int, j: int| 0 <= i < j < list@.len() implies (#[trigger] list@[i])@ != (
    #[trigger] list@[j])@ && bytes_lt(
        vstd::utf8::encode_utf8(list@[i]@),
        vstd::utf8::encode_utf8(list@[j]@),
    ) by {
        assert(names[i] == list@[i]@ && names[j] == list@[j]@);
        lemma_bytes_lt_irreflexive(vstd::utf8::encode_utf8(names[i]));
    }
}

/// The default family's handle reads and writes what calls without a handle
/// do.
pub proof fn law_default_handle(
    db: Db,
    cf: ColumnFamilyHandle,
    key: &[u8],
    plain: Result<Option<Vec<u8>>>,
    by_handle: Result<Option<Vec<u8>>>,
)
    requires
        db.wf(),
        call_ensures(Db::default_cf, (&db,), cf),
        call_ensures(Db::get, (&db, key), plain),
        call_ensures(Db::get_cf, (&db, &cf, key), by_handle),
    ensures
        alike(plain, by_handle),
        cf.id_number() == DEFAULT_CF_ID,
{
}

/// Dropping everything leaves the families as they are, each of them empty.
pub proof fn law_drop_all_then_get(
    db: &mut Db,
    r: Result<()>,
    after: Db,
    cf: &ColumnFamilyHandle,
    key: &[u8],
    g: Result<Option<Vec<u8>>>,
)
    requires
        old(db).wf(),
        old(db).numbers_free(),
        old(db).families().is_live(*cf),
        call_ensures(Db::drop_all, (db,), r),
        *final(db) == after,
        call_ensures(Db::get_cf, (&after, cf, key), g),
    ensures
        r is Ok ==> after.families().is_live(*cf) && (g matches Ok(None)),
        r is Err ==> after == *old(db),
        old(db).is_closed() ==> r matches Err(Error::Closed),
        !old(db).is_closed() && old(db).is_read_only() ==> r matches Err(Error::ReadOnly),
{
    let before = *old(db);
    if r is Ok {
        let names = choose|names: Seq<Seq<char>>| #[trigger]
            lists_live(names, before.families()) && after.dropped_all(before, names);
        law_drop_all_keeps_families(before, after, names);
        before.lemma_live_id(*cf);
        assert(after.reads(cf.id_number(), key@, after.horizon()) == crate::engine::read::Read::Value(
            None,
        ));
    }
}

// ── the register of families ────────────────────────────────────────────

/// Two lookups of a name found the same.
pub open spec fn same_find(a: Option<ColumnFamilyHandle>, b: Option<ColumnFamilyHandle>) -> bool {
    match (a, b) {
        (Some(x), Some(y)) => x.name_text() == y.name_text() && x.id_number() == y.id_number(),
        (None, None) => true,
        _ => false,
    }
}

/// A name that was given an id is found under it, the next id is one further,
/// and every other name is found as before.
pub proof fn law_allocate_then_get(
    register: &mut CfRegistry,
    name: &str,
    other: &str,
    r: Option<(ColumnFamilyHandle, u32)>,
    next: u32,
    found: Option<ColumnFamilyHandle>,
    earlier: Option<ColumnFamilyHandle>,
    later: Option<ColumnFamilyHandle>,
    live: bool,
)
    requires
        old(register).wf(),
        call_ensures(CfRegistry::allocate, (register, name), r),
        call_ensures(CfRegistry::next_id, (&*old(register),), next),
        call_ensures(CfRegistry::get, (&*final(register), name), found),
        call_ensures(CfRegistry::get, (&*old(register), other), earlier),
        call_ensures(CfRegistry::get, (&*final(register), other), later),
        r matches Some((cf, _)) ==> call_ensures(
            CfRegistry::is_live_handle,
            (&*final(register), &cf),
            live,
        ),
    ensures
        r is None <==> next == u32::MAX,
        r matches Some((cf, following)) ==> {
            &&& cf.id_number() == next
            &&& following == next + 1
            &&& found matches Some(f) && f.name_text() == name@ && f.id_number() == next
            &&& live
        },
        other@ != name@ || r is None ==> same_find(earlier, later),
{
}

/// A name that was removed is not found, and every other is, as before.
pub proof fn law_remove_then_get(
    register: &mut CfRegistry,
    name: &str,
    other: &str,
    found: Option<ColumnFamilyHandle>,
    earlier: Option<ColumnFamilyHandle>,
    later: Option<ColumnFamilyHandle>,
)
    requires
        old(register).wf(),
        call_ensures(CfRegistry::remove, (register, name), ()),
        call_ensures(CfRegistry::get, (&*final(register), name), found),
        call_ensures(CfRegistry::get, (&*old(register), other), earlier),
        call_ensures(CfRegistry::get, (&*final(register), other), later),
    ensures
        found is None,
        other@ != name@ ==> same_find(earlier, later),
{
}

/// A register that was loaded finds of every name the last id recorded for
/// it, the id kept for the database's own records aside, and no name that was
/// not recorded.
pub proof fn law_load_then_get(
    register: &mut CfRegistry,
    entries: &Vec<(String, u32)>,
    next: u32,
    name: &str,
    i: int,
    r: Option<ColumnFamilyHandle>,
    upcoming: u32,
)
    requires
        old(register).wf(),
        call_ensures(CfRegistry::load, (register, entries, next), ()),
        call_ensures(CfRegistry::get, (&*final(register), name), r),
        call_ensures(CfRegistry::next_id, (&*final(register),), upcoming),
    ensures
        upcoming == next,
        0 <= i < entries@.len() && entries@[i].0@ == name@ && entries@[i].1 < u32::MAX && (forall|
            j: int,
        |
            i < j < entries@.len() ==> (#[trigger] entries@[j]).0@ != name@) ==> (r matches Some(cf)
            && cf.name_text() == name@ && cf.id_number() == entries@[i].1),
        (forall|j: int| 0 <= j < entries@.len() ==> (#[trigger] entries@[j]).0@ != name@)
            ==> r is None,
{
    let list = entry_views(entries@);
    if 0 <= i < entries@.len() && entries@[i].0@ == name@ && entries@[i].1 < u32::MAX && (forall|
        j: int,
    |
        i < j < entries@.len() ==> (#[trigger] entries@[j]).0@ != name@) {
        assert forall|j: int| i < j < list.len() implies (#[trigger] list[j]).0 != name@ by {
            assert(list[j].0 == entries@[j].0@);
        }
        lemma_loaded(list, name@, i);
    }
    if forall|j: int| 0 <= j < entries@.len() ==> (#[trigger] entries@[j]).0@ != name@ {
        assert forall|j: int| 0 <= j < list.len() implies (#[trigger] list[j]).0 != name@ by {
            assert(list[j].0 == entries@[j].0@);
        }
        lemma_unloaded(list, name@);
    }
}

proof fn lemma_loaded(list: Seq<(Seq<char>, u32)>, name: Seq<char>, i: int)
    requires
        0 <= i < list.len(),
        list[i].0 == name,
        list[i].1 < u32::MAX,
        forall|j: int| i < j < list.len() ==> (#[trigger] list[j]).0 != name,
    ensures
        loaded(list).dom().contains(name),
        loaded(list)[name] == list[i].1,
    decreases list.len(),
{
    if i < list.len() - 1 {
        lemma_loaded(list.drop_last(), name, i);
        assert(list.last().0 != name);
    }
}

proof fn lemma_unloaded(list: Seq<(Seq<char>, u32)>, name: Seq<char>)
    requires
        forall|j: int| 0 <= j < list.len() ==> (#[trigger] list[j]).0 != name,
    ensures
        !loaded(list).dom().contains(name),
    decreases list.len(),
{
    if list.len() > 0 {
        lemma_unloaded(list.drop_last(), name);
        assert(list.last().0 != name);
    }
}

/// A handle is live where its name is found under its id, an id that is found
/// is held, and the names told are those that are found.
pub proof fn law_register_agrees(
    register: CfRegistry,
    cf: &ColumnFamilyHandle,
    name: &str,
    found: Option<ColumnFamilyHandle>,
    live: bool,
    held: bool,
    names: Vec<String>,
)
    requires
        register.wf(),
        name@ == cf.name_text(),
        call_ensures(CfRegistry::get, (&register, name), found),
        call_ensures(CfRegistry::is_live_handle, (&register, cf), live),
        call_ensures(CfRegistry::contains_id, (&register, cf.id_number()), held),
        call_ensures(CfRegistry::names, (&register,), names),
    ensures
        live <==> (found matches Some(f) && f.id_number() == cf.id_number()),
        live ==> held,
        found is Some <==> exists|i: int| 0 <= i < names@.len() && (#[trigger] names@[i])@ == name@,
{
    let list = texts(names@);
    if found is Some {
        assert(list.contains(name@));
        let i = list.index_of(name@);
        assert(names@[i]@ == name@);
    }
    if exists|i: int| 0 <= i < names@.len() && (#[trigger] names@[i])@ == name@ {
        let i = choose|i: int| 0 <= i < names@.len() && (#[trigger] names@[i])@ == name@;
        assert(list[i] == name@);
        assert(list.contains(name@));
    }
}

/// A new register holds the default family and nothing else, and gives out
/// the id after it next.
pub proof fn law_new_register(register: CfRegistry, name: &str, r: Option<ColumnFamilyHandle>, next: u32)
    requires
        call_ensures(CfRegistry::new, (), register),
        call_ensures(CfRegistry::get, (&register, name), r),
        call_ensures(CfRegistry::next_id, (&register,), next),
    ensures
        r is Some <==> name@ == "default"@,
        r matches Some(cf) ==> cf.id_number() == 0,
        next == 1,
{
}

/// The names of families are recorded within the range that is scanned for
/// them, and the next id is not.
pub proof fn law_name_range(name: &str, key: Vec<u8>, lo: Vec<u8>, hi: Vec<u8>, next: Vec<u8>)
    requires
        call_ensures(name_key, (name,), key),
        call_ensures(name_scan_prefix, (), lo),
        call_ensures(name_scan_upper, (), hi),
        call_ensures(next_id_key, (), next),
    ensures
        lo@.is_prefix_of(key@),
        !bytes_lt(key@, lo@),
        bytes_lt(key@, hi@),
        !bytes_lt(next@, hi@),
        bytes_lt(lo@, hi@),
{
    let tail = encode_utf8(name@);
    let head = seq![110u8, 97u8, 109u8, 101u8, 58u8];
    let past = seq![110u8, 97u8, 109u8, 101u8, 59u8];
    let other = seq![110u8, 101u8, 120u8, 116u8, 95u8, 105u8, 100u8];
    assert(lo@ =~= key@.take(lo@.len() as int));
    lemma_family_order(META_CF_ID, head + tail, past);
    lemma_family_order(META_CF_ID, head, past);
    lemma_family_order(META_CF_ID, head + tail, head);
    lemma_family_order(META_CF_ID, other, past);
    reveal_with_fuel(bytes_lt, 7);
    assert(head.drop_first().drop_first().drop_first().drop_first().drop_first() =~= Seq::<
        u8,
    >::empty());
}

} // verus!
