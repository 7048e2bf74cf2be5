//! The memtable: what a write to it does to the lookups after it, and what it
//! tells of itself.

use vstd::prelude::*;

use crate::bytes::{bytes_lt, views};
use crate::engine::memtable::{names, names_within, point_key, Found, FoundEnd, MemTable};
use crate::engine::read::merge_keys;
use crate::engine::wal::{logged, WalEntry};
use crate::history::{Logged, Op};

verus! {

/// Two lookups found the same.
pub open spec fn found_alike(a: Found, b: Found) -> bool {
    &&& a.operands@.len() == b.operands@.len()
    &&& forall|i: int|
        0 <= i < a.operands@.len() ==> (#[trigger] a.operands@[i])@ == b.operands@[i]@
    &&& match (a.end, b.end) {
        (FoundEnd::Value(x), FoundEnd::Value(y)) => x@ == y@,
        (FoundEnd::Gone, FoundEnd::Gone) => true,
        (FoundEnd::Open, FoundEnd::Open) => true,
        _ => false,
    }
}

proof fn lemma_views(f: Found)
    ensures
        views(f.operands@).len() == f.operands@.len(),
        forall|i: int| 0 <= i < f.operands@.len() ==> (#[trigger] f.operands@[i])@ == f@.operands[i],
{
}

/// A put is found from its number on, alone; a lookup of another key, or from
/// before it, finds what it found.
pub proof fn law_memtable_put(
    table: &mut MemTable,
    seq: u64,
    key: &[u8],
    value: &[u8],
    looked: &[u8],
    at: u64,
    earlier: Found,
    later: Found,
)
    requires
        old(table).wf(),
        seq >= 1,
        call_ensures(MemTable::put, (table, seq, key, value), ()),
        call_ensures(MemTable::lookup, (&*old(table), looked, at), earlier),
        call_ensures(MemTable::lookup, (&*final(table), looked, at), later),
    ensures
        looked@ == key@ && seq <= at ==> later.operands@.len() == 0 && (later.end
            matches FoundEnd::Value(v) && v@ == value@),
        looked@ != key@ || at < seq ==> found_alike(earlier, later),
{
    let h = old(table).history();
    let l = Logged { seq, op: Op::Put { key: key@, value: value@ } };
    assert(h.push(l).drop_last() =~= h);
    lemma_views(earlier);
    lemma_views(later);
}

/// A delete leaves its key with nothing from its number on, and every other
/// lookup what it was.
pub proof fn law_memtable_delete(
    table: &mut MemTable,
    seq: u64,
    key: &[u8],
    looked: &[u8],
    at: u64,
    earlier: Found,
    later: Found,
)
    requires
        old(table).wf(),
        seq >= 1,
        call_ensures(MemTable::delete, (table, seq, key), ()),
        call_ensures(MemTable::lookup, (&*old(table), looked, at), earlier),
        call_ensures(MemTable::lookup, (&*final(table), looked, at), later),
    ensures
        looked@ == key@ && seq <= at ==> later.operands@.len() == 0 && later.end is Gone,
        looked@ != key@ || at < seq ==> found_alike(earlier, later),
{
    let h = old(table).history();
    let l = Logged { seq, op: Op::Delete { key: key@ } };
    assert(h.push(l).drop_last() =~= h);
    lemma_views(earlier);
    lemma_views(later);
}

/// A merge adds its operand behind those that are there.
pub proof fn law_memtable_merge(
    table: &mut MemTable,
    seq: u64,
    key: &[u8],
    operand: &[u8],
    looked: &[u8],
    at: u64,
    earlier: Found,
    later: Found,
)
    requires
        old(table).wf(),
        seq >= 1,
        call_ensures(MemTable::merge, (table, seq, key, operand), ()),
        call_ensures(MemTable::lookup, (&*old(table), looked, at), earlier),
        call_ensures(MemTable::lookup, (&*final(table), looked, at), later),
    ensures
        looked@ == key@ && seq <= at ==> {
            &&& later.operands@.len() == earlier.operands@.len() + 1
            &&& later.operands@.last()@ == operand@
            &&& forall|i: int|
                0 <= i < earlier.operands@.len() ==> (#[trigger] later.operands@[i])@
                    == earlier.operands@[i]@
            &&& match (earlier.end, later.end) {
                (FoundEnd::Value(x), FoundEnd::Value(y)) => x@ == y@,
                (FoundEnd::Gone, FoundEnd::Gone) => true,
                (FoundEnd::Open, FoundEnd::Open) => true,
                _ => false,
            }
        },
        looked@ != key@ || at < seq ==> found_alike(earlier, later),
{
    let h = old(table).history();
    let l = Logged { seq, op: Op::Merge { key: key@, operand: operand@ } };
    assert(h.push(l).drop_last() =~= h);
    lemma_views(earlier);
    lemma_views(later);
}

/// A range delete leaves every key from its start up to its end with nothing,
/// and every other lookup what it was.
pub proof fn law_memtable_delete_range(
    table: &mut MemTable,
    seq: u64,
    start: &[u8],
    end: &[u8],
    looked: &[u8],
    at: u64,
    earlier: Found,
    later: Found,
)
    requires
        old(table).wf(),
        seq >= 1,
        call_ensures(MemTable::delete_range, (table, seq, start, end), ()),
        call_ensures(MemTable::lookup, (&*old(table), looked, at), earlier),
        call_ensures(MemTable::lookup, (&*final(table), looked, at), later),
    ensures
        !bytes_lt(looked@, start@) && bytes_lt(looked@, end@) && seq <= at
            ==> later.operands@.len() == 0 && later.end is Gone,
        bytes_lt(looked@, start@) || !bytes_lt(looked@, end@) || at < seq ==> found_alike(
            earlier,
            later,
        ),
{
    let h = old(table).history();
    let l = Logged { seq, op: Op::DeleteRange { start: start@, end: end@ } };
    assert(h.push(l).drop_last() =~= h);
    lemma_views(earlier);
    lemma_views(later);
}

/// The keys told of a range are those within it that some write was to: each
/// once, ascending.
pub proof fn law_memtable_keys(
    table: MemTable,
    lo: &[u8],
    hi: &[u8],
    key: Seq<u8>,
    entries: Vec<WalEntry>,
    r: Vec<Vec<u8>>,
)
    requires
        table.wf(),
        call_ensures(MemTable::export, (&table,), entries),
        call_ensures(MemTable::keys_in, (&table, lo, hi), r),
    ensures
        (exists|k: int| 0 <= k < r@.len() && (#[trigger] r@[k])@ == key) <==> !bytes_lt(key, lo@)
            && bytes_lt(key, hi@) && (exists|i: int|
            0 <= i < entries@.len() && writes_to(#[trigger] entries@[i], key)),
        forall|i: int, j: int|
            0 <= i < j < r@.len() ==> bytes_lt((#[trigger] r@[i])@, (#[trigger] r@[j])@),
{
    let h = table.history();
    assert(logged(entries@) == h);
    assert(h.len() == entries@.len());
    if exists|k: int| 0 <= k < r@.len() && (#[trigger] r@[k])@ == key {
        let k = choose|k: int| 0 <= k < r@.len() && (#[trigger] r@[k])@ == key;
        assert(views(r@)[k] == key);
        assert(names(h, views(r@)[k]));
        let i = choose|i: int| 0 <= i < h.len() && point_key((#[trigger] h[i]).op) == Some(key);
        assert(logged(entries@)[i] == entries@[i]@);
        assert(writes_to(entries@[i], key));
    }
    if !bytes_lt(key, lo@) && bytes_lt(key, hi@) && (exists|i: int|
        0 <= i < entries@.len() && writes_to(#[trigger] entries@[i], key)) {
        let i = choose|i: int| 0 <= i < entries@.len() && writes_to(#[trigger] entries@[i], key);
        assert(logged(entries@)[i] == entries@[i]@);
        assert(names_within(h[i], lo@, hi@, views(r@)));
        let k = views(r@).index_of(key);
        assert(r@[k]@ == key);
    }
    assert forall|i: int, j: int| 0 <= i < j < r@.len() implies bytes_lt(
        (#[trigger] r@[i])@,
        (#[trigger] r@[j])@,
    ) by {
        assert(bytes_lt(views(r@)[i], views(r@)[j]));
    }
}

/// An entry is a write to `key` itself.
pub open spec fn writes_to(e: WalEntry, key: Seq<u8>) -> bool {
    match e {
        WalEntry::Put { key: k, .. } => k@ == key,
        WalEntry::Delete { key: k, .. } => k@ == key,
        WalEntry::Merge { key: k, .. } => k@ == key,
        WalEntry::DeleteRange { .. } => false,
    }
}

/// A put to the memtable is the last thing exported from it, its number the
/// newest, and its key and value, with what goes with a key, are what it adds
/// to the size.
pub proof fn law_memtable_tells_of_put(
    table: &mut MemTable,
    seq: u64,
    key: &[u8],
    value: &[u8],
    newest: Option<u64>,
    before: Vec<WalEntry>,
    after: Vec<WalEntry>,
    earlier: u64,
    later: u64,
    n: usize,
    m: usize,
)
    requires
        old(table).wf(),
        seq >= 1,
        call_ensures(MemTable::put, (table, seq, key, value), ()),
        call_ensures(MemTable::newest_seq, (&*final(table),), newest),
        call_ensures(MemTable::export, (&*old(table),), before),
        call_ensures(MemTable::export, (&*final(table),), after),
        call_ensures(MemTable::size, (&*old(table),), earlier),
        call_ensures(MemTable::size, (&*final(table),), later),
        call_ensures(MemTable::num_entries, (&*old(table),), n),
        call_ensures(MemTable::num_entries, (&*final(table),), m),
    ensures
        newest == Some(seq),
        after@.len() == before@.len() + 1,
        forall|i: int| 0 <= i < before@.len() ==> (#[trigger] after@[i])@ == before@[i]@,
        after@.last() matches WalEntry::Put { key: k, value: v, seq: s } && k@ == key@ && v@
            == value@ && s == seq,
        later < u64::MAX ==> later == earlier + key@.len() + 9 + value@.len(),
        m == n + 1,
{
    let h = old(table).history();
    let l = Logged { seq, op: Op::Put { key: key@, value: value@ } };
    assert(h.push(l).drop_last() =~= h);
    assert(logged(after@) == logged(before@).push(l));
    assert(logged(after@).len() == after@.len() && logged(before@).len() == before@.len());
    assert forall|i: int| 0 <= i < before@.len() implies (#[trigger] after@[i])@ == before@[i]@ by {
        assert(logged(after@)[i] == logged(before@)[i]);
    }
    assert(logged(after@).last() == after@.last()@);
}

/// A copy of the memtable tells every lookup what the memtable does.
pub proof fn law_memtable_copy(
    table: MemTable,
    copy: MemTable,
    key: &[u8],
    at: u64,
    a: Found,
    b: Found,
)
    requires
        table.wf(),
        call_ensures(MemTable::duplicate, (&table,), copy),
        call_ensures(MemTable::lookup, (&table, key, at), a),
        call_ensures(MemTable::lookup, (&copy, key, at), b),
    ensures
        found_alike(a, b),
{
    lemma_views(a);
    lemma_views(b);
}

/// A new memtable finds nothing.
pub proof fn law_new_memtable(table: MemTable, key: &[u8], at: u64, r: Found, newest: Option<u64>)
    requires
        call_ensures(MemTable::new, (), table),
        call_ensures(MemTable::lookup, (&table, key, at), r),
        call_ensures(MemTable::newest_seq, (&table,), newest),
    ensures
        r.operands@.len() == 0 && r.end is Open,
        newest is None,
{
    lemma_views(r);
}

/// Two ascending lists of keys merge into one that holds the keys of both.
pub proof fn law_merge_keys(a: &Vec<Vec<u8>>, b: &Vec<Vec<u8>>, r: Vec<Vec<u8>>, key: Seq<u8>)
    requires
        call_ensures(merge_keys, (a, b), r),
    ensures
        (exists|k: int| 0 <= k < r@.len() && (#[trigger] r@[k])@ == key) <==> (exists|k: int|
            0 <= k < a@.len() && (#[trigger] a@[k])@ == key) || (exists|k: int|
            0 <= k < b@.len() && (#[trigger] b@[k])@ == key),
        forall|i: int, j: int|
            0 <= i < j < r@.len() ==> bytes_lt((#[trigger] r@[i])@, (#[trigger] r@[j])@),
{
    lemma_held(r@, key);
    lemma_held(a@, key);
    lemma_held(b@, key);
    assert forall|i: int, j: int| 0 <= i < j < r@.len() implies bytes_lt(
        (#[trigger] r@[i])@,
        (#[trigger] r@[j])@,
    ) by {
        assert(bytes_lt(views(r@)[i], views(r@)[j]));
    }
}

proof fn lemma_held(v: Seq<Vec<u8>>, key: Seq<u8>)
    ensures
        views(v).contains(key) <==> exists|k: int| 0 <= k < v.len() && (#[trigger] v[k])@ == key,
{
    if views(v).contains(key) {
        let k = views(v).index_of(key);
        assert(v[k]@ == key);
    }
    if exists|k: int| 0 <= k < v.len() && (#[trigger] v[k])@ == key {
        let k = choose|k: int| 0 <= k < v.len() && (#[trigger] v[k])@ == key;
        assert(views(v)[k] == key);
    }
}

} // verus!
