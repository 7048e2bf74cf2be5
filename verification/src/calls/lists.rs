//! The skip list: where an insertion puts an entry, and what a seek finds.

use vstd::prelude::*;

use crate::engine::internal_key::{internal_key_of, key_lt, lemma_key_le_lt};
use crate::engine::skiplist::{
    lemma_rank_parts, rank, rank_past, sorted, ArenaSkipList, Entry, NodeRef,
};

verus! {

/// An entry that is inserted is there, once more than before, and every other
/// entry stays in the order it was in; the list stays sorted.
pub proof fn law_insert(
    list: &mut ArenaSkipList,
    key: &[u8],
    seq: u64,
    kind: u8,
    value: &[u8],
    r: bool,
    earlier: usize,
    later: usize,
)
    requires
        old(list).wf(),
        call_ensures(ArenaSkipList::len, (&*old(list),), earlier),
        call_ensures(ArenaSkipList::insert, (list, key, seq, kind, value), r),
        call_ensures(ArenaSkipList::len, (&*final(list),), later),
    ensures
        r <==> key@.len() + 9 <= u32::MAX && value@.len() <= u32::MAX,
        !r ==> *final(list) == *old(list),
        r ==> later == earlier + 1,
        r ==> exists|p: int|
            {
                &&& 0 <= p < final(list).entries().len()
                &&& (#[trigger] final(list).entries()[p]).key == internal_key_of(key@, seq, kind)
                &&& final(list).entries()[p].value == value@
                &&& final(list).entries().remove(p) == old(list).entries()
            },
        forall|i: int, j: int|
            0 <= i < j < final(list).entries().len() ==> !key_lt(
                (#[trigger] final(list).entries()[j]).key,
                (#[trigger] final(list).entries()[i]).key,
            ),
{
    final(list).lemma_entries_sorted();
    if r {
        old(list).lemma_entries_sorted();
        let before = old(list).entries();
        let whole = internal_key_of(key@, seq, kind);
        lemma_rank_parts(before, whole);
        let p = rank(before, whole) as int;
        let e = final(list).entries()[p];
        assert(final(list).entries().remove(p) =~= before);
    }
}

/// A seek stands on the first entry not before the target, on the first after
/// it, on the last not after it, or on the last before it; and on none where
/// there is none.
pub proof fn law_seeks(
    list: ArenaSkipList,
    target: &[u8],
    ge: Option<NodeRef<'_>>,
    gt: Option<NodeRef<'_>>,
    le: Option<NodeRef<'_>>,
    lt: Option<NodeRef<'_>>,
    q: int,
)
    requires
        list.wf(),
        call_ensures(ArenaSkipList::seek_ge, (&list, target), ge),
        call_ensures(ArenaSkipList::seek_gt, (&list, target), gt),
        call_ensures(ArenaSkipList::seek_le, (&list, target), le),
        call_ensures(ArenaSkipList::seek_lt, (&list, target), lt),
        0 <= q < list.entries().len(),
    ensures
        ({
            let key = list.entries()[q].key;
            &&& match ge {
                Some(node) => {
                    &&& !key_lt(list.entries()[node.position()].key, target@)
                    &&& q < node.position() ==> key_lt(key, target@)
                },
                None => key_lt(key, target@),
            }
            &&& match gt {
                Some(node) => {
                    &&& key_lt(target@, list.entries()[node.position()].key)
                    &&& q < node.position() ==> !key_lt(target@, key)
                },
                None => !key_lt(target@, key),
            }
            &&& match le {
                Some(node) => {
                    &&& !key_lt(target@, list.entries()[node.position()].key)
                    &&& q > node.position() ==> key_lt(target@, key)
                },
                None => key_lt(target@, key),
            }
            &&& match lt {
                Some(node) => {
                    &&& key_lt(list.entries()[node.position()].key, target@)
                    &&& q > node.position() ==> !key_lt(key, target@)
                },
                None => !key_lt(key, target@),
            }
        }),
{
    list.lemma_entries_sorted();
    lemma_rank_parts(list.entries(), target@);
    lemma_past_parts(list.entries(), target@);
}

proof fn lemma_past_parts(s: Seq<Entry>, key: Seq<u8>)
    requires
        sorted(s),
    ensures
        0 <= rank_past(s, key) <= s.len(),
        forall|q: int| 0 <= q < rank_past(s, key) ==> !key_lt(key, (#[trigger] s[q]).key),
        forall|q: int| rank_past(s, key) <= q < s.len() ==> key_lt(key, (#[trigger] s[q]).key),
    decreases s.len(),
{
    if s.len() > 0 {
        let rest = s.drop_first();
        if key_lt(key, s[0].key) {
            assert forall|q: int| 0 <= q < s.len() implies key_lt(key, (#[trigger] s[q]).key) by {
                if q > 0 {
                    assert(!key_lt(s[q].key, s[0].key));
                    if !key_lt(key, s[q].key) {
                        lemma_key_le_lt(s[q].key, key, s[0].key);
                    }
                }
            }
        } else {
            assert(sorted(rest)) by {
                assert forall|i: int, j: int| 0 <= i < j < rest.len() implies !key_lt(
                    (#[trigger] rest[j]).key,
                    (#[trigger] rest[i]).key,
                ) by {
                    assert(rest[i] == s[i + 1] && rest[j] == s[j + 1]);
                }
            }
            lemma_past_parts(rest, key);
            assert forall|q: int| 0 <= q < rank_past(s, key) implies !key_lt(
                key,
                (#[trigger] s[q]).key,
            ) by {
                if q > 0 {
                    assert(rest[q - 1] == s[q]);
                }
            }
            assert forall|q: int| rank_past(s, key) <= q < s.len() implies key_lt(
                key,
                (#[trigger] s[q]).key,
            ) by {
                assert(rest[q - 1] == s[q]);
            }
        }
    }
}

/// From the first entry to the last, one step at a time: a node hands out its
/// key and value and leads to the one after it.
pub proof fn law_walk(
    list: ArenaSkipList,
    first: Option<NodeRef<'_>>,
    last: Option<NodeRef<'_>>,
    node: NodeRef<'_>,
    key: &[u8],
    value: &[u8],
    next: Option<NodeRef<'_>>,
)
    requires
        list.wf(),
        call_ensures(ArenaSkipList::first, (&list,), first),
        call_ensures(ArenaSkipList::last, (&list,), last),
        node.wf(),
        node.of() == list,
        call_ensures(NodeRef::key, (&node,), key),
        call_ensures(NodeRef::value, (&node,), value),
        call_ensures(NodeRef::next, (&node,), next),
    ensures
        first matches Some(f) && f.position() == 0,
        last matches Some(l) && l.position() == list.entries().len() - 1,
        key@ == list.entries()[node.position()].key,
        value@ == list.entries()[node.position()].value,
        match next {
            Some(n) => n.position() == node.position() + 1,
            None => node.position() + 1 == list.entries().len(),
        },
{
}

} // verus!
