//! The skip list behind the memtable.

use std::collections::BTreeMap;

use regolith::engine::internal_key::{
    encode_internal_key, internal_key_lt, INTERNAL_KEY_SUFFIX_LEN, VALUE_TYPE_DELETION,
    VALUE_TYPE_VALUE,
};
use regolith::engine::skiplist::{
    max_node_size, node_size, tower_shape, towers_consistent, ArenaSkipList, MAX_HEIGHT,
};

fn list() -> ArenaSkipList {
    ArenaSkipList::new()
}

fn collect(list: &ArenaSkipList) -> Vec<(Vec<u8>, Vec<u8>)> {
    let mut out = Vec::new();
    let mut node = list.first();
    while let Some(current) = node {
        out.push((current.key().to_vec(), current.value().to_vec()));
        node = current.next();
    }
    out
}

/// A run of numbers that looks random and is the same every time.
struct Draw(u64);

impl Draw {
    fn next(&mut self, below: u64) -> u64 {
        self.0 = self.0.wrapping_mul(6364136223846793005).wrapping_add(1442695040888963407);
        (self.0 >> 33) % below
    }

    fn bytes(&mut self, most: u64) -> Vec<u8> {
        let len = self.next(most);
        (0..len).map(|_| self.next(256) as u8).collect()
    }
}

#[test]
fn an_empty_list_has_no_entries() {
    let list = list();
    assert!(list.is_empty());
    assert_eq!(list.len(), 0);
    assert!(list.first().is_none());
    assert!(list.last().is_none());
    assert!(list.seek_ge(b"anything").is_none());
    assert!(list.seek_le(b"anything").is_none());
}

#[test]
fn insert_then_read_back() {
    let mut list = list();
    assert!(list.insert(b"k", 1, VALUE_TYPE_VALUE, b"v1"));
    assert!(list.insert(b"k", 2, VALUE_TYPE_VALUE, b"v2"));
    assert!(list.insert(b"a", 3, VALUE_TYPE_DELETION, b""));
    assert_eq!(list.len(), 3);

    let entries = collect(&list);
    assert_eq!(entries.len(), 3);
    // "a" sorts first; for "k", the newer seq comes first.
    assert_eq!(
        entries[0].0,
        encode_internal_key(b"a", 3, VALUE_TYPE_DELETION)
    );
    assert_eq!(entries[0].1, b"");
    assert_eq!(entries[1].0, encode_internal_key(b"k", 2, VALUE_TYPE_VALUE));
    assert_eq!(entries[1].1, b"v2");
    assert_eq!(entries[2].1, b"v1");
}

#[test]
fn seeks_bracket_the_list() {
    let mut list = list();
    for key in [b"b".as_slice(), b"m", b"y"] {
        assert!(list.insert(key, 1, VALUE_TYPE_VALUE, key));
    }
    let probe = |k: &[u8]| encode_internal_key(k, u64::MAX, VALUE_TYPE_DELETION);

    assert_eq!(list.seek_ge(&probe(b"a")).expect("first").value(), b"b");
    assert_eq!(list.seek_ge(&probe(b"m")).expect("exact").value(), b"m");
    assert_eq!(list.seek_ge(&probe(b"n")).expect("next").value(), b"y");
    assert!(list.seek_ge(&probe(b"z")).is_none());

    assert!(list.seek_lt(&probe(b"b")).is_none());
    assert_eq!(list.seek_lt(&probe(b"n")).expect("prev").value(), b"m");
    assert_eq!(list.last().expect("last").value(), b"y");
    assert_eq!(list.first().expect("first").value(), b"b");
}

#[test]
fn duplicate_internal_key_finds_the_first() {
    // Log replay can present the same (key, seq) again if a rewrite was
    // interrupted. Both nodes are stored; a reader finds the first.
    let mut list = list();
    assert!(list.insert(b"k", 7, VALUE_TYPE_VALUE, b"first"));
    assert!(list.insert(b"k", 7, VALUE_TYPE_VALUE, b"second"));
    assert_eq!(list.len(), 2);
    let probe = encode_internal_key(b"k", 7, VALUE_TYPE_DELETION);
    let found = list.seek_ge(&probe).expect("present");
    assert!(found.value() == b"first" || found.value() == b"second");
    assert_eq!(collect(&list).len(), 2);
}

#[test]
fn prefix_keys_sort_by_the_internal_comparator() {
    // Raw byte order would interleave these wrongly: "ab"'s !seq
    // trailer collides with "abc"'s literal 'c'.
    let mut list = list();
    assert!(list.insert(b"abc", 1, VALUE_TYPE_VALUE, b"abc"));
    assert!(list.insert(b"ab", u64::MAX, VALUE_TYPE_VALUE, b"ab-high"));
    assert!(list.insert(b"ab", 0, VALUE_TYPE_VALUE, b"ab-low"));
    let values: Vec<Vec<u8>> = collect(&list).into_iter().map(|(_, v)| v).collect();
    assert_eq!(
        values,
        vec![b"ab-high".to_vec(), b"ab-low".to_vec(), b"abc".to_vec()]
    );
}

#[test]
fn an_empty_value_reads_back_empty() {
    let mut list = list();
    assert!(list.insert(b"k", 1, VALUE_TYPE_DELETION, b""));
    let node = list.first().expect("present");
    assert_eq!(node.value(), b"");
}

#[test]
fn a_value_larger_than_a_chunk_still_lands() {
    let mut list = list();
    let big = vec![7u8; 300 * 1024];
    assert!(list.insert(b"big", 1, VALUE_TYPE_VALUE, &big));
    assert_eq!(list.first().expect("present").value(), big.as_slice());
}

#[test]
fn the_start_level_follows_the_hinted_bracket() {
    let mut list = list();
    let mut hint = list.insert_hint();
    assert!(list.insert_with_hint(&mut hint, b"k10", 1, VALUE_TYPE_VALUE, b"v10"));

    let key = |user: &[u8], seq: u64| encode_internal_key(user, seq, VALUE_TYPE_VALUE);

    assert_eq!(
        list.hint_start_level(&hint, &key(b"k20", 1)),
        0,
        "k20 sorts after the hinted predecessor with a null successor: bracketed at level 0"
    );
    assert_eq!(
        list.hint_start_level(&hint, &key(b"k05", 1)),
        MAX_HEIGHT,
        "k05 sorts before the hinted predecessor and must restart from the head"
    );
    assert_eq!(
        list.hint_start_level(&hint, &key(b"k10", 1)),
        MAX_HEIGHT,
        "a duplicate of the hinted key is not strictly after it and must restart from the head"
    );

    assert!(list.insert(b"k30", 2, VALUE_TYPE_VALUE, b"v30"));
    assert!(list.insert(b"k40", 3, VALUE_TYPE_VALUE, b"v40"));

    let level = list.hint_start_level(&hint, &key(b"k35", 1));
    assert!(
        level > 0 && level < MAX_HEIGHT,
        "the plain inserts made level 0 non-adjacent (k10's successor is now k30, not null), \
         so the search must climb past level 0 rather than restarting from the head: got {level}"
    );
}

#[test]
fn a_hint_from_another_list_restarts_from_that_lists_head() {
    let mut a = list();
    let mut b = list();
    let mut hint = a.insert_hint();
    assert!(a.insert_with_hint(&mut hint, b"k10", 1, VALUE_TYPE_VALUE, b"va10"));
    assert!(a.insert_with_hint(&mut hint, b"k20", 2, VALUE_TYPE_VALUE, b"va20"));
    let a_before = collect(&a);

    // "k15" would bracket between k10 and k20 in A; using A's hint on B
    // must restart from B's own head rather than link into A's tower.
    assert!(b.insert_with_hint(&mut hint, b"k15", 3, VALUE_TYPE_VALUE, b"vb15"));

    assert_eq!(
        collect(&b),
        vec![(
            encode_internal_key(b"k15", 3, VALUE_TYPE_VALUE),
            b"vb15".to_vec()
        )]
    );
    assert_eq!(
        collect(&a),
        a_before,
        "the hint from A must never touch A after being used on B"
    );
    assert!(towers_consistent(&a));
    assert!(towers_consistent(&b));
}

#[test]
fn hinted_inserts_place_duplicates_first_like_plain_inserts() {
    let mut list = list();
    let mut hint = list.insert_hint();
    assert!(list.insert_with_hint(&mut hint, b"dup", 5, VALUE_TYPE_VALUE, b"first"));
    assert!(list.insert_with_hint(&mut hint, b"dup", 5, VALUE_TYPE_VALUE, b"second"));

    assert_eq!(collect(&list).len(), 2);
    let probe = encode_internal_key(b"dup", 5, VALUE_TYPE_VALUE);
    let found = list.seek_ge(&probe).expect("present");
    assert_eq!(
        found.value(),
        b"second",
        "the second-inserted duplicate must sort first, matching plain-insert placement"
    );
}

#[test]
fn drawn_entries_come_back_in_key_order() {
    let mut draw = Draw(7);
    for _ in 0..20 {
        let mut list = list();
        let mut model: Vec<(Vec<u8>, Vec<u8>)> = Vec::new();
        for _ in 0..60 {
            let key = draw.bytes(24);
            let seq = 1 + draw.next(1000);
            let value = draw.bytes(40);
            assert!(list.insert(&key, seq, VALUE_TYPE_VALUE, &value));
            model.push((encode_internal_key(&key, seq, VALUE_TYPE_VALUE), value));
        }
        let got = collect(&list);
        assert_eq!(got.len(), model.len());
        for pair in got.windows(2) {
            assert!(!internal_key_lt(&pair[1].0, &pair[0].0));
        }
        let mut got_pairs = got.clone();
        let mut want_pairs = model.clone();
        got_pairs.sort();
        want_pairs.sort();
        assert_eq!(got_pairs, want_pairs);
        for (key, _) in &model {
            let found = list.seek_ge(key).expect("stored key is findable");
            assert_eq!(found.key(), key.as_slice());
        }
    }
}

#[test]
fn drawn_seeks_agree_with_a_walk() {
    let mut draw = Draw(11);
    for _ in 0..20 {
        let mut list = list();
        for i in 0..40 {
            let key = draw.bytes(12);
            assert!(list.insert(&key, i + 1, VALUE_TYPE_VALUE, &key));
        }
        let sorted = collect(&list);
        for _ in 0..20 {
            let target = encode_internal_key(&draw.bytes(12), u64::MAX, VALUE_TYPE_DELETION);
            let keys: Vec<&Vec<u8>> = sorted.iter().map(|(k, _)| k).collect();

            let ge = keys.iter().find(|k| !internal_key_lt(k, &target));
            assert_eq!(list.seek_ge(&target).map(|n| n.key().to_vec()), ge.map(|k| k.to_vec()));

            let lt = keys.iter().rev().find(|k| internal_key_lt(k, &target));
            assert_eq!(list.seek_lt(&target).map(|n| n.key().to_vec()), lt.map(|k| k.to_vec()));

            let le = keys.iter().rev().find(|k| !internal_key_lt(&target, k));
            assert_eq!(list.seek_le(&target).map(|n| n.key().to_vec()), le.map(|k| k.to_vec()));

            let gt = keys.iter().find(|k| internal_key_lt(&target, k));
            assert_eq!(list.seek_gt(&target).map(|n| n.key().to_vec()), gt.map(|k| k.to_vec()));
        }
    }
}

#[test]
fn hinted_runs_build_the_same_list_as_plain_inserts() {
    let mut draw = Draw(3);
    for _ in 0..20 {
        let mut hinted = list();
        let mut plain = list();
        let mut expected: BTreeMap<(Vec<u8>, u64), Vec<u8>> = BTreeMap::new();
        let mut hint = hinted.insert_hint();
        for run in 0..6u64 {
            if draw.next(2) == 0 {
                hint = hinted.insert_hint();
            }
            let mut keys: Vec<Vec<u8>> = (0..15).map(|_| draw.bytes(24)).collect();
            if run % 2 == 0 {
                keys.sort();
            }
            for (i, key) in keys.iter().enumerate() {
                let seq = run * 100 + i as u64 + 1;
                let value = seq.to_le_bytes().to_vec();
                assert!(hinted.insert_with_hint(&mut hint, key, seq, VALUE_TYPE_VALUE, &value));
                assert!(plain.insert(key, seq, VALUE_TYPE_VALUE, &value));
                // Newer numbers sort first.
                expected.insert((key.clone(), u64::MAX - seq), value);
            }
        }
        assert_eq!(collect(&hinted), collect(&plain));
        assert!(towers_consistent(&hinted));
        assert_eq!(tower_shape(&hinted), tower_shape(&plain));
        let got: Vec<(Vec<u8>, Vec<u8>)> = collect(&hinted)
            .into_iter()
            .map(|(k, v)| (k[..k.len() - INTERNAL_KEY_SUFFIX_LEN].to_vec(), v))
            .collect();
        let want: Vec<(Vec<u8>, Vec<u8>)> =
            expected.into_iter().map(|((k, _), v)| (k, v)).collect();
        assert_eq!(got, want);
    }
}

#[test]
fn a_node_takes_its_parts_rounded_up() {
    // 16 bytes of header, 8 for each link, the key and the value, to a
    // multiple of 8.
    assert_eq!(node_size(10, 5, 1), 40);
    assert_eq!(node_size(10, 6, 1), 40);
    assert_eq!(node_size(10, 7, 1), 48);
    assert_eq!(max_node_size(10, 5), 128);
}

#[test]
fn seek_le_takes_the_last_of_equal_keys() {
    let mut list = list();
    assert!(list.insert(b"k", 7, VALUE_TYPE_VALUE, b"first"));
    assert!(list.insert(b"k", 7, VALUE_TYPE_VALUE, b"second"));
    assert!(list.insert(b"m", 1, VALUE_TYPE_VALUE, b"later"));
    let target = encode_internal_key(b"k", 7, VALUE_TYPE_VALUE);
    assert_eq!(list.first().unwrap().value(), b"second");
    assert_eq!(list.seek_le(&target).unwrap().value(), b"first");
    assert_eq!(list.seek_ge(&target).unwrap().value(), b"second");
    assert!(list.seek_lt(&target).is_none());
    assert_eq!(list.seek_gt(&target).unwrap().value(), b"later");
}
