//! The writes of a transaction that was not committed yet.

use vstd::prelude::*;

use crate::bytes;
use crate::bytes::{
    bytes_lt, lemma_bytes_lt_irreflexive, lemma_bytes_lt_total, lemma_bytes_lt_transitive, opt_view,
};

verus! {

/// One staged write: a value, or a deletion.
pub struct StagedWrite {
    pub key: Vec<u8>,
    pub value: Option<Vec<u8>>,
}

/// A staged write, as contracts speak of it.
pub ghost struct Staged {
    pub key: Seq<u8>,
    pub value: Option<Seq<u8>>,
}

impl View for StagedWrite {
    type V = Staged;

    open spec fn view(&self) -> Staged {
        Staged { key: self.key@, value: opt_view(self.value) }
    }
}

/// A run of staged writes.
pub open spec fn staged_views(v: Seq<StagedWrite>) -> Seq<Staged> {
    Seq::new(v.len(), |i: int| v[i]@)
}

/// In key order, each key once.
pub open spec fn staged_ascend(s: Seq<Staged>) -> bool {
    forall|i: int, j: int|
        0 <= i < j < s.len() ==> bytes_lt((#[trigger] s[i]).key, (#[trigger] s[j]).key)
}

/// What a run of staged writes says of each key.
pub open spec fn staged_map(s: Seq<Staged>) -> Map<Seq<u8>, Option<Seq<u8>>>
    decreases s.len(),
{
    if s.len() == 0 {
        Map::empty()
    } else {
        staged_map(s.drop_last()).insert(s.last().key, s.last().value)
    }
}

/// Each key of a run in key order has what its one write says.
pub proof fn lemma_staged_map(s: Seq<Staged>, key: Seq<u8>)
    requires
        staged_ascend(s),
    ensures
        staged_map(s).dom().contains(key) <==> exists|i: int|
            0 <= i < s.len() && (#[trigger] s[i]).key == key,
        forall|i: int|
            0 <= i < s.len() && (#[trigger] s[i]).key == key ==> staged_map(s)[key] == s[i].value,
    decreases s.len(),
{
    if s.len() > 0 {
        let rest = s.drop_last();
        let n = s.len() - 1;
        assert(staged_ascend(rest)) by {
            assert forall|i: int, j: int| 0 <= i < j < rest.len() implies bytes_lt(
                (#[trigger] rest[i]).key,
                (#[trigger] rest[j]).key,
            ) by {
                assert(rest[i] == s[i] && rest[j] == s[j]);
            }
        }
        lemma_staged_map(rest, key);
        assert(s[n] == s.last());
        lemma_bytes_lt_irreflexive(key);
        assert forall|i: int| 0 <= i < s.len() && (#[trigger] s[i]).key == key implies staged_map(
            s,
        )[key] == s[i].value by {
            if i < n {
                assert(rest[i] == s[i]);
                assert(bytes_lt(s[i].key, s[n].key));
            }
        }
        if exists|i: int| 0 <= i < s.len() && (#[trigger] s[i]).key == key {
            let i = choose|i: int| 0 <= i < s.len() && (#[trigger] s[i]).key == key;
            if i < n {
                assert(rest[i].key == key);
            }
        }
        if exists|i: int| 0 <= i < rest.len() && (#[trigger] rest[i]).key == key {
            let i = choose|i: int| 0 <= i < rest.len() && (#[trigger] rest[i]).key == key;
            assert(s[i].key == key);
        }
    }
}

/// The staged writes of a transaction, in key order.
pub struct StagedWrites {
    entries: Vec<StagedWrite>,
}

impl StagedWrites {
    /// The staged writes, in key order.
    pub closed spec fn list(self) -> Seq<Staged> {
        staged_views(self.entries@)
    }

    /// What is staged for each key: a value, or a deletion.
    pub open spec fn writes(self) -> Map<Seq<u8>, Option<Seq<u8>>> {
        staged_map(self.list())
    }

    /// The writes are in key order, each key once.
    pub open spec fn wf(self) -> bool {
        staged_ascend(self.list())
    }

    /// Nothing is staged.
    pub fn new() -> (r: Self)
        ensures
            r.wf(),
            r.list() == Seq::<Staged>::empty(),
            r.writes() == Map::<Seq<u8>, Option<Seq<u8>>>::empty(),
    {
        let r = StagedWrites { entries: Vec::new() };
        assert(r.list() =~= Seq::<Staged>::empty());
        r
    }

    /// How many keys have a staged write.
    pub fn len(&self) -> (r: usize)
        ensures
            r == self.list().len(),
    {
        self.entries.len()
    }

    /// The staged writes, in key order.
    pub fn entries(&self) -> (r: &Vec<StagedWrite>)
        ensures
            staged_views(r@) == self.list(),
    {
        &self.entries
    }

    /// Where `key` is, or would be.
    fn position(&self, key: &[u8]) -> (r: usize)
        requires
            self.wf(),
        ensures
            r <= self.list().len(),
            forall|i: int| 0 <= i < r ==> bytes_lt((#[trigger] self.list()[i]).key, key@),
            forall|i: int|
                r <= i < self.list().len() ==> !bytes_lt((#[trigger] self.list()[i]).key, key@),
    {
        let ghost s = self.list();
        let mut lo: usize = 0;
        let mut hi: usize = self.entries.len();
        while lo < hi
            invariant
                s == self.list(),
                self.wf(),
                lo <= hi <= self.entries@.len(),
                forall|i: int| 0 <= i < lo ==> bytes_lt((#[trigger] s[i]).key, key@),
                forall|i: int| hi <= i < s.len() ==> !bytes_lt((#[trigger] s[i]).key, key@),
            decreases hi - lo,
        {
            let mid: usize = lo + (hi - lo) / 2;
            assert(s[mid as int].key == self.entries@[mid as int].key@);
            if bytes::lt(self.entries[mid].key.as_slice(), key) {
                proof {
                    assert forall|i: int| 0 <= i < mid + 1 implies bytes_lt(
                        (#[trigger] s[i]).key,
                        key@,
                    ) by {
                        if i < mid {
                            lemma_bytes_lt_transitive(s[i].key, s[mid as int].key, key@);
                        }
                    }
                }
                lo = mid + 1;
            } else {
                proof {
                    assert forall|i: int| mid <= i < s.len() implies !bytes_lt(
                        (#[trigger] s[i]).key,
                        key@,
                    ) by {
                        if i > mid && bytes_lt(s[i].key, key@) {
                            lemma_bytes_lt_transitive(s[mid as int].key, s[i].key, key@);
                        }
                    }
                }
                hi = mid;
            }
        }
        lo
    }

    /// What is staged for `key`, if anything is.
    pub fn get(&self, key: &[u8]) -> (r: Option<Option<Vec<u8>>>)
        requires
            self.wf(),
        ensures
            match r {
                Some(value) => self.writes().dom().contains(key@) && self.writes()[key@]
                    == opt_view(value),
                None => !self.writes().dom().contains(key@),
            },
    {
        let at: usize = self.position(key);
        let ghost s = self.list();
        proof {
            lemma_staged_map(s, key@);
        }
        if at < self.entries.len() && !bytes::lt(key, self.entries[at].key.as_slice()) {
            proof {
                assert(s[at as int].key == self.entries@[at as int].key@);
                lemma_bytes_lt_total(s[at as int].key, key@);
                assert(s[at as int].key == key@);
            }
            match &self.entries[at].value {
                Some(value) => Some(Some(bytes::copy(value.as_slice()))),
                None => Some(None),
            }
        } else {
            proof {
                lemma_bytes_lt_irreflexive(key@);
                if exists|i: int| 0 <= i < s.len() && (#[trigger] s[i]).key == key@ {
                    let i = choose|i: int| 0 <= i < s.len() && (#[trigger] s[i]).key == key@;
                    if i > at {
                        assert(bytes_lt(s[at as int].key, s[i].key));
                    } else if i == at {
                        assert(s[at as int].key == self.entries@[at as int].key@);
                    }
                }
            }
            None
        }
    }

    /// Stage a value or a deletion for `key`.
    pub fn set(&mut self, key: Vec<u8>, value: Option<Vec<u8>>)
        requires
            old(self).wf(),
        ensures
            final(self).wf(),
            final(self).writes() == old(self).writes().insert(key@, opt_view(value)),
            final(self).list().len() <= old(self).list().len() + 1,
    {
        let at: usize = self.position(key.as_slice());
        let ghost before = self.list();
        let ghost e = Staged { key: key@, value: opt_view(value) };
        let found: bool = at < self.entries.len() && !bytes::lt(
            key.as_slice(),
            self.entries[at].key.as_slice(),
        );
        proof {
            if at < before.len() {
                assert(before[at as int].key == self.entries@[at as int].key@);
                lemma_bytes_lt_total(before[at as int].key, key@);
            }
        }
        if found {
            self.entries.set(at, StagedWrite { key, value });
            proof {
                let after = self.list();
                assert(after =~= before.update(at as int, e));
                Self::lemma_replaced(before, after, at as int, e);
            }
        } else {
            self.entries.insert(at, StagedWrite { key, value });
            proof {
                let after = self.list();
                assert(after =~= before.insert(at as int, e));
                Self::lemma_inserted(before, after, at as int, e);
            }
        }
    }

    proof fn lemma_replaced(before: Seq<Staged>, after: Seq<Staged>, at: int, e: Staged)
        requires
            staged_ascend(before),
            0 <= at < before.len(),
            before[at].key == e.key,
            after == before.update(at, e),
        ensures
            staged_ascend(after),
            staged_map(after) == staged_map(before).insert(e.key, e.value),
    {
        assert forall|i: int, j: int| 0 <= i < j < after.len() implies bytes_lt(
            (#[trigger] after[i]).key,
            (#[trigger] after[j]).key,
        ) by {
            assert(after[i].key == before[i].key && after[j].key == before[j].key);
        }
        assert forall|key: Seq<u8>|
            staged_map(after).dom().contains(key) <==> #[trigger] staged_map(before).insert(
                e.key,
                e.value,
            ).dom().contains(key) by {
            Self::lemma_either(before, after, at, at, e, key);
        }
        assert forall|key: Seq<u8>| #[trigger]
            staged_map(after).dom().contains(key) implies staged_map(after)[key] == staged_map(
            before,
        ).insert(e.key, e.value)[key] by {
            Self::lemma_either(before, after, at, at, e, key);
        }
        assert(staged_map(after) =~= staged_map(before).insert(e.key, e.value));
    }

    /// What a run of writes says after one was put at `at`, where those from
    /// `from` on moved by one or none.
    proof fn lemma_either(
        before: Seq<Staged>,
        after: Seq<Staged>,
        at: int,
        from: int,
        e: Staged,
        key: Seq<u8>,
    )
        requires
            staged_ascend(before),
            staged_ascend(after),
            0 <= at < after.len(),
            after[at] == e,
            (after.len() == before.len() && from == at && before[at].key == e.key && after
                == before.update(at, e)) || (after == before.insert(at, e) && at <= before.len()
                && from == at),
        ensures
            staged_map(after).dom().contains(key) <==> staged_map(before).dom().contains(key)
                || key == e.key,
            key == e.key ==> staged_map(after)[key] == e.value,
            key != e.key && staged_map(before).dom().contains(key) ==> staged_map(after)[key]
                == staged_map(before)[key],
    {
        lemma_staged_map(before, key);
        lemma_staged_map(after, key);
        assert(after[at].key == e.key);
        if staged_map(before).dom().contains(key) {
            let i = choose|i: int| 0 <= i < before.len() && (#[trigger] before[i]).key == key;
            if after.len() == before.len() {
                assert(after[i].key == key);
            } else if i < at {
                assert(after[i] == before[i]);
            } else {
                assert(after[i + 1] == before[i]);
            }
        }
        if staged_map(after).dom().contains(key) && key != e.key {
            let i = choose|i: int| 0 <= i < after.len() && (#[trigger] after[i]).key == key;
            if after.len() == before.len() {
                assert(before[i].key == key);
            } else if i < at {
                assert(after[i] == before[i]);
            } else {
                assert(after[i] == before[i - 1]);
            }
        }
    }

    proof fn lemma_inserted(before: Seq<Staged>, after: Seq<Staged>, at: int, e: Staged)
        requires
            staged_ascend(before),
            0 <= at <= before.len(),
            forall|i: int| 0 <= i < at ==> bytes_lt((#[trigger] before[i]).key, e.key),
            forall|i: int| at <= i < before.len() ==> !bytes_lt((#[trigger] before[i]).key, e.key),
            at < before.len() ==> before[at].key != e.key,
            after == before.insert(at, e),
        ensures
            staged_ascend(after),
            staged_map(after) == staged_map(before).insert(e.key, e.value),
    {
        assert forall|i: int| at <= i < before.len() implies bytes_lt(
            e.key,
            (#[trigger] before[i]).key,
        ) by {
            lemma_bytes_lt_total(e.key, before[at].key);
            if i > at {
                lemma_bytes_lt_transitive(e.key, before[at].key, before[i].key);
            }
        }
        assert forall|i: int, j: int| 0 <= i < j < after.len() implies bytes_lt(
            (#[trigger] after[i]).key,
            (#[trigger] after[j]).key,
        ) by {
            if j < at {
                assert(after[i] == before[i] && after[j] == before[j]);
            } else if j == at {
                assert(after[i] == before[i]);
            } else {
                assert(after[j] == before[j - 1]);
                if i < at {
                    assert(after[i] == before[i]);
                } else if i > at {
                    assert(after[i] == before[i - 1]);
                }
            }
        }
        assert forall|key: Seq<u8>|
            staged_map(after).dom().contains(key) <==> #[trigger] staged_map(before).insert(
                e.key,
                e.value,
            ).dom().contains(key) by {
            Self::lemma_either(before, after, at, at, e, key);
        }
        assert forall|key: Seq<u8>| #[trigger]
            staged_map(after).dom().contains(key) implies staged_map(after)[key] == staged_map(
            before,
        ).insert(e.key, e.value)[key] by {
            Self::lemma_either(before, after, at, at, e, key);
        }
        assert(staged_map(after) =~= staged_map(before).insert(e.key, e.value));
    }
}

impl Clone for StagedWrites {
    fn clone(&self) -> (r: Self)
        ensures
            r.list() == self.list(),
    {
        let mut entries: Vec<StagedWrite> = Vec::new();
        let mut i: usize = 0;
        while i < self.entries.len()
            invariant
                i <= self.entries@.len(),
                staged_views(entries@) == self.list().take(i as int),
            decreases self.entries@.len() - i,
        {
            let ghost before = staged_views(entries@);
            let value: Option<Vec<u8>> = match &self.entries[i].value {
                Some(value) => Some(bytes::copy(value.as_slice())),
                None => None,
            };
            entries.push(
                StagedWrite { key: bytes::copy(self.entries[i].key.as_slice()), value },
            );
            proof {
                assert(staged_views(entries@) =~= before.push(self.list()[i as int]));
                assert(self.list().take(i + 1) =~= self.list().take(i as int).push(
                    self.list()[i as int],
                ));
            }
            i += 1;
        }
        assert(self.list().take(i as int) =~= self.list());
        StagedWrites { entries }
    }
}

} // verus!
