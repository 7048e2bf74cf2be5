//! Tailing iterators: forward walks that see writes made after they began.

use vstd::prelude::*;

use crate::bytes;
use crate::bytes::{bytes_le, bytes_lt, opt_slice_view};
use crate::column_family::{ColumnFamilyHandle, DEFAULT_CF_ID, META_CF_ID};
use crate::db::Db;
use crate::error::{checked, Result};
use crate::iter::{sought, stepped, CfIter, Cursor};

verus! {

/// Forward-only iterator over one column family that does not stay at the
/// point of time it was made at: once it has walked past the rows it knows
/// it looks at the database anew, for keys after the last one it was on. No
/// key is shown twice.
///
/// Keys written behind the iterator's place are not shown.
pub struct TailingIter {
    id: u32,
    alive: bool,
    view: CfIter,
    // Where the next look at the database begins.
    from: Vec<u8>,
}

/// Where a walk goes on after a cursor was placed: just past the row it is
/// on, or where it began when there was none.
pub open spec fn onward(c: Cursor, from: Seq<u8>) -> Seq<u8> {
    match c.at {
        Some(i) => c.rows[i].key.push(0),
        None => from,
    }
}

impl TailingIter {
    /// The family the iterator walks.
    pub closed spec fn family(self) -> u32 {
        self.id
    }

    /// Whether there is anything to walk.
    pub closed spec fn is_alive(self) -> bool {
        self.alive
    }

    /// What the iterator knows of the family, and where in it it stands.
    pub closed spec fn known(self) -> CfIter {
        self.view
    }

    /// Where the next look at the database begins.
    pub closed spec fn begins(self) -> Seq<u8> {
        self.from@
    }

    /// The iterator is whole.
    pub closed spec fn wf(self) -> bool {
        &&& self.view.wf()
        &&& self.view.live() == self.alive
        &&& self.alive ==> self.id < META_CF_ID
    }

    /// A whole tailing iterator walks a whole iterator.
    pub proof fn lemma_known(self)
        requires
            self.wf(),
        ensures
            self.known().wf(),
            self.known().live() == self.is_alive(),
    {
    }

    /// The iterator after a look at `db` from `from` on.
    pub open spec fn looked(self, before: Self, db: Db, from: Seq<u8>) -> bool {
        &&& self.wf()
        &&& self.is_alive()
        &&& self.family() == before.family()
        &&& self.begins() == onward(self.known().cursor(), from)
        &&& exists|fresh: CfIter| #[trigger]
            db.iterates(before.family(), db.horizon(), fresh) && self.known().same_source(fresh)
                && self.known().cursor() == sought(fresh.cursor(), from)
    }

    /// Look at the database from `from` on.
    fn look(&mut self, db: &Db, from: Vec<u8>)
        requires
            old(self).wf(),
            old(self).is_alive(),
            db.wf(),
        ensures
            final(self).looked(*old(self), *db, from@),
    {
        let mut view: CfIter = db.iter_at(self.id, db.latest_sequence());
        let ghost fresh = view;
        view.seek(from.as_slice());
        proof {
            view.lemma_same_source(fresh);
            view.lemma_cursor();
            assert(db.iterates(self.id, db.horizon(), fresh));
        }
        let next_from: Option<Vec<u8>> = match view.key() {
            Some(key) => {
                let mut after: Vec<u8> = bytes::copy(key);
                after.push(0);
                Some(after)
            },
            None => None,
        };
        self.view = view;
        self.from = match next_from {
            Some(after) => after,
            None => from,
        };
    }

    /// Place the iterator at the first key of the family.
    pub fn seek_to_first(&mut self, db: &Db)
        requires
            old(self).wf(),
            db.wf(),
        ensures
            final(self).wf(),
            if old(self).is_alive() {
                final(self).looked(*old(self), *db, Seq::empty())
            } else {
                *final(self) == *old(self)
            },
    {
        if self.alive {
            let start: Vec<u8> = Vec::new();
            assert(start@ =~= Seq::<u8>::empty());
            self.look(db, start);
        }
    }

    /// Place the iterator at the first key at or after `target`.
    pub fn seek(&mut self, db: &Db, target: &[u8])
        requires
            old(self).wf(),
            db.wf(),
        ensures
            final(self).wf(),
            if old(self).is_alive() {
                final(self).looked(*old(self), *db, target@)
            } else {
                *final(self) == *old(self)
            },
    {
        if self.alive {
            self.look(db, bytes::copy(target));
        }
    }

    /// Look at the database anew, just past the last key the iterator was
    /// on.
    pub fn refresh(&mut self, db: &Db)
        requires
            old(self).wf(),
            db.wf(),
        ensures
            final(self).wf(),
            if old(self).is_alive() {
                final(self).looked(*old(self), *db, old(self).begins())
            } else {
                *final(self) == *old(self)
            },
    {
        if self.alive {
            self.look(db, bytes::copy(self.from.as_slice()));
        }
    }

    /// Step to the next key. Where the iterator has no next row it looks at
    /// the database anew.
    pub fn next(&mut self, db: &Db)
        requires
            old(self).wf(),
            db.wf(),
        ensures
            final(self).wf(),
            ({
                let c = old(self).known().cursor();
                if !old(self).is_alive() {
                    *final(self) == *old(self)
                } else if c.at is Some && stepped(c).at is Some {
                    &&& final(self).is_alive()
                    &&& final(self).family() == old(self).family()
                    &&& final(self).known().cursor() == stepped(c)
                    &&& final(self).begins() == onward(stepped(c), old(self).begins())
                } else {
                    final(self).looked(*old(self), *db, old(self).begins())
                }
            }),
    {
        if !self.alive {
            return ;
        }
        let ghost before = self.view;
        proof {
            self.view.lemma_cursor();
        }
        if self.view.valid() {
            self.view.next();
            proof {
                self.view.lemma_same_source(before);
                self.view.lemma_cursor();
            }
            let after: Option<Vec<u8>> = match self.view.key() {
                Some(key) => {
                    let mut after: Vec<u8> = bytes::copy(key);
                    after.push(0);
                    Some(after)
                },
                None => None,
            };
            if let Some(after) = after {
                self.from = after;
                return ;
            }
        }
        self.look(db, bytes::copy(self.from.as_slice()));
    }

    /// Whether the iterator is on a key.
    pub fn valid(&self) -> (r: bool)
        requires
            self.wf(),
        ensures
            r == (self.is_alive() && self.known().cursor().at is Some),
    {
        self.view.valid()
    }

    /// Current key.
    pub fn key(&self) -> (r: Option<&[u8]>)
        requires
            self.wf(),
        ensures
            opt_slice_view(r) == (match self.known().cursor().at {
                Some(i) if self.is_alive() => Some(self.known().cursor().rows[i].key),
                _ => None,
            }),
    {
        self.view.key()
    }

    /// Current value.
    pub fn value(&self) -> (r: Option<&[u8]>)
        requires
            self.wf(),
        ensures
            opt_slice_view(r) == (match self.known().cursor().at {
                Some(i) if self.is_alive() => self.known().cursor().rows[i].value,
                _ => None,
            }),
    {
        self.view.value()
    }

    /// Why the walk stopped short, if it did.
    pub fn status(&self) -> (r: Result<()>)
        ensures
            checked(r, self.known().fault()),
    {
        self.view.status()
    }
}

/// The keys at or past `key` with a zero byte after it are those past `key`:
/// a walk that goes on there shows no key twice and leaves none out.
pub proof fn lemma_onward_excludes(key: Seq<u8>, other: Seq<u8>)
    ensures
        bytes_le(key.push(0), other) <==> bytes_lt(key, other),
    decreases key.len(),
{
    let next = key.push(0);
    if key.len() == 0 {
        if other.len() > 0 {
            assert(next.drop_first() =~= Seq::<u8>::empty());
            assert(!bytes_lt(other.drop_first(), Seq::<u8>::empty()));
        }
    } else if other.len() > 0 {
        assert(next.drop_first() =~= key.drop_first().push(0));
        assert(next[0] == key[0]);
        if key[0] == other[0] {
            lemma_onward_excludes(key.drop_first(), other.drop_first());
        }
    }
}

impl Db {
    /// A tailing iterator over the default column family.
    pub fn iter_tailing(&self) -> (r: TailingIter)
        requires
            self.wf(),
        ensures
            r.wf(),
            r.is_alive(),
            r.family() == DEFAULT_CF_ID,
            r.begins() == Seq::<u8>::empty(),
            r.known().cursor().at is None,
    {
        let view: CfIter = self.iter_at(DEFAULT_CF_ID, self.latest_sequence());
        let from: Vec<u8> = Vec::new();
        assert(from@ =~= Seq::<u8>::empty());
        TailingIter { id: DEFAULT_CF_ID, alive: true, view, from }
    }

    /// A tailing iterator over column family `cf`; over nothing when it is
    /// not live.
    pub fn iter_tailing_cf(&self, cf: &ColumnFamilyHandle) -> (r: TailingIter)
        requires
            self.wf(),
        ensures
            r.wf(),
            r.is_alive() == self.families().is_live(*cf),
            r.family() == cf.id_number(),
            r.begins() == Seq::<u8>::empty(),
            r.known().cursor().at is None,
            !r.is_alive() ==> Db::iterates_nothing(*cf, r.known()),
    {
        let alive: bool = self.is_live_cf_handle(cf);
        let view: CfIter = self.iter_cf_at(cf, self.latest_sequence());
        let from: Vec<u8> = Vec::new();
        proof {
            assert(from@ =~= Seq::<u8>::empty());
            view.lemma_cursor();
            if alive {
                self.lemma_live_id(*cf);
            }
        }
        TailingIter { id: cf.id(), alive, view, from }
    }
}

} // verus!
