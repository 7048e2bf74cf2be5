//! Point reads: what each of them answers, and that they agree.

use vstd::prelude::*;

use crate::bytes::{opt_view, slice_views};
use crate::column_family::{ColumnFamilyHandle, DEFAULT_CF_ID};
use crate::db::read::values_of;
use crate::db::snapshot::Snapshot;
use crate::db::Db;
use crate::engine::read::Read;
use crate::error::{is_fault, Error, Result};
use crate::slice::DbSlice;

verus! {

/// Two reads answered the same.
pub open spec fn alike(a: Result<Option<Vec<u8>>>, b: Result<Option<Vec<u8>>>) -> bool {
    match (a, b) {
        (Ok(Some(x)), Ok(Some(y))) => x@ == y@,
        (Ok(None), Ok(None)) => true,
        (Err(Error::Closed), Err(Error::Closed)) => true,
        (Err(Error::MergeFailed(x)), Err(Error::MergeFailed(y))) => x@ == y@,
        (Err(Error::InvalidColumnFamily(x)), Err(Error::InvalidColumnFamily(y))) => x@ == y@,
        _ => false,
    }
}

/// A get on an open database answers what the history holds of the key, byte
/// for byte; on a closed one it answers that it is closed.
pub proof fn law_get_answers_the_read(db: Db, key: &[u8], g: Result<Option<Vec<u8>>>)
    requires
        db.wf(),
        call_ensures(Db::get, (&db, key), g),
    ensures
        db.is_closed() <==> g matches Err(Error::Closed),
        !db.is_closed() ==> match db.reads(DEFAULT_CF_ID, key@, db.horizon()) {
            Read::Value(Some(value)) => g matches Ok(Some(v)) && v@ == value,
            Read::Value(None) => g matches Ok(None),
            Read::MergeFailed => g matches Err(Error::MergeFailed(k)) && k@ == key@,
        },
{
}

/// [`law_get_answers_the_read`] of a column family, through a handle that is
/// live.
pub proof fn law_get_cf_answers_the_read(
    db: Db,
    cf: &ColumnFamilyHandle,
    key: &[u8],
    g: Result<Option<Vec<u8>>>,
)
    requires
        db.wf(),
        call_ensures(Db::get_cf, (&db, cf, key), g),
    ensures
        db.is_closed() <==> g matches Err(Error::Closed),
        !db.is_closed() && !db.families().is_live(*cf) <==> g matches Err(
            Error::InvalidColumnFamily(_),
        ),
        !db.is_closed() && db.families().is_live(*cf) ==> match db.reads(
            cf.id_number(),
            key@,
            db.horizon(),
        ) {
            Read::Value(Some(value)) => g matches Ok(Some(v)) && v@ == value,
            Read::Value(None) => g matches Ok(None),
            Read::MergeFailed => g matches Err(Error::MergeFailed(k)) && k@ == key@,
        },
{
}

/// Every way to read one key agrees with [`Db::get`]: a slice holds the
/// bytes, the size is their number, and the key is there where they are.
pub proof fn law_point_reads_agree(
    db: Db,
    key: &[u8],
    g: Result<Option<Vec<u8>>>,
    slice: Result<Option<DbSlice>>,
    size: Result<Option<usize>>,
    there: Result<bool>,
)
    requires
        db.wf(),
        call_ensures(Db::get, (&db, key), g),
        call_ensures(Db::get_slice, (&db, key), slice),
        call_ensures(Db::get_size, (&db, key), size),
        call_ensures(Db::has, (&db, key), there),
    ensures
        match g {
            Ok(Some(v)) => {
                &&& slice matches Ok(Some(s)) && s@ == v@
                &&& size matches Ok(Some(n)) && n == v@.len()
                &&& there matches Ok(true)
            },
            Ok(None) => {
                &&& slice matches Ok(None)
                &&& size matches Ok(None)
                &&& there matches Ok(false)
            },
            Err(Error::Closed) => {
                &&& slice matches Err(Error::Closed)
                &&& size matches Err(Error::Closed)
                &&& there matches Err(Error::Closed)
            },
            Err(Error::MergeFailed(k)) => {
                &&& k@ == key@
                &&& slice matches Err(Error::MergeFailed(s)) && s@ == key@
                &&& size matches Err(Error::MergeFailed(s)) && s@ == key@
                &&& there matches Err(Error::MergeFailed(s)) && s@ == key@
            },
            Err(_) => false,
        },
{
}

/// [`law_point_reads_agree`] of a column family.
pub proof fn law_point_reads_agree_cf(
    db: Db,
    cf: &ColumnFamilyHandle,
    key: &[u8],
    g: Result<Option<Vec<u8>>>,
    slice: Result<Option<DbSlice>>,
    size: Result<Option<usize>>,
    there: Result<bool>,
)
    requires
        db.wf(),
        call_ensures(Db::get_cf, (&db, cf, key), g),
        call_ensures(Db::get_slice_cf, (&db, cf, key), slice),
        call_ensures(Db::get_size_cf, (&db, cf, key), size),
        call_ensures(Db::has_cf, (&db, cf, key), there),
    ensures
        match g {
            Ok(Some(v)) => {
                &&& slice matches Ok(Some(s)) && s@ == v@
                &&& size matches Ok(Some(n)) && n == v@.len()
                &&& there matches Ok(true)
            },
            Ok(None) => {
                &&& slice matches Ok(None)
                &&& size matches Ok(None)
                &&& there matches Ok(false)
            },
            Err(_) => slice is Err && size is Err && there is Err,
        },
{
}

/// Reading many keys at once is reading each: all the values in the order of
/// the keys, or the failure of the first key that fails.
pub proof fn law_multi_get_is_each_get(
    db: Db,
    keys: &[&[u8]],
    all: Result<Vec<Option<Vec<u8>>>>,
    each: Seq<Result<Option<Vec<u8>>>>,
)
    requires
        db.wf(),
        !db.is_closed(),
        call_ensures(Db::multi_get, (&db, keys), all),
        each.len() == keys@.len(),
        forall|i: int|
            0 <= i < each.len() ==> call_ensures(Db::get, (&db, #[trigger] keys@[i]), each[i]),
    ensures
        match all {
            Ok(values) => values@.len() == keys@.len() && forall|i: int|
                0 <= i < each.len() ==> alike(Ok(#[trigger] values@[i]), each[i]),
            Err(Error::MergeFailed(k)) => exists|n: int|
                0 <= n < each.len() && k@ == (#[trigger] keys@[n])@ && each[n] is Err && forall|
                    i: int,
                |
                    0 <= i < n ==> (#[trigger] each[i]) is Ok,
            Err(_) => false,
        },
{
    let names = slice_views(keys@);
    let seq = db.horizon();
    lemma_first_unreadable_at(db, DEFAULT_CF_ID, names, seq);
    let n = db.readable_keys(DEFAULT_CF_ID, names, seq);
    assert forall|i: int| 0 <= i < each.len() implies match db.reads(
        DEFAULT_CF_ID,
        #[trigger] names[i],
        seq,
    ) {
        Read::Value(Some(value)) => each[i] matches Ok(Some(v)) && v@ == value,
        Read::Value(None) => each[i] matches Ok(None),
        Read::MergeFailed => each[i] matches Err(Error::MergeFailed(k)) && k@ == names[i],
    } by {
        law_get_answers_the_read(db, keys@[i], each[i]);
    }
    if n < names.len() {
        assert(names[n] == keys@[n]@);
        assert forall|i: int| 0 <= i < n implies (#[trigger] each[i]) is Ok by {
            assert(db.reads(DEFAULT_CF_ID, names[i], seq) != Read::MergeFailed);
        }
    } else {
        let values = all->Ok_0@;
        let read = Seq::new(names.len(), |i: int| db.reads(DEFAULT_CF_ID, names[i], seq)->Value_0);
        assert(values_of(values) == read);
        assert(values_of(values).len() == values.len());
        assert forall|i: int| 0 <= i < each.len() implies alike(Ok(#[trigger] values[i]), each[i]) by {
            assert(values_of(values)[i] == opt_view(values[i]));
            assert(values_of(values)[i] == read[i]);
            assert(db.reads(DEFAULT_CF_ID, names[i], seq) != Read::MergeFailed);
        }
    }
}

/// Reading many keys at once answered what a read of each finds, in the order
/// of the keys, or the failure of the first that fails.
pub open spec fn answers_each(
    db: Db,
    id: u32,
    seq: u64,
    keys: Seq<&[u8]>,
    all: Result<Vec<Option<Vec<u8>>>>,
) -> bool {
    match all {
        Ok(values) => {
            &&& values@.len() == keys.len()
            &&& forall|i: int|
                0 <= i < keys.len() ==> match #[trigger] values@[i] {
                    Some(v) => db.reads(id, keys[i]@, seq) == Read::Value(Some(v@)),
                    None => db.reads(id, keys[i]@, seq) == Read::Value(None),
                }
        },
        Err(Error::MergeFailed(k)) => exists|n: int|
            0 <= n < keys.len() && k@ == (#[trigger] keys[n])@ && db.reads(id, keys[n]@, seq)
                == Read::MergeFailed && forall|i: int|
                0 <= i < n ==> db.reads(id, (#[trigger] keys[i])@, seq) != Read::MergeFailed,
        Err(_) => false,
    }
}

proof fn lemma_answers_each(
    db: Db,
    id: u32,
    seq: u64,
    keys: Seq<&[u8]>,
    all: Result<Vec<Option<Vec<u8>>>>,
)
    requires
        !db.is_closed(),
        match db.multi_read(id, slice_views(keys), seq) {
            Ok(values) => all matches Ok(v) && values_of(v@) == values,
            Err(fault) => all matches Err(e) && is_fault(e, fault),
        },
    ensures
        answers_each(db, id, seq, keys, all),
{
    let names = slice_views(keys);
    lemma_first_unreadable_at(db, id, names, seq);
    let n = db.readable_keys(id, names, seq);
    if n < names.len() {
        assert(names[n] == keys[n]@);
        assert forall|i: int| 0 <= i < n implies db.reads(id, (#[trigger] keys[i])@, seq)
            != Read::MergeFailed by {
            assert(names[i] == keys[i]@);
        }
    } else {
        let values = all->Ok_0@;
        let read = Seq::new(names.len(), |i: int| db.reads(id, names[i], seq)->Value_0);
        assert(values_of(values) == read);
        assert(values_of(values).len() == values.len());
        assert forall|i: int| 0 <= i < keys.len() implies match #[trigger] values[i] {
            Some(v) => db.reads(id, keys[i]@, seq) == Read::Value(Some(v@)),
            None => db.reads(id, keys[i]@, seq) == Read::Value(None),
        } by {
            assert(names[i] == keys[i]@);
            assert(values_of(values)[i] == opt_view(values[i]));
            assert(values_of(values)[i] == read[i]);
            assert(db.reads(id, names[i], seq) != Read::MergeFailed);
        }
    }
}

proof fn lemma_first_unreadable_at(db: Db, id: u32, names: Seq<Seq<u8>>, seq: u64)
    ensures
        ({
            let n = db.readable_keys(id, names, seq);
            &&& 0 <= n <= names.len()
            &&& n < names.len() ==> db.reads(id, names[n], seq) == Read::MergeFailed
            &&& forall|i: int|
                0 <= i < n ==> db.reads(id, #[trigger] names[i], seq) != Read::MergeFailed
        }),
    decreases names.len(),
{
    if names.len() > 0 && db.reads(id, names[0], seq) != Read::MergeFailed {
        let rest = names.drop_first();
        lemma_first_unreadable_at(db, id, rest, seq);
        let n = db.readable_keys(id, names, seq);
        assert forall|i: int| 0 <= i < n implies db.reads(id, #[trigger] names[i], seq)
            != Read::MergeFailed by {
            if i > 0 {
                assert(rest[i - 1] == names[i]);
            }
        }
        if n < names.len() {
            assert(rest[n - 1] == names[n]);
        }
    }
}

/// Many keys of a column family read at once.
pub proof fn law_multi_get_cf(
    db: Db,
    cf: &ColumnFamilyHandle,
    keys: &[&[u8]],
    all: Result<Vec<Option<Vec<u8>>>>,
)
    requires
        db.wf(),
        call_ensures(Db::multi_get_cf, (&db, cf, keys), all),
    ensures
        db.is_closed() <==> all matches Err(Error::Closed),
        !db.is_closed() && !db.families().is_live(*cf) <==> all matches Err(
            Error::InvalidColumnFamily(_),
        ),
        !db.is_closed() && db.families().is_live(*cf) ==> answers_each(
            db,
            cf.id_number(),
            db.horizon(),
            keys@,
            all,
        ),
{
    if !db.is_closed() && db.families().is_live(*cf) {
        lemma_answers_each(db, cf.id_number(), db.horizon(), keys@, all);
    }
}

/// Many keys read at once through a snapshot.
pub proof fn law_snapshot_multi_get(
    s: Snapshot,
    db: Db,
    cf: &ColumnFamilyHandle,
    keys: &[&[u8]],
    all: Result<Vec<Option<Vec<u8>>>>,
    of_family: Result<Vec<Option<Vec<u8>>>>,
)
    requires
        db.wf(),
        call_ensures(Snapshot::multi_get, (&s, &db, keys), all),
        call_ensures(Snapshot::multi_get_cf, (&s, &db, cf, keys), of_family),
    ensures
        db.is_closed() <==> all matches Err(Error::Closed),
        !db.is_closed() ==> answers_each(db, DEFAULT_CF_ID, s.number(), keys@, all),
        !db.is_closed() && db.families().is_live(*cf) ==> answers_each(
            db,
            cf.id_number(),
            s.number(),
            keys@,
            of_family,
        ),
{
    if !db.is_closed() {
        lemma_answers_each(db, DEFAULT_CF_ID, s.number(), keys@, all);
        if db.families().is_live(*cf) {
            lemma_answers_each(db, cf.id_number(), s.number(), keys@, of_family);
        }
    }
}

} // verus!
