//! What a read or a scan comes to: merging what was found of a key, and
//! listing the keys of a range.

use std::sync::Arc;

use vstd::prelude::*;
use vstd::slice::slice_subrange;

use crate::bytes;
use crate::bytes::{
    bytes_lt, lemma_bytes_lt_asymmetric, lemma_bytes_lt_irreflexive, lemma_bytes_lt_total,
    lemma_bytes_lt_transitive, opt_view, slice_views, views,
};
use crate::column_family::CF_PREFIX_LEN;
use crate::engine::memtable::{ascending, Found, FoundEnd};
use crate::error::{ErrorKind, IoError};
use crate::history::{base_of, covers, probe, Logged, Probe};
use crate::options::MergeOperator;
use crate::text::join2;

verus! {

// ── key lists ───────────────────────────────────────────────────────────

/// `keys` holds what `a` and `b` hold and nothing else.
pub open spec fn is_union(keys: Seq<Seq<u8>>, a: Seq<Seq<u8>>, b: Seq<Seq<u8>>) -> bool {
    forall|k: Seq<u8>| #[trigger] keys.contains(k) <==> a.contains(k) || b.contains(k)
}

/// The keys of two ascending lists, each once, in order.
pub fn merge_keys(a: &Vec<Vec<u8>>, b: &Vec<Vec<u8>>) -> (r: Vec<Vec<u8>>)
    requires
        ascending(views(a@)),
        ascending(views(b@)),
    ensures
        ascending(views(r@)),
        is_union(views(r@), views(a@), views(b@)),
{
    let mut out: Vec<Vec<u8>> = Vec::new();
    let mut i: usize = 0;
    let mut j: usize = 0;
    let ghost va = views(a@);
    let ghost vb = views(b@);
    while i < a.len() || j < b.len()
        invariant
            va == views(a@),
            vb == views(b@),
            ascending(va),
            ascending(vb),
            i <= a@.len(),
            j <= b@.len(),
            ascending(views(out@)),
            forall|k: Seq<u8>| #[trigger]
                views(out@).contains(k) <==> va.take(i as int).contains(k) || vb.take(
                    j as int,
                ).contains(k),
            out@.len() > 0 && i < a@.len() ==> bytes_lt(views(out@).last(), va[i as int]),
            out@.len() > 0 && j < b@.len() ==> bytes_lt(views(out@).last(), vb[j as int]),
        decreases (a@.len() - i) + (b@.len() - j),
    {
        let ghost before = views(out@);
        let from_a = i < a.len() && (j >= b.len() || !bytes::lt(b[j].as_slice(), a[i].as_slice()));
        let from_b = j < b.len() && (i >= a.len() || !bytes::lt(a[i].as_slice(), b[j].as_slice()));
        let ghost i0 = i as int;
        let ghost j0 = j as int;
        proof {
            if i < a@.len() && j < b@.len() {
                lemma_bytes_lt_total(va[i0], vb[j0]);
                lemma_bytes_lt_irreflexive(va[i0]);
                if bytes_lt(va[i0], vb[j0]) {
                    lemma_bytes_lt_asymmetric(va[i0], vb[j0]);
                }
            }
        }
        let key: Vec<u8> = if from_a {
            bytes::copy(a[i].as_slice())
        } else {
            bytes::copy(b[j].as_slice())
        };
        if from_a {
            i += 1;
        }
        if from_b {
            j += 1;
        }
        out.push(key);
        proof {
            let k0 = key@;
            assert(views(out@) =~= before.push(k0));
            assert forall|x: int, y: int| 0 <= x < y < views(out@).len() implies bytes_lt(
                #[trigger] views(out@)[x],
                #[trigger] views(out@)[y],
            ) by {
                if y == before.len() {
                    assert(bytes_lt(before.last(), k0));
                    if x < before.len() - 1 {
                        assert(bytes_lt(before[x], before[before.len() - 1]));
                        lemma_bytes_lt_transitive(before[x], before.last(), k0);
                    }
                } else {
                    assert(bytes_lt(before[x], before[y]));
                }
            }
            assert forall|k: Seq<u8>| #[trigger] views(out@).contains(k) <==> va.take(
                i as int,
            ).contains(k) || vb.take(j as int).contains(k) by {
                lemma_push_contains(before, k0, k);
                if from_a {
                    assert(va.take(i as int) =~= va.take(i0).push(va[i0]));
                    lemma_push_contains(va.take(i0), va[i0], k);
                }
                if from_b {
                    assert(vb.take(j as int) =~= vb.take(j0).push(vb[j0]));
                    lemma_push_contains(vb.take(j0), vb[j0], k);
                }
            }
            assert(views(out@).last() == k0);
            if i < a@.len() {
                if from_a {
                    assert(bytes_lt(va[i0], va[i as int]));
                }
            }
            if j < b@.len() {
                if from_b {
                    assert(bytes_lt(vb[j0], vb[j as int]));
                }
            }
        }
    }
    proof {
        assert(va.take(i as int) =~= va);
        assert(vb.take(j as int) =~= vb);
    }
    out
}

proof fn lemma_push_contains(s: Seq<Seq<u8>>, x: Seq<u8>, k: Seq<u8>)
    ensures
        s.push(x).contains(k) <==> s.contains(k) || k == x,
{
    let t = s.push(x);
    if s.contains(k) {
        let i = choose|i: int| 0 <= i < s.len() && s[i] == k;
        assert(t[i] == k);
    }
    if k == x {
        assert(t[s.len() as int] == k);
    }
    if t.contains(k) {
        let i = choose|i: int| 0 <= i < t.len() && t[i] == k;
        if i < s.len() {
            assert(s[i] == k);
        }
    }
}

// ── reads ───────────────────────────────────────────────────────────────

/// What a read of one key comes to.
pub ghost enum Read {
    /// The key's value, if it has one.
    Value(Option<Seq<u8>>),
    /// The key's operands could not be merged.
    MergeFailed,
}

/// The user key of a stored key.
pub open spec fn user_key_of(key: Seq<u8>) -> Seq<u8> {
    if key.len() >= CF_PREFIX_LEN {
        key.skip(CF_PREFIX_LEN as int)
    } else {
        key
    }
}

/// What a probe comes to under a merge operator: operands, if there are
/// any, are merged onto the base.
pub open spec fn settled(
    operator: Option<Arc<dyn MergeOperator>>,
    key: Seq<u8>,
    p: Probe,
) -> Read {
    if p.operands.len() == 0 {
        Read::Value(base_of(p))
    } else {
        match operator {
            None => Read::MergeFailed,
            Some(op) => match op.merged(user_key_of(key), base_of(p), p.operands) {
                Some(value) => Read::Value(Some(value)),
                None => Read::MergeFailed,
            },
        }
    }
}

/// What a read of the stored key `key` at `seq` comes to.
pub open spec fn read_at(
    operator: Option<Arc<dyn MergeOperator>>,
    h: Seq<Logged>,
    key: Seq<u8>,
    seq: u64,
) -> Read {
    settled(operator, key, probe(h, key, seq))
}

/// How a failed merge is reported.
pub open spec fn merge_failure(operator: Option<Arc<dyn MergeOperator>>) -> Seq<char> {
    "merge operator "@ + (match operator {
        None => "is not configured"@,
        Some(op) => op.label() + " could not combine the operands"@,
    })
}

/// How a failed merge is reported.
pub fn merge_failure_error(operator: &Option<Arc<dyn MergeOperator>>) -> (r: IoError)
    ensures
        r.kind == ErrorKind::InvalidData,
        r.message@ == merge_failure(*operator),
{
    let what: String = match operator {
        None => "is not configured".to_owned(),
        Some(op) => join2(op.name(), " could not combine the operands"),
    };
    IoError { kind: ErrorKind::InvalidData, message: join2("merge operator ", what.as_str()) }
}

/// Merge what was found of a key.
pub fn settle(operator: &Option<Arc<dyn MergeOperator>>, key: &[u8], found: Found) -> (r: Result<
    Option<Vec<u8>>,
    IoError,
>)
    ensures
        match settled(*operator, key@, found@) {
            Read::Value(value) => r matches Ok(v) && opt_view(v) == value,
            Read::MergeFailed => r matches Err(e) && e.kind == ErrorKind::InvalidData
                && e.message@ == merge_failure(*operator),
        },
{
    if found.operands.len() == 0 {
        return match found.end {
            FoundEnd::Value(value) => Ok(Some(value)),
            _ => Ok(None),
        };
    }
    let merged: Option<Vec<u8>> = match operator {
        None => None,
        Some(op) => {
            let user = if key.len() >= CF_PREFIX_LEN {
                slice_subrange(key, CF_PREFIX_LEN, key.len())
            } else {
                key
            };
            assert(user@ =~= user_key_of(key@));
            let mut operands: Vec<&[u8]> = Vec::new();
            let mut i: usize = 0;
            while i < found.operands.len()
                invariant
                    i <= found.operands@.len(),
                    slice_views(operands@) == views(found.operands@).take(i as int),
                decreases found.operands@.len() - i,
            {
                let ghost before = slice_views(operands@);
                operands.push(found.operands[i].as_slice());
                proof {
                    assert(slice_views(operands@) =~= before.push(found.operands@[i as int]@));
                    assert(views(found.operands@).take(i + 1) =~= views(found.operands@).take(
                        i as int,
                    ).push(found.operands@[i as int]@));
                }
                i += 1;
            }
            assert(slice_views(operands@) =~= views(found.operands@));
            let base: Option<&[u8]> = match &found.end {
                FoundEnd::Value(value) => Some(value.as_slice()),
                _ => None,
            };
            op.full_merge(user, base, operands.as_slice())
        },
    };
    match merged {
        Some(value) => Ok(Some(value)),
        None => Err(merge_failure_error(operator)),
    }
}

/// One key a scan comes to: its value, or that its operands could not be
/// merged.
pub struct Row {
    pub key: Vec<u8>,
    pub value: Option<Vec<u8>>,
}

/// A row, as contracts speak of it.
pub ghost struct RowView {
    pub key: Seq<u8>,
    pub value: Option<Seq<u8>>,
}

impl View for Row {
    type V = RowView;

    open spec fn view(&self) -> RowView {
        RowView { key: self.key@, value: opt_view(self.value) }
    }
}

/// The views of a run of rows.
pub open spec fn row_views(v: Seq<Row>) -> Seq<RowView> {
    Seq::new(v.len(), |i: int| v[i]@)
}

/// What a row says of its key is what a read of the key comes to.
pub open spec fn row_holds(read: Read, row: RowView) -> bool {
    match row.value {
        Some(value) => read == Read::Value(Some(value)),
        None => read == Read::MergeFailed,
    }
}

/// `rows` is what a scan of `[lo, hi)` at `seq` comes to: in key order,
/// every key that a read finds something of, and no other.
pub open spec fn is_scan(
    operator: Option<Arc<dyn MergeOperator>>,
    h: Seq<Logged>,
    lo: Seq<u8>,
    hi: Seq<u8>,
    seq: u64,
    rows: Seq<RowView>,
) -> bool {
    &&& forall|i: int, j: int|
        0 <= i < j < rows.len() ==> bytes_lt((#[trigger] rows[i]).key, (#[trigger] rows[j]).key)
    &&& forall|i: int|
        0 <= i < rows.len() ==> covers(lo, hi, (#[trigger] rows[i]).key) && row_holds(
            read_at(operator, h, rows[i].key, seq),
            rows[i],
        )
    &&& forall|key: Seq<u8>|
        covers(lo, hi, key) && #[trigger] read_at(operator, h, key, seq) != Read::Value(None)
            ==> exists|i: int| 0 <= i < rows.len() && (#[trigger] rows[i]).key == key
}

/// A scan has one outcome: two lists of rows that are both what a scan
/// comes to are the same.
pub proof fn lemma_scan_unique(
    operator: Option<Arc<dyn MergeOperator>>,
    h: Seq<Logged>,
    lo: Seq<u8>,
    hi: Seq<u8>,
    seq: u64,
    a: Seq<RowView>,
    b: Seq<RowView>,
)
    requires
        is_scan(operator, h, lo, hi, seq, a),
        is_scan(operator, h, lo, hi, seq, b),
    ensures
        a == b,
{
    lemma_scan_prefix(operator, h, lo, hi, seq, a, b, a.len() as int);
    lemma_scan_prefix(operator, h, lo, hi, seq, b, a, b.len() as int);
    assert(a =~= b);
}

proof fn lemma_scan_prefix(
    operator: Option<Arc<dyn MergeOperator>>,
    h: Seq<Logged>,
    lo: Seq<u8>,
    hi: Seq<u8>,
    seq: u64,
    a: Seq<RowView>,
    b: Seq<RowView>,
    n: int,
)
    requires
        is_scan(operator, h, lo, hi, seq, a),
        is_scan(operator, h, lo, hi, seq, b),
        0 <= n <= a.len(),
    ensures
        n <= b.len(),
        forall|i: int| 0 <= i < n ==> a[i] == b[i],
    decreases n,
{
    if n > 0 {
        lemma_scan_prefix(operator, h, lo, hi, seq, a, b, n - 1);
        let k = a[n - 1].key;
        assert(read_at(operator, h, k, seq) != Read::Value(None));
        let j = choose|j: int| 0 <= j < b.len() && (#[trigger] b[j]).key == k;
        lemma_bytes_lt_irreflexive(k);
        if j < n - 1 {
            assert(a[j] == b[j]);
            assert(bytes_lt(a[j].key, a[n - 1].key));
        }
        if j > n - 1 {
            let m = b[n - 1].key;
            assert(bytes_lt(b[n - 1].key, b[j].key));
            assert(read_at(operator, h, m, seq) != Read::Value(None));
            let i = choose|i: int| 0 <= i < a.len() && (#[trigger] a[i]).key == m;
            lemma_bytes_lt_asymmetric(m, k);
            lemma_bytes_lt_irreflexive(m);
            if i < n - 1 {
                assert(a[i] == b[i]);
                assert(bytes_lt(b[i].key, b[n - 1].key));
            }
            if i > n - 1 {
                assert(bytes_lt(a[n - 1].key, a[i].key));
            }
        }
    }
}

} // verus!
