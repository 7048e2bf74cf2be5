//! The order of keys, by the byte that decides it.

use vstd::prelude::*;

use crate::bytes;
use crate::bytes::bytes_lt;

verus! {

/// `a` comes before `b` in a dictionary: they agree up to some place, and
/// there `a` has ended, or holds the smaller byte.
pub open spec fn sorts_before(a: Seq<u8>, b: Seq<u8>) -> bool {
    exists|n: int|
        0 <= n <= a.len() && n < b.len() && #[trigger] a.take(n) == b.take(n) && (n == a.len()
            || a[n] < b[n])
}

/// Keys sort as in a dictionary: the first byte in which two differ decides,
/// and a key comes before the keys that extend it.
pub proof fn law_order_of_keys(a: Seq<u8>, b: Seq<u8>)
    ensures
        bytes_lt(a, b) <==> sorts_before(a, b),
    decreases a.len(),
{
    if b.len() == 0 {
    } else if a.len() == 0 {
        assert(a.take(0) =~= b.take(0));
    } else if a[0] != b[0] {
        if a[0] < b[0] {
            assert(a.take(0) =~= b.take(0));
        }
        if sorts_before(a, b) {
            let n = choose|n: int|
                0 <= n <= a.len() && n < b.len() && #[trigger] a.take(n) == b.take(n) && (n
                    == a.len() || a[n] < b[n]);
            if n > 0 {
                assert(a.take(n)[0] == b.take(n)[0]);
            }
        }
    } else {
        let x = a.drop_first();
        let y = b.drop_first();
        law_order_of_keys(x, y);
        if sorts_before(x, y) {
            let n = choose|n: int|
                0 <= n <= x.len() && n < y.len() && #[trigger] x.take(n) == y.take(n) && (n
                    == x.len() || x[n] < y[n]);
            assert forall|i: int| 0 <= i < n + 1 implies #[trigger] a.take(n + 1)[i] == b.take(n + 1)[i] by {
                if i > 0 {
                    assert(x.take(n)[i - 1] == y.take(n)[i - 1]);
                }
            }
            assert(a.take(n + 1) =~= b.take(n + 1));
        }
        if sorts_before(a, b) {
            let n = choose|n: int|
                0 <= n <= a.len() && n < b.len() && #[trigger] a.take(n) == b.take(n) && (n
                    == a.len() || a[n] < b[n]);
            assert(n > 0);
            assert forall|i: int| 0 <= i < n - 1 implies #[trigger] x.take(n - 1)[i] == y.take(n - 1)[i] by {
                assert(a.take(n)[i + 1] == b.take(n)[i + 1]);
            }
            assert(x.take(n - 1) =~= y.take(n - 1));
        }
    }
}

/// Comparing two byte strings tells which comes first in a dictionary.
pub proof fn law_comparison(a: &[u8], b: &[u8], r: bool)
    requires
        call_ensures(bytes::lt, (a, b), r),
    ensures
        r <==> sorts_before(a@, b@),
{
    law_order_of_keys(a@, b@);
}

} // verus!
