//! Facts about document order and about walking a document.
use vstd::prelude::*;
use crate::coordinate::{
    advanced, break_dimension, is_delimiter, is_valid, origin, precedes, precedes_from,
    step, walk,
};

verus! {

/// `a` and `b` agree before dimension `k` and `a` is lower at `k`.
pub open spec fn lower_at(a: Seq<int>, b: Seq<int>, k: int) -> bool {
    &&& 0 <= k < 9
    &&& forall|j: int| 0 <= j < k ==> a[j] == b[j]
    &&& a[k] < b[k]
}

/// `a` comes before `b` or is `b`.
pub open spec fn not_after(a: Seq<int>, b: Seq<int>) -> bool {
    precedes(a, b) || a == b
}

proof fn lemma_precedes_from_witness(a: Seq<int>, b: Seq<int>, d: int)
    requires
        0 <= d <= 9,
    ensures
        precedes_from(a, b, d) <==> exists|k: int|
            d <= k < 9 && a[k] < b[k] && forall|j: int| d <= j < k ==> a[j] == b[j],
    decreases 9 - d,
{
    if d < 9 {
        lemma_precedes_from_witness(a, b, d + 1);
        if precedes_from(a, b, d) {
            if a[d] < b[d] {
                assert(d <= d < 9 && a[d] < b[d] && forall|j: int| d <= j < d ==> a[j] == b[j]);
            } else {
                let k = choose|k: int|
                    d + 1 <= k < 9 && a[k] < b[k] && forall|j: int| d + 1 <= j < k ==> a[j]
                        == b[j];
                assert(d <= k < 9 && a[k] < b[k] && forall|j: int| d <= j < k ==> a[j] == b[j]);
            }
        } else {
            assert forall|k: int|
                d <= k < 9 && a[k] < b[k] implies !(forall|j: int|
                d <= j < k ==> a[j] == b[j]) by {
                if k > d && a[d] == b[d] && (forall|j: int| d <= j < k ==> a[j] == b[j]) {
                    assert(forall|j: int| d + 1 <= j < k ==> a[j] == b[j]);
                }
            }
        }
    }
}

/// `a` precedes `b` exactly when they first differ at a dimension where `a` is lower.
pub proof fn lemma_precedes_witness(a: Seq<int>, b: Seq<int>)
    ensures
        precedes(a, b) <==> exists|k: int| lower_at(a, b, k),
{
    lemma_precedes_from_witness(a, b, 0);
    if precedes(a, b) {
        let k = choose|k: int|
            0 <= k < 9 && a[k] < b[k] && forall|j: int| 0 <= j < k ==> a[j] == b[j];
        assert(lower_at(a, b, k));
    }
    if exists|k: int| lower_at(a, b, k) {
        let k = choose|k: int| lower_at(a, b, k);
        assert(0 <= k < 9 && a[k] < b[k] && forall|j: int| 0 <= j < k ==> a[j] == b[j]);
    }
}

/// Document order is a strict total order on nine-index coordinates.
pub proof fn lemma_order(a: Seq<int>, b: Seq<int>, c: Seq<int>)
    requires
        a.len() == 9,
        b.len() == 9,
        c.len() == 9,
    ensures
        !precedes(a, a),
        precedes(a, b) ==> !precedes(b, a),
        precedes(a, b) && precedes(b, c) ==> precedes(a, c),
        a != b ==> precedes(a, b) || precedes(b, a),
{
    lemma_precedes_witness(a, a);
    lemma_precedes_witness(a, b);
    lemma_precedes_witness(b, a);
    lemma_precedes_witness(b, c);
    lemma_precedes_witness(a, c);
    if precedes(a, b) && precedes(b, a) {
        let k = choose|k: int| lower_at(a, b, k);
        let m = choose|m: int| lower_at(b, a, m);
        if k < m {
            assert(a[k] == b[k]);
        } else if m < k {
            assert(a[m] == b[m]);
        }
    }
    if precedes(a, b) && precedes(b, c) {
        let k = choose|k: int| lower_at(a, b, k);
        let m = choose|m: int| lower_at(b, c, m);
        let w = if k < m {
            k
        } else {
            m
        };
        assert(lower_at(a, c, w));
    }
    if a != b {
        if !(a =~= b) {
        }
        let j = choose|j: int| 0 <= j < 9 && a[j] != b[j];
        first_difference(a, b, j);
    }
}

proof fn first_difference(a: Seq<int>, b: Seq<int>, j: int)
    requires
        0 <= j < 9,
        a[j] != b[j],
    ensures
        precedes(a, b) || precedes(b, a),
    decreases j,
{
    lemma_precedes_witness(a, b);
    lemma_precedes_witness(b, a);
    if exists|i: int| 0 <= i < j && a[i] != b[i] {
        let i = choose|i: int| 0 <= i < j && a[i] != b[i];
        first_difference(a, b, i);
    } else {
        if a[j] < b[j] {
            assert(lower_at(a, b, j));
        } else {
            assert(lower_at(b, a, j));
        }
    }
}

/// The first coordinate comes before or is any valid coordinate.
pub proof fn lemma_origin_first(c: Seq<int>)
    requires
        is_valid(c),
    ensures
        not_after(origin(), c),
{
    if origin() != c {
        lemma_order(origin(), c, c);
        lemma_precedes_witness(c, origin());
        if precedes(c, origin()) {
            let k = choose|k: int| lower_at(c, origin(), k);
            assert(c[k] >= 1);
        }
    }
}

/// A break keeps a coordinate valid.
pub proof fn lemma_step_valid(c: Seq<int>, x: u8)
    requires
        is_valid(c),
    ensures
        is_valid(step(c, x)),
{
    if is_delimiter(x) {
        let r = advanced(c, break_dimension(x));
        assert forall|d: int| 0 <= d < 9 implies 1 <= #[trigger] r[d] <= 100 by {
            assert(1 <= c[d] <= 100);
        }
    }
}

/// Walking from a valid coordinate stays valid.
pub proof fn lemma_walk_valid(c: Seq<int>, b: Seq<u8>, p: int)
    requires
        is_valid(c),
    ensures
        is_valid(walk(c, b, p)),
    decreases p,
{
    if p > 0 {
        lemma_walk_valid(c, b, p - 1);
        lemma_step_valid(walk(c, b, p - 1), b[p - 1]);
    }
}

/// Walking the first `p` bytes of `a + b` is walking `a`.
pub proof fn lemma_walk_prefix(c: Seq<int>, a: Seq<u8>, b: Seq<u8>, p: int)
    requires
        0 <= p <= a.len(),
    ensures
        walk(c, a + b, p) == walk(c, a, p),
    decreases p,
{
    if p > 0 {
        lemma_walk_prefix(c, a, b, p - 1);
        assert((a + b)[p - 1] == a[p - 1]);
    }
}

/// Walking past `a` into `b` is walking `b` from where `a` ends.
pub proof fn lemma_walk_suffix(c: Seq<int>, a: Seq<u8>, b: Seq<u8>, q: int)
    requires
        0 <= q <= b.len(),
    ensures
        walk(c, a + b, a.len() + q) == walk(walk(c, a, a.len() as int), b, q),
    decreases q,
{
    if q == 0 {
        lemma_walk_prefix(c, a, b, a.len() as int);
    } else {
        lemma_walk_suffix(c, a, b, q - 1);
        assert((a + b)[a.len() + q - 1] == b[q - 1]);
    }
}

/// Text without breaks does not move the coordinate.
pub proof fn lemma_walk_text(c: Seq<int>, t: Seq<u8>, q: int)
    requires
        0 <= q <= t.len(),
        forall|i: int| 0 <= i < t.len() ==> !is_delimiter(#[trigger] t[i]),
    ensures
        walk(c, t, q) == c,
    decreases q,
{
    if q > 0 {
        lemma_walk_text(c, t, q - 1);
    }
}

} // verus!
