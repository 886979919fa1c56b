//! Laws relating the editing operations: what `fetch` sees after `insert` and `replace`.
use vstd::prelude::*;
use crate::coordinate::{break_dimension, coord_at, is_delimiter, is_valid, origin, precedes, walk};
use crate::edit::{
    fetch_spec, fill_count, gap, gap_from, insert_spec, lemma_gap_walk, lifted, replace_spec,
};
use crate::order::{
    lemma_order, lemma_origin_first, lemma_precedes_witness, lemma_walk_prefix, lemma_walk_suffix,
    lemma_walk_valid, lower_at, not_after,
};
use crate::canonical::lemma_first_break_at;
use crate::scanner::{
    first_exact, first_past, lemma_first_break_bounds, lemma_first_exact_bounds,
    lemma_first_past_bounds, span_end, span_found, span_nearest, span_start,
};

verus! {

/// `t` holds no dimension break.
pub open spec fn no_breaks(t: Seq<u8>) -> bool {
    forall|i: int| 0 <= i < t.len() ==> !is_delimiter(#[trigger] t[i])
}

/// Read from `c`, no break of `b` meets a dimension already at its largest index, so
/// reading `b` never moves backwards.
pub open spec fn unclamped_from(c: Seq<int>, b: Seq<u8>) -> bool {
    forall|p: int|
        0 <= p < b.len() && is_delimiter(#[trigger] b[p]) ==> walk(c, b, p)[break_dimension(
            b[p],
        )] < 100
}

/// No break of document `b` meets a dimension already at its largest index.
pub open spec fn unclamped(b: Seq<u8>) -> bool {
    unclamped_from(origin(), b)
}

proof fn lemma_first_exact_at(b: Seq<u8>, t: Seq<int>, x: int, p: int)
    requires
        0 <= p <= x <= b.len(),
        coord_at(b, x) == t,
        forall|q: int| p <= q < x ==> coord_at(b, q) != t,
    ensures
        first_exact(b, t, p) == x,
    decreases x - p,
{
    if p < x {
        lemma_first_exact_at(b, t, x, p + 1);
    }
}

/// Reading from a valid coordinate without clamped breaks never moves backwards.
pub proof fn lemma_walk_monotone(c: Seq<int>, b: Seq<u8>, p: int, q: int)
    requires
        is_valid(c),
        unclamped_from(c, b),
        0 <= p <= q <= b.len(),
    ensures
        not_after(walk(c, b, p), walk(c, b, q)),
    decreases q - p,
{
    if p < q {
        lemma_walk_monotone(c, b, p, q - 1);
        let x = walk(c, b, q - 1);
        let y = walk(c, b, q);
        lemma_walk_valid(c, b, p);
        lemma_walk_valid(c, b, q - 1);
        lemma_walk_valid(c, b, q);
        if is_delimiter(b[q - 1]) {
            let d = break_dimension(b[q - 1]);
            assert(x[d] < 100);
            assert(lower_at(x, y, d));
            lemma_precedes_witness(x, y);
        }
        lemma_order(walk(c, b, p), x, y);
    } else {
        lemma_walk_valid(c, b, p);
    }
}

/// The gap from a coordinate to itself is empty.
proof fn lemma_gap_same(c: Seq<int>, d: int)
    ensures
        gap_from(c, c, d).len() == 0,
    decreases 9 - d,
{
    if 0 <= d < 9 {
        assert(fill_count(c, c, d) == 0);
        assert(lifted(c, d, 0) == c);
        lemma_gap_same(c, d + 1);
    }
}

/// Coordinates of `b[..s] + m + b[e..]`: the kept prefix reads as in `b`.
proof fn lemma_splice_prefix(b: Seq<u8>, s: int, e: int, m: Seq<u8>, p: int)
    requires
        0 <= p <= s <= e <= b.len(),
    ensures
        coord_at(b.subrange(0, s) + m + b.subrange(e, b.len() as int), p) == coord_at(b, p),
{
    let pre = b.subrange(0, s);
    let post = b.subrange(e, b.len() as int);
    lemma_walk_prefix(origin(), pre + m, post, p);
    lemma_walk_prefix(origin(), pre, m, p);
    assert(pre + b.subrange(s, b.len() as int) =~= b);
    lemma_walk_prefix(origin(), pre, b.subrange(s, b.len() as int), p);
}

/// Coordinates of `b[..s] + m + b[e..]` inside `m`.
proof fn lemma_splice_middle(b: Seq<u8>, s: int, e: int, m: Seq<u8>, i: int)
    requires
        0 <= s <= e <= b.len(),
        0 <= i <= m.len(),
    ensures
        coord_at(b.subrange(0, s) + m + b.subrange(e, b.len() as int), s + i) == walk(
            coord_at(b, s),
            m,
            i,
        ),
{
    let pre = b.subrange(0, s);
    let post = b.subrange(e, b.len() as int);
    lemma_walk_prefix(origin(), pre + m, post, s + i);
    lemma_walk_suffix(origin(), pre, m, i);
    lemma_splice_prefix(b, s, e, m, s);
    lemma_walk_prefix(origin(), pre + m, post, s);
    lemma_walk_prefix(origin(), pre, m, s);
}

/// The span of a valid coordinate: what holds at its ends.
proof fn lemma_span_facts(b: Seq<u8>, c: Seq<int>)
    requires
        is_valid(c),
    ensures
        0 <= span_start(b, c) <= span_end(b, c) <= b.len(),
        span_end(b, c) == b.len() || is_delimiter(b[span_end(b, c)]),
        forall|p: int| 0 <= p < span_start(b, c) ==> #[trigger] coord_at(b, p) != c,
        span_found(b, c) ==> coord_at(b, span_start(b, c)) == c,
        span_found(b, c) ==> forall|k: int|
            span_start(b, c) <= k < span_end(b, c) ==> !is_delimiter(#[trigger] b[k]),
        !span_found(b, c) ==> span_start(b, c) == span_end(b, c) && precedes(
            coord_at(b, span_end(b, c)),
            c,
        ),
        !span_found(b, c) ==> forall|p: int| 0 <= p <= b.len() ==> #[trigger] coord_at(b, p) != c,
{
    lemma_first_exact_bounds(b, c, 0);
    lemma_first_past_bounds(b, c, 0);
    let e = first_past(b, c, 0);
    let f = first_exact(b, c, 0);
    if span_found(b, c) {
        lemma_first_break_bounds(b, f);
    } else {
        lemma_walk_valid(origin(), b, e);
        lemma_origin_first(c);
        lemma_order(c, c, c);
        assert(!precedes(c, coord_at(b, e))) by {
            if e > 0 {
                let j = e - 1;
                assert(!precedes(c, coord_at(b, j + 1)));
            } else {
                lemma_order(origin(), c, c);
            }
        }
        if e < b.len() {
            if !is_delimiter(b[e]) {
                assert(coord_at(b, e + 1) == coord_at(b, e));
            }
        }
        assert forall|p: int| 0 <= p <= b.len() implies #[trigger] coord_at(b, p) != c by {
        }
        lemma_order(coord_at(b, e), c, c);
    }
}

/// Inserting text without breaks at a valid coordinate appends it to the text already
/// there: `fetch(insert(d, c, t), c) == fetch(d, c) + t`.
pub proof fn lemma_insert_appends(d: Seq<u8>, c: Seq<int>, t: Seq<u8>)
    requires
        is_valid(c),
        no_breaks(t),
    ensures
        fetch_spec(insert_spec(d, c, t), c) == fetch_spec(d, c) + t,
{
    lemma_span_facts(d, c);
    let n = d.len() as int;
    let e = span_end(d, c);
    let s = span_start(d, c);
    let nc = span_nearest(d, c);
    let g = gap(nc, c);
    let m = g + t;
    let b2 = insert_spec(d, c, t);
    assert(b2 =~= d.subrange(0, e) + m + d.subrange(e, n));
    let x = s + (if span_found(d, c) { 0int } else { g.len() as int });
    if span_found(d, c) {
        lemma_gap_same(c, 0);
        assert(m =~= t);
        assert forall|q: int| 0 <= q < s implies coord_at(b2, q) != c by {
            lemma_splice_prefix(d, e, e, m, q);
        }
        lemma_splice_prefix(d, e, e, m, s);
        lemma_first_exact_at(b2, c, s, 0);
    } else {
        lemma_walk_valid(origin(), d, e);
        lemma_gap_walk(nc, c, 0);
        assert forall|q: int| 0 <= q < e + g.len() implies coord_at(b2, q) != c by {
            if q <= e {
                lemma_splice_prefix(d, e, e, m, q);
            } else {
                lemma_splice_middle(d, e, e, m, q - e);
                lemma_walk_prefix(nc, g, t, q - e);
                lemma_walk_valid(nc, g, q - e);
                lemma_order(c, c, c);
            }
        }
        lemma_splice_middle(d, e, e, m, g.len() as int);
        lemma_walk_prefix(nc, g, t, g.len() as int);
        lemma_first_exact_at(b2, c, e + g.len(), 0);
    }
    // the span in the new document runs from `x` over the rest of the old span and `t`
    let y = e + m.len();
    assert forall|k: int| x <= k < y implies !is_delimiter(#[trigger] b2[k]) by {
        if k < e {
            assert(b2[k] == d[k]);
        } else {
            assert(b2[k] == m[k - e]);
            if k - e >= g.len() {
                assert(m[k - e] == t[k - e - g.len()]);
            }
        }
    }
    if y < b2.len() {
        assert(b2[y] == d[e]);
    }
    lemma_first_break_at(b2, y, x);
    assert(span_found(b2, c));
    assert(span_end(b2, c) == y);
    if span_found(d, c) {
        if s < y {
            assert(b2.subrange(s, y) =~= d.subrange(s, e) + t);
        }
        if s < e {
        } else {
            assert(d.subrange(s, e) + t =~= t);
        }
    } else {
        if t.len() > 0 {
            assert(b2.subrange(x, y) =~= t);
        }
        assert(Seq::<u8>::empty() + t =~= t);
    }
}

/// Replacing at a valid coordinate with text without breaks leaves exactly that text
/// there: `fetch(replace(d, c, t), c) == t`.
pub proof fn lemma_replace_overwrites(d: Seq<u8>, c: Seq<int>, t: Seq<u8>)
    requires
        is_valid(c),
        no_breaks(t),
    ensures
        fetch_spec(replace_spec(d, c, t), c) == t,
{
    lemma_span_facts(d, c);
    if !span_found(d, c) {
        lemma_insert_appends(d, c, t);
        assert(replace_spec(d, c, t) == insert_spec(d, c, t));
        assert(Seq::<u8>::empty() + t =~= t);
    } else {
        let n = d.len() as int;
        let e = span_end(d, c);
        let f = span_start(d, c);
        lemma_gap_same(c, 0);
        let m = gap(c, c) + t;
        assert(m =~= t);
        let b2 = replace_spec(d, c, t);
        assert(b2 =~= d.subrange(0, f) + m + d.subrange(e, n));
        assert forall|q: int| 0 <= q < f implies coord_at(b2, q) != c by {
            lemma_splice_prefix(d, f, e, m, q);
        }
        lemma_splice_prefix(d, f, e, m, f);
        lemma_first_exact_at(b2, c, f, 0);
        let y = f + t.len();
        assert forall|k: int| f <= k < y implies !is_delimiter(#[trigger] b2[k]) by {
            assert(b2[k] == t[k - f]);
        }
        if y < b2.len() {
            assert(b2[y] == d[e]);
        }
        lemma_first_break_at(b2, y, f);
        assert(span_end(b2, c) == y);
        if t.len() > 0 {
            assert(b2.subrange(f, y) =~= t);
        }
    }
}

/// Text inserted at a valid coordinate, without breaks, ends the text fetched there.
pub proof fn lemma_fetch_after_insert(d: Seq<u8>, c: Seq<int>, t: Seq<u8>)
    requires
        is_valid(c),
        no_breaks(t),
    ensures
        t.len() <= fetch_spec(insert_spec(d, c, t), c).len(),
        fetch_spec(insert_spec(d, c, t), c).subrange(
            fetch_spec(insert_spec(d, c, t), c).len() - t.len(),
            fetch_spec(insert_spec(d, c, t), c).len() as int,
        ) == t,
{
    lemma_insert_appends(d, c, t);
    let f = fetch_spec(d, c);
    assert((f + t).subrange(f.len() as int, (f + t).len() as int) =~= t);
}

/// Inserting twice at a valid coordinate, each time text without breaks, leaves both
/// texts there after the old text, in the order of insertion.
pub proof fn lemma_repeated_insert(d: Seq<u8>, c: Seq<int>, t1: Seq<u8>, t2: Seq<u8>)
    requires
        is_valid(c),
        no_breaks(t1),
        no_breaks(t2),
    ensures
        fetch_spec(insert_spec(insert_spec(d, c, t1), c, t2), c) == fetch_spec(d, c) + t1 + t2,
{
    lemma_insert_appends(d, c, t1);
    lemma_insert_appends(insert_spec(d, c, t1), c, t2);
}

} // verus!
