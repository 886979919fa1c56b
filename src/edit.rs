//! Reading and editing a document at a coordinate.
use vstd::prelude::*;
use crate::coordinate::{
    advanced, break_dimension, delimiter_byte, delimiter_of, is_valid, precedes, walk, Coordinate,
    Range,
};
use crate::order::{
    lemma_order, lemma_precedes_witness, lemma_walk_prefix, lemma_walk_suffix, lower_at, not_after,
};
use crate::scanner::{
    get_subspace_coordinates, lemma_span_ends_beside_breaks, span_end, span_nearest, span_start,
};
use crate::utf8::{
    all_ascii, bytes_of, bytes_of_str, lemma_ascii_valid, lemma_concat_valid, lemma_slice_valid,
    push_range, string_of_bytes,
};

verus! {

/// An index held at the largest valid value.
pub open spec fn cap(v: int) -> int {
    if v < 100 {
        v
    } else {
        100
    }
}

/// How many breaks of dimension `d` carry index `d` of `cur` up to that of `t`.
pub open spec fn fill_count(cur: Seq<int>, t: Seq<int>, d: int) -> int {
    if cur[d] < cap(t[d]) {
        cap(t[d]) - cur[d]
    } else {
        0
    }
}

/// `c` after `k` breaks of dimension `d`, none of them held at the maximum.
pub open spec fn lifted(c: Seq<int>, d: int, k: int) -> Seq<int> {
    if k <= 0 {
        c
    } else {
        Seq::new(9, |j: int| if j < d { c[j] } else if j == d { c[j] + k } else { 1 })
    }
}

/// `k` copies of byte `x`.
pub open spec fn repeat_byte(x: u8, k: int) -> Seq<u8> {
    Seq::new(k as nat, |_i: int| x)
}

/// The breaks that lead from `cur` to `t`, dimension by dimension from `d` on: each
/// dimension is raised to the index of `t` (held at the maximum) with its own break.
pub open spec fn gap_from(cur: Seq<int>, t: Seq<int>, d: int) -> Seq<u8>
    decreases 9 - d,
{
    if d < 0 || d >= 9 {
        Seq::empty()
    } else {
        repeat_byte(delimiter_of(d), fill_count(cur, t, d)) + gap_from(
            lifted(cur, d, fill_count(cur, t, d)),
            t,
            d + 1,
        )
    }
}

/// The breaks that lead from `cur` to `t`.
pub open spec fn gap(cur: Seq<int>, t: Seq<int>) -> Seq<u8> {
    gap_from(cur, t, 0)
}

/// `b` with the breaks up to `t` and then `text` added where the span of `t` ends.
pub open spec fn insert_spec(b: Seq<u8>, t: Seq<int>, text: Seq<u8>) -> Seq<u8> {
    b.subrange(0, span_end(b, t)) + gap(span_nearest(b, t), t) + text + b.subrange(
        span_end(b, t),
        b.len() as int,
    )
}

/// `b` with the span of `t` replaced by the breaks up to `t` and then `text`.
pub open spec fn replace_spec(b: Seq<u8>, t: Seq<int>, text: Seq<u8>) -> Seq<u8> {
    b.subrange(0, span_start(b, t)) + gap(span_nearest(b, t), t) + text + b.subrange(
        span_end(b, t),
        b.len() as int,
    )
}

/// The bytes of the span of `t`.
pub open spec fn fetch_spec(b: Seq<u8>, t: Seq<int>) -> Seq<u8> {
    if span_start(b, t) < span_end(b, t) {
        b.subrange(span_start(b, t), span_end(b, t))
    } else {
        Seq::empty()
    }
}

/// `b` with everything from the start of the span of `s` to the end of the span of `e`
/// replaced by `text`.
pub open spec fn range_replace_spec(b: Seq<u8>, s: Seq<int>, e: Seq<int>, text: Seq<u8>) -> Seq<
    u8,
> {
    b.subrange(0, span_start(b, s)) + text + b.subrange(span_end(b, e), b.len() as int)
}

/// Gap bytes are dimension breaks, hence ASCII.
pub proof fn lemma_gap_ascii(cur: Seq<int>, t: Seq<int>, d: int)
    ensures
        all_ascii(gap_from(cur, t, d)),
    decreases 9 - d,
{
    if 0 <= d < 9 {
        lemma_gap_ascii(lifted(cur, d, fill_count(cur, t, d)), t, d + 1);
        let r = repeat_byte(delimiter_of(d), fill_count(cur, t, d));
        let g = gap_from(cur, t, d);
        assert(all_ascii(r));
        assert forall|i: int| 0 <= i < g.len() implies #[trigger] g[i] < 0x80 by {
            if i >= r.len() {
                assert(g[i] == gap_from(lifted(cur, d, fill_count(cur, t, d)), t, d + 1)[i
                    - r.len()]);
            }
        }
    }
}

/// Walking `i` breaks of dimension `d` raises index `d` by `i`.
proof fn lemma_walk_repeat(cur: Seq<int>, d: int, m: int, i: int)
    requires
        cur.len() == 9,
        0 <= d < 9,
        0 <= i <= m,
        cur[d] + m <= 100,
    ensures
        walk(cur, repeat_byte(delimiter_of(d), m), i) == lifted(cur, d, i),
    decreases i,
{
    if i > 0 {
        let r = repeat_byte(delimiter_of(d), m);
        lemma_walk_repeat(cur, d, m, i - 1);
        assert(r[i - 1] == delimiter_of(d));
        assert(break_dimension(delimiter_of(d)) == d);
        assert(advanced(lifted(cur, d, i - 1), d) =~= lifted(cur, d, i));
    }
}

/// Walking the gap from `cur` to a valid `t` not before it ends at `t`, and every
/// coordinate met on the way before the end comes before `t`.
pub proof fn lemma_gap_walk(cur: Seq<int>, t: Seq<int>, d: int)
    requires
        is_valid(t),
        cur.len() == 9,
        0 <= d <= 9,
        forall|j: int| 0 <= j < d ==> cur[j] == t[j],
        not_after(cur, t),
    ensures
        walk(cur, gap_from(cur, t, d), gap_from(cur, t, d).len() as int) == t,
        forall|p: int|
            0 <= p < gap_from(cur, t, d).len() ==> precedes(
                #[trigger] walk(cur, gap_from(cur, t, d), p),
                t,
            ),
    decreases 9 - d,
{
    let g = gap_from(cur, t, d);
    if d == 9 {
        assert(cur =~= t);
    } else {
        lemma_order(cur, t, t);
        lemma_order(t, cur, cur);
        if cur[d] > t[d] {
            assert(lower_at(t, cur, d));
            lemma_precedes_witness(t, cur);
        }
        let m = fill_count(cur, t, d);
        let next = lifted(cur, d, m);
        let rep = repeat_byte(delimiter_of(d), m);
        let rest = gap_from(next, t, d + 1);
        assert(g == rep + rest);
        if m > 0 {
            assert(not_after(next, t)) by {
                if next != t {
                    lemma_order(next, t, t);
                    lemma_precedes_witness(t, next);
                    if precedes(t, next) {
                        let k = choose|k: int| lower_at(t, next, k);
                        assert(t[k] >= 1);
                    }
                }
            }
        }
        lemma_gap_walk(next, t, d + 1);
        assert forall|p: int| 0 <= p <= g.len() implies (p < g.len() ==> precedes(
            #[trigger] walk(cur, g, p),
            t,
        )) && (p == g.len() ==> walk(cur, g, p) == t) by {
            if p <= m {
                lemma_walk_prefix(cur, rep, rest, p);
                lemma_walk_repeat(cur, d, m, p);
                if p < m {
                    assert(lower_at(lifted(cur, d, p), t, d));
                    lemma_precedes_witness(lifted(cur, d, p), t);
                } else {
                    lemma_walk_repeat(cur, d, m, m);
                    lemma_walk_suffix(cur, rep, rest, 0);
                    assert(walk(cur, rep, rep.len() as int) == next);
                }
            }
            if p >= m {
                lemma_walk_repeat(cur, d, m, m);
                lemma_walk_suffix(cur, rep, rest, p - m);
                assert(walk(cur, rep, rep.len() as int) == next);
            }
        }
    }
}

/// Adds to `out` the breaks of dimension `d` that raise `cur` to the index of `to`.
fn fill_dimension(out: &mut Vec<u8>, cur: &mut Coordinate, to: &Coordinate, d: usize)
    requires
        d < 9,
    ensures
        final(out)@ == old(out)@ + repeat_byte(
            delimiter_of(d as int),
            fill_count(old(cur)@, to@, d as int),
        ),
        final(cur)@ == lifted(old(cur)@, d as int, fill_count(old(cur)@, to@, d as int)),
{
    let ghost c0 = cur@;
    let ghost o0 = out@;
    let delim = delimiter_byte(d);
    let target = to.dim(d);
    let goal = if target < 100 {
        target
    } else {
        100
    };
    while cur.dim(d) < goal
        invariant
            d < 9,
            goal as int == cap(to@[d as int]),
            delim == delimiter_of(d as int),
            c0[d as int] <= cur@[d as int],
            cur@[d as int] <= goal || cur@[d as int] == c0[d as int],
            cur@ == lifted(c0, d as int, cur@[d as int] - c0[d as int]),
            out@ == o0 + repeat_byte(delim, cur@[d as int] - c0[d as int]),
        decreases goal - cur@[d as int],
    {
        let ghost k = cur@[d as int] - c0[d as int];
        out.push(delim);
        cur.advance(d);
        assert(cur@ =~= lifted(c0, d as int, k + 1));
        assert(out@ =~= o0 + repeat_byte(delim, k + 1));
    }
}

/// The breaks that lead from `from` to `to`.
pub(crate) fn gap_fill(from: Coordinate, to: &Coordinate) -> (r: Vec<u8>)
    ensures
        r@ == gap(from@, to@),
{
    let mut out: Vec<u8> = Vec::new();
    let mut cur = from;
    let mut d: usize = 0;
    assert(out@ + gap_from(cur@, to@, 0) =~= gap(from@, to@));
    while d < 9
        invariant
            d <= 9,
            out@ + gap_from(cur@, to@, d as int) == gap(from@, to@),
        decreases 9 - d,
    {
        let ghost o = out@;
        let ghost c = cur@;
        fill_dimension(&mut out, &mut cur, to, d);
        assert(o + gap_from(c, to@, d as int) =~= out@ + gap_from(cur@, to@, d + 1));
        d += 1;
    }
    assert(out@ + gap_from(cur@, to@, 9) =~= out@);
    out
}

/// Joins `b[..cut]`, `middle` and `b[resume..]` into a string.
fn splice(b: &[u8], cut: usize, fixup: &Vec<u8>, text: &[u8], resume: usize) -> (r: String)
    requires
        cut <= b@.len(),
        resume <= b@.len(),
        vstd::utf8::valid_utf8(b@),
        vstd::utf8::valid_utf8(text@),
        crate::utf8::beside_ascii(b@, cut as int),
        crate::utf8::beside_ascii(b@, resume as int),
        all_ascii(fixup@),
    ensures
        bytes_of(r@) == b@.subrange(0, cut as int) + fixup@ + text@ + b@.subrange(
            resume as int,
            b@.len() as int,
        ),
{
    let mut out: Vec<u8> = Vec::new();
    push_range(&mut out, b, 0, cut);
    push_range(&mut out, fixup.as_slice(), 0, fixup.len());
    push_range(&mut out, text, 0, text.len());
    push_range(&mut out, b, resume, b.len());
    proof {
        let left = b@.subrange(0, cut as int);
        let right = b@.subrange(resume as int, b@.len() as int);
        assert(fixup@.subrange(0, fixup@.len() as int) =~= fixup@);
        assert(text@.subrange(0, text@.len() as int) =~= text@);
        lemma_slice_valid(b@, 0, cut as int);
        lemma_slice_valid(b@, resume as int, b@.len() as int);
        lemma_ascii_valid(fixup@);
        lemma_concat_valid(left, fixup@);
        lemma_concat_valid(left + fixup@, text@);
        lemma_concat_valid(left + fixup@ + text@, right);
        assert(out@ =~= left + fixup@ + text@ + right);
    }
    string_of_bytes(out)
}

/// Inserts `scroll` at `location`: after the text already there, or, where the document
/// does not reach `location`, after the breaks that lead to it.
pub fn insert(phext: &str, location: Coordinate, scroll: &str) -> (r: String)
    ensures
        bytes_of(r@) == insert_spec(bytes_of(phext@), location@, bytes_of(scroll@)),
{
    let bytes = bytes_of_str(phext);
    let parts = get_subspace_coordinates(bytes, location);
    let end = parts.1;
    let fixup = gap_fill(parts.2, &location);
    let text = bytes_of_str(scroll);
    proof {
        lemma_span_ends_beside_breaks(bytes@, location@);
        lemma_gap_ascii(parts.2@, location@, 0);
    }
    splice(bytes, end, &fixup, text, end)
}

/// Replaces the text at `location` with `scroll`, creating the coordinate where the
/// document does not reach it.
pub fn replace(phext: &str, location: Coordinate, scroll: &str) -> (r: String)
    ensures
        bytes_of(r@) == replace_spec(bytes_of(phext@), location@, bytes_of(scroll@)),
{
    let bytes = bytes_of_str(phext);
    let parts = get_subspace_coordinates(bytes, location);
    let fixup = gap_fill(parts.2, &location);
    let text = bytes_of_str(scroll);
    proof {
        lemma_span_ends_beside_breaks(bytes@, location@);
        lemma_gap_ascii(parts.2@, location@, 0);
    }
    splice(bytes, parts.0, &fixup, text, parts.1)
}

/// Replaces everything from the start of `location.start` to the end of `location.end`
/// with `scroll`.
pub fn range_replace(phext: &str, location: Range, scroll: &str) -> (r: String)
    ensures
        bytes_of(r@) == range_replace_spec(
            bytes_of(phext@),
            location.start@,
            location.end@,
            bytes_of(scroll@),
        ),
{
    let bytes = bytes_of_str(phext);
    let parts_start = get_subspace_coordinates(bytes, location.start);
    let parts_end = get_subspace_coordinates(bytes, location.end);
    let fixup: Vec<u8> = Vec::new();
    let text = bytes_of_str(scroll);
    proof {
        lemma_span_ends_beside_breaks(bytes@, location.start@);
        lemma_span_ends_beside_breaks(bytes@, location.end@);
        assert(all_ascii(fixup@));
    }
    let r = splice(bytes, parts_start.0, &fixup, text, parts_end.1);
    assert(bytes@.subrange(0, parts_start.0 as int) + fixup@ =~= bytes@.subrange(
        0,
        parts_start.0 as int,
    ));
    r
}

/// The text at `target`, or an empty string where the document holds none there.
pub fn fetch(phext: &str, target: Coordinate) -> (r: String)
    ensures
        bytes_of(r@) == fetch_spec(bytes_of(phext@), target@),
{
    let bytes = bytes_of_str(phext);
    let parts = get_subspace_coordinates(bytes, target);
    let start = parts.0;
    let end = parts.1;
    proof {
        lemma_span_ends_beside_breaks(bytes@, target@);
    }
    let mut out: Vec<u8> = Vec::new();
    if end > start {
        push_range(&mut out, bytes, start, end);
        proof {
            lemma_slice_valid(bytes@, start as int, end as int);
            assert(out@ =~= bytes@.subrange(start as int, end as int));
        }
    } else {
        proof {
            lemma_ascii_valid(out@);
        }
    }
    string_of_bytes(out)
}

} // verus!
