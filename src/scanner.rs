//! Dead reckoning: resolving a coordinate to a byte span by one pass over a document.
use vstd::prelude::*;
use crate::coordinate::{
    coord_at, default_coordinate, dimension_of, is_delimiter, lemma_view_injective, origin,
    precedes, step, walk, Coordinate,
};
use crate::utf8::beside_ascii;

verus! {

/// The first offset `q` in `[p, len]` at which the document stands at `t`, or `len + 1`.
pub open spec fn first_exact(b: Seq<u8>, t: Seq<int>, p: int) -> int
    decreases b.len() + 1 - p,
{
    if p < 0 || p > b.len() {
        b.len() + 1int
    } else if coord_at(b, p) == t {
        p
    } else {
        first_exact(b, t, p + 1)
    }
}

/// The first byte index `j` in `[p, len)` whose byte carries the document past `t`, or `len`.
pub open spec fn first_past(b: Seq<u8>, t: Seq<int>, p: int) -> int
    decreases b.len() - p,
{
    if p < 0 || p >= b.len() {
        b.len() as int
    } else if precedes(t, coord_at(b, p + 1)) {
        p
    } else {
        first_past(b, t, p + 1)
    }
}

/// The first index in `[p, len)` that holds a break, or `len`.
pub open spec fn first_break(b: Seq<u8>, p: int) -> int
    decreases b.len() - p,
{
    if p < 0 || p >= b.len() {
        b.len() as int
    } else if is_delimiter(b[p]) {
        p
    } else {
        first_break(b, p + 1)
    }
}

pub(crate) proof fn lemma_first_break_bounds(b: Seq<u8>, p: int)
    requires
        0 <= p <= b.len(),
    ensures
        p <= first_break(b, p) <= b.len(),
        first_break(b, p) < b.len() ==> is_delimiter(b[first_break(b, p)]),
        forall|k: int| p <= k < first_break(b, p) ==> !is_delimiter(#[trigger] b[k]),
    decreases b.len() - p,
{
    if p < b.len() && !is_delimiter(b[p]) {
        lemma_first_break_bounds(b, p + 1);
    }
}

/// The document reaches `t` exactly.
pub open spec fn span_found(b: Seq<u8>, t: Seq<int>) -> bool {
    first_exact(b, t, 0) <= b.len()
}

/// Where the span of `t` starts: where `t` is first reached, else where the document
/// passes `t` (or its end).
pub open spec fn span_start(b: Seq<u8>, t: Seq<int>) -> int {
    if span_found(b, t) {
        first_exact(b, t, 0)
    } else {
        first_past(b, t, 0)
    }
}

/// Where the span of `t` ends: when `t` is reached, at the first break from the start of
/// the span on (or the end); else where the span starts.
pub open spec fn span_end(b: Seq<u8>, t: Seq<int>) -> int {
    if span_found(b, t) {
        first_break(b, span_start(b, t))
    } else {
        first_past(b, t, 0)
    }
}

/// The coordinate in force where the span starts: `t` itself when it is present,
/// else the nearest coordinate before it.
pub open spec fn span_nearest(b: Seq<u8>, t: Seq<int>) -> Seq<int> {
    coord_at(b, span_start(b, t))
}

pub(crate) proof fn lemma_first_exact_bounds(b: Seq<u8>, t: Seq<int>, p: int)
    requires
        0 <= p <= b.len() + 1,
    ensures
        p <= first_exact(b, t, p) <= b.len() + 1,
        first_exact(b, t, p) <= b.len() ==> coord_at(b, first_exact(b, t, p)) == t,
        forall|q: int| p <= q < first_exact(b, t, p) && q <= b.len() ==> coord_at(b, q) != t,
    decreases b.len() + 1 - p,
{
    if p <= b.len() && coord_at(b, p) != t {
        lemma_first_exact_bounds(b, t, p + 1);
        assert forall|q: int| p <= q < first_exact(b, t, p) && q <= b.len() implies coord_at(
            b,
            q,
        ) != t by {
            if q > p {
            }
        }
    }
}

pub(crate) proof fn lemma_first_past_bounds(b: Seq<u8>, t: Seq<int>, p: int)
    requires
        0 <= p <= b.len(),
    ensures
        p <= first_past(b, t, p) <= b.len(),
        first_past(b, t, p) < b.len() ==> precedes(t, coord_at(b, first_past(b, t, p) + 1)),
        forall|j: int| p <= j < first_past(b, t, p) ==> !precedes(t, #[trigger] coord_at(b, j + 1)),
    decreases b.len() - p,
{
    if p < b.len() && !precedes(t, coord_at(b, p + 1)) {
        lemma_first_past_bounds(b, t, p + 1);
        assert forall|j: int| p <= j < first_past(b, t, p) implies !precedes(
            t,
            #[trigger] coord_at(b, j + 1),
        ) by {
            if j > p {
            }
        }
    }
}

/// Reading a byte that is not a break leaves the coordinate unchanged.
proof fn lemma_step_text(c: Seq<int>, b: Seq<u8>, p: int)
    requires
        0 <= p < b.len(),
        !is_delimiter(b[p]),
    ensures
        walk(c, b, p + 1) == walk(c, b, p),
{
}

/// Both ends of the span stand beside a break byte or at an end of the document, so
/// they cut UTF-8 text only between characters.
pub proof fn lemma_span_ends_beside_breaks(b: Seq<u8>, t: Seq<int>)
    ensures
        0 <= span_start(b, t) <= b.len(),
        0 <= span_end(b, t) <= b.len(),
        beside_ascii(b, span_start(b, t)),
        beside_ascii(b, span_end(b, t)),
{
    lemma_first_exact_bounds(b, t, 0);
    lemma_first_past_bounds(b, t, 0);
    let e = first_past(b, t, 0);
    if 0 < e < b.len() {
        let j = e - 1;
        assert(!precedes(t, coord_at(b, j + 1)));
        if !is_delimiter(b[e]) {
            lemma_step_text(origin(), b, e);
        }
        assert(is_delimiter(b[e]));
    }
    if span_found(b, t) {
        let f = first_exact(b, t, 0);
        lemma_first_break_bounds(b, f);
        if 0 < f {
            assert(coord_at(b, f - 1) != t);
            if !is_delimiter(b[f - 1]) {
                lemma_step_text(origin(), b, f - 1);
            }
            assert(is_delimiter(b[f - 1]));
        }
    }
}

/// Finds the span of `target` in `subspace`: `(start, end, nearest)`, where `start..end`
/// holds the text at `target` when the document reaches it, and `nearest` is the
/// coordinate in force at `start`.
pub fn get_subspace_coordinates(subspace: &[u8], target: Coordinate) -> (r: (
    usize,
    usize,
    Coordinate,
))
    ensures
        r.0 as int == span_start(subspace@, target@),
        r.1 as int == span_end(subspace@, target@),
        r.2@ == span_nearest(subspace@, target@),
{
    let ghost b = subspace@;
    let ghost t = target@;
    let max = subspace.len();
    let mut walker = default_coordinate();
    let mut found = walker == target;
    let mut start: usize = 0;
    let mut past = target.precedes(&walker);
    let mut crossed = false;
    let mut end: usize = max;
    let mut before = walker;
    let mut closed = false;
    let mut close_at: usize = 0;
    let mut i: usize = 0;
    proof {
        if found {
            lemma_view_injective(walker, target);
        }
    }
    while i < max
        invariant
            i <= max,
            b == subspace@,
            t == target@,
            max == b.len(),
            walker@ == coord_at(b, i as int),
            past == precedes(t, walker@),
            found ==> start as int == first_exact(b, t, 0) && start <= i,
            !found ==> first_exact(b, t, 0) == first_exact(b, t, i as int) && walker@ != t,
            crossed ==> end as int == first_past(b, t, 0) && end < i && before@ == coord_at(
                b,
                end as int,
            ),
            !crossed ==> first_past(b, t, 0) == first_past(b, t, i as int),
            found && !closed ==> first_break(b, start as int) == first_break(b, i as int),
            closed ==> found,
            found && closed ==> close_at as int == first_break(b, start as int) && close_at < i,
        decreases max - i,
    {
        let byte = subspace[i];
        let here = walker;
        let ghost was_found = found;
        let dim = dimension_of(byte);
        proof {
            assert(byte == b[i as int]);
            if found && !closed {
                if dim.is_some() {
                    assert(first_break(b, i as int) == i);
                } else {
                    assert(first_break(b, i as int) == first_break(b, i + 1));
                }
            }
        }
        if found && !closed && dim.is_some() {
            closed = true;
            close_at = i;
        }
        match dim {
            Some(d) => {
                walker.advance(d);
                past = target.precedes(&walker);
                if !found && walker == target {
                    found = true;
                    start = i + 1;
                }
            },
            None => {},
        }
        proof {
            assert(walker@ =~= step(here@, byte));
            assert(walker@ == coord_at(b, i + 1));
            if !found && walker@ =~= t {
                lemma_view_injective(walker, target);
            }
            if !was_found {
                assert(first_exact(b, t, i as int) == first_exact(b, t, i + 1));
                if found {
                    assert(first_exact(b, t, i + 1) == i + 1);
                }
            }
        }
        if past && !crossed {
            crossed = true;
            end = i;
            before = here;
        }
        i += 1;
    }
    proof {
        lemma_first_exact_bounds(b, t, 0);
        lemma_first_past_bounds(b, t, 0);
        if !found {
            assert(first_exact(b, t, max as int) == first_exact(b, t, max + 1));
        }
    }
    if !crossed {
        end = max;
        before = walker;
    }
    if found {
        if closed {
            (start, close_at, target)
        } else {
            (start, max, target)
        }
    } else {
        (end, end, before)
    }
}

} // verus!
