//! The canonical form of a document: tokenizing a written-out list of scrolls gives the
//! list back, and normalizing twice is normalizing once.
use vstd::prelude::*;
use crate::coordinate::{
    break_dimension, delimiter_of, is_delimiter, is_valid, origin, precedes, step, walk,
};
use crate::edit::{fill_count, gap, gap_from, lemma_gap_walk, lifted, repeat_byte};
use crate::laws::{lemma_walk_monotone, no_breaks, unclamped, unclamped_from};
use crate::order::{
    lemma_order, lemma_origin_first, lemma_precedes_witness, lemma_walk_prefix, lemma_walk_suffix,
    lemma_walk_text, lemma_walk_valid, lower_at, not_after,
};
use crate::tokens::{
    appended, bridge, emit_all, emit_texts, first_break, first_text, last_coord,
    lemma_first_break_bounds, lemma_first_text_bounds, normalize_spec, scroll_consumed,
    scroll_coord, scroll_lead, scroll_next, scroll_rest, scroll_stop, scroll_text, tokens,
    tokens_from, Token,
};

verus! {

/// Scrolls with text and without breaks, at valid coordinates in strictly increasing order.
pub open spec fn well_spaced(toks: Seq<Token>) -> bool {
    &&& forall|i: int|
        0 <= i < toks.len() ==> is_valid(#[trigger] toks[i].0) && toks[i].1.len() > 0
            && no_breaks(toks[i].1)
    &&& forall|i: int| 0 < i < toks.len() ==> precedes(toks[i - 1].0, #[trigger] toks[i].0)
}

/// Every byte of a gap is a dimension break.
proof fn lemma_gap_breaks(cur: Seq<int>, t: Seq<int>, d: int)
    ensures
        forall|i: int|
            0 <= i < gap_from(cur, t, d).len() ==> is_delimiter(#[trigger] gap_from(cur, t, d)[i]),
    decreases 9 - d,
{
    if 0 <= d < 9 {
        lemma_gap_breaks(lifted(cur, d, fill_count(cur, t, d)), t, d + 1);
        let r = repeat_byte(delimiter_of(d), fill_count(cur, t, d));
        let rest = gap_from(lifted(cur, d, fill_count(cur, t, d)), t, d + 1);
        let g = gap_from(cur, t, d);
        assert(g == r + rest);
        assert forall|i: int| 0 <= i < g.len() implies is_delimiter(#[trigger] g[i]) by {
            if i < r.len() {
                assert(g[i] == delimiter_of(d));
            } else {
                assert(g[i] == rest[i - r.len()]);
            }
        }
    }
}

/// A gap up to a later valid coordinate is not empty.
proof fn lemma_gap_nonempty(a: Seq<int>, b: Seq<int>)
    requires
        is_valid(a),
        is_valid(b),
        precedes(a, b),
    ensures
        gap(a, b).len() > 0,
{
    lemma_gap_walk(a, b, 0);
    lemma_order(a, b, b);
}

/// Writing a list out, seen from its first scroll.
pub(crate) proof fn lemma_emit_front(toks: Seq<Token>, c: Seq<int>)
    requires
        toks.len() > 0,
    ensures
        emit_all(toks, c) == appended(c, toks[0]) + emit_all(toks.drop_first(), toks[0].0),
    decreases toks.len(),
{
    if toks.len() == 1 {
        assert(toks.drop_last() =~= Seq::<Token>::empty());
        assert(toks.drop_first() =~= Seq::<Token>::empty());
        assert(emit_all(toks.drop_last(), c) == Seq::<u8>::empty());
        assert(last_coord(toks.drop_last(), c) == c);
        assert(toks.last() == toks[0]);
        assert(emit_all(toks.drop_first(), toks[0].0) == Seq::<u8>::empty());
        assert(emit_all(toks, c) =~= appended(c, toks[0]));
    } else {
        let init = toks.drop_last();
        lemma_emit_front(init, c);
        assert(init.drop_first() =~= toks.drop_first().drop_last());
        assert(init[0] == toks[0]);
        assert(toks.drop_first().last() == toks.last());
        assert(last_coord(init, c) == last_coord(toks.drop_first().drop_last(), toks[0].0));
        assert(emit_all(toks, c) =~= appended(c, toks[0]) + emit_all(
            toks.drop_first(),
            toks[0].0,
        ));
    }
}

/// Writing out scrolls that all hold text skips none of them.
proof fn lemma_emit_texts_all(toks: Seq<Token>, c: Seq<int>)
    requires
        forall|i: int| 0 <= i < toks.len() ==> (#[trigger] toks[i]).1.len() > 0,
    ensures
        emit_texts(toks, c) == emit_all(toks, c),
    decreases toks.len(),
{
    if toks.len() > 0 {
        let init = toks.drop_last();
        assert forall|i: int| 0 <= i < init.len() implies (#[trigger] init[i]).1.len() > 0 by {
            assert(init[i] == toks[i]);
        }
        lemma_emit_texts_all(init, c);
    }
}

proof fn lemma_first_text_at(b: Seq<u8>, x: int, p: int)
    requires
        0 <= p <= x < b.len(),
        !is_delimiter(b[x]),
        forall|q: int| p <= q < x ==> is_delimiter(#[trigger] b[q]),
    ensures
        first_text(b, p) == x,
    decreases x - p,
{
    if p < x {
        lemma_first_text_at(b, x, p + 1);
    }
}

pub(crate) proof fn lemma_first_break_at(b: Seq<u8>, y: int, p: int)
    requires
        0 <= p <= y <= b.len(),
        y == b.len() || is_delimiter(b[y]),
        forall|q: int| p <= q < y ==> !is_delimiter(#[trigger] b[q]),
    ensures
        first_break(b, p) == y,
    decreases y - p,
{
    if p < y {
        lemma_first_break_at(b, y, p + 1);
    }
}

/// Tokenizing breaks that lead to the first scroll, then the written-out scrolls, gives
/// the scrolls back.
proof fn lemma_tokens_of_written(g: Seq<u8>, c: Seq<int>, toks: Seq<Token>)
    requires
        toks.len() > 0,
        well_spaced(toks),
        forall|i: int| 0 <= i < g.len() ==> is_delimiter(#[trigger] g[i]),
        walk(c, g, g.len() as int) == toks[0].0,
    ensures
        tokens_from(g + toks[0].1 + emit_all(toks.drop_first(), toks[0].0), c) == toks,
    decreases toks.len(),
{
    let t0 = toks[0].1;
    let c0 = toks[0].0;
    let rest_toks = toks.drop_first();
    let r = emit_all(rest_toks, c0);
    let s = g + t0 + r;
    let lead = g.len() as int;
    let stop = lead + t0.len();
    assert(is_valid(toks[0].0) && t0.len() > 0 && no_breaks(t0));
    assert forall|q: int| 0 <= q < lead implies is_delimiter(#[trigger] s[q]) by {
        assert(s[q] == g[q]);
    }
    assert(s[lead] == t0[0]);
    lemma_first_text_at(s, lead, 0);
    assert forall|q: int| lead <= q < stop implies !is_delimiter(#[trigger] s[q]) by {
        assert(s[q] == t0[q - lead]);
    }
    lemma_walk_prefix(c, g + t0, r, lead);
    lemma_walk_prefix(c, g, t0, lead);
    lemma_walk_prefix(c, g + t0, r, stop);
    lemma_walk_suffix(c, g, t0, t0.len() as int);
    lemma_walk_text(c0, t0, t0.len() as int);
    assert(walk(c, s, stop) == c0);
    if rest_toks.len() == 0 {
        assert(r =~= Seq::<u8>::empty());
        assert(s =~= g + t0);
        lemma_first_break_at(s, stop, lead);
        assert(scroll_text(s) =~= t0);
        assert(scroll_rest(s).len() == 0);
        assert(tokens_from(s, c) =~= toks);
    } else {
        let t1 = rest_toks[0];
        assert(t1 == toks[1]);
        assert(precedes(toks[0].0, toks[1].0));
        assert(is_valid(toks[1].0));
        lemma_emit_front(rest_toks, c0);
        let gp = gap(c0, t1.0);
        let r2 = emit_all(rest_toks.drop_first(), t1.0);
        assert(bridge(c0, t1.0) == gp);
        assert(r == gp + t1.1 + r2);
        lemma_gap_nonempty(c0, t1.0);
        lemma_gap_breaks(c0, t1.0, 0);
        assert(s[stop] == gp[0]);
        lemma_first_break_at(s, stop, lead);
        assert(scroll_consumed(s) == stop + 1);
        assert(scroll_text(s) =~= t0);
        assert(walk(c, s, stop + 1) == step(c0, gp[0]));
        let g2 = gp.drop_first();
        let next = step(c0, gp[0]);
        let rest = g2 + t1.1 + r2;
        assert(scroll_rest(s) =~= rest);
        // the breaks after the first byte of the gap still lead to the next scroll
        lemma_gap_walk(c0, t1.0, 0);
        assert(gp =~= seq![gp[0]] + g2);
        lemma_walk_suffix(c0, seq![gp[0]], g2, g2.len() as int);
        assert(walk(c0, seq![gp[0]], 0) == c0);
        assert(walk(c0, seq![gp[0]], 1) == next);
        assert forall|i: int| 0 <= i < g2.len() implies is_delimiter(#[trigger] g2[i]) by {
            assert(g2[i] == gp[i + 1]);
        }
        assert(well_spaced(rest_toks)) by {
            assert forall|i: int| 0 <= i < rest_toks.len() implies is_valid(
                #[trigger] rest_toks[i].0,
            ) && rest_toks[i].1.len() > 0 && no_breaks(rest_toks[i].1) by {
                assert(rest_toks[i] == toks[i + 1]);
            }
            assert forall|i: int| 0 < i < rest_toks.len() implies precedes(
                rest_toks[i - 1].0,
                #[trigger] rest_toks[i].0,
            ) by {
                assert(rest_toks[i] == toks[i + 1]);
                assert(rest_toks[i - 1] == toks[i]);
            }
        }
        lemma_tokens_of_written(g2, next, rest_toks);
        assert(scroll_next(s, c) == next);
        assert(scroll_coord(s, c) == c0);
        assert(rest.len() > 0);
        assert(tokens_from(s, c) == seq![(c0, t0)] + tokens_from(rest, next));
        assert(tokens_from(s, c) =~= toks);
    }
}

/// Text bytes leave the coordinate where it is.
proof fn lemma_walk_over_text(c: Seq<int>, b: Seq<u8>, lead: int, q: int)
    requires
        0 <= lead <= q <= b.len(),
        forall|k: int| lead <= k < q ==> !is_delimiter(#[trigger] b[k]),
    ensures
        walk(c, b, q) == walk(c, b, lead),
    decreases q - lead,
{
    if q > lead {
        lemma_walk_over_text(c, b, lead, q - 1);
    }
}

/// The scrolls of a document read from a valid coordinate without clamped breaks: valid
/// and increasing coordinates from the start on, texts without breaks, and only the last
/// scroll may be empty.
pub(crate) proof fn lemma_tokens_shape(b: Seq<u8>, c: Seq<int>)
    requires
        is_valid(c),
        unclamped_from(c, b),
    ensures
        tokens_from(b, c).len() > 0,
        not_after(c, tokens_from(b, c)[0].0),
        forall|i: int|
            0 <= i < tokens_from(b, c).len() ==> is_valid(#[trigger] tokens_from(b, c)[i].0)
                && no_breaks(tokens_from(b, c)[i].1),
        forall|i: int|
            0 <= i < tokens_from(b, c).len() - 1 ==> (#[trigger] tokens_from(b, c)[i]).1.len()
                > 0,
        forall|i: int|
            0 < i < tokens_from(b, c).len() ==> precedes(
                tokens_from(b, c)[i - 1].0,
                #[trigger] tokens_from(b, c)[i].0,
            ),
    decreases b.len(),
{
    let n = b.len() as int;
    lemma_first_text_bounds(b, 0);
    let lead = scroll_lead(b);
    lemma_first_break_bounds(b, lead);
    let stop = scroll_stop(b);
    let tok = (scroll_coord(b, c), scroll_text(b));
    lemma_walk_valid(c, b, lead);
    lemma_order(c, c, c);
    if lead < n {
        lemma_walk_monotone(c, b, 0, lead);
    }
    assert(no_breaks(tok.1)) by {
        assert forall|i: int| 0 <= i < tok.1.len() implies !is_delimiter(#[trigger] tok.1[i]) by {
            assert(tok.1[i] == b[lead + i]);
        }
    }
    let rest = scroll_rest(b);
    let l = tokens_from(b, c);
    if rest.len() == 0 || rest.len() >= b.len() {
        assert(l == seq![tok]);
    } else {
        let consumed = scroll_consumed(b);
        let next = scroll_next(b, c);
        assert(lead < n);
        assert(lead < stop);
        assert(stop < n);
        lemma_walk_over_text(c, b, lead, stop);
        let here = walk(c, b, stop);
        lemma_walk_valid(c, b, stop);
        lemma_walk_valid(c, b, stop + 1);
        let d = break_dimension(b[stop]);
        assert(here[d] < 100);
        assert(lower_at(here, next, d));
        lemma_precedes_witness(here, next);
        lemma_walk_valid(c, b, consumed);
        assert(unclamped_from(next, rest)) by {
            let head = b.subrange(0, consumed);
            assert(head + rest =~= b);
            lemma_walk_prefix(c, head, rest, consumed);
            assert forall|p: int| 0 <= p < rest.len() && is_delimiter(#[trigger] rest[p]) implies walk(
                next,
                rest,
                p,
            )[break_dimension(rest[p])] < 100 by {
                lemma_walk_suffix(c, head, rest, p);
                assert(rest[p] == b[consumed + p]);
            }
        }
        lemma_tokens_shape(rest, next);
        let l2 = tokens_from(rest, next);
        assert(l == seq![tok] + l2);
        lemma_order(tok.0, next, l2[0].0);
        assert(precedes(tok.0, l2[0].0));
        assert forall|i: int| 0 <= i < l.len() implies is_valid(#[trigger] l[i].0) && no_breaks(
            l[i].1,
        ) by {
            if i > 0 {
                assert(l[i] == l2[i - 1]);
            }
        }
        assert forall|i: int| 0 <= i < l.len() - 1 implies (#[trigger] l[i]).1.len() > 0 by {
            if i > 0 {
                assert(l[i] == l2[i - 1]);
            }
        }
        assert forall|i: int| 0 < i < l.len() implies precedes(
            l[i - 1].0,
            #[trigger] l[i].0,
        ) by {
            assert(l[i] == l2[i - 1]);
            if i > 1 {
                assert(l[i - 1] == l2[i - 2]);
            }
        }
    }
}

/// Tokenizing a written-out list of well-spaced scrolls gives the list back.
pub proof fn lemma_tokens_of_emit(k: Seq<Token>)
    requires
        k.len() > 0,
        well_spaced(k),
    ensures
        tokens(emit_all(k, origin())) == k,
{
    let o = origin();
    let s = emit_all(k, o);
    lemma_emit_front(k, o);
    let c0 = k[0].0;
    assert(is_valid(c0));
    lemma_origin_first(c0);
    let g = bridge(o, c0);
    assert(s == g + k[0].1 + emit_all(k.drop_first(), c0));
    if precedes(o, c0) {
        lemma_gap_breaks(o, c0, 0);
        lemma_gap_walk(o, c0, 0);
    } else {
        assert(o == c0);
    }
    lemma_tokens_of_written(g, o, k);
}

/// Normalizing twice gives what normalizing once gives, for every document whose breaks
/// are never clamped at the largest index.
pub proof fn lemma_normalize_idempotent(d: Seq<u8>)
    requires
        unclamped(d),
    ensures
        normalize_spec(normalize_spec(d)) == normalize_spec(d),
{
    let o = origin();
    assert(is_valid(o));
    lemma_tokens_shape(d, o);
    let l = tokens(d);
    let k = if l.last().1.len() > 0 {
        l
    } else {
        l.drop_last()
    };
    assert forall|i: int| 0 <= i < k.len() implies (#[trigger] k[i]).1.len() > 0 by {
        assert(k[i] == l[i]);
    }
    if l.last().1.len() > 0 {
        lemma_emit_texts_all(l, o);
    } else {
        let init = l.drop_last();
        assert forall|i: int| 0 <= i < init.len() implies (#[trigger] init[i]).1.len() > 0 by {
            assert(init[i] == l[i]);
        }
        lemma_emit_texts_all(init, o);
    }
    assert(normalize_spec(d) == emit_all(k, o));
    let s = emit_all(k, o);
    if k.len() == 0 {
        assert(s =~= Seq::<u8>::empty());
        let e = Seq::<u8>::empty();
        assert(scroll_rest(e).len() == 0);
        assert(tokens(e) == seq![(scroll_coord(e, o), scroll_text(e))]);
        assert(scroll_text(e) =~= Seq::<u8>::empty());
        let te = tokens(e);
        assert(te.len() == 1);
        assert(te.drop_last() =~= Seq::<Token>::empty());
        assert(te.last().1.len() == 0);
        assert(emit_texts(te.drop_last(), o) == Seq::<u8>::empty());
        assert(emit_texts(te, o) =~= Seq::<u8>::empty());
    } else {
        assert(well_spaced(k)) by {
            assert forall|i: int| 0 <= i < k.len() implies is_valid(#[trigger] k[i].0)
                && k[i].1.len() > 0 && no_breaks(k[i].1) by {
                assert(k[i] == l[i]);
            }
            assert forall|i: int| 0 < i < k.len() implies precedes(
                k[i - 1].0,
                #[trigger] k[i].0,
            ) by {
                assert(k[i] == l[i]);
                assert(k[i - 1] == l[i - 1]);
            }
        }
        lemma_tokens_of_emit(k);
        lemma_emit_texts_all(k, o);
    }
}

} // verus!
