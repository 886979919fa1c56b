//! Laws of the document algebra: merging documents that hold text at different
//! coordinates, and merging back what subtraction removed.
use vstd::prelude::*;
use crate::algebra::{
    has_content_at, merge_spec, subtract_spec, without_content_of, zip_tokens,
};
use crate::canonical::{lemma_emit_front, lemma_tokens_of_emit, lemma_tokens_shape, well_spaced};
use crate::coordinate::{is_valid, origin, precedes};
use crate::laws::{no_breaks, unclamped};
use crate::order::{lemma_order, lemma_origin_first};
use crate::tokens::{appended, emit_all, tokens, Token};
use vstd::multiset::Multiset;

verus! {

/// Every scroll of `toks` holds text.
pub open spec fn all_hold_text(toks: Seq<Token>) -> bool {
    forall|i: int| 0 <= i < toks.len() ==> (#[trigger] toks[i]).1.len() > 0
}

/// No coordinate of `a` is a coordinate of `b`.
pub open spec fn disjoint_coordinates(a: Seq<Token>, b: Seq<Token>) -> bool {
    forall|i: int, j: int|
        0 <= i < a.len() && 0 <= j < b.len() ==> (#[trigger] a[i]).0 != (#[trigger] b[j]).0
}

proof fn lemma_spaced_tail(a: Seq<Token>)
    requires
        well_spaced(a),
        a.len() > 0,
    ensures
        well_spaced(a.drop_first()),
{
    let t = a.drop_first();
    assert forall|i: int| 0 <= i < t.len() implies is_valid(#[trigger] t[i].0) && t[i].1.len() > 0
        && no_breaks(t[i].1) by {
        assert(t[i] == a[i + 1]);
        assert(is_valid(a[i + 1].0) && a[i + 1].1.len() > 0 && no_breaks(a[i + 1].1));
    }
    assert forall|i: int| 0 < i < t.len() implies precedes(t[i - 1].0, #[trigger] t[i].0) by {
        assert(t[i] == a[i + 1]);
        assert(t[i - 1] == a[i]);
    }
}

/// Merging two lists keeps every scroll of each, and no other.
proof fn lemma_zip_multiset(a: Seq<Token>, b: Seq<Token>)
    ensures
        zip_tokens(a, b).to_multiset() =~= a.to_multiset().add(b.to_multiset()),
    decreases a.len() + b.len(),
{
    broadcast use vstd::seq_lib::lemma_multiset_commutative;
    broadcast use vstd::multiset::group_multiset_axioms;

    if a.len() == 0 {
        vstd::seq_lib::to_multiset_len(a);
        vstd::multiset::lemma_multiset_empty_len(a.to_multiset());
        assert(a.to_multiset() =~= Multiset::empty());
    } else if b.len() == 0 {
        vstd::seq_lib::to_multiset_len(b);
        vstd::multiset::lemma_multiset_empty_len(b.to_multiset());
        assert(b.to_multiset() =~= Multiset::empty());
    } else {
        assert(a =~= seq![a[0]] + a.drop_first());
        assert(b =~= seq![b[0]] + b.drop_first());
        if a[0].0 == b[0].0 {
            lemma_zip_multiset(a.drop_first(), b.drop_first());
            assert(seq![a[0], b[0]] =~= seq![a[0]] + seq![b[0]]);
        } else if precedes(a[0].0, b[0].0) {
            lemma_zip_multiset(a.drop_first(), b);
        } else {
            lemma_zip_multiset(a, b.drop_first());
        }
    }
}

/// Merging two well-spaced lists at different coordinates keeps them well spaced and
/// keeps every scroll of each.
proof fn lemma_zip_spaced(a: Seq<Token>, b: Seq<Token>)
    requires
        well_spaced(a),
        well_spaced(b),
        disjoint_coordinates(a, b),
    ensures
        well_spaced(zip_tokens(a, b)),
        zip_tokens(a, b).len() > 0 ==> (a.len() > 0 && zip_tokens(a, b)[0] == a[0]) || (b.len()
            > 0 && zip_tokens(a, b)[0] == b[0]),
    decreases a.len() + b.len(),
{
    let z = zip_tokens(a, b);
    if a.len() == 0 {
    } else if b.len() == 0 {
    } else {
        assert(a[0].0 != b[0].0);
        lemma_order(a[0].0, b[0].0, b[0].0);
        let (head, a2, b2) = if precedes(a[0].0, b[0].0) {
            (a[0], a.drop_first(), b)
        } else {
            (b[0], a, b.drop_first())
        };
        if precedes(a[0].0, b[0].0) {
            lemma_spaced_tail(a);
            assert(z == seq![a[0]] + zip_tokens(a.drop_first(), b));
        } else {
            lemma_spaced_tail(b);
            assert(z == seq![b[0]] + zip_tokens(a, b.drop_first()));
        }
        assert(disjoint_coordinates(a2, b2)) by {
            assert forall|i: int, j: int|
                0 <= i < a2.len() && 0 <= j < b2.len() implies (#[trigger] a2[i]).0 != (
                #[trigger] b2[j]).0 by {
                if precedes(a[0].0, b[0].0) {
                    assert(a2[i] == a[i + 1]);
                    assert(b2[j] == b[j]);
                } else {
                    assert(a2[i] == a[i]);
                    assert(b2[j] == b[j + 1]);
                }
            }
        }
        lemma_zip_spaced(a2, b2);
        let z2 = zip_tokens(a2, b2);
        assert(z == seq![head] + z2);
        // the head comes before the first scroll of the rest
        if z2.len() > 0 {
            if a2.len() > 0 && z2[0] == a2[0] {
                if precedes(a[0].0, b[0].0) {
                    assert(a2[0] == a[1]);
                } else {
                    lemma_order(b[0].0, a[0].0, a[0].0);
                }
            } else {
                if precedes(a[0].0, b[0].0) {
                } else {
                    assert(b2[0] == b[1]);
                }
            }
            assert(precedes(head.0, z2[0].0));
        }
        assert(is_valid(head.0) && head.1.len() > 0 && no_breaks(head.1));
        assert forall|i: int| 0 <= i < z.len() implies is_valid(#[trigger] z[i].0) && z[i].1.len()
            > 0 && no_breaks(z[i].1) by {
            if i > 0 {
                assert(z[i] == z2[i - 1]);
            }
        }
        assert forall|i: int| 0 < i < z.len() implies precedes(z[i - 1].0, #[trigger] z[i].0) by {
            assert(z[i] == z2[i - 1]);
            if i > 1 {
                assert(z[i - 1] == z2[i - 2]);
            }
        }
    }
}

/// Merging two lists at different coordinates does not depend on their order.
proof fn lemma_zip_commutes(a: Seq<Token>, b: Seq<Token>)
    requires
        well_spaced(a),
        well_spaced(b),
        disjoint_coordinates(a, b),
    ensures
        zip_tokens(a, b) == zip_tokens(b, a),
    decreases a.len() + b.len(),
{
    if a.len() > 0 && b.len() > 0 {
        assert(a[0].0 != b[0].0);
        assert(is_valid(a[0].0) && is_valid(b[0].0));
        lemma_order(a[0].0, b[0].0, b[0].0);
        if precedes(a[0].0, b[0].0) {
            lemma_spaced_tail(a);
            assert(disjoint_coordinates(a.drop_first(), b)) by {
                assert forall|i: int, j: int|
                    0 <= i < a.drop_first().len() && 0 <= j < b.len() implies (
                    #[trigger] a.drop_first()[i]).0 != (#[trigger] b[j]).0 by {
                    assert(a.drop_first()[i] == a[i + 1]);
                }
            }
            lemma_zip_commutes(a.drop_first(), b);
        } else {
            lemma_spaced_tail(b);
            assert(disjoint_coordinates(a, b.drop_first())) by {
                assert forall|i: int, j: int|
                    0 <= i < a.len() && 0 <= j < b.drop_first().len() implies (
                    #[trigger] a[i]).0 != (#[trigger] b.drop_first()[j]).0 by {
                    assert(b.drop_first()[j] == b[j + 1]);
                }
            }
            lemma_zip_commutes(a, b.drop_first());
        }
    }
}

/// The scrolls of an unclamped document whose scrolls all hold text are well spaced.
proof fn lemma_document_spaced(d: Seq<u8>)
    requires
        unclamped(d),
        all_hold_text(tokens(d)),
    ensures
        well_spaced(tokens(d)),
        tokens(d).len() > 0,
{
    assert(is_valid(origin()));
    lemma_tokens_shape(d, origin());
}

/// Merging two documents that hold text at different coordinates gives a document whose
/// scrolls are those of both, in coordinate order, whichever document comes first.
pub proof fn lemma_merge_disjoint(l: Seq<u8>, r: Seq<u8>)
    requires
        unclamped(l),
        unclamped(r),
        all_hold_text(tokens(l)),
        all_hold_text(tokens(r)),
        disjoint_coordinates(tokens(l), tokens(r)),
    ensures
        tokens(merge_spec(l, r)) == zip_tokens(tokens(l), tokens(r)),
        tokens(merge_spec(l, r)) == tokens(merge_spec(r, l)),
        well_spaced(tokens(merge_spec(l, r))),
        forall|x: Token|
            tokens(merge_spec(l, r)).contains(x) <==> tokens(l).contains(x) || tokens(r).contains(
                x,
            ),
{
    broadcast use vstd::seq_lib::group_to_multiset_ensures;
    broadcast use vstd::multiset::group_multiset_axioms;

    lemma_document_spaced(l);
    lemma_document_spaced(r);
    lemma_zip_spaced(tokens(l), tokens(r));
    lemma_zip_multiset(tokens(l), tokens(r));
    lemma_tokens_of_emit(zip_tokens(tokens(l), tokens(r)));
    lemma_zip_commutes(tokens(l), tokens(r));
    let z = zip_tokens(tokens(l), tokens(r));
    assert forall|x: Token| z.contains(x) <==> tokens(l).contains(x) || tokens(r).contains(x) by {
        vstd::seq_lib::to_multiset_contains(z, x);
        vstd::seq_lib::to_multiset_contains(tokens(l), x);
        vstd::seq_lib::to_multiset_contains(tokens(r), x);
    }
}

/// In a well-spaced list every scroll comes before every later one.
proof fn lemma_spaced_chain(a: Seq<Token>, i: int, j: int)
    requires
        well_spaced(a),
        0 <= i < j < a.len(),
    ensures
        precedes(a[i].0, a[j].0),
    decreases j - i,
{
    assert(precedes(a[j - 1].0, a[j].0));
    if i < j - 1 {
        lemma_spaced_chain(a, i, j - 1);
        assert(is_valid(a[i].0) && is_valid(a[j - 1].0) && is_valid(a[j].0));
        lemma_order(a[i].0, a[j - 1].0, a[j].0);
    }
}

/// The scrolls kept by subtraction are well spaced: exactly those of `l` at whose
/// coordinates `r` holds no text.
proof fn lemma_without_content(l: Seq<Token>, r: Seq<Token>)
    requires
        well_spaced(l),
    ensures
        well_spaced(without_content_of(l, r)),
        forall|x: Token|
            #![trigger without_content_of(l, r).contains(x)]
            without_content_of(l, r).contains(x) <==> l.contains(x) && !has_content_at(r, x.0),
    decreases l.len(),
{
    if l.len() > 0 {
        let init = l.drop_last();
        assert(well_spaced(init)) by {
            assert forall|i: int| 0 <= i < init.len() implies is_valid(#[trigger] init[i].0)
                && init[i].1.len() > 0 && no_breaks(init[i].1) by {
                assert(init[i] == l[i]);
                assert(is_valid(l[i].0) && l[i].1.len() > 0 && no_breaks(l[i].1));
            }
            assert forall|i: int| 0 < i < init.len() implies precedes(
                init[i - 1].0,
                #[trigger] init[i].0,
            ) by {
                assert(init[i] == l[i]);
                assert(init[i - 1] == l[i - 1]);
            }
        }
        lemma_without_content(init, r);
        let w = without_content_of(init, r);
        let last = l.last();
        assert forall|x: Token| l.contains(x) <==> init.contains(x) || x == last by {
            if l.contains(x) {
                let i = choose|i: int| 0 <= i < l.len() && l[i] == x;
                if i < l.len() - 1 {
                    assert(init[i] == x);
                }
            }
            if init.contains(x) {
                let i = choose|i: int| 0 <= i < init.len() && init[i] == x;
                assert(l[i] == x);
            }
            if x == last {
                assert(l[l.len() - 1] == x);
            }
        }
        if !has_content_at(r, last.0) {
            let w2 = w.push(last);
            assert(is_valid(l[l.len() - 1].0) && l[l.len() - 1].1.len() > 0 && no_breaks(
                l[l.len() - 1].1,
            ));
            if w.len() > 0 {
                assert(w[w.len() - 1] == w.last());
                assert(w.contains(w.last()));
                assert(init.contains(w.last()));
                let i = choose|i: int| 0 <= i < init.len() && init[i] == w.last();
                assert(init[i] == l[i]);
                lemma_spaced_chain(l, i, l.len() - 1);
            }
            assert forall|i: int| 0 <= i < w2.len() implies is_valid(#[trigger] w2[i].0)
                && w2[i].1.len() > 0 && no_breaks(w2[i].1) by {
                if i < w.len() {
                    assert(w2[i] == w[i]);
                }
            }
            assert forall|i: int| 0 < i < w2.len() implies precedes(
                w2[i - 1].0,
                #[trigger] w2[i].0,
            ) by {
                if i < w.len() {
                    assert(w2[i] == w[i]);
                    assert(w2[i - 1] == w[i - 1]);
                } else {
                    assert(w2[i - 1] == w.last());
                }
            }
            assert forall|x: Token| w2.contains(x) <==> w.contains(x) || x == last by {
                if w2.contains(x) {
                    let i = choose|i: int| 0 <= i < w2.len() && w2[i] == x;
                    if i < w.len() {
                        assert(w[i] == x);
                    }
                }
                if w.contains(x) {
                    let i = choose|i: int| 0 <= i < w.len() && w[i] == x;
                    assert(w2[i] == x);
                }
                if x == last {
                    assert(w2[w.len() as int] == x);
                }
            }
        }
    }
}

/// What subtraction keeps lies where `r` holds no text, so apart from `r`.
proof fn lemma_kept_apart(lt: Seq<Token>, rt: Seq<Token>)
    requires
        well_spaced(lt),
        all_hold_text(rt),
    ensures
        disjoint_coordinates(without_content_of(lt, rt), rt),
{
    lemma_without_content(lt, rt);
    let w = without_content_of(lt, rt);
    assert forall|i: int, j: int|
        0 <= i < w.len() && 0 <= j < rt.len() implies (#[trigger] w[i]).0 != (
        #[trigger] rt[j]).0 by {
        assert(w.contains(w[i]));
        assert(!has_content_at(rt, w[i].0));
        assert(rt[j].1.len() > 0);
        if w[i].0 == rt[j].0 {
            assert(has_content_at(rt, w[i].0));
        }
    }
}

/// Merging an empty document with a document of well-spaced scrolls gives those scrolls.
proof fn lemma_merge_into_empty(r: Seq<u8>)
    requires
        well_spaced(tokens(r)),
        tokens(r).len() > 0,
    ensures
        tokens(merge_spec(Seq::empty(), r)) == tokens(r),
{
    let o = origin();
    let rt = tokens(r);
    let e = Seq::<u8>::empty();
    assert(crate::tokens::scroll_rest(e).len() == 0);
    let e0 = (o, crate::tokens::scroll_text(e));
    assert(crate::tokens::scroll_text(e) =~= Seq::<u8>::empty());
    assert(tokens(e) == seq![e0]);
    let z = zip_tokens(seq![e0], rt);
    assert(is_valid(rt[0].0));
    lemma_origin_first(rt[0].0);
    assert(seq![e0].drop_first() =~= Seq::<Token>::empty());
    if rt[0].0 == o {
        assert(z == seq![e0, rt[0]] + zip_tokens(seq![e0].drop_first(), rt.drop_first()));
        assert(z =~= seq![e0] + rt);
    } else {
        assert(precedes(o, rt[0].0));
        assert(z == seq![e0] + zip_tokens(seq![e0].drop_first(), rt));
    }
    assert(z =~= seq![e0] + rt);
    assert(z[0] == e0);
    assert(z.drop_first() =~= rt);
    lemma_emit_front(z, o);
    lemma_order(o, o, o);
    assert(appended(o, e0) =~= Seq::<u8>::empty());
    assert(merge_spec(e, r) =~= emit_all(rt, o));
    lemma_tokens_of_emit(rt);
}

/// Merging back into `l - r` the document `r` gives every scroll of `r`, and at the
/// coordinates where `r` holds text, only scrolls of `r`: the text of `l` there is lost.
pub proof fn lemma_subtract_then_merge(l: Seq<u8>, r: Seq<u8>)
    requires
        unclamped(l),
        unclamped(r),
        all_hold_text(tokens(l)),
        all_hold_text(tokens(r)),
    ensures
        forall|k: int|
            0 <= k < tokens(r).len() ==> tokens(merge_spec(subtract_spec(l, r), r)).contains(
                #[trigger] tokens(r)[k],
            ),
        forall|x: Token|
            #![trigger tokens(merge_spec(subtract_spec(l, r), r)).contains(x)]
            tokens(merge_spec(subtract_spec(l, r), r)).contains(x) && has_content_at(
                tokens(r),
                x.0,
            ) ==> tokens(r).contains(x),
{
    let o = origin();
    let lt = tokens(l);
    let rt = tokens(r);
    lemma_document_spaced(l);
    lemma_document_spaced(r);
    lemma_without_content(lt, rt);
    let w = without_content_of(lt, rt);
    let sub = subtract_spec(l, r);
    let m = merge_spec(sub, r);
    if w.len() > 0 {
        lemma_tokens_of_emit(w);
        assert(tokens(sub) == w);
        lemma_kept_apart(lt, rt);
        lemma_zip_spaced(w, rt);
        lemma_zip_multiset(w, rt);
        let z = zip_tokens(w, rt);
        lemma_tokens_of_emit(z);
        assert(tokens(m) == z);
        assert forall|x: Token| z.contains(x) <==> w.contains(x) || rt.contains(x) by {
            vstd::seq_lib::to_multiset_contains(z, x);
            vstd::seq_lib::to_multiset_contains(w, x);
            vstd::seq_lib::to_multiset_contains(rt, x);
        }
        assert forall|k: int| 0 <= k < rt.len() implies z.contains(#[trigger] rt[k]) by {
            assert(rt.contains(rt[k]));
        }
    } else {
        assert(w =~= Seq::<Token>::empty());
        assert(sub =~= Seq::<u8>::empty());
        lemma_merge_into_empty(r);
        assert forall|k: int| 0 <= k < rt.len() implies tokens(m).contains(#[trigger] rt[k]) by {
            assert(rt.contains(rt[k]));
        }
    }
}

} // verus!
