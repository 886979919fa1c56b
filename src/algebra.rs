//! Combining documents scroll by scroll.
use vstd::prelude::*;
use crate::coordinate::{default_coordinate, origin, precedes, Coordinate};
use crate::edit::{replace, replace_spec};
use crate::tokens::{
    append_scroll, dephokenize, emit_all, emit_texts, last_coord, normalize, normalize_spec,
    phokenize, same_coordinate, token_views, tokens, PositionedScroll, Token,
};
use crate::utf8::{bytes_of, bytes_of_str, lemma_ascii_valid, string_of_bytes};
use vstd::utf8::valid_utf8;

verus! {

/// The scrolls of two documents merged by coordinate: the earlier head goes first, and
/// heads at the same coordinate go together, the left one first.
pub open spec fn zip_tokens(l: Seq<Token>, r: Seq<Token>) -> Seq<Token>
    decreases l.len() + r.len(),
{
    if l.len() == 0 {
        r
    } else if r.len() == 0 {
        l
    } else if l[0].0 == r[0].0 {
        seq![l[0], r[0]] + zip_tokens(l.drop_first(), r.drop_first())
    } else if precedes(l[0].0, r[0].0) {
        seq![l[0]] + zip_tokens(l.drop_first(), r)
    } else {
        seq![r[0]] + zip_tokens(l, r.drop_first())
    }
}

/// Document `l` merged with document `r`.
pub open spec fn merge_spec(l: Seq<u8>, r: Seq<u8>) -> Seq<u8> {
    emit_all(zip_tokens(tokens(l), tokens(r)), origin())
}

/// Some scroll of `toks` holds text at `c`.
pub open spec fn has_content_at(toks: Seq<Token>, c: Seq<int>) -> bool {
    exists|k: int| 0 <= k < toks.len() && (#[trigger] toks[k]).0 == c && toks[k].1.len() > 0
}

/// The scrolls of `l` at whose coordinates `r` holds no text.
pub open spec fn without_content_of(l: Seq<Token>, r: Seq<Token>) -> Seq<Token>
    decreases l.len(),
{
    if l.len() == 0 {
        Seq::empty()
    } else if has_content_at(r, l.last().0) {
        without_content_of(l.drop_last(), r)
    } else {
        without_content_of(l.drop_last(), r).push(l.last())
    }
}

/// Document `l` without the scrolls at which `r` holds text.
pub open spec fn subtract_spec(l: Seq<u8>, r: Seq<u8>) -> Seq<u8> {
    emit_all(without_content_of(tokens(l), tokens(r)), origin())
}

/// Some scroll of `toks` stands at `c`.
pub open spec fn has_token_at(toks: Seq<Token>, c: Seq<int>) -> bool {
    exists|k: int| 0 <= k < toks.len() && (#[trigger] toks[k]).0 == c
}

/// The text of the last scroll of `toks` at `c`.
pub open spec fn last_text_at(toks: Seq<Token>, c: Seq<int>) -> Seq<u8>
    decreases toks.len(),
{
    if toks.len() == 0 {
        Seq::empty()
    } else if toks.last().0 == c {
        toks.last().1
    } else {
        last_text_at(toks.drop_last(), c)
    }
}

/// The scrolls of `l`, where each one at `c` takes the text of the last scroll of `r` at
/// `c`, when `r` has one.
pub open spec fn swapped(l: Seq<Token>, r: Seq<Token>, c: Seq<int>) -> Seq<Token> {
    Seq::new(
        l.len(),
        |i: int|
            if l[i].0 == c && has_token_at(r, c) {
                (l[i].0, last_text_at(r, c))
            } else {
                l[i]
            },
    )
}

/// Document `l` with its text at `c` taken from document `r`.
pub open spec fn swap_spec(c: Seq<int>, l: Seq<u8>, r: Seq<u8>) -> Seq<u8> {
    emit_texts(swapped(tokens(l), tokens(r), c), origin())
}

/// Document `b` with the text at `t` removed, in canonical form.
pub open spec fn remove_spec(b: Seq<u8>, t: Seq<int>) -> Seq<u8> {
    normalize_spec(replace_spec(b, t, Seq::empty()))
}

/// Merges `left` and `right` scroll by scroll, in coordinate order; where both hold a
/// scroll at the same coordinate, the right text follows the left one.
pub fn merge(left: &str, right: &str) -> (r: String)
    ensures
        bytes_of(r@) == merge_spec(bytes_of(left@), bytes_of(right@)),
{
    let tl = phokenize(left);
    let tr = phokenize(right);
    let ghost l = token_views(tl@);
    let ghost rr = token_views(tr@);
    let maxtl = tl.len();
    let maxtr = tr.len();
    let mut tli: usize = 0;
    let mut tri: usize = 0;
    let mut out: Vec<u8> = Vec::new();
    let mut coord = default_coordinate();
    let ghost mut done: Seq<Token> = Seq::empty();
    proof {
        lemma_ascii_valid(out@);
        assert(l.skip(0) =~= l);
        assert(rr.skip(0) =~= rr);
        assert(done + zip_tokens(l, rr) =~= zip_tokens(l, rr));
    }
    while tli < maxtl || tri < maxtr
        invariant
            tli <= maxtl == l.len(),
            tri <= maxtr == rr.len(),
            l == token_views(tl@),
            rr == token_views(tr@),
            done + zip_tokens(l.skip(tli as int), rr.skip(tri as int)) == zip_tokens(l, rr),
            out@ == emit_all(done, origin()),
            coord@ == last_coord(done, origin()),
            valid_utf8(out@),
        decreases maxtl - tli + maxtr - tri,
    {
        let ghost ls = l.skip(tli as int);
        let ghost rs = rr.skip(tri as int);
        let pick_left;
        let pick_right;
        if tli < maxtl && tri < maxtr {
            if same_coordinate(&tl[tli].coord, &tr[tri].coord) {
                pick_left = true;
                pick_right = true;
            } else if tl[tli].coord.precedes(&tr[tri].coord) {
                pick_left = true;
                pick_right = false;
            } else {
                pick_left = false;
                pick_right = true;
            }
        } else {
            pick_left = tli < maxtl;
            pick_right = !pick_left;
        }
        proof {
            if tli < maxtl {
                assert(ls[0] == l[tli as int]);
                assert(ls.drop_first() =~= l.skip(tli + 1));
            }
            if tri < maxtr {
                assert(rs[0] == rr[tri as int]);
                assert(rs.drop_first() =~= rr.skip(tri + 1));
            }
        }
        if pick_left {
            let ghost tok = l[tli as int];
            let ghost before = done;
            assert(tok == tl@[tli as int]@);
            append_scroll(&mut out, &tl[tli], coord);
            coord = tl[tli].coord;
            tli += 1;
            proof {
                done = done.push(tok);
                assert(done.drop_last() =~= before);
                assert(done.last() == tok);
                assert(emit_all(done, origin()) == emit_all(before, origin()) + crate::tokens::appended(
                    last_coord(before, origin()),
                    tok,
                ));
            }
        }
        if pick_right {
            let ghost tok = rr[tri as int];
            let ghost before = done;
            assert(tok == tr@[tri as int]@);
            append_scroll(&mut out, &tr[tri], coord);
            coord = tr[tri].coord;
            tri += 1;
            proof {
                done = done.push(tok);
                assert(done.drop_last() =~= before);
                assert(done.last() == tok);
                assert(emit_all(done, origin()) == emit_all(before, origin()) + crate::tokens::appended(
                    last_coord(before, origin()),
                    tok,
                ));
            }
        }
        proof {
            let ls2 = l.skip(tli as int);
            let rs2 = rr.skip(tri as int);
            if pick_left && pick_right {
                assert(zip_tokens(ls, rs) == seq![ls[0], rs[0]] + zip_tokens(ls2, rs2));
                assert(done + zip_tokens(ls2, rs2) =~= done.drop_last().drop_last() + zip_tokens(
                    ls,
                    rs,
                ));
            } else if pick_left {
                if rs.len() == 0 {
                    assert(zip_tokens(ls, rs) == ls);
                    assert(ls =~= seq![ls[0]] + ls2);
                    assert(ls2.len() == 0 || zip_tokens(ls2, rs2) == ls2);
                } else {
                    assert(zip_tokens(ls, rs) == seq![ls[0]] + zip_tokens(ls2, rs2));
                }
                assert(done + zip_tokens(ls2, rs2) =~= done.drop_last() + zip_tokens(ls, rs));
            } else {
                if ls.len() == 0 {
                    assert(zip_tokens(ls, rs) == rs);
                    assert(rs =~= seq![rs[0]] + rs2);
                } else {
                    assert(zip_tokens(ls, rs) == seq![rs[0]] + zip_tokens(ls2, rs2));
                }
                assert(done + zip_tokens(ls2, rs2) =~= done.drop_last() + zip_tokens(ls, rs));
            }
        }
    }
    proof {
        assert(l.skip(tli as int) =~= Seq::<Token>::empty());
        assert(rr.skip(tri as int) =~= Seq::<Token>::empty());
        assert(done =~= zip_tokens(l, rr));
    }
    string_of_bytes(out)
}

/// Some scroll of `toks` holds text at `c`.
fn content_at(toks: &Vec<PositionedScroll>, c: &Coordinate) -> (r: bool)
    ensures
        r == has_content_at(token_views(toks@), c@),
{
    let ghost v = token_views(toks@);
    let mut k: usize = 0;
    while k < toks.len()
        invariant
            k <= toks@.len(),
            v == token_views(toks@),
            forall|j: int| 0 <= j < k ==> !((#[trigger] v[j]).0 == c@ && v[j].1.len() > 0),
        decreases toks@.len() - k,
    {
        if same_coordinate(&toks[k].coord, c) && bytes_of_str(toks[k].scroll.as_str()).len() > 0 {
            assert(v[k as int] == toks@[k as int]@);
            return true;
        }
        assert(v[k as int] == toks@[k as int]@);
        k += 1;
    }
    false
}

/// `left` without the scrolls at whose coordinates `right` holds text.
pub fn subtract(left: &str, right: &str) -> (r: String)
    ensures
        bytes_of(r@) == subtract_spec(bytes_of(left@), bytes_of(right@)),
{
    let pl = phokenize(left);
    let pr = phokenize(right);
    let ghost l = token_views(pl@);
    let ghost rr = token_views(pr@);
    let mut out: Vec<u8> = Vec::new();
    let mut coord = default_coordinate();
    let mut i: usize = 0;
    proof {
        lemma_ascii_valid(out@);
        assert(l.take(0) =~= Seq::<Token>::empty());
    }
    while i < pl.len()
        invariant
            i <= pl@.len(),
            l == token_views(pl@),
            rr == token_views(pr@),
            out@ == emit_all(without_content_of(l.take(i as int), rr), origin()),
            coord@ == last_coord(without_content_of(l.take(i as int), rr), origin()),
            valid_utf8(out@),
        decreases pl@.len() - i,
    {
        let token = &pl[i];
        let ghost kept = without_content_of(l.take(i as int), rr);
        proof {
            assert(l.take(i + 1).drop_last() =~= l.take(i as int));
            assert(l.take(i + 1).last() == token@);
        }
        if !content_at(&pr, &token.coord) {
            append_scroll(&mut out, token, coord);
            coord = token.coord;
            proof {
                assert(kept.push(token@).drop_last() =~= kept);
            }
        }
        i += 1;
    }
    proof {
        assert(l.take(i as int) =~= l);
    }
    string_of_bytes(out)
}

/// The index of the last scroll of `toks` at `c`, if any.
fn last_at(toks: &Vec<PositionedScroll>, c: &Coordinate) -> (r: Option<usize>)
    ensures
        r is None <==> !has_token_at(token_views(toks@), c@),
        r matches Some(k) ==> k < toks@.len() && toks@[k as int]@.1 == last_text_at(
            token_views(toks@),
            c@,
        ),
{
    let ghost v = token_views(toks@);
    let mut found: Option<usize> = None;
    let mut k: usize = 0;
    proof {
        assert(v.take(0) =~= Seq::<Token>::empty());
    }
    while k < toks.len()
        invariant
            k <= toks@.len(),
            v == token_views(toks@),
            found is None <==> !has_token_at(v.take(k as int), c@),
            found matches Some(j) ==> j < k && toks@[j as int]@.1 == last_text_at(
                v.take(k as int),
                c@,
            ),
        decreases toks@.len() - k,
    {
        let ghost t = v.take(k + 1);
        proof {
            assert(t.drop_last() =~= v.take(k as int));
            assert(t.last() == toks@[k as int]@);
        }
        if same_coordinate(&toks[k].coord, c) {
            found = Some(k);
            proof {
                assert(t[k as int].0 == c@);
            }
        } else {
            proof {
                if has_token_at(t, c@) {
                    let j = choose|j: int| 0 <= j < t.len() && (#[trigger] t[j]).0 == c@;
                    assert(v.take(k as int)[j] == t[j]);
                }
                if has_token_at(v.take(k as int), c@) {
                    let j = choose|j: int|
                        0 <= j < k && (#[trigger] v.take(k as int)[j]).0 == c@;
                    assert(t[j] == v.take(k as int)[j]);
                }
            }
        }
        k += 1;
    }
    proof {
        assert(v.take(k as int) =~= v);
    }
    found
}

/// `left` with the text of each scroll at `coord` replaced by the text of the last scroll
/// of `right` at `coord`, when `right` has one there.
pub fn swap(coord: Coordinate, left: &str, right: &str) -> (r: String)
    ensures
        bytes_of(r@) == swap_spec(coord@, bytes_of(left@), bytes_of(right@)),
{
    let pl = phokenize(left);
    let pr = phokenize(right);
    let ghost l = token_views(pl@);
    let ghost rr = token_views(pr@);
    let source = last_at(&pr, &coord);
    let mut result: Vec<PositionedScroll> = Vec::new();
    let mut i: usize = 0;
    while i < pl.len()
        invariant
            i <= pl@.len(),
            l == token_views(pl@),
            rr == token_views(pr@),
            source is None <==> !has_token_at(rr, coord@),
            source matches Some(k) ==> k < pr@.len() && pr@[k as int]@.1 == last_text_at(
                rr,
                coord@,
            ),
            result@.len() == i,
            forall|j: int| 0 <= j < i ==> (#[trigger] result@[j])@ == swapped(l, rr, coord@)[j],
        decreases pl@.len() - i,
    {
        let ps = &pl[i];
        let text = match source {
            Some(k) => {
                if same_coordinate(&ps.coord, &coord) {
                    pr[k].scroll.clone()
                } else {
                    ps.scroll.clone()
                }
            },
            None => ps.scroll.clone(),
        };
        result.push(PositionedScroll { coord: ps.coord, scroll: text });
        proof {
            assert(l[i as int] == ps@);
        }
        i += 1;
    }
    proof {
        assert(token_views(result@) =~= swapped(l, rr, coord@));
    }
    dephokenize(&result)
}

/// `phext` with the text at `location` removed, in canonical form.
pub fn remove(phext: &str, location: Coordinate) -> (r: String)
    ensures
        bytes_of(r@) == remove_spec(bytes_of(phext@), location@),
{
    let phase1 = replace(phext, location, "");
    proof {
        reveal_strlit("");
        assert(bytes_of(""@) =~= Seq::<u8>::empty());
    }
    normalize(phase1.as_str())
}

} // verus!
