//! Navigation helpers: short excerpts of scrolls and a link list of a document.
use vstd::prelude::*;
use crate::codec::address_text;
use crate::coordinate::is_delimiter;
use crate::tokens::{is_phext_break, phokenize, token_views, tokens, PositionedScroll, Token};
use crate::utf8::{
    all_ascii, beside_ascii, bytes_of, bytes_of_str, lemma_ascii_valid, lemma_concat_valid,
    push_range, string_of_bytes,
};
use vstd::string::StringSliceAdditionalSpecFns;
use vstd::utf8::{is_char_boundary, valid_utf8, valid_utf8_concat, valid_utf8_split};

verus! {

/// Longest excerpt of a scroll, in bytes.
pub const SUMMARY_LIMIT: usize = 32;

/// A line break or a dimension break.
pub open spec fn is_break_byte(b: u8) -> bool {
    b == 0x0A || is_delimiter(b)
}

/// The first index in `[p, len)` holding a line or dimension break, or `len`.
pub open spec fn first_line_break(b: Seq<u8>, p: int) -> int
    decreases b.len() - p,
{
    if p < 0 || p >= b.len() {
        b.len() as int
    } else if is_break_byte(b[p]) {
        p
    } else {
        first_line_break(b, p + 1)
    }
}

/// The largest character boundary of `b` that is at most `k`.
pub open spec fn boundary_at_most(b: Seq<u8>, k: int) -> int
    decreases k,
{
    if k <= 0 {
        0
    } else if is_char_boundary(b, k) {
        k
    } else {
        boundary_at_most(b, k - 1)
    }
}

/// Where the excerpt of `b` ends: at its first break, within the first 32 bytes, cut
/// between characters.
pub open spec fn summary_end(b: Seq<u8>) -> int {
    let cut = boundary_at_most(b, if b.len() < 32 { b.len() as int } else { 32 });
    if first_line_break(b, 0) < cut {
        first_line_break(b, 0)
    } else {
        cut
    }
}

/// The excerpt of `b`, followed by `...` when it leaves anything out.
pub open spec fn summary_spec(b: Seq<u8>) -> Seq<u8> {
    b.subrange(0, summary_end(b)) + if summary_end(b) < b.len() {
        seq![0x2Eu8, 0x2E, 0x2E]
    } else {
        Seq::empty()
    }
}

proof fn lemma_boundary_at_most(b: Seq<u8>, k: int)
    requires
        valid_utf8(b),
        0 <= k <= b.len(),
    ensures
        0 <= boundary_at_most(b, k) <= k,
        is_char_boundary(b, boundary_at_most(b, k)),
    decreases k,
{
    vstd::utf8::is_char_boundary_start_end_of_seq(b);
    if k > 0 && !is_char_boundary(b, k) {
        lemma_boundary_at_most(b, k - 1);
    }
}

proof fn lemma_first_line_break(b: Seq<u8>, p: int)
    requires
        0 <= p <= b.len(),
    ensures
        p <= first_line_break(b, p) <= b.len(),
        first_line_break(b, p) < b.len() ==> is_break_byte(b[first_line_break(b, p)]),
    decreases b.len() - p,
{
    if p < b.len() && !is_break_byte(b[p]) {
        lemma_first_line_break(b, p + 1);
    }
}

/// The first bytes of a scroll, up to its first break and at most 32 of them, with `...`
/// when anything is left out.
pub fn create_summary(phext: &str) -> (r: String)
    ensures
        bytes_of(r@) == summary_spec(bytes_of(phext@)),
{
    let buffer = bytes_of_str(phext);
    let ghost b = buffer@;
    let mut limit: usize = SUMMARY_LIMIT;
    if buffer.len() < SUMMARY_LIMIT {
        limit = buffer.len();
    }
    let ghost first_limit = limit as int;
    while limit > 0 && !phext.is_char_boundary(limit)
        invariant
            limit <= first_limit <= b.len(),
            b == buffer@,
            b == phext.spec_bytes(),
            boundary_at_most(b, first_limit) == boundary_at_most(b, limit as int),
        decreases limit,
    {
        limit -= 1;
    }
    let mut i: usize = 0;
    while i < limit && !is_phext_break(buffer[i])
        invariant
            i <= limit <= b.len(),
            b == buffer@,
            first_line_break(b, 0) == first_line_break(b, i as int),
        decreases limit - i,
    {
        i += 1;
    }
    proof {
        lemma_first_line_break(b, i as int);
        lemma_boundary_at_most(b, first_limit);
    }
    let mut summary: Vec<u8> = Vec::new();
    push_range(&mut summary, buffer, 0, i);
    proof {
        assert(summary@ =~= b.subrange(0, summary_end(b)));
        if i < limit {
            assert(beside_ascii(b, i as int));
            crate::utf8::lemma_slice_valid(b, 0, i as int);
        } else {
            valid_utf8_split(b, i as int);
        }
    }
    let ghost head = summary@;
    if i < buffer.len() {
        summary.push(0x2E);
        summary.push(0x2E);
        summary.push(0x2E);
        proof {
            let dots = seq![0x2Eu8, 0x2E, 0x2E];
            assert(all_ascii(dots));
            lemma_ascii_valid(dots);
            lemma_concat_valid(head, dots);
            assert(summary@ =~= head + dots);
        }
    }
    proof {
        assert(summary@ =~= summary_spec(b));
    }
    string_of_bytes(summary)
}

/// One entry of the link list: the link to the scroll's coordinate, the coordinate and the
/// excerpt.
pub open spec fn nav_entry(base: Seq<u8>, tok: Token) -> Seq<u8> {
    bytes_of("<li><a href=\""@) + base + address_text(tok.0, 0x3B) + bytes_of("\">"@)
        + address_text(tok.0, 0x2F) + bytes_of(" "@) + summary_spec(tok.1) + bytes_of(
        "</a></li>\n"@,
    )
}

/// The entries of the link list for `toks`, in order.
pub open spec fn nav_entries(base: Seq<u8>, toks: Seq<Token>) -> Seq<u8>
    decreases toks.len(),
{
    if toks.len() == 0 {
        Seq::empty()
    } else {
        nav_entries(base, toks.drop_last()) + nav_entry(base, toks.last())
    }
}

/// The link list of document `b`: one entry per scroll, in an unordered list.
pub open spec fn navmap_spec(base: Seq<u8>, b: Seq<u8>) -> Seq<u8> {
    if tokens(b).len() > 0 {
        bytes_of("<ul>\n"@) + nav_entries(base, tokens(b)) + bytes_of("</ul>\n"@)
    } else {
        Seq::empty()
    }
}

/// Appends the bytes of `s` to `out`, keeping it valid UTF-8.
fn push_str_bytes(out: &mut Vec<u8>, s: &str)
    requires
        valid_utf8(old(out)@),
    ensures
        final(out)@ == old(out)@ + bytes_of(s@),
        valid_utf8(final(out)@),
{
    let b = bytes_of_str(s);
    let ghost o = out@;
    push_range(out, b, 0, b.len());
    proof {
        assert(b@.subrange(0, b@.len() as int) =~= b@);
        valid_utf8_concat(o, b@);
    }
}

/// Appends the link list entry of one scroll.
fn push_entry(out: &mut Vec<u8>, urlbase: &str, phoken: &PositionedScroll)
    requires
        valid_utf8(old(out)@),
    ensures
        final(out)@ == old(out)@ + nav_entry(bytes_of(urlbase@), phoken@),
        valid_utf8(final(out)@),
{
    let ghost o = out@;
    let ghost base = bytes_of(urlbase@);
    let ghost tok = phoken@;
    push_str_bytes(out, "<li><a href=\"");
    let ghost opened = bytes_of("<li><a href=\""@);
    push_str_bytes(out, urlbase);
    let ghost with_base = opened + base;
    assert(out@ =~= o + with_base);
    let link = phoken.coord.to_urlencoded();
    push_str_bytes(out, link.as_str());
    let ghost with_link = with_base + address_text(tok.0, 0x3B);
    assert(out@ =~= o + with_link);
    push_str_bytes(out, "\">");
    let ghost href_closed = with_link + bytes_of("\">"@);
    assert(out@ =~= o + href_closed);
    let shown = phoken.coord.to_string();
    push_str_bytes(out, shown.as_str());
    let ghost with_address = href_closed + address_text(tok.0, 0x2F);
    assert(out@ =~= o + with_address);
    push_str_bytes(out, " ");
    let ghost spaced = with_address + bytes_of(" "@);
    assert(out@ =~= o + spaced);
    let summary = create_summary(phoken.scroll.as_str());
    push_str_bytes(out, summary.as_str());
    let ghost with_summary = spaced + summary_spec(tok.1);
    assert(out@ =~= o + with_summary);
    push_str_bytes(out, "</a></li>\n");
    let ghost entry = with_summary + bytes_of("</a></li>\n"@);
    assert(out@ =~= o + entry);
    assert(entry == nav_entry(base, tok));
}

/// The link list of `phext`: for each scroll, a link to `urlbase` followed by the scroll's
/// address, showing the address and an excerpt.
pub fn navmap(urlbase: &str, phext: &str) -> (r: String)
    ensures
        bytes_of(r@) == navmap_spec(bytes_of(urlbase@), bytes_of(phext@)),
{
    let phokens = phokenize(phext);
    let ghost toks = token_views(phokens@);
    let ghost base = bytes_of(urlbase@);
    let mut result: Vec<u8> = Vec::new();
    let max = phokens.len();
    proof {
        lemma_ascii_valid(result@);
    }
    if max > 0 {
        push_str_bytes(&mut result, "<ul>\n");
    }
    let ghost opening = result@;
    let mut i: usize = 0;
    proof {
        assert(toks.take(0) =~= Seq::<Token>::empty());
        assert(result@ =~= opening + nav_entries(base, toks.take(0)));
    }
    while i < max
        invariant
            i <= max == phokens@.len(),
            toks == token_views(phokens@),
            base == bytes_of(urlbase@),
            result@ == opening + nav_entries(base, toks.take(i as int)),
            valid_utf8(result@),
        decreases max - i,
    {
        let phoken = &phokens[i];
        let ghost before = result@;
        push_entry(&mut result, urlbase, phoken);
        proof {
            let t = toks.take(i + 1);
            assert(t.drop_last() =~= toks.take(i as int));
            assert(t.last() == phoken@);
            assert(result@ =~= opening + nav_entries(base, t));
        }
        i += 1;
    }
    if max > 0 {
        push_str_bytes(&mut result, "</ul>\n");
    }
    proof {
        assert(toks.take(i as int) =~= toks);
        assert(tokens(bytes_of(phext@)).len() == max);
        if max > 0 {
            assert(opening == bytes_of("<ul>\n"@));
        } else {
            assert(opening == Seq::<u8>::empty());
        }
    }
    string_of_bytes(result)
}

} // verus!
