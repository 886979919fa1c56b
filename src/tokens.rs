//! Tokenizing a document into positioned scrolls and writing scrolls back as a document.
use vstd::prelude::*;
use std::cmp::Ordering;
use crate::coordinate::{
    default_coordinate, dimension_of, is_delimiter, lemma_view_injective, origin, precedes, walk,
    Coordinate,
};
use crate::edit::{gap, gap_fill, lemma_gap_ascii};
pub use crate::scanner::first_break;
pub(crate) use crate::scanner::lemma_first_break_bounds;
use crate::utf8::{
    bytes_of, bytes_of_str, lemma_ascii_valid, lemma_concat_valid, lemma_slice_valid,
    push_range, string_of_bytes,
};
use vstd::utf8::valid_utf8;

verus! {

/// A scroll's text with the coordinate of its first byte.
#[derive(Debug, Clone)]
pub struct PositionedScroll {
    pub coord: Coordinate,
    pub scroll: String,
}

/// A scroll as the contracts see it: its coordinate and its UTF-8 bytes.
pub type Token = (Seq<int>, Seq<u8>);

impl View for PositionedScroll {
    type V = Token;

    open spec fn view(&self) -> Token {
        (self.coord@, bytes_of(self.scroll@))
    }
}

impl PositionedScroll {
    /// The scroll `scroll` at `coord`.
    pub fn new(coord: Coordinate, scroll: String) -> (r: PositionedScroll)
        ensures
            r.coord == coord && r.scroll@ == scroll@,
    {
        PositionedScroll { coord, scroll }
    }
}

impl Default for PositionedScroll {
    fn default() -> (r: PositionedScroll)
        ensures
            r.coord@ == origin() && r.scroll@ == Seq::<char>::empty(),
    {
        PositionedScroll { coord: default_coordinate(), scroll: String::new() }
    }
}

impl PartialEq for PositionedScroll {
    fn eq(&self, other: &PositionedScroll) -> (r: bool) {
        self.coord == other.coord && self.scroll == other.scroll
    }
}

impl vstd::std_specs::cmp::PartialEqSpecImpl for PositionedScroll {
    open spec fn obeys_eq_spec() -> bool {
        true
    }

    open spec fn eq_spec(&self, other: &PositionedScroll) -> bool {
        self.coord == other.coord && self.scroll@ == other.scroll@
    }
}

/// Lexicographic order of byte strings.
pub open spec fn bytes_order(a: Seq<u8>, b: Seq<u8>) -> Ordering
    decreases a.len(),
{
    if a.len() == 0 {
        if b.len() == 0 {
            Ordering::Equal
        } else {
            Ordering::Less
        }
    } else if b.len() == 0 {
        Ordering::Greater
    } else if a[0] < b[0] {
        Ordering::Less
    } else if a[0] > b[0] {
        Ordering::Greater
    } else {
        bytes_order(a.drop_first(), b.drop_first())
    }
}

/// Order of scrolls: by coordinate, then by text.
pub open spec fn scroll_order(a: &PositionedScroll, b: &PositionedScroll) -> Ordering {
    if precedes(a.coord@, b.coord@) {
        Ordering::Less
    } else if precedes(b.coord@, a.coord@) {
        Ordering::Greater
    } else {
        bytes_order(bytes_of(a.scroll@), bytes_of(b.scroll@))
    }
}

/// Compares two byte strings lexicographically.
fn compare_bytes(a: &[u8], b: &[u8]) -> (r: Ordering)
    ensures
        r == bytes_order(a@, b@),
{
    let mut i: usize = 0;
    assert(a@.skip(0) =~= a@);
    assert(b@.skip(0) =~= b@);
    while i < a.len() && i < b.len()
        invariant
            i <= a@.len(),
            i <= b@.len(),
            bytes_order(a@, b@) == bytes_order(a@.skip(i as int), b@.skip(i as int)),
        decreases a@.len() - i,
    {
        if a[i] < b[i] {
            return Ordering::Less;
        }
        if a[i] > b[i] {
            return Ordering::Greater;
        }
        assert(a@.skip(i as int).drop_first() =~= a@.skip(i + 1));
        assert(b@.skip(i as int).drop_first() =~= b@.skip(i + 1));
        i += 1;
    }
    if i < a.len() {
        Ordering::Greater
    } else if i < b.len() {
        Ordering::Less
    } else {
        Ordering::Equal
    }
}

impl PartialOrd for PositionedScroll {
    fn partial_cmp(&self, other: &PositionedScroll) -> (r: Option<Ordering>) {
        if self.coord.precedes(&other.coord) {
            Some(Ordering::Less)
        } else if other.coord.precedes(&self.coord) {
            Some(Ordering::Greater)
        } else {
            Some(
                compare_bytes(
                    bytes_of_str(self.scroll.as_str()),
                    bytes_of_str(other.scroll.as_str()),
                ),
            )
        }
    }
}

impl vstd::std_specs::cmp::PartialOrdSpecImpl for PositionedScroll {
    open spec fn obeys_partial_cmp_spec() -> bool {
        true
    }

    open spec fn partial_cmp_spec(&self, other: &PositionedScroll) -> Option<Ordering> {
        Some(scroll_order(self, other))
    }
}

/// The views of a list of scrolls.
pub open spec fn token_views(v: Seq<PositionedScroll>) -> Seq<Token> {
    Seq::new(v.len(), |i: int| v[i]@)
}

/// The first index in `[p, len)` that holds a byte other than a break, or `len`.
pub open spec fn first_text(b: Seq<u8>, p: int) -> int
    decreases b.len() - p,
{
    if p < 0 || p >= b.len() {
        b.len() as int
    } else if !is_delimiter(b[p]) {
        p
    } else {
        first_text(b, p + 1)
    }
}

/// Where the first scroll of `b` begins: after the breaks that lead it.
pub open spec fn scroll_lead(b: Seq<u8>) -> int {
    first_text(b, 0)
}

/// Where the first scroll of `b` stops: at the next break, or at the end.
pub open spec fn scroll_stop(b: Seq<u8>) -> int {
    first_break(b, scroll_lead(b))
}

/// How much of `b` the first scroll uses up: the scroll and the break that ends it.
pub open spec fn scroll_consumed(b: Seq<u8>) -> int {
    if scroll_stop(b) < b.len() {
        scroll_stop(b) + 1
    } else {
        b.len() as int
    }
}

/// The coordinate of the first scroll of `b` when `b` starts at `c`.
pub open spec fn scroll_coord(b: Seq<u8>, c: Seq<int>) -> Seq<int> {
    if scroll_lead(b) < b.len() {
        walk(c, b, scroll_lead(b))
    } else {
        c
    }
}

/// The text of the first scroll of `b`.
pub open spec fn scroll_text(b: Seq<u8>) -> Seq<u8> {
    b.subrange(scroll_lead(b), scroll_stop(b))
}

/// The coordinate after the first scroll of `b` and the break that ends it.
pub open spec fn scroll_next(b: Seq<u8>, c: Seq<int>) -> Seq<int> {
    walk(c, b, scroll_consumed(b))
}

/// What follows the first scroll of `b` and the break that ends it.
pub open spec fn scroll_rest(b: Seq<u8>) -> Seq<u8> {
    b.subrange(scroll_consumed(b), b.len() as int)
}

/// The scrolls of `b`, in order, when `b` starts at `c`.
pub open spec fn tokens_from(b: Seq<u8>, c: Seq<int>) -> Seq<Token>
    decreases b.len(),
{
    let tok = (scroll_coord(b, c), scroll_text(b));
    if scroll_rest(b).len() == 0 || scroll_rest(b).len() >= b.len() {
        seq![tok]
    } else {
        seq![tok] + tokens_from(scroll_rest(b), scroll_next(b, c))
    }
}

/// The scrolls of document `b`, in order.
pub open spec fn tokens(b: Seq<u8>) -> Seq<Token> {
    tokens_from(b, origin())
}

/// The coordinate of the last of `toks`, or `c` when there is none.
pub open spec fn last_coord(toks: Seq<Token>, c: Seq<int>) -> Seq<int> {
    if toks.len() == 0 {
        c
    } else {
        toks.last().0
    }
}

/// The breaks from `from` up to `to`; none when `to` does not come after `from`.
pub open spec fn bridge(from: Seq<int>, to: Seq<int>) -> Seq<u8> {
    if precedes(from, to) {
        gap(from, to)
    } else {
        Seq::empty()
    }
}

/// A scroll written after a document that stands at `from`.
pub open spec fn appended(from: Seq<int>, tok: Token) -> Seq<u8> {
    bridge(from, tok.0) + tok.1
}

/// All of `toks` written out in order, starting at `c`.
pub open spec fn emit_all(toks: Seq<Token>, c: Seq<int>) -> Seq<u8>
    decreases toks.len(),
{
    if toks.len() == 0 {
        Seq::empty()
    } else {
        emit_all(toks.drop_last(), c) + appended(last_coord(toks.drop_last(), c), toks.last())
    }
}

/// The scrolls of `toks` that hold text, written out in order, starting at `c`; an
/// empty scroll still counts as the place the next one is written after.
pub open spec fn emit_texts(toks: Seq<Token>, c: Seq<int>) -> Seq<u8>
    decreases toks.len(),
{
    if toks.len() == 0 {
        Seq::empty()
    } else {
        emit_texts(toks.drop_last(), c) + if toks.last().1.len() > 0 {
            appended(last_coord(toks.drop_last(), c), toks.last())
        } else {
            Seq::empty()
        }
    }
}

/// The canonical form of `b`: its scrolls written back with the fewest breaks.
pub open spec fn normalize_spec(b: Seq<u8>) -> Seq<u8> {
    emit_texts(tokens(b), origin())
}

/// A byte is one of the nine dimension breaks.
pub fn is_dimension_break(byte: u8) -> (r: bool)
    ensures
        r == is_delimiter(byte),
{
    dimension_of(byte).is_some()
}

/// A byte is a dimension break or a line break.
pub fn is_phext_break(byte: u8) -> (r: bool)
    ensures
        r == (byte == 0x0A || is_delimiter(byte)),
{
    byte == 0x0A || is_dimension_break(byte)
}

/// The coordinates of `a` and `b` are the same.
pub fn same_coordinate(a: &Coordinate, b: &Coordinate) -> (r: bool)
    ensures
        r == (a@ == b@),
{
    proof {
        if a@ =~= b@ {
            lemma_view_injective(*a, *b);
        }
    }
    *a == *b
}

pub(crate) proof fn lemma_first_text_bounds(b: Seq<u8>, p: int)
    requires
        0 <= p <= b.len(),
    ensures
        p <= first_text(b, p) <= b.len(),
        first_text(b, p) < b.len() ==> !is_delimiter(b[first_text(b, p)]),
        forall|k: int| p <= k < first_text(b, p) ==> is_delimiter(#[trigger] b[k]),
    decreases b.len() - p,
{
    if p < b.len() && is_delimiter(b[p]) {
        lemma_first_text_bounds(b, p + 1);
    }
}

/// Splits off the first scroll of `phext`, read from coordinate `start`: the scroll with
/// its coordinate, the coordinate after the break that ends it, and the rest.
pub fn next_scroll(phext: &str, start: Coordinate) -> (r: (PositionedScroll, Coordinate, String))
    ensures
        r.0@ == (scroll_coord(bytes_of(phext@), start@), scroll_text(bytes_of(phext@))),
        r.1@ == scroll_next(bytes_of(phext@), start@),
        bytes_of(r.2@) == scroll_rest(bytes_of(phext@)),
{
    let p = bytes_of_str(phext);
    let ghost b = p@;
    let pmax = p.len();
    let mut location = start;
    let mut pi: usize = 0;
    while pi < pmax && is_dimension_break(p[pi])
        invariant
            pi <= pmax,
            pmax == b.len(),
            b == p@,
            location@ == walk(start@, b, pi as int),
            first_text(b, 0) == first_text(b, pi as int),
            forall|k: int| 0 <= k < pi ==> is_delimiter(#[trigger] b[k]),
        decreases pmax - pi,
    {
        location.read_byte(p[pi]);
        pi += 1;
    }
    let lead = pi;
    let ghost at_lead = location@;
    proof {
        lemma_first_text_bounds(b, pi as int);
        lemma_first_break_bounds(b, lead as int);
    }
    let begin = if lead < pmax {
        location
    } else {
        start
    };
    while pi < pmax && !is_dimension_break(p[pi])
        invariant
            lead <= pi <= pmax,
            pmax == b.len(),
            b == p@,
            location@ == at_lead,
            at_lead == walk(start@, b, pi as int),
            first_break(b, lead as int) == first_break(b, pi as int),
        decreases pmax - pi,
    {
        pi += 1;
    }
    let stop = pi;
    let mut consumed = pi;
    if pi < pmax {
        location.read_byte(p[pi]);
        consumed = pi + 1;
    }
    proof {
        lemma_first_break_bounds(b, pi as int);
        lemma_slice_valid(b, lead as int, stop as int);
        lemma_slice_valid(b, consumed as int, pmax as int);
    }
    let mut text: Vec<u8> = Vec::new();
    push_range(&mut text, p, lead, stop);
    let mut rest: Vec<u8> = Vec::new();
    push_range(&mut rest, p, consumed, pmax);
    assert(text@ =~= b.subrange(lead as int, stop as int));
    assert(rest@ =~= b.subrange(consumed as int, pmax as int));
    let scroll = string_of_bytes(text);
    let remaining = string_of_bytes(rest);
    (PositionedScroll { coord: begin, scroll }, location, remaining)
}

proof fn lemma_consumed_progress(b: Seq<u8>)
    requires
        b.len() > 0,
    ensures
        1 <= scroll_consumed(b) <= b.len(),
{
    lemma_first_text_bounds(b, 0);
    lemma_first_break_bounds(b, scroll_lead(b));
}

/// The scrolls of `phext`, in document order.
pub fn phokenize(phext: &str) -> (r: Vec<PositionedScroll>)
    ensures
        token_views(r@) == tokens(bytes_of(phext@)),
{
    let ghost b = bytes_of(phext@);
    let mut result: Vec<PositionedScroll> = Vec::new();
    let (item, next, rest) = next_scroll(phext, default_coordinate());
    let ghost first = item@;
    let ghost rb = bytes_of(rest@);
    let ghost nc = next@;
    result.push(item);
    let mut coord = next;
    let mut temp = rest;
    proof {
        if b.len() > 0 {
            lemma_consumed_progress(b);
        }
        assert(token_views(result@) =~= seq![first]);
        if rb.len() > 0 {
            assert(tokens(b) =~= seq![first] + tokens_from(rb, nc));
        } else {
            assert(tokens(b) =~= seq![first]);
        }
    }
    while bytes_of_str(temp.as_str()).len() > 0
        invariant
            bytes_of(temp@).len() < b.len() || bytes_of(temp@).len() == 0,
            bytes_of(temp@).len() == 0 ==> token_views(result@) == tokens(b),
            bytes_of(temp@).len() > 0 ==> token_views(result@) + tokens_from(
                bytes_of(temp@),
                coord@,
            ) == tokens(b),
        decreases bytes_of(temp@).len(),
    {
        let ghost before = token_views(result@);
        let ghost tb = bytes_of(temp@);
        let (item, next, rest) = next_scroll(temp.as_str(), coord);
        let ghost tok = item@;
        result.push(item);
        proof {
            lemma_consumed_progress(tb);
            assert(token_views(result@) =~= before.push(tok));
            if bytes_of(rest@).len() > 0 {
                assert(tokens_from(tb, coord@) =~= seq![tok] + tokens_from(
                    bytes_of(rest@),
                    next@,
                ));
                assert(before + tokens_from(tb, coord@) =~= before.push(tok) + tokens_from(
                    bytes_of(rest@),
                    next@,
                ));
            } else {
                assert(tokens_from(tb, coord@) =~= seq![tok]);
                assert(before + tokens_from(tb, coord@) =~= before.push(tok));
            }
        }
        coord = next;
        temp = rest;
    }
    result
}

/// Adds `token` to `out`, a document that stands at `coord`: the breaks that lead to
/// the token's coordinate, then its text.
pub(crate) fn append_scroll(out: &mut Vec<u8>, token: &PositionedScroll, coord: Coordinate)
    requires
        valid_utf8(old(out)@),
    ensures
        final(out)@ == old(out)@ + appended(coord@, token@),
        valid_utf8(final(out)@),
{
    let ghost o = out@;
    if coord.precedes(&token.coord) {
        let fixup = gap_fill(coord, &token.coord);
        push_range(out, fixup.as_slice(), 0, fixup.len());
        proof {
            assert(fixup@.subrange(0, fixup@.len() as int) =~= fixup@);
            lemma_gap_ascii(coord@, token.coord@, 0);
            lemma_ascii_valid(fixup@);
            lemma_concat_valid(o, fixup@);
        }
    }
    let ghost mid = out@;
    let text = bytes_of_str(token.scroll.as_str());
    push_range(out, text, 0, text.len());
    proof {
        assert(text@.subrange(0, text@.len() as int) =~= text@);
        lemma_concat_valid(mid, text@);
        assert(out@ =~= o + appended(coord@, token@));
    }
}

/// Writes scrolls back as a document, skipping scrolls without text.
pub(crate) fn dephokenize(tokens: &Vec<PositionedScroll>) -> (r: String)
    ensures
        bytes_of(r@) == emit_texts(token_views(tokens@), origin()),
{
    let ghost views = token_views(tokens@);
    let mut out: Vec<u8> = Vec::new();
    let mut coord = default_coordinate();
    let mut i: usize = 0;
    proof {
        lemma_ascii_valid(out@);
        assert(views.take(0) =~= Seq::<Token>::empty());
    }
    while i < tokens.len()
        invariant
            i <= tokens@.len(),
            views == token_views(tokens@),
            valid_utf8(out@),
            out@ == emit_texts(views.take(i as int), origin()),
            coord@ == last_coord(views.take(i as int), origin()),
        decreases tokens@.len() - i,
    {
        let ps = &tokens[i];
        let ghost prev = out@;
        if bytes_of_str(ps.scroll.as_str()).len() > 0 {
            append_scroll(&mut out, ps, coord);
        }
        proof {
            let t = views.take(i + 1);
            assert(t.drop_last() =~= views.take(i as int));
            assert(t.last() == ps@);
            assert(emit_texts(t, origin()) == emit_texts(views.take(i as int), origin()) + (if ps@.1.len()
                > 0 {
                appended(coord@, ps@)
            } else {
                Seq::empty()
            }));
            assert(out@ =~= emit_texts(t, origin()));
        }
        coord = ps.coord;
        i += 1;
    }
    proof {
        assert(views.take(i as int) =~= views);
    }
    string_of_bytes(out)
}

/// The canonical form of `phext`: its scrolls written back with the fewest breaks, without
/// empty scrolls or trailing breaks.
pub fn normalize(phext: &str) -> (r: String)
    ensures
        bytes_of(r@) == normalize_spec(bytes_of(phext@)),
{
    let arr = phokenize(phext);
    dephokenize(&arr)
}

} // verus!
