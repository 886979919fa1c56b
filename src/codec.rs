//! Textual addresses: parsing `z3.z2.z1/y3.y2.y1/x3.x2.x1` and writing it back.
use vstd::prelude::*;
use crate::coordinate::{
    coordinate_of, default_coordinate, is_valid, lemma_view_injective, Coordinate,
};
use crate::edit::{fetch, fetch_spec};
use crate::utf8::{all_ascii, bytes_of, bytes_of_str, lemma_ascii_valid, string_of_bytes};

verus! {

/// `.`, `/` or `;`: the bytes that separate the indices of an address.
pub open spec fn is_separator(b: u8) -> bool {
    b == 0x2E || b == 0x2F || b == 0x3B
}

/// An ASCII decimal digit.
pub open spec fn is_digit(b: u8) -> bool {
    0x30 <= b <= 0x39
}

/// The pieces of `s` between separators, in order; there is always at least one.
pub open spec fn pieces(s: Seq<u8>) -> Seq<Seq<u8>>
    decreases s.len(),
{
    if s.len() == 0 {
        seq![Seq::empty()]
    } else if is_separator(s.last()) {
        pieces(s.drop_last()).push(Seq::empty())
    } else {
        let p = pieces(s.drop_last());
        p.update(p.len() - 1, p.last().push(s.last()))
    }
}

/// A value held at `usize::MAX`.
pub open spec fn saturate(v: int) -> int {
    if v > usize::MAX {
        usize::MAX as int
    } else {
        v
    }
}

/// The number that the digits of `s` spell, other bytes ignored, held at `usize::MAX`.
pub open spec fn digits_value(s: Seq<u8>) -> int
    decreases s.len(),
{
    if s.len() == 0 {
        0
    } else if is_digit(s.last()) {
        saturate(10 * digits_value(s.drop_last()) + (s.last() - 0x30))
    } else {
        digits_value(s.drop_last())
    }
}

/// `s` holds at least one digit.
pub open spec fn has_digit(s: Seq<u8>) -> bool
    decreases s.len(),
{
    s.len() > 0 && (is_digit(s.last()) || has_digit(s.drop_last()))
}

/// The index a piece of an address gives: its number, or 1 when it holds no digit.
pub open spec fn piece_value(s: Seq<u8>) -> int {
    if has_digit(s) {
        digits_value(s)
    } else {
        1
    }
}

/// The coordinate an address spells: the first nine pieces fill the dimensions from the
/// library down; a dimension without a piece is 1.
pub open spec fn parsed(s: Seq<u8>) -> Seq<int> {
    Seq::new(
        9,
        |d: int|
            if d < pieces(s).len() {
                piece_value(pieces(s)[d])
            } else {
                1
            },
    )
}

/// The decimal digits of `n`.
pub open spec fn decimal(n: nat) -> Seq<u8>
    decreases n,
{
    if n < 10 {
        seq![(0x30 + n) as u8]
    } else {
        decimal(n / 10).push((0x30 + n % 10) as u8)
    }
}

/// The nine indices of `c` in decimal, `.` inside an arm and `sep` between arms.
pub open spec fn render(c: Seq<int>, sep: u8) -> Seq<u8> {
    decimal(c[0] as nat) + seq![0x2Eu8] + decimal(c[1] as nat) + seq![0x2Eu8] + decimal(
        c[2] as nat,
    ) + seq![sep] + decimal(c[3] as nat) + seq![0x2Eu8] + decimal(c[4] as nat) + seq![0x2Eu8]
        + decimal(c[5] as nat) + seq![sep] + decimal(c[6] as nat) + seq![0x2Eu8] + decimal(
        c[7] as nat,
    ) + seq![0x2Eu8] + decimal(c[8] as nat)
}

/// The canonical text of `c` with `sep` between arms, or nothing when `c` is invalid.
pub open spec fn address_text(c: Seq<int>, sep: u8) -> Seq<u8> {
    if is_valid(c) {
        render(c, sep)
    } else {
        Seq::empty()
    }
}

/// Appends one ASCII byte.
fn push_ascii(out: &mut Vec<u8>, b: u8)
    requires
        b < 0x80,
    ensures
        final(out)@ == old(out)@.push(b),
        all_ascii(old(out)@) ==> all_ascii(final(out)@),
{
    out.push(b);
    assert(all_ascii(old(out)@) ==> all_ascii(final(out)@)) by {
        if all_ascii(old(out)@) {
            assert forall|i: int| 0 <= i < final(out)@.len() implies #[trigger] final(out)@[i]
                < 0x80 by {
                if i < old(out)@.len() {
                    assert(final(out)@[i] == old(out)@[i]);
                }
            }
        }
    }
}

/// Appends the decimal digits of `n`.
fn push_decimal(out: &mut Vec<u8>, n: usize)
    ensures
        final(out)@ == old(out)@ + decimal(n as nat),
        all_ascii(old(out)@) ==> all_ascii(final(out)@),
    decreases n,
{
    if n >= 10 {
        push_decimal(out, n / 10);
    }
    push_ascii(out, (0x30 + n % 10) as u8);
    assert(final(out)@ =~= old(out)@ + decimal(n as nat));
}

impl Coordinate {
    /// Sets the index of dimension `d`.
    pub fn set_dim(&mut self, d: usize, v: usize)
        requires
            d < 9,
        ensures
            final(self)@ =~= old(self)@.update(d as int, v as int),
    {
        match d {
            0 => self.z.library = v,
            1 => self.z.shelf = v,
            2 => self.z.series = v,
            3 => self.y.collection = v,
            4 => self.y.volume = v,
            5 => self.y.book = v,
            6 => self.x.chapter = v,
            7 => self.x.section = v,
            _ => self.x.scroll = v,
        }
    }

    fn render_with(&self, sep: u8) -> (r: String)
        requires
            sep < 0x80,
        ensures
            bytes_of(r@) == address_text(self@, sep),
    {
        let mut out: Vec<u8> = Vec::new();
        assert(all_ascii(out@));
        if self.validate_coordinate() {
            push_decimal(&mut out, self.z.library);
            push_ascii(&mut out, 0x2E);
            push_decimal(&mut out, self.z.shelf);
            push_ascii(&mut out, 0x2E);
            push_decimal(&mut out, self.z.series);
            push_ascii(&mut out, sep);
            push_decimal(&mut out, self.y.collection);
            push_ascii(&mut out, 0x2E);
            push_decimal(&mut out, self.y.volume);
            push_ascii(&mut out, 0x2E);
            push_decimal(&mut out, self.y.book);
            push_ascii(&mut out, sep);
            push_decimal(&mut out, self.x.chapter);
            push_ascii(&mut out, 0x2E);
            push_decimal(&mut out, self.x.section);
            push_ascii(&mut out, 0x2E);
            push_decimal(&mut out, self.x.scroll);
            assert(out@ =~= render(self@, sep));
        }
        proof {
            lemma_ascii_valid(out@);
        }
        string_of_bytes(out)
    }

    /// The canonical address `z3.z2.z1/y3.y2.y1/x3.x2.x1`, or an empty string when an
    /// index lies outside `[1, 100]`.
    pub fn to_string(&self) -> (r: String)
        ensures
            bytes_of(r@) == address_text(self@, 0x2F),
    {
        self.render_with(0x2F)
    }

    /// The address with `;` between arms, for use inside URLs, or an empty string when an
    /// index lies outside `[1, 100]`.
    pub fn to_urlencoded(&self) -> (r: String)
        ensures
            bytes_of(r@) == address_text(self@, 0x3B),
    {
        self.render_with(0x3B)
    }
}

/// Parses an address leniently: pieces between `.`, `/` or `;` fill the dimensions from the
/// library down; missing pieces and pieces without digits give 1. Never fails.
pub fn to_coordinate(address: &str) -> (r: Coordinate)
    ensures
        r@ == parsed(bytes_of(address@)),
{
    let s = bytes_of_str(address);
    let ghost b = s@;
    let mut result = default_coordinate();
    let mut index: usize = 0;
    let mut value: usize = 0;
    let mut has: bool = false;
    let mut i: usize = 0;
    proof {
        assert(b.take(0) =~= Seq::<u8>::empty());
    }
    while i < s.len()
        invariant
            i <= b.len(),
            index <= i,
            b == s@,
            index as int == pieces(b.take(i as int)).len() - 1,
            value as int == digits_value(pieces(b.take(i as int)).last()),
            has == has_digit(pieces(b.take(i as int)).last()),
            forall|d: int|
                0 <= d < 9 ==> #[trigger] result@[d] == if d < index {
                    piece_value(pieces(b.take(i as int))[d])
                } else {
                    1
                },
        decreases b.len() - i,
    {
        let byte = s[i];
        let ghost pre = b.take(i as int);
        let ghost p = pieces(pre);
        let ghost post = b.take(i + 1);
        proof {
            assert(post.drop_last() =~= pre);
            assert(post.last() == byte);
        }
        if byte == 0x2E || byte == 0x2F || byte == 0x3B {
            if index < 9 {
                let v = if has {
                    value
                } else {
                    1
                };
                result.set_dim(index, v);
            }
            index += 1;
            value = 0;
            has = false;
            proof {
                assert(pieces(post) == p.push(Seq::<u8>::empty()));
                assert(pieces(post).len() == p.len() + 1);
            }
        } else {
            if byte >= 0x30 && byte <= 0x39 {
                let digit = (byte - 0x30) as usize;
                if value > (usize::MAX - digit) / 10 {
                    value = usize::MAX;
                    assert(10 * (value as int) + digit > usize::MAX) by (nonlinear_arith)
                        requires
                            value > (usize::MAX - digit) / 10;
                } else {
                    assert(value * 10 + digit <= usize::MAX) by (nonlinear_arith)
                        requires
                            value <= (usize::MAX - digit) / 10, digit <= 9;
                    value = value * 10 + digit;
                }
                has = true;
            }
            proof {
                let last = p.last().push(byte);
                assert(last.drop_last() =~= p.last());
                assert(pieces(post) == p.update(p.len() - 1, last));
            }
        }
        i += 1;
    }
    proof {
        assert(b.take(i as int) =~= b);
    }
    if index < 9 {
        let v = if has {
            value
        } else {
            1
        };
        result.set_dim(index, v);
    }
    proof {
        assert(result@ =~= parsed(b));
    }
    result
}

/// The text at the address `target`.
pub fn locate(phext: &str, target: &str) -> (r: String)
    ensures
        bytes_of(r@) == fetch_spec(bytes_of(phext@), parsed(bytes_of(target@))),
{
    fetch(phext, to_coordinate(target))
}

/// `phext` holds the bell control code.
pub fn check_for_cowbell(phext: &str) -> (r: bool)
    ensures
        r == exists|i: int| 0 <= i < bytes_of(phext@).len() && #[trigger] bytes_of(phext@)[i] == 0x07,
{
    let s = bytes_of_str(phext);
    let mut i: usize = 0;
    while i < s.len()
        invariant
            i <= s@.len(),
            s@ == bytes_of(phext@),
            forall|j: int| 0 <= j < i ==> #[trigger] s@[j] != 0x07,
        decreases s@.len() - i,
    {
        if s[i] == 0x07 {
            return true;
        }
        i += 1;
    }
    false
}


/// The separators of `s` in order.
pub open spec fn sep_kinds(s: Seq<u8>) -> Seq<u8>
    decreases s.len(),
{
    if s.len() == 0 {
        Seq::empty()
    } else if is_separator(s.last()) {
        sep_kinds(s.drop_last()).push(s.last())
    } else {
        sep_kinds(s.drop_last())
    }
}

/// The number that the digits of `s` spell.
pub open spec fn exact_value(s: Seq<u8>) -> int
    decreases s.len(),
{
    if s.len() == 0 {
        0
    } else {
        10 * exact_value(s.drop_last()) + (s.last() - 0x30)
    }
}

/// `s` is a non-empty run of digits whose number fits in a `usize`.
pub open spec fn piece_is_number(s: Seq<u8>) -> bool {
    &&& s.len() > 0
    &&& forall|i: int| 0 <= i < s.len() ==> is_digit(#[trigger] s[i])
    &&& exact_value(s) <= usize::MAX
}

/// The separators of a strict address: `.` inside the arms, `/` between them.
pub open spec fn strict_separators() -> Seq<u8> {
    seq![0x2Eu8, 0x2E, 0x2F, 0x2E, 0x2E, 0x2F, 0x2E, 0x2E]
}

/// `s` is exactly `z3.z2.z1/y3.y2.y1/x3.x2.x1` with nine numbers.
pub open spec fn strict_address(s: Seq<u8>) -> bool {
    &&& sep_kinds(s) == strict_separators()
    &&& pieces(s).len() == 9
    &&& forall|k: int| 0 <= k < 9 ==> piece_is_number(#[trigger] pieces(s)[k])
}

/// The values of the nine pieces of a strict address.
pub open spec fn strict_values(s: Seq<u8>) -> Seq<int> {
    Seq::new(9, |k: int| exact_value(pieces(s)[k]))
}

/// What strict parsing gives for `s`.
pub open spec fn strict_result(s: Seq<u8>) -> Result<Coordinate, PhextParseError> {
    if strict_address(s) {
        Ok(coordinate_of(strict_values(s)))
    } else {
        Err(PhextParseError)
    }
}

/// An address that does not have the strict form `LB.SF.SR/CN.VM.BK/CH.SN.SC`.
#[derive(Debug, Clone, Copy, PartialEq, Eq, Structural)]
pub struct PhextParseError;

impl Default for PhextParseError {
    fn default() -> (r: PhextParseError) {
        PhextParseError
    }
}

impl PhextParseError {
    /// A description of the expected form.
    pub fn message(&self) -> (r: String)
        ensures
            r@ == "Phext addresses are of the form LB.SF.SR/CN.VM.BK/CH.SN.SC"@,
    {
        "Phext addresses are of the form LB.SF.SR/CN.VM.BK/CH.SN.SC".to_owned()
    }
}

proof fn lemma_exact_value_prefix(s: Seq<u8>, j: int)
    requires
        0 <= j <= s.len(),
        forall|i: int| 0 <= i < s.len() ==> is_digit(#[trigger] s[i]),
    ensures
        0 <= exact_value(s.take(j)) <= exact_value(s),
    decreases s.len(),
{
    if s.len() > 0 {
        let init = s.drop_last();
        assert forall|i: int| 0 <= i < init.len() implies is_digit(#[trigger] init[i]) by {
            assert(init[i] == s[i]);
        }
        if j < s.len() {
            lemma_exact_value_prefix(init, j);
            assert(init.take(j) =~= s.take(j));
        } else {
            assert(s.take(j) =~= s);
        }
        lemma_exact_value_prefix(init, init.len() as int);
        assert(init.take(init.len() as int) =~= init);
    } else {
        assert(s.take(j) =~= s);
    }
}

/// The number a piece spells, when it is a non-empty run of digits that fits a `usize`.
fn piece_number(p: &Vec<u8>) -> (r: Option<usize>)
    ensures
        r is Some <==> piece_is_number(p@),
        r matches Some(v) ==> v as int == exact_value(p@),
{
    if p.len() == 0 {
        return None;
    }
    let mut value: usize = 0;
    let mut i: usize = 0;
    assert(p@.take(0) =~= Seq::<u8>::empty());
    while i < p.len()
        invariant
            i <= p@.len(),
            value as int == exact_value(p@.take(i as int)),
            forall|k: int| 0 <= k < i ==> is_digit(#[trigger] p@[k]),
        decreases p@.len() - i,
    {
        let b = p[i];
        if b < 0x30 || b > 0x39 {
            return None;
        }
        let digit = (b - 0x30) as usize;
        proof {
            assert(p@.take(i + 1).drop_last() =~= p@.take(i as int));
        }
        if value > (usize::MAX - digit) / 10 {
            proof {
                assert(10 * (value as int) + digit > usize::MAX) by (nonlinear_arith)
                    requires
                        value > (usize::MAX - digit) / 10;
                if forall|k: int| 0 <= k < p@.len() ==> is_digit(#[trigger] p@[k]) {
                    lemma_exact_value_prefix(p@, i + 1);
                }
            }
            return None;
        }
        assert(value * 10 + digit <= usize::MAX) by (nonlinear_arith)
            requires
                value <= (usize::MAX - digit) / 10,
                digit <= 9;
        value = value * 10 + digit;
        i += 1;
    }
    assert(p@.take(i as int) =~= p@);
    Some(value)
}

/// Parses an address of the strict form `z3.z2.z1/y3.y2.y1/x3.x2.x1`: nine numbers, `.`
/// inside the arms and `/` between them; anything else is an error.
pub fn parse_strict(value: &str) -> (r: Result<Coordinate, PhextParseError>)
    ensures
        r == strict_result(bytes_of(value@)),
{
    let s = bytes_of_str(value);
    let ghost b = s@;
    let mut kinds: Vec<u8> = Vec::new();
    let mut done: Vec<Vec<u8>> = Vec::new();
    let mut current: Vec<u8> = Vec::new();
    let mut i: usize = 0;
    assert(b.take(0) =~= Seq::<u8>::empty());
    while i < s.len()
        invariant
            i <= b.len(),
            b == s@,
            kinds@ == sep_kinds(b.take(i as int)),
            kinds@.len() == done@.len(),
            done@.len() + 1 == pieces(b.take(i as int)).len(),
            forall|k: int| 0 <= k < done@.len() ==> (#[trigger] done@[k])@ == pieces(
                b.take(i as int),
            )[k],
            current@ == pieces(b.take(i as int)).last(),
        decreases b.len() - i,
    {
        let byte = s[i];
        let ghost pre = b.take(i as int);
        let ghost post = b.take(i + 1);
        proof {
            assert(post.drop_last() =~= pre);
            assert(post.last() == byte);
        }
        if byte == 0x2E || byte == 0x2F || byte == 0x3B {
            kinds.push(byte);
            let finished = current;
            done.push(finished);
            current = Vec::new();
            proof {
                assert(pieces(post) == pieces(pre).push(Seq::<u8>::empty()));
                assert(current@ =~= Seq::<u8>::empty());
            }
        } else {
            current.push(byte);
            proof {
                let p = pieces(pre);
                assert(pieces(post) == p.update(p.len() - 1, p.last().push(byte)));
            }
        }
        i += 1;
    }
    proof {
        assert(b.take(i as int) =~= b);
    }
    let ghost ps = pieces(b);
    let mut shape_ok = kinds.len() == 8;
    let mut k: usize = 0;
    while shape_ok && k < 8
        invariant
            k <= 8,
            shape_ok ==> kinds@.len() == 8,
            shape_ok ==> forall|j: int| 0 <= j < k ==> kinds@[j] == strict_separators()[j],
            !shape_ok ==> kinds@ != strict_separators(),
        decreases 8 - k,
    {
        let expected: u8 = if k == 2 || k == 5 {
            0x2F
        } else {
            0x2E
        };
        if kinds[k] != expected {
            shape_ok = false;
        }
        k += 1;
    }
    if !shape_ok {
        return Err(PhextParseError);
    }
    assert(kinds@ =~= strict_separators());
    done.push(current);
    assert(done@.len() == 9);
    assert forall|j: int| 0 <= j < 9 implies (#[trigger] done@[j])@ == ps[j] by {
    }
    let mut result = default_coordinate();
    let mut j: usize = 0;
    while j < 9
        invariant
            j <= 9,
            done@.len() == 9,
            b == bytes_of(value@),
            ps == pieces(b),
            ps.len() == 9,
            forall|m: int| 0 <= m < 9 ==> (#[trigger] done@[m])@ == ps[m],
            forall|m: int| 0 <= m < j ==> piece_is_number(#[trigger] ps[m]),
            forall|m: int| 0 <= m < j ==> #[trigger] result@[m] == exact_value(ps[m]),
        decreases 9 - j,
    {
        match piece_number(&done[j]) {
            Some(v) => {
                result.set_dim(j, v);
            },
            None => {
                assert(!piece_is_number(ps[j as int]));
                return Err(PhextParseError);
            },
        }
        j += 1;
    }
    proof {
        let vals = strict_values(b);
        assert(coordinate_of(vals)@ =~= result@);
        lemma_view_injective(result, coordinate_of(vals));
    }
    Ok(result)
}

impl<'a> std::convert::TryFrom<&'a str> for Coordinate {
    type Error = PhextParseError;

    fn try_from(value: &'a str) -> Result<Coordinate, PhextParseError> {
        parse_strict(value)
    }
}

impl<'a> vstd::std_specs::convert::TryFromSpecImpl<&'a str> for Coordinate {
    open spec fn obeys_try_from_spec() -> bool {
        true
    }

    open spec fn try_from_spec(v: &'a str) -> Result<Coordinate, PhextParseError> {
        strict_result(bytes_of(v@))
    }
}

} // verus!
