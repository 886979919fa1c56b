//! Byte-level helpers: documents are handled as UTF-8 bytes and every split point sits
//! beside an ASCII byte, which keeps each piece valid UTF-8.
use vstd::prelude::*;
use vstd::utf8::*;

verus! {

broadcast use vstd::utf8::group_utf8_lib;

/// The UTF-8 bytes of a string's characters.
pub open spec fn bytes_of(s: Seq<char>) -> Seq<u8> {
    encode_utf8(s)
}

/// Every byte is ASCII.
pub open spec fn all_ascii(s: Seq<u8>) -> bool {
    forall|i: int| 0 <= i < s.len() ==> #[trigger] s[i] < 0x80
}

/// Offset `p` is an end of `b` or stands next to an ASCII byte.
pub open spec fn beside_ascii(b: Seq<u8>, p: int) -> bool {
    ||| p == 0
    ||| p == b.len()
    ||| (0 <= p < b.len() && b[p] < 0x80)
    ||| (0 < p <= b.len() && b[p - 1] < 0x80)
}

/// Relies on `String::from_utf8`: a byte vector that is valid UTF-8 becomes the string
/// whose characters it encodes.
#[verifier::external_body]
pub(crate) fn string_from_utf8(bytes: Vec<u8>) -> (r: String)
    requires
        valid_utf8(bytes@),
    ensures
        r@ == decode_utf8(bytes@),
{
    String::from_utf8(bytes).unwrap_or_default()
}

/// The string whose UTF-8 encoding is `bytes`.
pub(crate) fn string_of_bytes(bytes: Vec<u8>) -> (r: String)
    requires
        valid_utf8(bytes@),
    ensures
        bytes_of(r@) == bytes@,
{
    let r = string_from_utf8(bytes);
    proof {
        decode_utf8_encode_utf8(bytes@);
    }
    r
}

/// The UTF-8 bytes of a string slice.
pub(crate) fn bytes_of_str(s: &str) -> (r: &[u8])
    ensures
        r@ == bytes_of(s@),
        valid_utf8(r@),
{
    proof {
        encode_utf8_valid_utf8(s@);
    }
    s.as_bytes()
}

/// Appends `src[from..to]` to `out`.
pub(crate) fn push_range(out: &mut Vec<u8>, src: &[u8], from: usize, to: usize)
    requires
        from <= to <= src@.len(),
    ensures
        final(out)@ == old(out)@ + src@.subrange(from as int, to as int),
{
    let mut i = from;
    while i < to
        invariant
            from <= i <= to,
            to <= src@.len(),
            out@ == old(out)@ + src@.subrange(from as int, i as int),
        decreases to - i,
    {
        out.push(src[i]);
        i += 1;
        assert(out@ =~= old(out)@ + src@.subrange(from as int, i as int));
    }
}

/// A run of ASCII bytes is valid UTF-8.
pub proof fn lemma_ascii_valid(s: Seq<u8>)
    requires
        all_ascii(s),
    ensures
        valid_utf8(s),
{
    assert(s.subrange(0, 0) =~= Seq::<u8>::empty());
    assert(valid_utf8(Seq::<u8>::empty()));
    partial_valid_utf8_extend_ascii_block(s, 0, s.len() as int);
    assert(s.subrange(0, s.len() as int) =~= s);
}

/// A valid byte sequence splits into valid pieces at any offset beside an ASCII byte.
pub proof fn lemma_boundary_beside_ascii(b: Seq<u8>, p: int)
    requires
        valid_utf8(b),
        0 <= p <= b.len(),
        beside_ascii(b, p),
    ensures
        is_char_boundary(b, p),
{
    is_char_boundary_start_end_of_seq(b);
    if p == 0 || p == b.len() {
    } else if b[p] < 0x80 {
        is_char_boundary_iff_not_is_continuation_byte(b, p);
    } else {
        is_char_boundary_iff_not_is_continuation_byte(b, p - 1);
        valid_utf8_split(b, p - 1);
        let s = b.subrange(p - 1, b.len() as int);
        assert(s[0] == b[p - 1]);
        assert(valid_first_scalar(s));
        assert(length_of_first_scalar(s) == 1);
        assert(pop_first_scalar(s) =~= b.subrange(p, b.len() as int));
        let r = b.subrange(p, b.len() as int);
        assert(valid_utf8(r));
        assert(r.len() > 0);
        assert(valid_first_scalar(r));
        assert(r[0] == b[p]);
        is_char_boundary_iff_not_is_continuation_byte(b, p);
    }
}

/// The bytes between two offsets that each stand beside an ASCII byte are valid UTF-8.
pub proof fn lemma_slice_valid(b: Seq<u8>, p: int, q: int)
    requires
        valid_utf8(b),
        0 <= p <= q <= b.len(),
        beside_ascii(b, p),
        beside_ascii(b, q),
    ensures
        valid_utf8(b.subrange(p, q)),
{
    lemma_boundary_beside_ascii(b, p);
    valid_utf8_split(b, p);
    let s = b.subrange(p, b.len() as int);
    assert(beside_ascii(s, q - p)) by {
        if q == b.len() {
        } else if q == p {
        } else if b[q] < 0x80 {
            assert(s[q - p] == b[q]);
        } else {
            assert(s[q - p - 1] == b[q - 1]);
        }
    }
    lemma_boundary_beside_ascii(s, q - p);
    valid_utf8_split(s, q - p);
    assert(s.subrange(0, q - p) =~= b.subrange(p, q));
}

/// Valid pieces joined stay valid.
pub proof fn lemma_concat_valid(a: Seq<u8>, b: Seq<u8>)
    requires
        valid_utf8(a),
        valid_utf8(b),
    ensures
        valid_utf8(a + b),
{
    valid_utf8_concat(a, b);
}

/// Replacing ASCII bytes by ASCII bytes keeps a byte sequence valid.
pub proof fn lemma_ascii_substitution(a: Seq<u8>, b: Seq<u8>)
    requires
        valid_utf8(a),
        a.len() == b.len(),
        forall|i: int| 0 <= i < a.len() && #[trigger] a[i] != b[i] ==> a[i] < 0x80 && b[i] < 0x80,
    ensures
        valid_utf8(b),
    decreases a.len(),
{
    if a.len() > 0 {
        assert(valid_first_scalar(a));
        if a[0] < 0x80 {
            assert(b[0] < 0x80) by {
                if a[0] == b[0] {
                }
            }
            assert(valid_first_scalar(b));
            let ra = pop_first_scalar(a);
            let rb = pop_first_scalar(b);
            assert(ra =~= a.subrange(1, a.len() as int));
            assert(rb =~= b.subrange(1, b.len() as int));
            assert forall|i: int| 0 <= i < ra.len() && #[trigger] ra[i] != rb[i] implies ra[i]
                < 0x80 && rb[i] < 0x80 by {
                assert(ra[i] == a[i + 1] && rb[i] == b[i + 1]);
            }
            lemma_ascii_substitution(ra, rb);
        } else {
            let n = length_of_first_scalar(a);
            assert(forall|i: int| 0 <= i < n ==> a[i] >= 0x80);
            assert(forall|i: int| 0 <= i < n ==> a[i] == b[i]);
            assert(b[0] == a[0]);
            assert(valid_first_scalar(b));
            let ra = pop_first_scalar(a);
            let rb = pop_first_scalar(b);
            assert(length_of_first_scalar(b) == n);
            assert forall|i: int| 0 <= i < ra.len() && #[trigger] ra[i] != rb[i] implies ra[i]
                < 0x80 && rb[i] < 0x80 by {
                assert(ra[i] == a[i + n] && rb[i] == b[i + n]);
            }
            lemma_ascii_substitution(ra, rb);
        }
    }
}

} // verus!
