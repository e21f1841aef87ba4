//! Helpers for carving byte ranges out of a `&str`.
//!
//! The tokenizer locates flag spellings as byte ranges of the help text;
//! every range it records starts and ends next to an ASCII byte, so the
//! lemmas here show such positions are character boundaries and the
//! ranges can be sliced out as substrings.

use vstd::prelude::*;
use vstd::string::StringSliceAdditionalSpecFns;
use vstd::utf8::encode_scalar;
use vstd::utf8::encode_utf8;
use vstd::utf8::is_char_boundary;
use vstd::utf8::is_char_boundary_iff_not_is_continuation_byte;
use vstd::utf8::is_char_boundary_start_end_of_seq;
use vstd::utf8::is_continuation_byte;
use vstd::utf8::is_leading_byte_width_1;
use vstd::utf8::length_of_first_scalar;
use vstd::utf8::pop_first_scalar;
use vstd::utf8::valid_utf8;
use vstd::utf8::valid_utf8_split;

verus! {

/// An ASCII byte of a valid UTF-8 sequence starts a character, and the
/// position after it starts one too.
pub proof fn lemma_ascii_byte_boundaries(t: Seq<u8>, i: int)
    requires
        valid_utf8(t),
        0 <= i < t.len(),
        t[i] < 0x80,
    ensures
        is_char_boundary(t, i),
        is_char_boundary(t, i + 1),
{
    is_char_boundary_iff_not_is_continuation_byte(t, i);
    if i + 1 == t.len() {
        is_char_boundary_start_end_of_seq(t);
    } else {
        valid_utf8_split(t, i);
        let suf = t.subrange(i, t.len() as int);
        assert(valid_utf8(suf));
        assert(suf[0] == t[i]);
        assert(is_leading_byte_width_1(suf[0]));
        assert(length_of_first_scalar(suf) == 1);
        let rest = pop_first_scalar(suf);
        assert(valid_utf8(rest));
        assert(rest =~= t.subrange(i + 1, t.len() as int));
        assert(rest[0] == t[i + 1]);
        is_char_boundary_iff_not_is_continuation_byte(rest, 0);
        assert(is_char_boundary(rest, 0));
        is_char_boundary_iff_not_is_continuation_byte(t, i + 1);
    }
}

/// A position holding anything but a continuation byte (or the end of the
/// sequence) is a character boundary.
pub proof fn lemma_non_continuation_boundary(t: Seq<u8>, i: int)
    requires
        valid_utf8(t),
        0 <= i <= t.len(),
        i < t.len() ==> !is_continuation_byte(t[i]),
    ensures
        is_char_boundary(t, i),
{
    if i == t.len() {
        is_char_boundary_start_end_of_seq(t);
    } else {
        is_char_boundary_iff_not_is_continuation_byte(t, i);
    }
}

/// Boundaries of the whole sequence carry into a suffix.
pub proof fn lemma_boundary_in_suffix(t: Seq<u8>, a: int, b: int)
    requires
        valid_utf8(t),
        is_char_boundary(t, a),
        is_char_boundary(t, b),
        0 <= a <= b <= t.len(),
    ensures
        valid_utf8(t.subrange(a, t.len() as int)),
        is_char_boundary(t.subrange(a, t.len() as int), b - a),
{
    valid_utf8_split(t, a);
    let suf = t.subrange(a, t.len() as int);
    if b == t.len() {
        is_char_boundary_start_end_of_seq(suf);
    } else {
        is_char_boundary_iff_not_is_continuation_byte(t, b);
        assert(suf[b - a] == t[b]);
        is_char_boundary_iff_not_is_continuation_byte(suf, b - a);
    }
}

/// UTF-8 encoding distributes over concatenation of character sequences.
pub proof fn lemma_encode_utf8_concat(a: Seq<char>, b: Seq<char>)
    ensures
        encode_utf8(a + b) == encode_utf8(a) + encode_utf8(b),
    decreases a.len(),
{
    if a.len() == 0 {
        assert(a + b =~= b);
        assert(encode_utf8(a) =~= Seq::<u8>::empty());
        assert(encode_utf8(a) + encode_utf8(b) =~= encode_utf8(b));
    } else {
        lemma_encode_utf8_concat(a.drop_first(), b);
        assert((a + b).drop_first() =~= a.drop_first() + b);
        assert((a + b)[0] == a[0]);
        assert(encode_scalar(a[0] as u32) + (encode_utf8(a.drop_first()) + encode_utf8(b)) =~= (
        encode_scalar(a[0] as u32) + encode_utf8(a.drop_first())) + encode_utf8(b));
    }
}

/// Copies the characters whose encoding occupies bytes `a..b` of `s` into
/// an owned string.
pub(crate) fn copy_range(s: &str, a: usize, b: usize) -> (r: String)
    requires
        a <= b <= encode_utf8(s@).len(),
        is_char_boundary(encode_utf8(s@), a as int),
        is_char_boundary(encode_utf8(s@), b as int),
        valid_utf8(encode_utf8(s@)),
    ensures
        encode_utf8(r@) == encode_utf8(s@).subrange(a as int, b as int),
{
    let ghost t = encode_utf8(s@);
    let (_pre, rest) = s.split_at(a);
    proof {
        lemma_boundary_in_suffix(t, a as int, b as int);
        assert(rest.spec_bytes() =~= t.subrange(a as int, t.len() as int));
    }
    let (mid, _post) = rest.split_at(b - a);
    proof {
        assert(mid.spec_bytes() =~= t.subrange(a as int, b as int));
    }
    mid.to_owned()
}

} // verus!
