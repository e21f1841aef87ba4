//! A second aomenc/vpxenc extractor that works on a fixed-width window,
//! in the style of a SIMD implementation: delimiters are located inside
//! 16-byte windows anchored at the ignored prefix, and the decimal value
//! is folded out of a 16-byte window ending at the space, left-padded with
//! zeroes by a position mask, in three doubling stages (pairs, then
//! hundreds, then ten-thousands, then the two 8-digit halves).
//!
//! The contract ties it to the exact same model as the scalar extractor:
//! on every input long enough for the window loads it returns precisely
//! `aom_vpx_frames_spec`, and on shorter input it returns `None`.  Inputs
//! the windows cannot decide (a delimiter beyond the window, a non-digit
//! between the delimiters) are handed to the scalar scan so the results
//! agree everywhere.

use vstd::prelude::*;

use crate::bytes::find_byte_in;
use crate::bytes::find_in;
use crate::bytes::is_ascii_digit_byte;
use crate::bytes::is_digit_byte;
use crate::bytes::lemma_find_byte_in;
use crate::bytes::lemma_find_byte_in_exact;
use crate::digits::all_digits;
use crate::digits::digits_value;
use crate::digits::lemma_digits_value_append;
use crate::digits::lemma_digits_value_bound;
use crate::digits::lemma_digits_value_zeros;
use crate::digits::parse_u64_digits;
use crate::digits::parse_u64_spec;
use crate::digits::pow10;
use crate::frames::AOM_VPX_PREFIX_LEN;
use crate::frames::aom_vpx_frames_spec;
use crate::frames::aom_vpx_scan;

verus! {

/// Width in bytes of the windows the fixed-width extractor loads.
pub const CHUNK_WIDTH: usize = 16;

/// Value of one digit byte.
pub open spec fn dig(s: Seq<u8>, i: int) -> int {
    s[i] - 0x30
}

/// A 16-digit run evaluates to the three-stage pairwise fold that the
/// fixed-width extractor computes.
proof fn lemma_digits_value_16(s: Seq<u8>)
    requires
        s.len() == 16,
    ensures
        digits_value(s) == ((((dig(s, 0) * 10 + dig(s, 1)) * 100 + (dig(s, 2) * 10 + dig(s, 3)))
            * 10000 + ((dig(s, 4) * 10 + dig(s, 5)) * 100 + (dig(s, 6) * 10 + dig(s, 7))))
            * 100000000) + (((dig(s, 8) * 10 + dig(s, 9)) * 100 + (dig(s, 10) * 10 + dig(
            s,
            11,
        ))) * 10000 + ((dig(s, 12) * 10 + dig(s, 13)) * 100 + (dig(s, 14) * 10 + dig(s, 15)))),
{
    assert(s.take(16) =~= s);
    assert(digits_value(s.take(0)) == 0);
    assert forall|k: int| 0 <= k < 16 implies digits_value(s.take(k + 1)) == digits_value(
        s.take(k),
    ) * 10 + dig(s, k) by {
        assert(s.take(k + 1).drop_last() =~= s.take(k));
        assert(s.take(k + 1).last() == s[k]);
    }
    assert(digits_value(s.take(1)) == dig(s, 0));
    assert(digits_value(s.take(2)) == digits_value(s.take(1)) * 10 + dig(s, 1));
    assert(digits_value(s.take(3)) == digits_value(s.take(2)) * 10 + dig(s, 2));
    assert(digits_value(s.take(4)) == digits_value(s.take(3)) * 10 + dig(s, 3));
    assert(digits_value(s.take(5)) == digits_value(s.take(4)) * 10 + dig(s, 4));
    assert(digits_value(s.take(6)) == digits_value(s.take(5)) * 10 + dig(s, 5));
    assert(digits_value(s.take(7)) == digits_value(s.take(6)) * 10 + dig(s, 6));
    assert(digits_value(s.take(8)) == digits_value(s.take(7)) * 10 + dig(s, 7));
    assert(digits_value(s.take(9)) == digits_value(s.take(8)) * 10 + dig(s, 8));
    assert(digits_value(s.take(10)) == digits_value(s.take(9)) * 10 + dig(s, 9));
    assert(digits_value(s.take(11)) == digits_value(s.take(10)) * 10 + dig(s, 10));
    assert(digits_value(s.take(12)) == digits_value(s.take(11)) * 10 + dig(s, 11));
    assert(digits_value(s.take(13)) == digits_value(s.take(12)) * 10 + dig(s, 12));
    assert(digits_value(s.take(14)) == digits_value(s.take(13)) * 10 + dig(s, 13));
    assert(digits_value(s.take(15)) == digits_value(s.take(14)) * 10 + dig(s, 14));
    assert(digits_value(s) == digits_value(s.take(15)) * 10 + dig(s, 15));
}

/// One masked lane of the digit window: bytes before the digit run count
/// as zero, exactly like the mask the SIMD algorithm applies.
fn lane(s: &[u8], base: usize, lo: usize, k: usize) -> (r: u64)
    requires
        base + CHUNK_WIDTH <= s@.len(),
        k < CHUNK_WIDTH,
        k >= lo ==> is_ascii_digit_byte(s@[base + k]),
    ensures
        k >= lo ==> r == s@[base + k] - 0x30,
        k < lo ==> r == 0,
        r <= 9,
{
    let n = s.len();
    if k >= lo {
        (s[base + k] - 0x30) as u64
    } else {
        0
    }
}

/// Fixed-width aomenc/vpxenc extractor over raw line bytes.
///
/// Returns exactly what `parse_aom_vpx_frames` returns on every input of
/// at least `AOM_VPX_PREFIX_LEN + CHUNK_WIDTH` bytes, and `None` on every
/// shorter input.
#[verifier::rlimit(80)]
pub fn parse_aom_vpx_frames_chunked(s: &[u8]) -> (r: Option<u64>)
    ensures
        s@.len() < AOM_VPX_PREFIX_LEN + CHUNK_WIDTH ==> r is None,
        s@.len() >= AOM_VPX_PREFIX_LEN + CHUNK_WIDTH ==> r == aom_vpx_frames_spec(s@),
{
    let n = s.len();
    if n < AOM_VPX_PREFIX_LEN + CHUNK_WIDTH {
        return None;
    }
    // Locate the '/' inside the window anchored one byte before the end
    // of the ignored prefix.
    let slash = match find_in(s, AOM_VPX_PREFIX_LEN - 1, AOM_VPX_PREFIX_LEN - 1 + CHUNK_WIDTH, 0x2f) {
        Some(i) => i,
        None => {
            // The '/' may still occur past the window.
            return aom_vpx_scan(s);
        },
    };
    proof {
        lemma_find_byte_in(
            s@,
            AOM_VPX_PREFIX_LEN as int - 1,
            AOM_VPX_PREFIX_LEN as int - 1 + CHUNK_WIDTH as int,
            0x2f,
        );
        lemma_find_byte_in_exact(s@, AOM_VPX_PREFIX_LEN as int - 1, n as int, 0x2f, slash as int);
    }
    // Locate the first space inside the window just after the prefix.
    let space = match find_in(s, AOM_VPX_PREFIX_LEN, AOM_VPX_PREFIX_LEN + CHUNK_WIDTH, 0x20) {
        Some(i) => i,
        None => {
            return aom_vpx_scan(s);
        },
    };
    if space <= slash {
        // The window's first space precedes the '/'; the space that ends
        // the number lies beyond the window.
        return aom_vpx_scan(s);
    }
    proof {
        lemma_find_byte_in(
            s@,
            AOM_VPX_PREFIX_LEN as int,
            AOM_VPX_PREFIX_LEN as int + CHUNK_WIDTH as int,
            0x20,
        );
        lemma_find_byte_in_exact(s@, slash as int + 1, n as int, 0x20, space as int);
    }
    let ghost digits_range = s@.subrange(slash as int + 1, space as int);
    let nd = space - slash - 1;
    if nd == 0 {
        return None;
    }
    // The fold below treats every lane as a digit; leave any other
    // content to the general decimal parser.
    let mut k = slash + 1;
    while k < space
        invariant
            slash + 1 <= k <= space,
            forall|j: int| slash + 1 <= j < k ==> is_ascii_digit_byte(s@[j]),
        decreases space - k,
    {
        if !is_digit_byte(s[k]) {
            return parse_u64_digits(&s[slash + 1..space]);
        }
        k = k + 1;
    }
    // Fold the 16-byte window that ends at the space, masking the lanes
    // before the digit run to zero.
    let base = space - CHUNK_WIDTH;
    let lo = CHUNK_WIDTH - nd;
    let d0 = lane(s, base, lo, 0);
    let d1 = lane(s, base, lo, 1);
    let d2 = lane(s, base, lo, 2);
    let d3 = lane(s, base, lo, 3);
    let d4 = lane(s, base, lo, 4);
    let d5 = lane(s, base, lo, 5);
    let d6 = lane(s, base, lo, 6);
    let d7 = lane(s, base, lo, 7);
    let d8 = lane(s, base, lo, 8);
    let d9 = lane(s, base, lo, 9);
    let d10 = lane(s, base, lo, 10);
    let d11 = lane(s, base, lo, 11);
    let d12 = lane(s, base, lo, 12);
    let d13 = lane(s, base, lo, 13);
    let d14 = lane(s, base, lo, 14);
    let d15 = lane(s, base, lo, 15);
    // Stage 1: adjacent lanes with weights 10 and 1.
    let p0 = d0 * 10 + d1;
    let p1 = d2 * 10 + d3;
    let p2 = d4 * 10 + d5;
    let p3 = d6 * 10 + d7;
    let p4 = d8 * 10 + d9;
    let p5 = d10 * 10 + d11;
    let p6 = d12 * 10 + d13;
    let p7 = d14 * 10 + d15;
    // Stage 2: adjacent pairs with weights 100 and 1.
    let q0 = p0 * 100 + p1;
    let q1 = p2 * 100 + p3;
    let q2 = p4 * 100 + p5;
    let q3 = p6 * 100 + p7;
    // Stage 3: adjacent quads with weights 10000 and 1, then the two
    // 8-digit halves with the base-100,000,000 multiplier.
    let h0 = q0 * 10000 + q1;
    let h1 = q2 * 10000 + q3;
    let val = h0 * 100000000 + h1;
    proof {
        let t = s@;
        let pw = Seq::new(16, |j: int| if j < lo { 0x30u8 } else { t[base + j] });
        assert(all_digits(pw));
        lemma_digits_value_16(pw);
        let z = pw.subrange(0, lo as int);
        assert(pw =~= z + digits_range);
        lemma_digits_value_zeros(z);
        lemma_digits_value_append(z, digits_range);
        assert(d0 as int == dig(pw, 0));
        assert(d1 as int == dig(pw, 1));
        assert(d2 as int == dig(pw, 2));
        assert(d3 as int == dig(pw, 3));
        assert(d4 as int == dig(pw, 4));
        assert(d5 as int == dig(pw, 5));
        assert(d6 as int == dig(pw, 6));
        assert(d7 as int == dig(pw, 7));
        assert(d8 as int == dig(pw, 8));
        assert(d9 as int == dig(pw, 9));
        assert(d10 as int == dig(pw, 10));
        assert(d11 as int == dig(pw, 11));
        assert(d12 as int == dig(pw, 12));
        assert(d13 as int == dig(pw, 13));
        assert(d14 as int == dig(pw, 14));
        assert(d15 as int == dig(pw, 15));
        assert(val == digits_value(pw));
        lemma_digits_value_bound(pw);
        assert(pow10(16) == 10000000000000000) by {
            reveal_with_fuel(pow10, 17);
        }
        assert(all_digits(digits_range));
        assert(digits_range[0] == t[slash + 1]);
        assert(parse_u64_spec(digits_range) == Some(val));
    }
    Some(val)
}

} // verus!
