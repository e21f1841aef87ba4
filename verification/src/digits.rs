//! A model of base-10 unsigned integer parsing, matching what
//! `str::parse::<u64>` does: an optional leading `+`, then at least one
//! ASCII digit, and the value must fit in 64 bits.

use vstd::arithmetic::mul::lemma_mul_inequality;
use vstd::prelude::*;

use crate::bytes::is_ascii_digit_byte;

verus! {

/// Numeric value of a big-endian run of ASCII digits.
pub open spec fn digits_value(s: Seq<u8>) -> int
    decreases s.len(),
{
    if s.len() == 0 {
        0
    } else {
        digits_value(s.drop_last()) * 10 + (s.last() - 0x30)
    }
}

pub open spec fn all_digits(s: Seq<u8>) -> bool {
    forall|i: int| 0 <= i < s.len() ==> is_ascii_digit_byte(#[trigger] s[i])
}

/// What `str::parse::<u64>` returns for a string with these bytes.
pub open spec fn parse_u64_spec(s: Seq<u8>) -> Option<u64> {
    let ds = if s.len() > 0 && s[0] == 0x2b {
        s.drop_first()
    } else {
        s
    };
    if ds.len() > 0 && all_digits(ds) && digits_value(ds) <= u64::MAX {
        Some(digits_value(ds) as u64)
    } else {
        None
    }
}

pub open spec fn pow10(n: nat) -> int
    decreases n,
{
    if n == 0 {
        1
    } else {
        10 * pow10((n - 1) as nat)
    }
}

pub proof fn lemma_pow10_pos(n: nat)
    ensures
        pow10(n) >= 1,
    decreases n,
{
    if n > 0 {
        lemma_pow10_pos((n - 1) as nat);
    }
}

/// Appending digit runs combines their values positionally.
pub proof fn lemma_digits_value_append(a: Seq<u8>, b: Seq<u8>)
    ensures
        digits_value(a + b) == digits_value(a) * pow10(b.len()) + digits_value(b),
    decreases b.len(),
{
    if b.len() == 0 {
        assert(a + b =~= a);
    } else {
        lemma_digits_value_append(a, b.drop_last());
        assert((a + b).drop_last() =~= a + b.drop_last());
        let p = pow10((b.len() - 1) as nat);
        assert((digits_value(a) * p) * 10 == digits_value(a) * (10 * p)) by (nonlinear_arith);
    }
}

pub proof fn lemma_digits_value_bound(s: Seq<u8>)
    requires
        all_digits(s),
    ensures
        0 <= digits_value(s) < pow10(s.len()),
    decreases s.len(),
{
    if s.len() > 0 {
        assert(all_digits(s.drop_last()));
        lemma_digits_value_bound(s.drop_last());
    }
}

/// Leading `'0'` bytes do not change the value of a digit run.
pub proof fn lemma_digits_value_zeros(z: Seq<u8>)
    requires
        forall|i: int| 0 <= i < z.len() ==> z[i] == 0x30,
    ensures
        digits_value(z) == 0,
    decreases z.len(),
{
    if z.len() > 0 {
        lemma_digits_value_zeros(z.drop_last());
    }
}

/// Runtime decimal parse, equal to the `parse_u64_spec` model.
pub(crate) fn parse_u64_digits(s: &[u8]) -> (r: Option<u64>)
    ensures
        r == parse_u64_spec(s@),
{
    let n = s.len();
    let start: usize = if n > 0 && s[0] == 0x2b {
        1
    } else {
        0
    };
    proof {
        if start == 1 {
            assert(s@.drop_first() =~= s@.subrange(1int, n as int));
        } else {
            assert(s@ =~= s@.subrange(0int, n as int));
        }
    }
    if start == n {
        return None;
    }
    let ghost ds = s@.subrange(start as int, n as int);
    let mut val: u64 = 0;
    let mut i = start;
    while i < n
        invariant
            start <= i <= n,
            all_digits(s@.subrange(start as int, i as int)),
            val == digits_value(s@.subrange(start as int, i as int)),
        decreases n - i,
    {
        let c = s[i];
        if !(0x30 <= c && c <= 0x39) {
            proof {
                assert(!is_ascii_digit_byte(ds[i - start]));
            }
            return None;
        }
        let d = (c - 0x30) as u64;
        let next = match val.checked_mul(10) {
            Some(v) => v.checked_add(d),
            None => None,
        };
        match next {
            Some(v) => {
                proof {
                    assert(s@.subrange(start as int, i + 1).drop_last() =~= s@.subrange(
                        start as int,
                        i as int,
                    ));
                }
                val = v;
            },
            None => {
                proof {
                    // The digits seen so far already exceed `u64`, so the
                    // full run does too (when it is all digits at all).
                    if all_digits(ds) {
                        let pre = s@.subrange(start as int, i + 1);
                        let suf = s@.subrange(i + 1, n as int);
                        assert(pre.drop_last() =~= s@.subrange(start as int, i as int));
                        assert(digits_value(pre) > u64::MAX);
                        assert(all_digits(pre));
                        assert forall|j: int| 0 <= j < suf.len() implies is_ascii_digit_byte(
                            suf[j],
                        ) by {
                            assert(suf[j] == ds[j + (i + 1 - start)]);
                        }
                        assert(ds =~= pre + suf);
                        lemma_digits_value_append(pre, suf);
                        lemma_digits_value_bound(suf);
                        lemma_pow10_pos(suf.len());
                        lemma_mul_inequality(1, pow10(suf.len()), digits_value(pre));
                        assert(digits_value(ds) > u64::MAX);
                    }
                }
                return None;
            },
        }
        i = i + 1;
    }
    proof {
        assert(ds =~= s@.subrange(start as int, n as int));
    }
    Some(val)
}

} // verus!
