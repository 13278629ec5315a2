use vstd::prelude::*;
use vstd::arithmetic::power2::{pow2, lemma2_to64, lemma_pow2_strictly_increases, lemma_pow2_pos};
use vstd::bits::{lemma_u64_shr_is_div, lemma_u64_low_bits_mask_is_mod, lemma_u64_shl_is_mul, low_bits_mask};

verus! {

/// An IEEE-754 double-precision number, held as its bit pattern.
#[derive(Clone, Copy, Debug, PartialEq, Eq, Structural, Hash)]
pub struct Float(pub u64);

/// Whether a bit pattern encodes NaN: all exponent bits set and a nonzero
/// fraction.
pub open spec fn is_nan_bits(b: u64) -> bool {
    (b >> 52u64) & 0x7ffu64 == 0x7ffu64 && b & 0xf_ffff_ffff_ffffu64 != 0u64
}

/// The sign bit of a double.
pub const SIGN_BIT: u64 = 0x8000_0000_0000_0000;

/// The negation of a double: the sign bit flipped.
pub open spec fn float_neg(f: Float) -> Float {
    Float(f.0 ^ SIGN_BIT)
}

/// Flipping the sign bit twice gives the double back, and never makes or
/// unmakes a NaN.
pub proof fn lemma_float_neg(f: Float)
    ensures
        float_neg(float_neg(f)) == f,
        is_nan_bits(float_neg(f).0) == is_nan_bits(f.0),
{
    let b = f.0;
    assert(((b ^ 0x8000_0000_0000_0000u64) >> 52u64) & 0x7ffu64 == (b >> 52u64) & 0x7ffu64
        && (b ^ 0x8000_0000_0000_0000u64) & 0xf_ffff_ffff_ffffu64 == b & 0xf_ffff_ffff_ffffu64
        && (b ^ 0x8000_0000_0000_0000u64) ^ 0x8000_0000_0000_0000u64 == b) by (bit_vector);
}

/// The integer that a double denotes, where it denotes one of magnitude at
/// most `i32::MAX`. A normal double with biased exponent `e` and fraction
/// bits `f` is `(2^52 + f) / 2^(1075 - e)`; a zero of either sign is 0.
pub open spec fn integer_of_bits(b: u64) -> Option<int> {
    let e = ((b >> 52u64) & 0x7ffu64) as int;
    let frac = (b & 0xf_ffff_ffff_ffffu64) as int;
    let negative = (b >> 63u64) == 1u64;
    if e == 0 {
        if frac == 0 {
            Some(0)
        } else {
            None
        }
    } else if e == 0x7ff || e >= 1075 {
        None
    } else {
        let m = frac + 0x10_0000_0000_0000;
        let d = pow2((1075 - e) as nat) as int;
        if m % d == 0 && m / d <= i32::MAX {
            Some(
                if negative {
                    -(m / d)
                } else {
                    m / d
                },
            )
        } else {
            None
        }
    }
}

impl Float {
    /// The integer this double denotes, where it is one within `i32`
    /// (magnitude at most `i32::MAX`).
    pub fn as_integer(&self) -> (r: Option<i32>)
        ensures
            match integer_of_bits(self.0) {
                Some(n) => r == Some(n as i32) && r->Some_0 as int == n,
                None => r is None,
            },
    {
        let b = self.0;
        let e = (b >> 52u64) & 0x7ffu64;
        let frac = b & 0xf_ffff_ffff_ffffu64;
        let negative = (b >> 63u64) == 1u64;
        if e == 0 {
            return if frac == 0 {
                Some(0)
            } else {
                None
            };
        }
        if e == 0x7ff || e >= 1075 {
            return None;
        }
        assert(e < 0x7ff) by (bit_vector)
            requires
                e == (b >> 52u64) & 0x7ffu64,
                e != 0x7ffu64,
        ;
        let k: u64 = 1075 - e;
        assert(frac < 0x10_0000_0000_0000) by (bit_vector)
            requires
                frac == b & 0xf_ffff_ffff_ffffu64,
        ;
        let m: u64 = frac | 0x10_0000_0000_0000u64;
        assert(m == frac + 0x10_0000_0000_0000u64) by (bit_vector)
            requires
                frac < 0x10_0000_0000_0000u64,
                m == frac | 0x10_0000_0000_0000u64,
        ;
        if k >= 53 {
            proof {
                lemma2_to64();
                vstd::arithmetic::power2::lemma2_to64_rest();
                lemma_pow2_pos(k as nat);
                assert(pow2(53) == 0x20_0000_0000_0000);
                if k > 53 {
                    lemma_pow2_strictly_increases(53, k as nat);
                }
                vstd::arithmetic::div_mod::lemma_small_mod(m as nat, pow2(k as nat));
            }
            return None;
        }
        proof {
            lemma2_to64();
                vstd::arithmetic::power2::lemma2_to64_rest();
            lemma_pow2_pos(k as nat);
            vstd::arithmetic::power2::lemma_pow2_strictly_increases(k as nat, 64);
            lemma_u64_shl_is_mul(1, k);
            lemma_u64_low_bits_mask_is_mod(m, k as nat);
            lemma_u64_shr_is_div(m, k);
        }
        let mask: u64 = (1u64 << k) - 1;
        assert(mask == low_bits_mask(k as nat) as u64);
        if m & mask != 0 {
            return None;
        }
        let v: u64 = m >> k;
        assert(pow2(k as nat) < 0x1_0000_0000_0000_0000);
        assert((m as int) % (pow2(k as nat) as int) == 0);
        assert(v as int == (m as int) / (pow2(k as nat) as int));
        assert(k as int == 1075 - e as int);
        if v > 0x7fff_ffff {
            return None;
        }
        if negative {
            Some(-(v as i32))
        } else {
            Some(v as i32)
        }
    }

    /// Whether this is NaN.
    pub fn is_nan(&self) -> (r: bool)
        ensures
            r == is_nan_bits(self.0),
    {
        (self.0 >> 52u64) & 0x7ffu64 == 0x7ffu64 && self.0 & 0xf_ffff_ffff_ffffu64 != 0u64
    }

    /// The negation: the same number with the sign bit flipped.
    pub fn neg(&self) -> (r: Float)
        ensures
            r == float_neg(*self),
            is_nan_bits(r.0) == is_nan_bits(self.0),
    {
        proof {
            lemma_float_neg(*self);
        }
        Float(self.0 ^ SIGN_BIT)
    }
}

} // verus!
