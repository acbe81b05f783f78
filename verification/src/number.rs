//! Numbers of the language: binary64 values, held as their 64-bit patterns.
//!
//! The top bit of a pattern is the sign, the next eleven are the exponent
//! field and the low fifty-two the fraction. Every finite number is a whole
//! multiple of 2^-1074; [`units`] gives that multiple for the magnitude, and
//! the arithmetic of the language is stated over it.

use vstd::arithmetic::power2::{
    lemma_pow2_adds, lemma_pow2_pos, lemma_pow2_strictly_increases, pow2,
};
use vstd::prelude::*;

use crate::powers::{lemma_pow2_values, lemma_scaled_quotient};

verus! {

/// The sign bit.
pub const SIGN: u64 = 0x8000_0000_0000_0000;

/// The lowest bit of the exponent field, 2^52: the weight of the leading digit
/// that a normal number does not store.
pub const HIDDEN: u64 = 0x0010_0000_0000_0000;

/// Positive infinity: the exponent field all ones, the fraction zero.
pub const INFINITY: u64 = 0x7ff0_0000_0000_0000;

/// The one pattern that stands for "not a number" in results.
pub const NAN: u64 = 0x7ff8_0000_0000_0000;

/// The number one.
pub const ONE: u64 = 0x3ff0_0000_0000_0000;

/// Whether the sign bit is set.
pub open spec fn negative(bits: u64) -> bool {
    bits >= SIGN
}

/// The pattern without its sign bit.
pub open spec fn unsigned(bits: u64) -> u64 {
    if bits >= SIGN {
        (bits - SIGN) as u64
    } else {
        bits
    }
}

/// The exponent field, from 0 to 2047.
pub open spec fn exponent(bits: u64) -> nat {
    (unsigned(bits) / HIDDEN) as nat
}

/// The fraction field, below 2^52.
pub open spec fn fraction(bits: u64) -> nat {
    (bits % HIDDEN) as nat
}

/// Not a number: the exponent field all ones, the fraction not zero.
pub open spec fn is_nan(bits: u64) -> bool {
    unsigned(bits) > INFINITY
}

/// Infinite, of either sign.
pub open spec fn is_infinite(bits: u64) -> bool {
    unsigned(bits) == INFINITY
}

/// Neither infinite nor NaN.
pub open spec fn is_finite(bits: u64) -> bool {
    unsigned(bits) < INFINITY
}

/// Finite, with a non-zero exponent field.
pub open spec fn is_normal(bits: u64) -> bool {
    HIDDEN <= unsigned(bits) < INFINITY
}

/// Zero or subnormal: the exponent field is zero.
pub open spec fn is_tiny(bits: u64) -> bool {
    unsigned(bits) < HIDDEN
}

/// The magnitude of a finite number, counted in units of 2^-1074.
pub open spec fn units(bits: u64) -> nat {
    if exponent(bits) == 0 {
        fraction(bits)
    } else {
        (HIDDEN as nat + fraction(bits)) * pow2((exponent(bits) - 1) as nat)
    }
}

/// The whole part of the magnitude of a finite number.
pub open spec fn whole_part(bits: u64) -> nat {
    units(bits) / pow2(1074)
}

/// Whether a finite number is below one half.
pub open spec fn below_half(bits: u64) -> bool {
    negative(bits) || 2 * units(bits) < pow2(1074)
}

/// The number with the opposite sign.
pub open spec fn negation(bits: u64) -> u64 {
    if bits >= SIGN {
        (bits - SIGN) as u64
    } else {
        (bits + SIGN) as u64
    }
}

/// The sign of a number as a number: zero for zero and subnormal numbers, one
/// or minus one for normal numbers, nothing for infinities and NaN.
pub open spec fn sign(bits: u64) -> Option<u64> {
    if is_tiny(bits) {
        Some(0u64)
    } else if is_normal(bits) {
        Some(if negative(bits) { (SIGN + ONE) as u64 } else { ONE })
    } else {
        None
    }
}

/// A normal number that is not negative is below one half exactly where its
/// exponent field is below that of one half, and its whole part is then zero.
pub proof fn lemma_half(bits: u64)
    requires
        is_normal(bits),
        !negative(bits),
    ensures
        below_half(bits) <==> exponent(bits) < 1022,
        below_half(bits) ==> whole_part(bits) == 0,
{
    let e = exponent(bits);
    let f = fraction(bits);
    let sig = HIDDEN as nat + f;
    lemma_pow2_values();
    lemma_pow2_pos(1074);
    lemma_pow2_pos((e - 1) as nat);
    if e < 1022 {
        // 2 * sig * 2^(e-1) < 2^54 * 2^1020
        if e - 1 < 1020 {
            lemma_pow2_strictly_increases((e - 1) as nat, 1020);
        }
        lemma_pow2_adds(54, 1020);
        lemma_pow2_adds(1, 53);
        assert(2 * (sig * pow2((e - 1) as nat)) < pow2(54) * pow2(1020)) by (nonlinear_arith)
            requires
                2 * sig < pow2(54),
                0 < pow2((e - 1) as nat) <= pow2(1020),
        {
        }
        vstd::arithmetic::div_mod::lemma_basic_div(units(bits) as int, pow2(1074) as int);
    } else {
        // 2 * sig * 2^(e-1) >= 2^53 * 2^1021
        if e - 1 > 1021 {
            lemma_pow2_strictly_increases(1021, (e - 1) as nat);
        }
        lemma_pow2_adds(53, 1021);
        assert(2 * (sig * pow2((e - 1) as nat)) >= pow2(53) * pow2(1021)) by (nonlinear_arith)
            requires
                2 * sig >= pow2(53),
                pow2((e - 1) as nat) >= pow2(1021),
        {
        }
    }
}

/// The pattern without its sign bit.
pub fn magnitude(bits: u64) -> (m: u64)
    ensures
        m == unsigned(bits),
        m < SIGN,
{
    assert(bits & 0x7fff_ffff_ffff_ffff == if bits >= 0x8000_0000_0000_0000 {
        (bits - 0x8000_0000_0000_0000) as u64
    } else {
        bits
    }) by (bit_vector);
    bits & 0x7fff_ffff_ffff_ffff
}

/// Whether the sign bit is set.
pub fn is_negative(bits: u64) -> (b: bool)
    ensures
        b == negative(bits),
{
    bits >= SIGN
}

/// The number with the opposite sign.
pub fn negate(bits: u64) -> (r: u64)
    ensures
        r == negation(bits),
{
    assert(bits ^ 0x8000_0000_0000_0000 == if bits >= 0x8000_0000_0000_0000 {
        (bits - 0x8000_0000_0000_0000) as u64
    } else {
        (bits + 0x8000_0000_0000_0000) as u64
    }) by (bit_vector);
    bits ^ SIGN
}

/// The sign of a number as a number.
pub fn signum(bits: u64) -> (r: Option<u64>)
    ensures
        r == sign(bits),
{
    let m = magnitude(bits);
    if m < HIDDEN {
        Some(0)
    } else if m < INFINITY {
        if bits >= SIGN {
            Some(SIGN + ONE)
        } else {
            Some(ONE)
        }
    } else {
        None
    }
}

/// The exponent field and the fraction field of a pattern without sign.
pub fn split(m: u64) -> (parts: (u64, u64))
    requires
        m < SIGN,
    ensures
        parts.0 == exponent(m),
        parts.1 == fraction(m),
        parts.0 < 2048,
        parts.1 < HIDDEN,
        m == parts.0 * HIDDEN + parts.1,
{
    assert(m >> 52 == m / 0x0010_0000_0000_0000) by (bit_vector);
    assert(m & 0x000f_ffff_ffff_ffff == m % 0x0010_0000_0000_0000) by (bit_vector);
    (m >> 52, m & 0x000f_ffff_ffff_ffff)
}

/// The whole part of a finite number that is not negative, where it is below
/// `bound`.
pub fn whole_below(bits: u64, bound: usize) -> (r: Option<usize>)
    requires
        bits < INFINITY,
    ensures
        r == if whole_part(bits) < bound {
            Some(whole_part(bits) as usize)
        } else {
            None::<usize>
        },
{
    let (e, f) = split(bits);
    proof {
        lemma_pow2_values();
        lemma_pow2_pos(1074);
    }
    if e < 1023 {
        proof {
            // below one: the magnitude is less than 2^53 * 2^1021
            if e > 0 {
                lemma_pow2_pos((e - 1) as nat);
                if e - 1 < 1021 {
                    lemma_pow2_strictly_increases((e - 1) as nat, 1021);
                }
                vstd::arithmetic::power2::lemma_pow2_unfold(1022);
                lemma_pow2_adds(52, 1022);
                assert((HIDDEN + f) * pow2((e - 1) as nat) < pow2(52) * pow2(1022)) by (nonlinear_arith)
                    requires
                        HIDDEN + f < 2 * pow2(52),
                        2 * pow2((e - 1) as nat) <= pow2(1022),
                        pow2((e - 1) as nat) > 0,
                {
                }
            } else {
                lemma_pow2_strictly_increases(52, 1074);
            }
            vstd::arithmetic::div_mod::lemma_basic_div(units(bits) as int, pow2(1074) as int);
        }
        if 0 < bound {
            Some(0)
        } else {
            None
        }
    } else if e >= 1087 {
        proof {
            // at least 2^64
            lemma_scaled_quotient((HIDDEN + f) as nat, (e - 1) as nat, 1074);
            if e - 1075 > 12 {
                lemma_pow2_strictly_increases(12, (e - 1075) as nat);
            }
            assert((HIDDEN + f) * pow2((e - 1075) as nat) >= pow2(52) * pow2(12)) by (nonlinear_arith)
                requires
                    HIDDEN + f >= pow2(52),
                    pow2((e - 1075) as nat) >= pow2(12),
            {
            }
            lemma_pow2_adds(52, 12);
        }
        None
    } else {
        let sig: u64 = HIDDEN + f;
        let shift: u64 = if e <= 1075 { 1075 - e } else { e - 1075 };
        proof {
            lemma_scaled_quotient(sig as nat, (e - 1) as nat, 1074);
        }
        let whole: u64 = if e <= 1075 {
            proof {
                vstd::bits::lemma_u64_shr_is_div(sig, shift);
            }
            sig >> shift
        } else {
            proof {
                if shift < 11 {
                    lemma_pow2_strictly_increases(shift as nat, 11);
                }
                lemma_pow2_pos(shift as nat);
                assert(sig * pow2(shift as nat) < pow2(53) * pow2(11)) by (nonlinear_arith)
                    requires
                        sig < pow2(53),
                        0 < pow2(shift as nat) <= pow2(11),
                {
                }
                lemma_pow2_pos(shift as nat);
                lemma_pow2_adds(53, 11);
                vstd::bits::lemma_u64_shl_is_mul(sig, shift);
            }
            sig << shift
        };
        assert(whole == whole_part(bits));
        if (bound as u64) > whole {
            Some(whole as usize)
        } else {
            None
        }
    }
}

} // verus!
