//! Rounded arithmetic on numbers: addition and the reciprocal.
//!
//! Both are stated over exact quantities: the exact result is a ratio of
//! whole numbers of units of 2^-1074, and the result is the number nearest to
//! that ratio.

use vstd::arithmetic::div_mod::lemma_fundamental_div_mod;
use vstd::arithmetic::power2::{
    lemma_pow2_adds, lemma_pow2_pos, lemma_pow2_strictly_increases, pow2,
};
use vstd::prelude::*;

use crate::number::{
    is_infinite, is_nan, magnitude, negative, split, units, HIDDEN, INFINITY, NAN, SIGN,
};
use crate::powers::lemma_pow2_values;
use crate::rounding::{
    bit_length, digits, lemma_digits_below, lemma_digits_bounds, lemma_digits_scaled,
    lemma_digits_unique, lemma_nearest_cancel, lemma_rounded_cancel, lemma_rounded_near,
    lemma_rounded_positive, lemma_rounded_units, nearest, pack, rounded, scale, two_to,
};

verus! {

/// The magnitude of a finite number with its sign, in units of 2^-1074.
pub open spec fn signed_units(bits: u64) -> int {
    if negative(bits) {
        -(units(bits) as int)
    } else {
        units(bits) as int
    }
}

/// The sum of two numbers, rounded to the nearest number.
///
/// NaN is contagious, and so is the sum of opposite infinities. An exact zero
/// is negative only as the sum of two negative zeros.
pub open spec fn sum(a: u64, b: u64) -> u64 {
    if is_nan(a) || is_nan(b) {
        NAN
    } else if is_infinite(a) {
        if is_infinite(b) && negative(a) != negative(b) {
            NAN
        } else {
            a
        }
    } else if is_infinite(b) {
        b
    } else {
        let exact = signed_units(a) + signed_units(b);
        if exact == 0 {
            if negative(a) && negative(b) {
                SIGN
            } else {
                0
            }
        } else if exact > 0 {
            rounded(exact as nat, 1)
        } else {
            (SIGN + rounded((-exact) as nat, 1)) as u64
        }
    }
}

/// One divided by a number, rounded to the nearest number.
///
/// The reciprocal of a zero is the infinity of its sign, and the other way
/// round.
pub open spec fn reciprocal(a: u64) -> u64 {
    if is_nan(a) {
        NAN
    } else {
        let sign: u64 = if negative(a) { SIGN } else { 0 };
        if is_infinite(a) {
            sign
        } else if units(a) == 0 {
            (sign + INFINITY) as u64
        } else {
            (sign + rounded(pow2(2148), units(a))) as u64
        }
    }
}

/// The sum does not depend on the order of its operands.
pub proof fn lemma_sum_commutes(a: u64, b: u64)
    ensures
        sum(a, b) == sum(b, a),
{
}

/// Zero added to a number leaves it as it is; negative zero only where the
/// zero that is added is negative too.
pub proof fn lemma_sum_with_zero(a: u64, zero: u64)
    requires
        !is_nan(a),
        zero == 0 || zero == SIGN,
    ensures
        sum(a, zero) == if a == SIGN && zero == 0 {
            0
        } else {
            a
        },
{
    if !is_infinite(a) {
        lemma_rounded_units(a);
        lemma_pow2_values();
        assert(units(zero) == 0);
        assert(rounded(0, 1) == 0) by {
            assert(0nat / 1 == 0);
            assert(digits(0) == 0);
        }
    }
}

/// The significand of a finite pattern without sign and the exponent of its
/// unit: the magnitude is the one times two to the other.
pub fn unpack(m: u64) -> (parts: (u64, u64))
    requires
        m < INFINITY,
    ensures
        units(m) == parts.0 * pow2(parts.1 as nat),
        m == parts.1 * HIDDEN + parts.0,
        parts.0 < 2 * HIDDEN,
        parts.1 < 2046,
        parts.1 > 0 ==> parts.0 >= HIDDEN,
        m >= HIDDEN ==> parts.0 >= HIDDEN,
{
    let (e, f) = split(m);
    proof {
        lemma_pow2_values();
        assert(f * pow2(0) == f) by (nonlinear_arith)
            requires
                pow2(0) == 1,
        {
        }
    }
    if e == 0 {
        (f, 0)
    } else {
        (HIDDEN + f, e - 1)
    }
}

/// The exact sum or difference of two magnitudes, the larger first.
pub open spec fn combined(larger: nat, smaller: nat, same: bool) -> nat {
    if same {
        larger + smaller
    } else {
        (larger - smaller) as nat
    }
}

/// A number far below the last place of another leaves it as it is: where
/// the units of the two are more than 64 places apart, their sum and their
/// difference round to the larger one.
proof fn lemma_far_operand(sb: nat, tb: nat, ss: nat, ts: nat, same: bool)
    requires
        HIDDEN <= sb < 2 * HIDDEN,
        0 < ss < 2 * HIDDEN,
        tb > ts + 64,
        tb * HIDDEN + sb < INFINITY,
    ensures
        ss * pow2(ts) < sb * pow2(tb),
        rounded(combined(sb * pow2(tb), ss * pow2(ts), same), 1) == tb * HIDDEN + sb,
{
    lemma_pow2_values();
    vstd::arithmetic::power2::lemma2_to64();
    lemma_pow2_pos(ts);
    lemma_pow2_pos(tb);
    let us = ss * pow2(ts);
    // the smaller number is below a quarter of the last place of the larger
    lemma_pow2_adds(55, ts);
    if 55 + ts < tb {
        lemma_pow2_strictly_increases(55 + ts, tb);
    }
    lemma_pow2_adds(2, 53);
    assert(4 * us < pow2(55) * pow2(ts)) by (nonlinear_arith)
        requires
            us == ss * pow2(ts),
            4 * ss < pow2(55),
            pow2(ts) > 0,
    {
    }
    lemma_rounded_near(sb, tb, us, same);
    assert(4 * us < sb * pow2(tb)) by (nonlinear_arith)
        requires
            sb >= 1,
            4 * us < pow2(tb),
    {
    }
}

/// Two magnitudes whose units are at most 64 places apart, written in the
/// smaller unit: the larger one is `sb * 2^delta` of it.
proof fn lemma_near_operand(sb: nat, tb: nat, ss: nat, ts: nat)
    requires
        sb < 2 * HIDDEN,
        ss < 2 * HIDDEN,
        ts <= tb <= ts + 64,
        tb > 0 ==> sb >= HIDDEN,
        tb == ts ==> sb >= ss,
    ensures
        sb * pow2(tb) == (sb * pow2((tb - ts) as nat)) * pow2(ts),
        ss <= sb * pow2((tb - ts) as nat) < pow2(117),
        pow2(117) + 2 * HIDDEN < pow2(118) < 0x1_0000_0000_0000_0000_0000_0000_0000_0000,
{
    lemma_pow2_values();
    let delta = (tb - ts) as nat;
    let p = pow2(delta);
    lemma_pow2_adds(delta, ts);
    lemma_pow2_pos(delta);
    if delta < 64 {
        lemma_pow2_strictly_increases(delta, 64);
    }
    if delta > 1 {
        lemma_pow2_strictly_increases(1, delta);
    }
    lemma_pow2_adds(53, 64);
    lemma_pow2_adds(117, 1);
    lemma_pow2_adds(64, 64);
    lemma_pow2_strictly_increases(118, 128);
    lemma_pow2_strictly_increases(53, 117);
    assert(sb * p < pow2(53) * pow2(64)) by (nonlinear_arith)
        requires
            sb < pow2(53),
            0 < p <= pow2(64),
    {
    }
    assert(sb * pow2(tb) == (sb * p) * pow2(ts)) by (nonlinear_arith)
        requires
            pow2(tb) == p * pow2(ts),
    {
    }
    assert(sb * p >= ss) by (nonlinear_arith)
        requires
            delta == 0 ==> sb >= ss && p == 1,
            delta > 0 ==> sb >= HIDDEN && p >= 2,
            ss < 2 * HIDDEN,
    {
    }
}

/// The number nearest to the sum or the difference of two finite magnitudes,
/// the larger first; zero where the difference is nothing.
pub fn combine(big: u64, small: u64, same: bool) -> (pattern: u64)
    requires
        small <= big < INFINITY,
    ensures
        units(small) <= units(big),
        pattern == if combined(units(big), units(small), same) == 0 {
            0
        } else {
            rounded(combined(units(big), units(small), same), 1)
        },
        pattern <= INFINITY,
        pattern == 0 <==> combined(units(big), units(small), same) == 0,
{
    proof {
        if combined(units(big), units(small), same) > 0 {
            lemma_rounded_positive(combined(units(big), units(small), same));
        }
    }
    let (sb, tb) = unpack(big);
    let (ss, ts) = unpack(small);
    proof {
        lemma_pow2_pos(ts as nat);
        lemma_pow2_pos(tb as nat);
    }
    if ss == 0 {
        proof {
            assert(ss * pow2(ts as nat) == 0) by (nonlinear_arith)
                requires
                    ss == 0,
            {
            }
            lemma_rounded_units(big);
        }
        big
    } else if tb - ts > 64 {
        proof {
            lemma_far_operand(sb as nat, tb as nat, ss as nat, ts as nat, same);
        }
        big
    } else {
        let p = two_to((tb - ts) as u32);
        proof {
            lemma_near_operand(sb as nat, tb as nat, ss as nat, ts as nat);
        }
        let xb: u128 = (sb as u128) * p;
        let x: u128 = if same {
            xb + ss as u128
        } else {
            xb - ss as u128
        };
        proof {
            assert(units(small) <= units(big)) by (nonlinear_arith)
                requires
                    units(big) == xb * pow2(ts as nat),
                    units(small) == ss * pow2(ts as nat),
                    xb >= ss,
            {
            }
            assert(combined(units(big), units(small), same) == x * pow2(ts as nat))
                by (nonlinear_arith)
                requires
                    units(big) == xb * pow2(ts as nat),
                    units(small) == ss * pow2(ts as nat),
                    same ==> x == xb + ss,
                    !same ==> x == xb - ss,
                    xb >= ss,
                    same ==> combined(units(big), units(small), same) == units(big) + units(
                        small,
                    ),
                    !same ==> combined(units(big), units(small), same) == units(big) - units(
                        small,
                    ),
            {
            }
            assert((x > 0 ==> x * pow2(ts as nat) > 0) && (x == 0 ==> x * pow2(ts as nat) == 0))
                by (nonlinear_arith)
                requires
                    pow2(ts as nat) > 0,
            {
            }
        }
        if x == 0 {
            0
        } else {
            pack(x, ts)
        }
    }
}

/// The sum of two numbers, rounded to the nearest number.
pub fn plus(a: u64, b: u64) -> (r: u64)
    ensures
        r == sum(a, b),
{
    let ma = magnitude(a);
    let mb = magnitude(b);
    if ma > INFINITY || mb > INFINITY {
        return NAN;
    }
    let na = a >= SIGN;
    let nb = b >= SIGN;
    if ma == INFINITY {
        return if mb == INFINITY && na != nb {
            NAN
        } else {
            a
        };
    }
    if mb == INFINITY {
        return b;
    }
    assert(units(a) == units(ma) && units(b) == units(mb));
    let (pattern, negative) = if ma >= mb {
        (combine(ma, mb, na == nb), na)
    } else {
        (combine(mb, ma, na == nb), nb)
    };
    if pattern == 0 {
        if na && nb {
            SIGN
        } else {
            0
        }
    } else if negative {
        SIGN + pattern
    } else {
        pattern
    }
}

/// One over `sig * 2^t` is `2^p` over `sig * 2^z` where the exponents
/// balance: the ratio of the two is the same.
proof fn lemma_reciprocal_scaled(sig: nat, t: nat, z: nat, p: nat)
    requires
        sig > 0,
        p + t == 2148 + z,
    ensures
        rounded(pow2(2148), sig * pow2(t)) == rounded(pow2(p), sig * pow2(z)),
{
    lemma_pow2_pos(t);
    lemma_pow2_pos(z);
    lemma_pow2_adds(2148, z);
    lemma_pow2_adds(p, t);
    let d = sig * pow2(t);
    let norm = sig * pow2(z);
    assert(d > 0 && norm > 0 && d * pow2(z) == norm * pow2(t)) by (nonlinear_arith)
        requires
            d == sig * pow2(t),
            norm == sig * pow2(z),
            sig > 0,
            pow2(t) > 0,
            pow2(z) > 0,
    {
    }
    lemma_rounded_cancel(pow2(2148), d, pow2(z));
    lemma_rounded_cancel(pow2(p), norm, pow2(t));
}

/// The quotient of `2^p` by a number of 53 digits that is no power of two
/// has `p - 52` digits, and the ratio rounds as `2^c` over that number does,
/// in units of `2^(p - c)`, where `c` is `p` or 105, whichever is less.
proof fn lemma_reciprocal_digits(norm: nat, p: nat, c: nat)
    requires
        pow2(52) < norm < pow2(53),
        p >= 103,
        c == if p < 105 { p } else { 105 },
    ensures
        scale(pow2(p) / norm) == p - c,
        nearest(pow2(p), norm * pow2((p - c) as nat)) == nearest(pow2(c), norm),
        pow2(c) / norm < pow2(53),
{
    lemma_pow2_values();
    let n = pow2(p);
    let q = n / norm;
    let r = n % norm;
    let low = pow2((p - 53) as nat);
    let high = pow2((p - 52) as nat);
    lemma_pow2_adds((p - 53) as nat, 53);
    lemma_pow2_adds((p - 52) as nat, 52);
    lemma_pow2_pos((p - 53) as nat);
    lemma_fundamental_div_mod(n as int, norm as int);
    assert(low <= q < high) by (nonlinear_arith)
        requires
            n == norm * q + r,
            0 <= r < norm,
            n == low * pow2(53),
            n == high * pow2(52),
            pow2(52) < norm < pow2(53),
            low > 0,
    {
    }
    lemma_digits_unique(q, (p - 52) as nat);
    // the common factor 2^(p - c)
    let k = (p - c) as nat;
    lemma_pow2_adds(c, k);
    lemma_pow2_pos(k);
    lemma_nearest_cancel(pow2(c), norm, pow2(k));
    // the quotient that is computed
    let qc = pow2(c) / norm;
    let rc = pow2(c) % norm;
    lemma_pow2_adds((c - 52) as nat, 52);
    lemma_fundamental_div_mod(pow2(c) as int, norm as int);
    if c < 105 {
        lemma_pow2_strictly_increases((c - 52) as nat, 53);
    }
    lemma_pow2_pos((c - 52) as nat);
    let bound = pow2((c - 52) as nat);
    assert(qc < bound) by (nonlinear_arith)
        requires
            bound * pow2(52) == norm * qc + rc,
            0 <= rc,
            0 < pow2(52) < norm,
            bound > 0,
    {
        if qc >= bound {
            assert(norm * qc >= norm * bound);
            assert(norm * bound > pow2(52) * bound);
        }
    }
}

/// The number nearest to one over a finite magnitude that is not zero.
pub fn invert(m: u64) -> (pattern: u64)
    requires
        0 < m < INFINITY,
    ensures
        units(m) > 0,
        pattern == rounded(pow2(2148), units(m)),
        pattern <= INFINITY,
{
    let (sig, t) = unpack(m);
    let len: u64 = bit_length(sig as u128) as u64;
    proof {
        lemma_pow2_values();
        lemma_pow2_pos(t as nat);
        lemma_digits_bounds(sig as nat);
        lemma_digits_below(sig as nat, 53);
        assert(units(m) > 0) by (nonlinear_arith)
            requires
                units(m) == sig * pow2(t as nat),
                sig > 0,
                pow2(t as nat) > 0,
        {
        }
    }
    let z: u64 = 53 - len;
    let scaling = two_to(z as u32);
    proof {
        // sig * 2^z has 53 digits
        lemma_digits_scaled(sig as nat, z as nat);
        lemma_digits_bounds(sig as nat * pow2(z as nat));
        if t > 0 {
            lemma_digits_unique(sig as nat, 53);
        }
    }
    let norm: u64 = (sig as u128 * scaling) as u64;
    let p: u64 = 2148 + z - t;
    proof {
        lemma_reciprocal_scaled(sig as nat, t as nat, z as nat, p as nat);
    }
    if norm == HIDDEN {
        proof {
            // 2^p over 2^52 is 2^(p - 52) over one
            lemma_pow2_adds((p - 52) as nat, 52);
            lemma_rounded_cancel(pow2((p - 52) as nat), 1, pow2(52));
            assert(1 * pow2(52) == norm);
            assert(1 * pow2((p - 52) as nat) == pow2((p - 52) as nat));
            lemma_pow2_pos((p - 52) as nat);
            lemma_rounded_positive(pow2((p - 52) as nat));
            lemma_pow2_strictly_increases(0, 118);
        }
        pack(1, p - 52)
    } else {
        let c: u64 = if p < 105 {
            p
        } else {
            105
        };
        let k: u64 = p - c;
        let n = two_to(c as u32);
        proof {
            lemma_reciprocal_digits(norm as nat, p as nat, c as nat);
        }
        let q = n / norm as u128;
        let r = n % norm as u128;
        let count: u64 = if 2 * r > norm as u128 || (2 * r == norm as u128 && q % 2 == 1) {
            (q + 1) as u64
        } else {
            q as u64
        };
        let pattern: u64 = k * HIDDEN + count;
        if pattern >= INFINITY {
            INFINITY
        } else {
            pattern
        }
    }
}

/// One divided by a number, rounded to the nearest number.
pub fn recip(a: u64) -> (r: u64)
    ensures
        r == reciprocal(a),
{
    let m = magnitude(a);
    if m > INFINITY {
        return NAN;
    }
    let sign: u64 = if a >= SIGN {
        SIGN
    } else {
        0
    };
    if m == INFINITY {
        return sign;
    }
    assert(units(a) == units(m));
    if m == 0 {
        return sign + INFINITY;
    }
    sign + invert(m)
}

} // verus!
