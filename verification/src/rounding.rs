//! Rounding to the nearest number.
//!
//! An exact result is a ratio `n / d` of whole numbers of units of 2^-1074.
//! [`rounded`] names the pattern of the number nearest to it, a tie going to
//! the even neighbour; the lemmas here are what lets the arithmetic compute
//! that pattern from a few words.

use vstd::arithmetic::div_mod::{lemma_fundamental_div_mod, lemma_fundamental_div_mod_converse};
use vstd::arithmetic::power2::{
    lemma_pow2_adds, lemma_pow2_pos, lemma_pow2_strictly_increases, lemma_pow2_unfold, pow2,
};
use vstd::prelude::*;

use crate::number::{exponent, fraction, is_finite, units, unsigned, HIDDEN, INFINITY};
use crate::powers::lemma_pow2_values;

verus! {

/// `n / d` rounded to the nearest whole number; a tie goes to the even one.
pub open spec fn nearest(n: nat, d: nat) -> nat {
    let q = n / d;
    let r = n % d;
    if 2 * r > d || (2 * r == d && q % 2 == 1) {
        q + 1
    } else {
        q
    }
}

/// The number of binary digits of `n`: the least `k` with `n < 2^k`.
pub open spec fn digits(n: nat) -> nat
    decreases n,
{
    if n == 0 {
        0
    } else {
        1 + digits(n / 2)
    }
}

/// The exponent of the unit in which a count has 53 digits; 0 where it has
/// fewer in units of one.
pub open spec fn scale(count: nat) -> nat {
    if digits(count) <= 53 {
        0
    } else {
        (digits(count) - 53) as nat
    }
}

/// The pattern, without sign, of the number nearest to `n / d` units.
///
/// With `k` the scale of `n / d`, the pattern is `k` in the exponent field
/// plus the rounded count of units of `2^k`. What rounds to or past the
/// largest exponent is infinite.
pub open spec fn rounded(n: nat, d: nat) -> u64 {
    let k = scale(n / d);
    let pattern = k * HIDDEN + nearest(n, d * pow2(k));
    if pattern >= INFINITY {
        INFINITY
    } else {
        pattern as u64
    }
}

/// A number with `k` digits lies between `2^(k-1)` and `2^k`.
pub proof fn lemma_digits_bounds(n: nat)
    requires
        n > 0,
    ensures
        digits(n) >= 1,
        pow2((digits(n) - 1) as nat) <= n < pow2(digits(n)),
    decreases n,
{
    lemma_pow2_values();
    if n == 1 {
        assert(digits(0) == 0);
        assert(digits(1) == 1 + digits(0));
    } else {
        let h = n / 2;
        lemma_digits_bounds(h);
        lemma_pow2_unfold(digits(h));
        lemma_pow2_unfold(digits(n));
    }
}

/// The number of digits is the only `k` with `2^(k-1) <= n < 2^k`.
pub proof fn lemma_digits_unique(n: nat, k: nat)
    requires
        k >= 1,
        pow2((k - 1) as nat) <= n < pow2(k),
    ensures
        digits(n) == k,
{
    lemma_pow2_pos((k - 1) as nat);
    lemma_digits_bounds(n);
    let d = digits(n);
    if d < k {
        if d < k - 1 {
            lemma_pow2_strictly_increases(d, (k - 1) as nat);
        }
    } else if d > k {
        if k < d - 1 {
            lemma_pow2_strictly_increases(k, (d - 1) as nat);
        }
    }
}

/// What is below `2^k` has at most `k` digits.
pub proof fn lemma_digits_below(n: nat, k: nat)
    requires
        n < pow2(k),
    ensures
        digits(n) <= k,
{
    if n > 0 {
        lemma_digits_bounds(n);
        let d = digits(n);
        if d > k {
            if k < d - 1 {
                lemma_pow2_strictly_increases(k, (d - 1) as nat);
            }
        }
    }
}

/// Multiplying by `2^t` adds `t` digits.
pub proof fn lemma_digits_scaled(n: nat, t: nat)
    requires
        n > 0,
    ensures
        digits(n * pow2(t)) == digits(n) + t,
{
    lemma_digits_bounds(n);
    let l = digits(n);
    lemma_pow2_adds((l - 1) as nat, t);
    lemma_pow2_adds(l, t);
    lemma_pow2_pos(t);
    assert(pow2((l - 1) as nat) * pow2(t) <= n * pow2(t) < pow2(l) * pow2(t)) by (nonlinear_arith)
        requires
            pow2((l - 1) as nat) <= n < pow2(l),
            pow2(t) > 0,
    {
    }
    lemma_digits_unique(n * pow2(t), l + t);
}

/// A common factor of both parts of a ratio does not change its quotient,
/// and scales its remainder.
pub proof fn lemma_ratio_cancel(n: nat, d: nat, c: nat)
    requires
        d > 0,
        c > 0,
    ensures
        (n * c) / (d * c) == n / d,
        (n * c) % (d * c) == (n % d) * c,
{
    let q = n / d;
    let r = n % d;
    lemma_fundamental_div_mod(n as int, d as int);
    assert(n * c == q * (d * c) + r * c && 0 <= r * c < d * c) by (nonlinear_arith)
        requires
            n == d * q + r,
            0 <= r < d,
            c > 0,
    {
    }
    lemma_fundamental_div_mod_converse((n * c) as int, (d * c) as int, q as int, (r * c) as int);
}

/// A common factor of both parts of a ratio does not change what it rounds
/// to.
pub proof fn lemma_nearest_cancel(n: nat, d: nat, c: nat)
    requires
        d > 0,
        c > 0,
    ensures
        nearest(n * c, d * c) == nearest(n, d),
{
    lemma_ratio_cancel(n, d, c);
    let r = n % d;
    assert((2 * (r * c) > d * c <==> 2 * r > d) && (2 * (r * c) == d * c <==> 2 * r == d))
        by (nonlinear_arith)
        requires
            c > 0,
    {
    }
}

/// A whole multiple rounds to itself.
pub proof fn lemma_nearest_exact(n: nat, d: nat)
    requires
        d > 0,
    ensures
        nearest(n * d, d) == n,
{
    assert(n * d == n * d + 0);
    lemma_fundamental_div_mod_converse((n * d) as int, d as int, n as int, 0);
}

/// A common factor of both parts of a ratio does not change the number
/// nearest to it.
pub proof fn lemma_rounded_cancel(n: nat, d: nat, c: nat)
    requires
        d > 0,
        c > 0,
    ensures
        rounded(n * c, d * c) == rounded(n, d),
{
    lemma_ratio_cancel(n, d, c);
    let k = scale(n / d);
    lemma_pow2_pos(k);
    assert((d * c) * pow2(k) == (d * pow2(k)) * c) by (nonlinear_arith);
    assert(d * pow2(k) > 0) by (nonlinear_arith)
        requires
            d > 0,
            pow2(k) > 0,
    {
    }
    lemma_nearest_cancel(n, d * pow2(k), c);
}

/// What is more than nothing does not round to zero.
pub proof fn lemma_rounded_positive(n: nat)
    requires
        n > 0,
    ensures
        0 < rounded(n, 1) <= INFINITY,
{
    lemma_pow2_values();
    assert(n / 1 == n);
    if digits(n) <= 53 {
        lemma_nearest_exact(n, 1);
        assert(n * 1 == n);
    }
}

/// Every finite number is the number nearest to its own magnitude.
pub proof fn lemma_rounded_units(bits: u64)
    requires
        is_finite(bits),
    ensures
        rounded(units(bits), 1) == unsigned(bits),
{
    let e = exponent(bits);
    let f = fraction(bits);
    let u = units(bits);
    lemma_pow2_values();
    assert(u / 1 == u);
    assert(unsigned(bits) == e * HIDDEN + f);
    if e == 0 {
        lemma_digits_below(u, 53);
        lemma_nearest_exact(u, 1);
        assert(u * 1 == u);
    } else {
        let sig = HIDDEN as nat + f;
        let k = (e - 1) as nat;
        lemma_digits_unique(sig, 53);
        lemma_digits_scaled(sig, k);
        lemma_pow2_pos(k);
        lemma_nearest_exact(sig, pow2(k));
        assert(1 * pow2(k) == pow2(k));
    }
}

/// A quantity within a quarter of the last place of a number of 53 digits
/// rounds to that number.
///
/// The number is `m * 2^k`, the quantity `v` more (`up`) or less than it.
pub proof fn lemma_rounded_near(m: nat, k: nat, v: nat, up: bool)
    requires
        pow2(52) <= m < pow2(53),
        4 * v < pow2(k),
        k * HIDDEN + m < INFINITY,
    ensures
        !up ==> v <= m * pow2(k),
        rounded(
            if up {
                m * pow2(k) + v
            } else {
                (m * pow2(k) - v) as nat
            },
            1,
        ) == k * HIDDEN + m,
{
    lemma_pow2_values();
    lemma_pow2_pos(k);
    let unit = pow2(k);
    lemma_pow2_adds(52, k);
    lemma_pow2_adds(53, k);
    assert(pow2(52) * unit <= m * unit && (m + 1) * unit <= pow2(53) * unit
        && (m + 1) * unit == m * unit + unit) by (nonlinear_arith)
        requires
            pow2(52) <= m < pow2(53),
            unit > 0,
    {
    }
    if up || v == 0 {
        let s = m * unit + v;
        assert(s / 1 == s);
        lemma_digits_unique(s, 53 + k);
        assert(1 * unit == unit);
        lemma_fundamental_div_mod_converse(s as int, unit as int, m as int, v as int);
    } else if m > pow2(52) {
        let s = (m * unit - v) as nat;
        assert(s / 1 == s);
        assert((m - 1) * unit == m * unit - unit && pow2(52) * unit <= (m - 1) * unit)
            by (nonlinear_arith)
            requires
                pow2(52) < m,
                unit > 0,
        {
        }
        lemma_digits_unique(s, 53 + k);
        assert(1 * unit == unit);
        lemma_fundamental_div_mod_converse(
            s as int,
            unit as int,
            (m - 1) as int,
            (unit - v) as int,
        );
    } else {
        // m is 2^52 and the quantity has one digit less
        assert(k >= 3) by {
            if k < 3 {
                lemma_pow2_strictly_increases(k, 3);
                vstd::arithmetic::power2::lemma2_to64();
            }
        }
        let half = pow2((k - 1) as nat);
        lemma_pow2_unfold(k);
        lemma_pow2_pos((k - 1) as nat);
        let s = (m * unit - v) as nat;
        assert(s / 1 == s);
        lemma_pow2_adds(51, (k - 1) as nat);
        lemma_pow2_adds(52, (k - 1) as nat);
        lemma_pow2_adds(53, (k - 1) as nat);
        assert(m * unit == pow2(53) * half && (pow2(53) - 1) * half == pow2(53) * half - half
            && pow2(52) * half <= (pow2(53) - 1) * half) by (nonlinear_arith)
            requires
                m == pow2(52),
                unit == 2 * half,
                pow2(53) == 2 * pow2(52),
                pow2(52) >= 1,
                half > 0,
        {
        }
        lemma_digits_unique(s, 52 + k);
        assert(scale(s) == k - 1);
        assert(1 * half == half);
        lemma_fundamental_div_mod_converse(
            s as int,
            half as int,
            (pow2(53) - 1) as int,
            (half - v) as int,
        );
    }
}

/// The magnitude of a pattern that is made of an exponent and a count of
/// units of two to that exponent.
pub proof fn lemma_units_of_pattern(k: nat, count: nat)
    requires
        count <= pow2(53),
        k >= 1 ==> count >= pow2(52),
        k * HIDDEN + count < INFINITY,
    ensures
        units((k * HIDDEN + count) as u64) == count * pow2(k),
{
    lemma_pow2_values();
    let bits = (k * HIDDEN + count) as u64;
    assert(unsigned(bits) == bits);
    if count < pow2(52) {
        assert(k == 0);
        assert(exponent(bits) == 0);
        assert(count * pow2(0) == count) by (nonlinear_arith)
            requires
                pow2(0) == 1,
        {
        }
    } else if count < pow2(53) {
        assert(exponent(bits) == k + 1);
        assert(fraction(bits) == count - HIDDEN);
    } else {
        assert(exponent(bits) == k + 2);
        assert(fraction(bits) == 0);
        lemma_pow2_unfold(k + 1);
        assert(HIDDEN * (2 * pow2(k)) == (2 * HIDDEN) * pow2(k)) by (nonlinear_arith);
    }
}

/// Rounding is to the nearest, a tie to the even: a ratio and the finite
/// number that it rounds to are at most half a unit apart, where the unit is
/// two to the scale of the ratio; the number is a whole multiple of that unit,
/// and an even one where the ratio lies halfway between two multiples.
pub proof fn lemma_rounded_is_near(n: nat, d: nat)
    requires
        d > 0,
        rounded(n, d) < INFINITY,
    ensures
        ({
            let number = units(rounded(n, d));
            let unit = pow2(scale(n / d));
            &&& number % unit == 0
            &&& 2 * (number * d - n) <= d * unit
            &&& 2 * (n - number * d) <= d * unit
            &&& 2 * (number * d - n) == d * unit || 2 * (n - number * d) == d * unit ==> (number
                / unit) % 2 == 0
        }),
{
    lemma_pow2_values();
    let k = scale(n / d);
    let unit = pow2(k);
    lemma_pow2_pos(k);
    let whole = d * unit;
    assert(whole > 0) by (nonlinear_arith)
        requires
            whole == d * unit,
            d > 0,
            unit > 0,
    {
    }
    let q = n / whole;
    let r = n % whole;
    let count = nearest(n, whole);
    lemma_fundamental_div_mod(n as int, whole as int);
    // the quotient in units is the quotient of the ratio, scaled down
    vstd::arithmetic::div_mod::lemma_div_denominator(n as int, d as int, unit as int);
    assert(q == (n / d) / unit);
    if k == 0 {
        lemma_digits_bounds_or_zero(n / d);
        if digits(n / d) < 53 {
            lemma_pow2_strictly_increases(digits(n / d), 53);
        }
    } else {
        lemma_digits_bounds(n / d);
        lemma_pow2_adds(52, k);
        lemma_pow2_adds(53, k);
        let x = n / d;
        lemma_fundamental_div_mod(x as int, unit as int);
        assert(pow2(52) <= x / unit < pow2(53)) by (nonlinear_arith)
            requires
                x == unit * (x / unit) + x % unit,
                0 <= x % unit < unit,
                pow2(52) * unit <= x < pow2(53) * unit,
        {
        }
    }
    lemma_units_of_pattern(k, count);
    let number = units(rounded(n, d));
    assert(number == count * unit);
    vstd::arithmetic::div_mod::lemma_mod_multiples_basic(count as int, unit as int);
    vstd::arithmetic::div_mod::lemma_div_by_multiple(count as int, unit as int);
    assert(number * d == count * whole) by (nonlinear_arith)
        requires
            number == count * unit,
            whole == d * unit,
    {
    }
    assert(count * whole - n == (count - q) * whole - r && (q + 1 - q) * whole == whole && (q
        - q) * whole == 0) by (nonlinear_arith)
        requires
            n == whole * q + r,
    {
    }
}

/// A number has at most as many digits as its bounds allow: nothing has no
/// digit, and anything else lies below two to the number of its digits.
proof fn lemma_digits_bounds_or_zero(n: nat)
    ensures
        n < pow2(digits(n)),
{
    if n > 0 {
        lemma_digits_bounds(n);
    } else {
        lemma_pow2_pos(0);
    }
}

/// `2^k` as a machine word.
pub fn two_to(k: u32) -> (p: u128)
    requires
        k < 128,
    ensures
        p == pow2(k as nat),
{
    let shift: u128 = (127 - k) as u128;
    proof {
        lemma_pow2_values();
        lemma_pow2_adds(64, 63);
        vstd::bits::lemma_u128_shr_is_div(0x8000_0000_0000_0000_0000_0000_0000_0000u128, shift);
        vstd::arithmetic::power2::lemma_pow2_subtracts(shift as nat, 127);
    }
    0x8000_0000_0000_0000_0000_0000_0000_0000u128 >> shift
}

/// The number of binary digits of a machine word.
pub fn bit_length(x: u128) -> (n: u32)
    ensures
        n == digits(x as nat),
        n <= 128,
{
    proof {
        lemma_pow2_values();
        lemma_pow2_adds(64, 64);
        lemma_digits_below(x as nat, 128);
    }
    let mut n: u32 = 0;
    let mut y: u128 = x;
    while y > 0
        invariant
            digits(x as nat) == n + digits(y as nat),
            digits(x as nat) <= 128,
        decreases y,
    {
        y = y / 2;
        n = n + 1;
    }
    n
}

/// The pattern of the number nearest to `x * 2^t` units.
pub fn pack(x: u128, t: u64) -> (pattern: u64)
    requires
        0 < x < pow2(118),
        t < 4000,
    ensures
        pattern == rounded(x as nat * pow2(t as nat), 1),
{
    let len: u64 = bit_length(x) as u64;
    let ghost n: nat = x as nat * pow2(t as nat);
    proof {
        lemma_pow2_values();
        lemma_digits_below(x as nat, 118);
        lemma_digits_bounds(x as nat);
        lemma_digits_scaled(x as nat, t as nat);
        lemma_pow2_pos(t as nat);
        assert(n / 1 == n);
    }
    if len + t <= 53 {
        let p = two_to(t as u32);
        proof {
            lemma_pow2_adds(len as nat, t as nat);
            if len + t < 53 {
                lemma_pow2_strictly_increases((len + t) as nat, 53);
            }
            assert(x * p < pow2(len as nat) * pow2(t as nat)) by (nonlinear_arith)
                requires
                    x < pow2(len as nat),
                    p == pow2(t as nat),
                    p > 0,
            {
            }
            lemma_nearest_exact(n, 1);
            assert(n * 1 == n);
            assert(1 * pow2(0) == 1);
        }
        (x * p) as u64
    } else {
        let k: u64 = len + t - 53;
        let count: u64 = if len <= 53 {
            let s: u64 = 53 - len;
            let p = two_to(s as u32);
            proof {
                // x * 2^s has 53 digits, and x * 2^t is that times 2^k
                lemma_digits_scaled(x as nat, s as nat);
                lemma_digits_bounds(x as nat * pow2(s as nat));
                lemma_pow2_adds(s as nat, k as nat);
                assert(n == (x as nat * pow2(s as nat)) * pow2(k as nat)) by (nonlinear_arith)
                    requires
                        n == x as nat * pow2(t as nat),
                        pow2(t as nat) == pow2(s as nat) * pow2(k as nat),
                {
                }
                lemma_pow2_pos(k as nat);
                lemma_nearest_exact(x as nat * pow2(s as nat), pow2(k as nat));
                assert(1 * pow2(k as nat) == pow2(k as nat));
            }
            (x * p) as u64
        } else {
            let sh: u64 = len - 53;
            let d = two_to(sh as u32);
            proof {
                lemma_pow2_pos(sh as nat);
            }
            let q = x / d;
            let r = x % d;
            proof {
                // x * 2^t over 2^k is x over 2^sh
                lemma_pow2_adds(sh as nat, t as nat);
                lemma_pow2_pos(sh as nat);
                lemma_nearest_cancel(x as nat, d as nat, pow2(t as nat));
                assert(1 * pow2(k as nat) == d as nat * pow2(t as nat));
                // q has 53 digits
                lemma_pow2_adds(53, sh as nat);
                lemma_pow2_adds(52, sh as nat);
                lemma_fundamental_div_mod(x as int, d as int);
                assert(pow2(52) <= q < pow2(53)) by (nonlinear_arith)
                    requires
                        x == d * q + r,
                        0 <= r < d,
                        pow2(52) * d <= x < pow2(53) * d,
                {
                }
                if sh < 66 {
                    lemma_pow2_strictly_increases(sh as nat, 66);
                }
                lemma_pow2_adds(64, 2);
            }
            if 2 * r > d || (2 * r == d && q % 2 == 1) {
                (q + 1) as u64
            } else {
                q as u64
            }
        };
        assert(count == nearest(n, 1 * pow2(k as nat)));
        assert(k == scale(n));
        let pattern: u64 = k * HIDDEN + count;
        if pattern >= INFINITY {
            INFINITY
        } else {
            pattern
        }
    }
}

} // verus!
