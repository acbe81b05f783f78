//! Facts about powers of two that the arithmetic on numbers rests on.

use vstd::arithmetic::power2::{
    lemma2_to64, lemma2_to64_rest, lemma_pow2_adds, lemma_pow2_pos, pow2,
};
use vstd::prelude::*;

verus! {

/// The powers of two that the fields of a number are made of.
pub proof fn lemma_pow2_values()
    ensures
        pow2(0) == 1,
        pow2(1) == 2,
        pow2(11) == 0x800,
        pow2(12) == 0x1000,
        pow2(52) == 0x0010_0000_0000_0000,
        pow2(53) == 0x0020_0000_0000_0000,
        pow2(63) == 0x8000_0000_0000_0000,
        pow2(64) == 0x1_0000_0000_0000_0000,
{
    lemma2_to64();
    lemma2_to64_rest();
}

/// Dividing a multiple of one power of two by another power of two.
pub proof fn lemma_scaled_quotient(x: nat, a: nat, b: nat)
    ensures
        a >= b ==> (x * pow2(a)) / pow2(b) == x * pow2((a - b) as nat),
        a <= b ==> (x * pow2(a)) / pow2(b) == x / pow2((b - a) as nat),
{
    lemma_pow2_pos(a);
    lemma_pow2_pos(b);
    if a >= b {
        let c = (a - b) as nat;
        lemma_pow2_adds(c, b);
        assert(x * pow2(a) == (x * pow2(c)) * pow2(b)) by (nonlinear_arith)
            requires
                pow2(a) == pow2(c) * pow2(b),
        {
        }
        vstd::arithmetic::div_mod::lemma_div_by_multiple((x * pow2(c)) as int, pow2(b) as int);
    }
    if a <= b {
        let c = (b - a) as nat;
        lemma_pow2_adds(a, c);
        lemma_pow2_pos(c);
        // (x * 2^a) / (2^a * 2^c) == x / 2^c
        vstd::arithmetic::div_mod::lemma_div_denominator(
            (x * pow2(a)) as int,
            pow2(a) as int,
            pow2(c) as int,
        );
        assert(x * pow2(a) == pow2(a) * x) by (nonlinear_arith);
        vstd::arithmetic::div_mod::lemma_div_multiples_vanish(x as int, pow2(a) as int);
    }
}

} // verus!
