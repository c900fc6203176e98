//! Modular exponentiation on 64-bit numbers.

use vstd::arithmetic::div_mod::{lemma_mul_mod_noop_general, lemma_small_mod};
use vstd::arithmetic::mul::lemma_mul_is_associative;
use vstd::arithmetic::power::{
    lemma_pow0, lemma_pow_mod_noop, lemma_pow_multiplies, lemma_square_is_pow2, pow,
};
use vstd::prelude::*;

verus! {

/// One round of square-and-multiply keeps `result * base^exponent` the same
/// modulo `m`: the base is squared, the exponent halved, and where the
/// exponent was odd the result takes up one factor `base`.
proof fn lemma_square_and_multiply(result: int, base: int, exponent: nat, m: int)
    requires
        m > 0,
        exponent > 0,
    ensures
        exponent % 2 == 1 ==> (((result * base) % m) * pow((base * base) % m, exponent / 2)) % m
            == (result * pow(base, exponent)) % m,
        exponent % 2 == 0 ==> (result * pow((base * base) % m, exponent / 2)) % m == (result
            * pow(base, exponent)) % m,
{
    let half = exponent / 2;
    let square = base * base;
    let reduced = pow(square % m, half);
    let full = pow(square, half);
    assert(full == pow(base, 2 * half)) by {
        lemma_square_is_pow2(base);
        lemma_pow_multiplies(base, 2, half);
    }
    assert(reduced % m == full % m) by {
        lemma_pow_mod_noop(square, half, m);
    }
    if exponent % 2 == 0 {
        assert((result * reduced) % m == (result * full) % m) by {
            lemma_mul_mod_noop_general(result, reduced, m);
            lemma_mul_mod_noop_general(result, full, m);
        }
    } else {
        let factor = result * base;
        assert(pow(base, exponent) == base * full) by {
            reveal(pow);
        }
        assert(((factor % m) * reduced) % m == (factor * full) % m) by {
            lemma_mul_mod_noop_general(factor, reduced, m);
            lemma_mul_mod_noop_general(factor, full, m);
        }
        assert(factor * full == result * (base * full)) by {
            lemma_mul_is_associative(result, base, full);
        }
    }
}

/// `x` to the power `y`, modulo `m`.
pub fn modexp(x: u64, y: u64, m: u64) -> (result: u64)
    requires
        m > 0,
    ensures
        result == pow(x as int, y as nat) % (m as int),
{
    if m == 1 {
        return 0;
    }
    let mut base: u128 = x as u128;
    let mut exponent: u128 = y as u128;
    let modulus: u128 = m as u128;
    let mut result: u128 = 1;
    while exponent > 0
        invariant
            modulus == m,
            m > 1,
            result < modulus,
            base <= u64::MAX,
            (result * pow(base as int, exponent as nat)) % (m as int) == pow(x as int, y as nat)
                % (m as int),
        decreases exponent,
    {
        proof {
            lemma_square_and_multiply(result as int, base as int, exponent as nat, m as int);
            assert(result * base <= u64::MAX * u64::MAX) by (nonlinear_arith)
                requires
                    result <= u64::MAX,
                    base <= u64::MAX,
            ;
            assert(base * base <= u64::MAX * u64::MAX) by (nonlinear_arith)
                requires
                    base <= u64::MAX,
            ;
        }
        if exponent % 2 == 1 {
            result = (result * base) % modulus;
        }
        exponent = exponent / 2;
        base = (base * base) % modulus;
    }
    proof {
        lemma_pow0(base as int);
        lemma_small_mod(result as nat, m as nat);
    }
    result as u64
}

} // verus!
