//! The toy RSA scheme's own rules: its fixed exponent, when a pair of primes
//! is drawn again, the public key that belongs to a pair, and which results
//! of a decryption are a plaintext. The number theory is left to the caller.

use vstd::prelude::*;

verus! {

/// Fixed RSA encryption exponent.
pub const EXP: u64 = 65_537;

/// Whether key generation draws a new pair of primes `p`, `q`, given the
/// least common multiple of `p - 1` and `q - 1` and the greatest common
/// divisor of [`EXP`] and that multiple: it does when the exponent is
/// greater than the multiple and has a factor in common with it.
pub fn draws_again(least_mult: u64, greatest_cd: u64) -> (again: bool)
    ensures
        again == (EXP > least_mult && greatest_cd != 1),
{
    EXP > least_mult && greatest_cd != 1
}

/// The public key of a pair of primes: their product.
pub fn public_key(key: (u32, u32)) -> (product: u64)
    ensures
        product == key.0 as int * key.1 as int,
{
    assert(key.0 as int * key.1 as int <= u32::MAX * u32::MAX) by (nonlinear_arith)
        requires
            key.0 <= u32::MAX,
            key.1 <= u32::MAX,
    ;
    (key.0 as u64) * (key.1 as u64)
}

/// The numbers whose least common multiple gives the private exponent:
/// each prime of the pair less one.
pub fn totient_factors(key: (u32, u32)) -> (factors: (u64, u64))
    requires
        key.0 >= 1,
        key.1 >= 1,
    ensures
        factors.0 == key.0 - 1,
        factors.1 == key.1 - 1,
{
    ((key.0 - 1) as u64, (key.1 - 1) as u64)
}

/// The plaintext that a decrypted value stands for: the value itself where
/// it fits 32 bits, nothing where it does not.
pub fn plaintext(value: u64) -> (msg: Option<u32>)
    ensures
        msg == if value <= u32::MAX {
            Some(value as u32)
        } else {
            None::<u32>
        },
{
    if value <= u32::MAX as u64 {
        Some(value as u32)
    } else {
        None
    }
}

} // verus!
