//! The linear-congruential recurrence evaluated directly on integers.
use vstd::prelude::*;

verus! {

/// Exponent of the modulus of the standard generator (`2^32`), a multiple of 8.
pub const MODULUS_EXPONENT: u64 = 32;

/// Modulus of the standard generator.
pub const MODULUS: u64 = 1u64 << MODULUS_EXPONENT;

/// Multiplier of the standard generator (that of the C runtime `rand`).
pub const MULTIPLIER: u64 = 214013;

/// Increment of the standard generator.
pub const INCREMENT: u64 = 2531011;

/// The term reached from `seed` after `n` steps: the seed is reduced modulo
/// `modulus` once, then `x -> (x * multiplier + adder) % modulus` is applied `n` times.
pub open spec fn lcg_term(seed: nat, multiplier: nat, adder: nat, modulus: nat, n: nat) -> nat
    decreases n,
{
    if n == 0 {
        seed % modulus
    } else {
        (lcg_term(seed, multiplier, adder, modulus, (n - 1) as nat) * multiplier + adder) % modulus
    }
}

/// The term of the sequence from `seed` after `iterations` steps of the recurrence.
pub fn get_random(seed: u64, multiplier: u64, adder: u64, modulus: u64, iterations: u64) -> (r: u64)
    requires
        modulus > 0,
    ensures
        r == lcg_term(seed as nat, multiplier as nat, adder as nat, modulus as nat, iterations as nat),
{
    let m = modulus as u128;
    let mut ret: u128 = seed as u128 % m;
    let mut i: u64 = 0;
    while i < iterations
        invariant
            m == modulus,
            m > 0,
            i <= iterations,
            ret < m,
            ret == lcg_term(seed as nat, multiplier as nat, adder as nat, modulus as nat, i as nat),
        decreases iterations - i,
    {
        let a = multiplier as u128;
        assert(ret * a <= 0xffff_ffff_ffff_ffffu128 * 0xffff_ffff_ffff_ffffu128) by (nonlinear_arith)
            requires
                ret < m,
                m <= 0xffff_ffff_ffff_ffffu128,
                a <= 0xffff_ffff_ffff_ffffu128,
        ;
        ret = (ret * a + adder as u128) % m;
        i = i + 1;
    }
    ret as u64
}

} // verus!
