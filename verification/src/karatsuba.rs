//! Multiplication by divide and conquer.

use vstd::arithmetic::div_mod::lemma_fundamental_div_mod;
use vstd::arithmetic::power2::{lemma_pow2_adds, lemma_pow2_pos, pow2};
use vstd::bits::{
    lemma_u64_low_bits_mask_is_mod, lemma_u64_pow2_no_overflow, lemma_u64_shl_is_mul,
    lemma_u64_shr_is_div, low_bits_mask,
};
use vstd::prelude::*;

verus! {

/// The product of `x` and `y`.
pub fn karatsuba(x: u64, y: u64) -> (z: u64)
    requires
        x * y <= u64::MAX,
    ensures
        z == x * y,
{
    krec(x, y, 32)
}

/// The low `n` bits of `x`, and the rest.
pub fn split(x: u64, n: u8) -> (parts: (u64, u64))
    requires
        n < 64,
    ensures
        parts.0 == x as nat % pow2(n as nat),
        parts.1 == x as nat / pow2(n as nat),
{
    proof {
        lemma_u64_pow2_no_overflow(n as nat);
        lemma_pow2_pos(n as nat);
        lemma_u64_shl_is_mul(1, n as u64);
        lemma_u64_low_bits_mask_is_mod(x, n as nat);
        lemma_u64_shr_is_div(x, n as u64);
    }
    let mask: u64 = (1u64 << (n as u64)) - 1;
    assert(mask == low_bits_mask(n as nat) as u64);
    (x & mask, x >> (n as u64))
}

/// What the three smaller products are bounded by, and how they add up.
pub proof fn lemma_three_products(x0: nat, x1: nat, y0: nat, y1: nat, p: nat)
    requires
        p >= 1,
    ensures
        x0 * y0 <= (x1 * p + x0) * (y1 * p + y0),
        x1 * y1 <= x1 * y1 * (p * p) <= (x1 * p + x0) * (y1 * p + y0),
        (x0 + x1) * (y0 + y1) <= (x1 * p + x0) * (y1 * p + y0),
        (x0 + x1) * (y0 + y1) - x0 * y0 - x1 * y1 == x0 * y1 + x1 * y0,
        (x0 * y1 + x1 * y0) <= (x0 * y1 + x1 * y0) * p <= (x1 * p + x0) * (y1 * p + y0),
        (x1 * p + x0) * (y1 * p + y0) == x1 * y1 * (p * p) + (x0 * y1 + x1 * y0) * p + x0 * y0,
{
    let cross = x0 * y1 + x1 * y0;
    assert((x1 * p + x0) * (y1 * p + y0) == x1 * y1 * (p * p) + cross * p + x0 * y0)
        by (nonlinear_arith)
        requires
            cross == x0 * y1 + x1 * y0,
    ;
    assert((x0 + x1) * (y0 + y1) == x0 * y0 + cross + x1 * y1) by (nonlinear_arith)
        requires
            cross == x0 * y1 + x1 * y0,
    ;
    assert(cross <= cross * p) by (nonlinear_arith)
        requires
            p >= 1,
    ;
    assert(x1 * y1 <= x1 * y1 * (p * p)) by (nonlinear_arith)
        requires
            p >= 1,
    ;
}

/// The product of `x` and `y`, from three products of their halves split at
/// bit `n / 2`; computed directly once `n` is two or less.
pub fn krec(x: u64, y: u64, n: u8) -> (z: u64)
    requires
        x * y <= u64::MAX,
        n <= 63,
    ensures
        z == x * y,
    decreases n,
{
    if n <= 2 {
        return x * y;
    }
    let n2 = n / 2;
    let (x0, x1) = split(x, n2);
    let (y0, y1) = split(y, n2);
    let ghost p = pow2(n2 as nat);
    proof {
        lemma_pow2_pos(n2 as nat);
        lemma_fundamental_div_mod(x as int, p as int);
        lemma_fundamental_div_mod(y as int, p as int);
        assert(x == x1 * p + x0) by (nonlinear_arith)
            requires
                x == p * x1 + x0,
        ;
        assert(y == y1 * p + y0) by (nonlinear_arith)
            requires
                y == p * y1 + y0,
        ;
        lemma_three_products(x0 as nat, x1 as nat, y0 as nat, y1 as nat, p);
        lemma_pow2_adds(n2 as nat, n2 as nat);
        assert(x1 <= x1 * p) by (nonlinear_arith)
            requires
                p >= 1,
        ;
        assert(y1 <= y1 * p) by (nonlinear_arith)
            requires
                p >= 1,
        ;
    }
    let z0 = krec(x0, y0, n2);
    let z2 = krec(x1, y1, n2);
    let z1 = krec(x0 + x1, y0 + y1, n2) - z0 - z2;
    proof {
        assert(z2 * pow2((2 * n2) as nat) == x1 * y1 * (p * p)) by (nonlinear_arith)
            requires
                z2 == x1 * y1,
                pow2((2 * n2) as nat) == p * p,
        ;
        lemma_u64_shl_is_mul(z2, (2 * n2) as u64);
        lemma_u64_shl_is_mul(z1, n2 as u64);
    }
    (z2 << ((2 * n2) as u64)) + (z1 << (n2 as u64)) + z0
}

} // verus!
