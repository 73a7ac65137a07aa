//! Word arithmetic primitives: a fused multiply-add on 64-bit words with a
//! 128-bit intermediate, and a 128-bit by 64-bit division.
//!
//! The division may also be computed through a precomputed reciprocal of the
//! divisor; a native 128-bit division gives the identical result, so that is
//! what is used here.

use vstd::prelude::*;
use vstd::arithmetic::div_mod::*;

verus! {

/// Computes `x * y + c` exactly, returning `(carry, low)` with
/// `carry * 2^64 + low == x * y + c`.
pub fn mul_add_ww(x: u64, y: u64, c: u64) -> (r: (u64, u64))
    ensures
        (r.0 as nat) * crate::nums::word_base() + r.1 as nat == (x as nat) * (y as nat)
            + c as nat,
{
    proof {
        assert((x as int) * (y as int) + c <= 0xffff_ffff_ffff_ffff * 0xffff_ffff_ffff_ffff
            + 0xffff_ffff_ffff_ffff) by (nonlinear_arith)
            requires
                x <= 0xffff_ffff_ffff_ffff,
                y <= 0xffff_ffff_ffff_ffff,
                c <= 0xffff_ffff_ffff_ffff,
        ;
    }
    let t: u128 = (x as u128) * (y as u128) + (c as u128);
    let hi: u64 = (t / 0x1_0000_0000_0000_0000u128) as u64;
    let lo: u64 = (t % 0x1_0000_0000_0000_0000u128) as u64;
    proof {
        lemma_fundamental_div_mod(t as int, 0x1_0000_0000_0000_0000);
    }
    (hi, lo)
}

/// Computes `(u1 * 2^64 + u0) / d` and the matching remainder.  The quotient
/// fits in one word because `u1 < d`.
pub fn div_ww(u1: u64, u0: u64, d: u64) -> (qr: (u64, u64))
    requires
        0 < d,
        u1 < d,
    ensures
        qr.0 as nat == ((u1 as nat) * crate::nums::word_base() + u0 as nat) / d as nat,
        qr.1 as nat == ((u1 as nat) * crate::nums::word_base() + u0 as nat) % d as nat,
        qr.1 < d,
{
    let n: u128 = (u1 as u128) * 0x1_0000_0000_0000_0000u128 + (u0 as u128);
    proof {
        assert(n < (d as int) * 0x1_0000_0000_0000_0000) by (nonlinear_arith)
            requires
                n == (u1 as int) * 0x1_0000_0000_0000_0000 + u0,
                u1 < d,
                u0 < 0x1_0000_0000_0000_0000,
        ;
        lemma_multiply_divide_lt(n as int, d as int, 0x1_0000_0000_0000_0000);
        lemma_mod_division_less_than_divisor(n as int, d as int);
    }
    let q: u64 = (n / (d as u128)) as u64;
    let r: u64 = (n % (d as u128)) as u64;
    (q, r)
}

} // verus!
