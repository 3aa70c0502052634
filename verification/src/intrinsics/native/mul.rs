//! Multiplication modulo two to the power 256.

use vstd::prelude::*;
use vstd::arithmetic::div_mod::lemma_fundamental_div_mod_converse;
use crate::uint::{U256, wide_base, word_base};
use crate::intrinsics::native::word::mul_wide;

verus! {

/// The product of two pairs of words, by its partial products.
pub proof fn lemma_product_by_words(a1: int, a0: int, b1: int, b0: int)
    ensures
        (a0 + a1 * word_base()) * (b0 + b1 * word_base()) == (a1 * b1) * wide_base() + (a1 * b0
            + a0 * b1) * word_base() + a0 * b0,
{
    assert((a0 + a1 * 0x1_0000_0000_0000_0000_0000_0000_0000_0000) * (b0 + b1
        * 0x1_0000_0000_0000_0000_0000_0000_0000_0000) == (a1 * b1)
        * 0x1_0000_0000_0000_0000_0000_0000_0000_0000_0000_0000_0000_0000_0000_0000_0000_0000
        + (a1 * b0 + a0 * b1) * 0x1_0000_0000_0000_0000_0000_0000_0000_0000 + a0 * b0)
        by (nonlinear_arith);
}

/// Writes `a * b`, reduced modulo two to the power 256, into `r`.
pub fn mul4(r: &mut U256, a: &U256, b: &U256)
    ensures
        final(r)@ == (a@ * b@) % wide_base(),
{
    let (low, carry) = mul_wide(a.0[0], b.0[0]);
    let cross_high: u128 = a.0[1].wrapping_mul(b.0[0]);
    let cross_low: u128 = a.0[0].wrapping_mul(b.0[1]);
    let high: u128 = carry.wrapping_add(cross_high).wrapping_add(cross_low);
    proof {
        let a0: int = a.0[0] as int;
        let a1: int = a.0[1] as int;
        let b0: int = b.0[0] as int;
        let b1: int = b.0[1] as int;
        lemma_product_by_words(a1, a0, b1, b0);
        let x: int = a1 * b0;
        let y: int = a0 * b1;
        let z: int = a1 * b1;
        assert(0 <= x && 0 <= y && 0 <= z) by (nonlinear_arith)
            requires
                x == a1 * b0,
                y == a0 * b1,
                z == a1 * b1,
                0 <= a0,
                0 <= a1,
                0 <= b0,
                0 <= b1,
        ;
        let w: int = word_base() as int;
        assert(cross_high == x % w);
        assert(cross_low == y % w);
        let t: int = x + y + carry;
        assert(high == t % w);
        let k: int = t / w;
        assert(a@ * b@ == (z + k) * wide_base() + (low + high * w));
        lemma_fundamental_div_mod_converse(
            (a@ * b@) as int,
            wide_base() as int,
            z + k,
            low + high * w,
        );
    }
    *r = U256([low, high]);
}

} // verus!
