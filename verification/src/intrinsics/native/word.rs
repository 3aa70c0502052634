//! Machine words and their halves.

use vstd::prelude::*;
use crate::uint::word_base;

verus! {

/// Two to the power 64: the weight of the high half of a machine word.
pub open spec fn half_base() -> nat {
    0x1_0000_0000_0000_0000
}

/// The low half of a word.
pub fn low_half(x: u128) -> (h: u128)
    ensures
        h == x % 0x1_0000_0000_0000_0000u128,
        h < half_base(),
{
    let h: u128 = x & 0xFFFF_FFFF_FFFF_FFFFu128;
    assert(x & 0xFFFF_FFFF_FFFF_FFFFu128 == x % 0x1_0000_0000_0000_0000u128) by (bit_vector);
    h
}

/// The high half of a word.
pub fn high_half(x: u128) -> (h: u128)
    ensures
        h == x / 0x1_0000_0000_0000_0000u128,
        h < half_base(),
{
    let h: u128 = x >> 64;
    assert(x >> 64 == x / 0x1_0000_0000_0000_0000u128) by (bit_vector);
    h
}

/// The word with the given halves.
pub fn join_halves(high: u128, low: u128) -> (x: u128)
    requires
        high < half_base(),
        low < half_base(),
    ensures
        x == high * half_base() + low,
{
    high * 0x1_0000_0000_0000_0000u128 + low
}

/// The product of two half words fits in a word.
pub proof fn lemma_half_product_fits(a: u128, b: u128)
    requires
        a < half_base(),
        b < half_base(),
    ensures
        a * b <= 0xFFFF_FFFF_FFFF_FFFE_0000_0000_0000_0001,
{
    assert(a * b <= 0xFFFF_FFFF_FFFF_FFFF * 0xFFFF_FFFF_FFFF_FFFF) by (nonlinear_arith)
        requires
            a <= 0xFFFF_FFFF_FFFF_FFFF,
            b <= 0xFFFF_FFFF_FFFF_FFFF,
    ;
}

/// The product of two words, from the products of their halves.
pub proof fn lemma_product_by_halves(x1: int, x0: int, y1: int, y0: int)
    ensures
        (x1 * half_base() + x0) * (y1 * half_base() + y0) == (x1 * y1) * word_base() + (x1 * y0
            + x0 * y1) * half_base() + x0 * y0,
{
    assert((x1 * 0x1_0000_0000_0000_0000 + x0) * (y1 * 0x1_0000_0000_0000_0000 + y0) == (x1 * y1)
        * 0x1_0000_0000_0000_0000_0000_0000_0000_0000 + (x1 * y0 + x0 * y1)
        * 0x1_0000_0000_0000_0000 + x0 * y0) by (nonlinear_arith);
}

/// The full product of two words: the low word and the high word of
/// `x * y`.
pub fn mul_wide(x: u128, y: u128) -> (r: (u128, u128))
    ensures
        r.0 + r.1 * word_base() == x * y,
{
    let x0: u128 = low_half(x);
    let x1: u128 = high_half(x);
    let y0: u128 = low_half(y);
    let y1: u128 = high_half(y);
    proof {
        lemma_half_product_fits(x0, y0);
        lemma_half_product_fits(x0, y1);
        lemma_half_product_fits(x1, y0);
        lemma_half_product_fits(x1, y1);
        lemma_product_by_halves(x1 as int, x0 as int, y1 as int, y0 as int);
    }
    let p00: u128 = x0 * y0;
    let p01: u128 = x0 * y1;
    let p10: u128 = x1 * y0;
    let p11: u128 = x1 * y1;
    let mid: u128 = high_half(p00) + low_half(p01) + low_half(p10);
    let low: u128 = join_halves(low_half(mid), low_half(p00));
    let high01: u128 = high_half(p01);
    let high10: u128 = high_half(p10);
    let carry: u128 = high_half(mid);
    let ghost top: int = p11 + high01 + high10 + carry;
    assert(low + top * word_base() == x * y);
    assert(top < word_base()) by (nonlinear_arith)
        requires
            low + top * 0x1_0000_0000_0000_0000_0000_0000_0000_0000 == x * y,
            0 <= low,
            x <= 0xFFFF_FFFF_FFFF_FFFF_FFFF_FFFF_FFFF_FFFF,
            y <= 0xFFFF_FFFF_FFFF_FFFF_FFFF_FFFF_FFFF_FFFF,
    {
        assert(x * y <= 0xFFFF_FFFF_FFFF_FFFF_FFFF_FFFF_FFFF_FFFF
            * 0xFFFF_FFFF_FFFF_FFFF_FFFF_FFFF_FFFF_FFFF);
    }
    let high: u128 = p11 + high01 + high10 + carry;
    (low, high)
}

} // verus!
