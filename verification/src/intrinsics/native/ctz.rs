//! Counting trailing zero bits.

use vstd::prelude::*;
use vstd::arithmetic::div_mod::{
    lemma_fundamental_div_mod,
    lemma_fundamental_div_mod_converse,
};
use vstd::arithmetic::power2::{pow2, lemma_pow2_adds, lemma_pow2_pos, lemma_pow2_unfold, lemma2_to64};
use vstd::bits::{lemma_u64_shl_is_mul, lemma_u64_shr_is_div};
use vstd::std_specs::bits::{axiom_u64_trailing_zeros, u64_trailing_zeros};
use crate::intrinsics::native::shift::lemma_pow2_128;
use crate::intrinsics::native::word::{high_half, low_half};
use crate::uint::U256;

verus! {

/// Whether `x` is an odd multiple of two to the power `n`: whether its
/// lowest set bit is bit `n`.
pub open spec fn lowest_set_bit_is(x: nat, n: nat) -> bool {
    x % pow2(n) == 0 && (x / pow2(n)) % 2 == 1
}

/// The lowest set bit of a number is the lowest set bit of its low part,
/// where that part is not zero.
pub proof fn lemma_lowest_bit_in_low_part(low: nat, high: nat, k: nat, n: nat)
    requires
        n < k,
        lowest_set_bit_is(low, n),
    ensures
        lowest_set_bit_is(low + high * pow2(k), n),
{
    let p: nat = pow2(n);
    let m: nat = pow2((k - n - 1) as nat);
    lemma_pow2_pos(n);
    lemma_pow2_adds(n, (k - n) as nat);
    lemma_pow2_unfold((k - n) as nat);
    lemma_fundamental_div_mod(low as int, p as int);
    let c: nat = low / p;
    let x: nat = low + high * pow2(k);
    let z: nat = high * m;
    assert(x == (c + 2 * z) * p) by (nonlinear_arith)
        requires
            x == low + high * pow2(k),
            low == p * c,
            pow2(k) == p * (2 * m),
            z == high * m,
    ;
    lemma_fundamental_div_mod_converse(x as int, p as int, (c + 2 * z) as int, 0);
}

/// The lowest set bit of a number without a low part is the lowest set bit
/// of its high part.
pub proof fn lemma_lowest_bit_in_high_part(high: nat, k: nat, n: nat)
    requires
        lowest_set_bit_is(high, n),
    ensures
        lowest_set_bit_is(high * pow2(k), n + k),
{
    let p: nat = pow2(n);
    lemma_pow2_pos(n);
    lemma_pow2_pos(n + k);
    lemma_pow2_adds(n, k);
    lemma_fundamental_div_mod(high as int, p as int);
    let c: nat = high / p;
    assert(high * pow2(k) == c * pow2(n + k)) by (nonlinear_arith)
        requires
            high == p * c,
            pow2(n + k) == p * pow2(k),
    ;
    lemma_fundamental_div_mod_converse(
        (high * pow2(k)) as int,
        pow2(n + k) as int,
        c as int,
        0,
    );
}

/// The count of trailing zeros of a 64-bit number other than zero names its
/// lowest set bit.
pub proof fn lemma_trailing_zeros_names_lowest_bit(i: u64)
    requires
        i != 0,
    ensures
        u64_trailing_zeros(i) < 64,
        lowest_set_bit_is(i as nat, u64_trailing_zeros(i) as nat),
{
    axiom_u64_trailing_zeros(i);
    let n: u32 = u64_trailing_zeros(i);
    let k: u64 = n as u64;
    let c: u64 = i >> k;
    lemma_u64_shr_is_div(i, k);
    lemma_pow2_pos(n as nat);
    lemma_fundamental_div_mod(i as int, pow2(n as nat) as int);
    assert(c % 2 == 1) by (bit_vector)
        requires
            c & 1u64 == 1u64,
    ;
    if n == 0 {
        lemma2_to64();
    } else {
        let up: u64 = (64 - n) as u64;
        assert((i >> k) << k == i) by (bit_vector)
            requires
                0 < k < 64,
                up == 64 - k,
                i << up == 0,
        ;
        assert(c * pow2(n as nat) <= i) by (nonlinear_arith)
            requires
                i == pow2(n as nat) * c + i as nat % pow2(n as nat),
        ;
        lemma_u64_shl_is_mul(c, k);
    }
}

/// The number of trailing zero bits of a word: 128 for zero, and else the
/// position of the lowest set bit.
pub fn trailing_zeros_word(x: u128) -> (n: u32)
    ensures
        x == 0 ==> n == 128,
        x != 0 ==> n < 128 && lowest_set_bit_is(x as nat, n as nat),
{
    let high: u64 = high_half(x) as u64;
    let low: u64 = low_half(x) as u64;
    proof {
        lemma2_to64();
    }
    if low != 0 {
        proof {
            lemma_trailing_zeros_names_lowest_bit(low);
            lemma_lowest_bit_in_low_part(
                low as nat,
                high as nat,
                64,
                u64_trailing_zeros(low) as nat,
            );
        }
        low.trailing_zeros()
    } else if high != 0 {
        proof {
            lemma_trailing_zeros_names_lowest_bit(high);
            lemma_lowest_bit_in_high_part(high as nat, 64, u64_trailing_zeros(high) as nat);
        }
        64 + high.trailing_zeros()
    } else {
        128
    }
}

/// The number of trailing zero bits of `a`: 256 for zero, and else the
/// position of the lowest set bit.
pub fn ctz(a: &U256) -> (n: u32)
    ensures
        a@ == 0 ==> n == 256,
        a@ != 0 ==> n < 256 && lowest_set_bit_is(a@, n as nat),
{
    if a.0[0] != 0 {
        let n: u32 = trailing_zeros_word(a.0[0]);
        proof {
            lemma_pow2_128();
            lemma_lowest_bit_in_low_part(a.0[0] as nat, a.0[1] as nat, 128, n as nat);
        }
        n
    } else if a.0[1] != 0 {
        let n: u32 = trailing_zeros_word(a.0[1]);
        proof {
            lemma_pow2_128();
            lemma_lowest_bit_in_high_part(a.0[1] as nat, 128, n as nat);
            assert(a.0[1] as nat * pow2(128) > 0) by (nonlinear_arith)
                requires
                    a.0[1] > 0,
                    pow2(128) > 0,
            ;
        }
        128 + n
    } else {
        256
    }
}

} // verus!
