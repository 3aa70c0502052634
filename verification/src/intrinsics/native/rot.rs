//! Rotation to the left.

use vstd::prelude::*;
use vstd::arithmetic::div_mod::{lemma_basic_div, lemma_div_denominator};
use vstd::arithmetic::power2::{pow2, lemma_pow2_adds};
use crate::intrinsics::native::shift::{
    funnel_shl,
    lemma_pow2_128,
    lemma_pow2_split,
    lemma_shift_down,
    lemma_shl_beyond_word,
    lemma_shl_within_word,
};
use crate::uint::{U256, wide_base, word_base};

verus! {

/// The 256-bit number `a` rotated left by `s` bits: the bits that a shift
/// to the left keeps, and below them the bits that it pushes out.
pub open spec fn rotated_left(a: nat, s: nat) -> nat {
    (a * pow2(s)) % wide_base() + a / pow2((256 - s) as nat)
}

/// Writes `a` rotated left by `b` bits into `r`.
///
/// The amount counts modulo 256.
pub fn rotl3(r: &mut U256, a: &U256, b: u32)
    ensures
        final(r)@ == rotated_left(a@, (b % 256) as nat),
{
    let s: u32 = b % 256;
    if s < 128 {
        let low: u128 = funnel_shl(a.0[0], a.0[1], s);
        let high: u128 = funnel_shl(a.0[1], a.0[0], s);
        proof {
            let q: nat = pow2((128 - s) as nat);
            lemma_shl_within_word(a.0[0], a.0[1], s as nat);
            lemma_pow2_128();
            lemma_pow2_split(s as nat);
            lemma_pow2_adds(128, (128 - s) as nat);
            lemma_div_denominator(a@ as int, pow2(128) as int, q as int);
        }
        *r = U256([low, high]);
    } else {
        let t: u32 = s - 128;
        let low: u128 = funnel_shl(a.0[1], a.0[0], t);
        let high: u128 = funnel_shl(a.0[0], a.0[1], t);
        proof {
            let p: nat = pow2(t as nat);
            let q: nat = pow2((128 - t) as nat);
            lemma_shl_beyond_word(a.0[0], a.0[1], t as nat);
            lemma_pow2_split(t as nat);
            lemma_shift_down(a.0[0] as nat, a.0[1] as nat, q, p, word_base());
            lemma_basic_div(0, q as int);
        }
        *r = U256([low, high]);
    }
}

} // verus!
