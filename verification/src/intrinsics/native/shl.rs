//! Shift to the left.

use vstd::prelude::*;
use vstd::arithmetic::power2::pow2;
use crate::intrinsics::native::shift::{
    funnel_shl,
    lemma_shl_beyond_word,
    lemma_shl_within_word,
    shl_words,
};
use crate::uint::{U256, wide_base};

verus! {

/// Writes `a` shifted left by `b` bits into `r`: `a` times two to the power
/// `b`, reduced modulo two to the power 256.
///
/// The shift amount counts modulo 256: a shift by 256 bits leaves `a` as it
/// is.
pub fn shl3(r: &mut U256, a: &U256, b: u32)
    ensures
        final(r)@ == (a@ * pow2((b % 256) as nat)) % wide_base(),
{
    let s: u32 = b % 256;
    if s < 128 {
        let (low, high, _) = shl_words(a.0[1], a.0[0], s);
        proof {
            lemma_shl_within_word(a.0[0], a.0[1], s as nat);
        }
        *r = U256([low, high]);
    } else {
        let t: u32 = s - 128;
        let high: u128 = funnel_shl(a.0[0], 0, t);
        proof {
            lemma_shl_beyond_word(a.0[0], a.0[1], t as nat);
        }
        *r = U256([0, high]);
    }
}

} // verus!
