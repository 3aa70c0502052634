//! Shift to the right.

use vstd::prelude::*;
use vstd::arithmetic::div_mod::lemma_div_denominator;
use vstd::arithmetic::power2::{pow2, lemma_pow2_adds, lemma_pow2_pos};
use crate::intrinsics::native::shift::{lemma_pow2_128, shr_words};
use crate::uint::U256;

verus! {

/// Writes `a` shifted right by `b` bits into `r`: `a` divided by two to the
/// power `b`, rounded down.
///
/// The shift amount counts modulo 256: a shift by 256 bits leaves `a` as it
/// is.
pub fn shr3(r: &mut U256, a: &U256, b: u32)
    ensures
        final(r)@ == a@ / pow2((b % 256) as nat),
{
    let s: u32 = b % 256;
    if s < 128 {
        let (low, high) = shr_words(a.0[1], a.0[0], s);
        *r = U256([low, high]);
    } else {
        let t: u32 = s - 128;
        let (low, high) = shr_words(0, a.0[1], t);
        proof {
            lemma_pow2_128();
            lemma_pow2_adds(128, t as nat);
            lemma_pow2_pos(t as nat);
            lemma_div_denominator(a@ as int, pow2(128) as int, pow2(t as nat) as int);
            assert(a@ / pow2(128) == a.0[1]);
            assert(pow2(s as nat) == pow2(128) * pow2(t as nat));
        }
        *r = U256([low, high]);
    }
}

} // verus!
