//! Subtraction modulo two to the power 256.

use vstd::prelude::*;
use crate::uint::{U256, wide_base};

verus! {

/// The difference `a - b`, reduced modulo two to the power 256.
pub open spec fn wrapping_difference(a: nat, b: nat) -> nat {
    ((a - b) % (wide_base() as int)) as nat
}

/// Writes `a - b`, reduced modulo two to the power 256, into `r`, and
/// returns whether `b` is above `a`.
pub fn usubc(r: &mut U256, a: &U256, b: &U256) -> (borrow: bool)
    ensures
        final(r)@ == wrapping_difference(a@, b@),
        borrow == (a@ < b@),
{
    let low: u128 = a.0[0].wrapping_sub(b.0[0]);
    let carry: u128 = if a.0[0] < b.0[0] { 1 } else { 0 };
    let partial: u128 = a.0[1].wrapping_sub(b.0[1]);
    let high: u128 = partial.wrapping_sub(carry);
    *r = U256([low, high]);
    a.0[1] < b.0[1] || partial < carry
}

/// Writes `a - b`, reduced modulo two to the power 256, into `r`.
pub fn sub3(r: &mut U256, a: &U256, b: &U256)
    ensures
        final(r)@ == wrapping_difference(a@, b@),
{
    let _ = usubc(r, a, b);
}

} // verus!
