//! Addition modulo two to the power 256.

use vstd::prelude::*;
use crate::uint::{U256, wide_base};

verus! {

/// Writes `a + b`, reduced modulo two to the power 256, into `r`.
pub fn add3(r: &mut U256, a: &U256, b: &U256)
    ensures
        final(r)@ == (a@ + b@) % wide_base(),
{
    let low: u128 = a.0[0].wrapping_add(b.0[0]);
    let carry: u128 = if low < a.0[0] { 1 } else { 0 };
    let high: u128 = a.0[1].wrapping_add(b.0[1]).wrapping_add(carry);
    *r = U256([low, high]);
}

} // verus!
