//! Division of one machine word by another, for divisors that are known
//! ahead of the call.

use vstd::prelude::*;
use vstd::pervasive::unreached;

verus! {

/// Calls `specialized_div_rem::u128_div_rem_trifecta`, the large-radix
/// division that pays off where multiplication is fast. Trusted: for a
/// divisor other than zero it returns the quotient and the remainder of the
/// unsigned division; on a zero divisor it panics, so that is ruled out.
#[verifier::external_body]
fn u128_div_rem_trifecta(duo: u128, div: u128) -> (r: (u128, u128))
    requires
        div != 0,
    ensures
        r.0 == duo / div,
        r.1 == duo % div,
{
    specialized_div_rem::u128_div_rem_trifecta(duo, div)
}

/// Divides `duo` by `div` and returns the quotient and the remainder.
///
/// The checked operations keep the panicking division out of the compiled
/// code; with a nonzero divisor both succeed.
pub fn u64_by_u64_div_rem(duo: u64, div: u64) -> (r: (u64, u64))
    requires
        div != 0,
    ensures
        r.0 == duo / div,
        r.1 == duo % div,
{
    if let Some(quo) = duo.checked_div(div) {
        if let Some(rem) = duo.checked_rem(div) {
            return (quo, rem);
        }
    }
    unreached()
}

/// The quotient of `duo` divided by `by`.
pub fn u128_by_128_div(duo: u128, by: u128) -> (quo: u128)
    requires
        by != 0,
    ensures
        quo == duo / by,
{
    u128_div_rem_trifecta(duo, by).0
}

} // verus!
