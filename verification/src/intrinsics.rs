//! The intrinsics behind the 256-bit integers, and the two divisions that
//! hand their results back as values.

pub mod native;

pub use self::native::add::add3;
pub use self::native::ctz::ctz;
pub use self::native::divmod::{idivmod4, udivmod4};
pub use self::native::mul::mul4;
pub use self::native::rot::rotl3;
pub use self::native::shl::shl3;
pub use self::native::shr::shr3;
pub use self::native::sub::{sub3, usubc};
pub use self::native::wide_int_div::{u128_by_128_div, u64_by_u64_div_rem};
pub use self::native::wide_int_div_nonconst::{u128_by_u64_div_rem, u128_div_rem};

use vstd::prelude::*;
use vstd::arithmetic::div_mod::{
    lemma_basic_div,
    lemma_fundamental_div_mod,
    lemma_mod_bound,
    lemma_small_mod,
};
use crate::signed::{
    I256,
    lemma_quotient_fits,
    lemma_truncating_division,
    magnitude,
    sign_base,
    truncating_quotient,
    truncating_remainder,
    wrapped,
};
use crate::uint::U256;

verus! {

/// The quotient and the remainder of `a` divided by `b`.
///
/// Both slots that the division is given are written by it, whatever they
/// held before.
pub fn safe_udivmod4(a: &U256, b: &U256) -> (r: (U256, U256))
    requires
        b@ != 0,
    ensures
        r.0@ == a@ / b@,
        r.1@ == a@ % b@,
        a@ == r.0@ * b@ + r.1@,
        r.1@ < b@,
        b@ == 1 ==> r.0@ == a@ && r.1@ == 0,
        b@ > a@ ==> r.0@ == 0 && r.1@ == a@,
{
    let mut res: U256 = U256([0, 0]);
    let mut rem: U256 = U256([0, 0]);
    udivmod4(&mut res, a, b, Some(&mut rem));
    proof {
        lemma_fundamental_div_mod(a@ as int, b@ as int);
        lemma_mod_bound(a@ as int, b@ as int);
        assert(b@ * (a@ / b@) == (a@ / b@) * b@) by (nonlinear_arith);
        if b@ == 1 {
            assert((a@ / b@) * b@ == a@ / b@) by (nonlinear_arith)
                requires
                    b@ == 1,
            ;
        }
        if b@ > a@ {
            lemma_basic_div(a@ as int, b@ as int);
            lemma_small_mod(a@, b@);
        }
    }
    (res, rem)
}

/// The quotient, rounded toward zero, and the remainder of `a` divided by
/// `b`.
///
/// Both slots that the division is given are written by it, whatever they
/// held before.
pub fn safe_idivmod4(a: &I256, b: &I256) -> (r: (I256, I256))
    requires
        b@ != 0,
    ensures
        r.0@ == wrapped(truncating_quotient(a@, b@)),
        r.1@ == truncating_remainder(a@, b@),
        magnitude(r.1@) < magnitude(b@),
        r.1@ != 0 ==> (r.1@ < 0) == (a@ < 0),
        !(a@ == -sign_base() && b@ == -1) ==> {
            &&& r.0@ == truncating_quotient(a@, b@)
            &&& a@ == r.0@ * b@ + r.1@
            &&& (r.0@ != 0 ==> (r.0@ < 0) == ((a@ < 0) != (b@ < 0)))
        },
{
    let mut res: I256 = I256([0, 0]);
    let mut rem: I256 = I256([0, 0]);
    idivmod4(&mut res, a, b, Some(&mut rem));
    proof {
        lemma_truncating_division(a@, b@);
        if !(a@ == -sign_base() && b@ == -1) {
            lemma_quotient_fits(a@, b@);
        }
    }
    (res, rem)
}

} // verus!
