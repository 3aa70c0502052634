//! The signed 256-bit integer.

use vstd::prelude::*;
use vstd::arithmetic::div_mod::{
    lemma_div_is_ordered_by_denominator,
    lemma_div_pos_is_pos,
    lemma_fundamental_div_mod,
    lemma_mod_bound,
};
use crate::uint::{U256, wide_base, value_of};

verus! {

/// Half of the number of values of a 256-bit integer: two to the power 255.
pub open spec fn sign_base() -> nat {
    0x8000_0000_0000_0000_0000_0000_0000_0000_0000_0000_0000_0000_0000_0000_0000_0000nat
}

/// The two's-complement reading of a 256-bit pattern.
pub open spec fn signed_of(bits: nat) -> int {
    if bits < sign_base() {
        bits as int
    } else {
        bits - wide_base()
    }
}

/// The number that wraps around to `x` in 256-bit two's complement.
pub open spec fn wrapped(x: int) -> int {
    signed_of((x % (wide_base() as int)) as nat)
}

/// The distance of `x` from zero.
pub open spec fn magnitude(x: int) -> nat {
    if x < 0 {
        (-x) as nat
    } else {
        x as nat
    }
}

/// The quotient of `a` divided by `b`, rounded toward zero.
pub open spec fn truncating_quotient(a: int, b: int) -> int {
    if (a < 0) != (b < 0) {
        -((magnitude(a) / magnitude(b)) as int)
    } else {
        (magnitude(a) / magnitude(b)) as int
    }
}

/// The remainder that goes with the quotient rounded toward zero: it has the
/// sign of the dividend.
pub open spec fn truncating_remainder(a: int, b: int) -> int {
    if a < 0 {
        -((magnitude(a) % magnitude(b)) as int)
    } else {
        (magnitude(a) % magnitude(b)) as int
    }
}

/// A signed 256-bit integer in two's complement: two 128-bit words, the low
/// word first. The sign is the top bit of the high word.
#[derive(Clone, Copy, Debug, PartialEq, Eq, Hash)]
pub struct I256(pub [u128; 2]);

impl View for I256 {
    type V = int;

    /// The number that the two words stand for.
    open spec fn view(&self) -> int {
        signed_of(value_of(self.0[0], self.0[1]))
    }
}

impl I256 {
    /// The bit pattern, read as an unsigned number.
    pub open spec fn bits(&self) -> nat {
        value_of(self.0[0], self.0[1])
    }

    /// Whether the integer is below zero.
    pub fn is_negative(&self) -> (neg: bool)
        ensures
            neg == (self@ < 0),
    {
        self.0[1] >= 0x8000_0000_0000_0000_0000_0000_0000_0000u128
    }

    /// The same bits as an unsigned integer.
    pub fn as_u256(&self) -> (r: U256)
        ensures
            r@ == self.bits(),
    {
        U256([self.0[0], self.0[1]])
    }

    /// The signed integer with the bits of `x`.
    pub fn from_u256(x: &U256) -> (r: I256)
        ensures
            r.bits() == x@,
            r@ == signed_of(x@),
    {
        I256([x.0[0], x.0[1]])
    }
}

/// Division rounded toward zero gives back the dividend, leaves a remainder
/// that is smaller than the divisor and has the sign of the dividend, and
/// gives a quotient that is below zero exactly where the signs of the
/// operands differ, unless it is zero.
pub proof fn lemma_truncating_division(a: int, b: int)
    requires
        b != 0,
    ensures
        a == truncating_quotient(a, b) * b + truncating_remainder(a, b),
        magnitude(truncating_remainder(a, b)) < magnitude(b),
        truncating_remainder(a, b) != 0 ==> (truncating_remainder(a, b) < 0) == (a < 0),
        truncating_quotient(a, b) != 0 ==> (truncating_quotient(a, b) < 0) == ((a < 0) != (b
            < 0)),
{
    let ma: int = magnitude(a) as int;
    let mb: int = magnitude(b) as int;
    let q: int = ma / mb;
    let r: int = ma % mb;
    lemma_fundamental_div_mod(ma, mb);
    lemma_mod_bound(ma, mb);
    lemma_div_pos_is_pos(ma, mb);
    assert(ma == mb * q + r);
    assert((-q) * b == -(q * b)) by (nonlinear_arith);
    assert(q * (-mb) == -(mb * q)) by (nonlinear_arith);
    assert(q * mb == mb * q) by (nonlinear_arith);
}

/// The quotient rounded toward zero of two 256-bit integers is a 256-bit
/// integer, but for the least integer divided by minus one.
pub proof fn lemma_quotient_fits(a: int, b: int)
    requires
        -sign_base() <= a < sign_base(),
        -sign_base() <= b < sign_base(),
        b != 0,
        !(a == -sign_base() && b == -1),
    ensures
        -sign_base() <= truncating_quotient(a, b) < sign_base(),
        wrapped(truncating_quotient(a, b)) == truncating_quotient(a, b),
{
    let ma: int = magnitude(a) as int;
    let mb: int = magnitude(b) as int;
    lemma_div_pos_is_pos(ma, mb);
    lemma_div_is_ordered_by_denominator(ma, 1, mb);
    if mb >= 2 {
        lemma_div_is_ordered_by_denominator(ma, 2, mb);
    }
}

} // verus!
