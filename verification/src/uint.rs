//! The unsigned 256-bit integer.

use vstd::prelude::*;

verus! {

/// The weight of the high word: two to the power 128.
pub open spec fn word_base() -> nat {
    0x1_0000_0000_0000_0000_0000_0000_0000_0000nat
}

/// The number of values of a 256-bit integer: two to the power 256.
pub open spec fn wide_base() -> nat {
    0x1_0000_0000_0000_0000_0000_0000_0000_0000_0000_0000_0000_0000_0000_0000_0000_0000nat
}

/// The value of the pair of words `(low, high)`.
pub open spec fn value_of(low: u128, high: u128) -> nat {
    (low as nat) + (high as nat) * word_base()
}

/// An unsigned 256-bit integer: two 128-bit words, the low word first.
#[derive(Clone, Copy, Debug, PartialEq, Eq, Hash)]
pub struct U256(pub [u128; 2]);

impl View for U256 {
    type V = nat;

    /// The number that the two words stand for.
    open spec fn view(&self) -> nat {
        value_of(self.0[0], self.0[1])
    }
}

impl U256 {
    /// Whether `self` is greater than `other`.
    pub fn is_above(&self, other: &U256) -> (above: bool)
        ensures
            above == (self@ > other@),
    {
        self.0[1] > other.0[1] || (self.0[1] == other.0[1] && self.0[0] > other.0[0])
    }
}

} // verus!
