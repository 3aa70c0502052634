//! Arithmetic intrinsics for 256-bit unsigned and signed integers.
//!
//! A 256-bit integer is a pair of 128-bit words. The intrinsics write their
//! result into a slot that the caller owns, and every contract states the new
//! content of the slot over the mathematical value of the operands.

pub mod signed;
pub mod intrinsics;
pub mod uint;

pub use crate::signed::I256;
pub use crate::uint::U256;
