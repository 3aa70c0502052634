//! Portable implementations of the intrinsics.

pub mod add;
pub mod ctz;
pub mod divmod;
pub mod mul;
pub mod quotient;
pub mod rot;
pub mod shift;
pub mod shl;
pub mod shr;
pub mod sub;
pub mod wide_int_div;
pub mod wide_int_div_nonconst;
pub mod word;
