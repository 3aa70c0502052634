//! Division of 256-bit integers with remainder.
//!
//! A division by a divisor of two words is brought down to a division of a
//! double word by a word, that one to two steps that each find half a word
//! of the quotient, and each step to a division of a word by half a word.
//! A division by a divisor of one word divides the high word of the dividend
//! on its own first.

use vstd::prelude::*;
use vstd::arithmetic::div_mod::{
    lemma_basic_div,
    lemma_fundamental_div_mod,
    lemma_fundamental_div_mod_converse,
    lemma_mod_bound,
    lemma_mod_decreases,
    lemma_small_mod,
};
use vstd::arithmetic::power2::{pow2, lemma_pow2_pos, lemma_pow2_unfold};
use crate::intrinsics::native::quotient::{
    lemma_above_quotient,
    lemma_digit_against_dividend,
    lemma_estimate_not_below,
    lemma_is_quotient,
    lemma_unnormalise,
};
use crate::intrinsics::native::shift::{
    funnel_shl,
    leading_zeros_word,
    lemma_pow2_split,
    lemma_shr_value,
    shl_words,
};
use crate::intrinsics::native::sub::{sub3, usubc};
use crate::intrinsics::native::wide_int_div_nonconst::{u128_by_u64_div_rem, u128_div_rem};
use crate::intrinsics::native::word::{
    half_base,
    high_half,
    join_halves,
    lemma_half_product_fits,
    low_half,
    mul_wide,
};
use crate::signed::{
    I256,
    magnitude,
    truncating_quotient,
    truncating_remainder,
    wrapped,
};
use crate::uint::{U256, value_of, wide_base, word_base};

verus! {

/// The first guess at a digit of a long division in base two to the power
/// 64: `rem` divided by the leading half of the divisor, or the greatest
/// digit where that quotient would not fit in half a word. With the guess
/// comes what it leaves of `rem`.
fn estimate_digit(rem: u128, div_high: u128) -> (r: (u128, u128))
    requires
        0x8000_0000_0000_0000 <= div_high < half_base(),
        rem / 0x1_0000_0000_0000_0000 <= div_high,
    ensures
        r.0 * div_high + r.1 == rem,
        r.0 < half_base(),
        r.1 < 2 * half_base(),
        r.0 == half_base() - 1 || r.0 == rem as nat / (div_high as nat),
{
    if high_half(rem) >= div_high {
        let quo: u128 = 0xFFFF_FFFF_FFFF_FFFFu128;
        (quo, rem - quo * div_high)
    } else {
        let (quo, rest) = u128_by_u64_div_rem(rem, div_high as u64);
        proof {
            lemma_fundamental_div_mod(rem as int, div_high as int);
            assert(quo * div_high == div_high * quo) by (nonlinear_arith);
        }
        (quo as u128, rest as u128)
    }
}

/// What a digit leaves of the dividend `rem * 2^64 + next`, where that is
/// not below zero and fits in a word.
fn digit_remainder(rem: u128, next: u128, quo: u128, div: u128) -> (left: u128)
    requires
        0 <= rem * half_base() + next - quo * div <= u128::MAX,
    ensures
        left == rem * half_base() + next - quo * div,
{
    let ghost scaled: int = rem * 0x1_0000_0000_0000_0000;
    let ghost taken: int = quo * div;
    proof {
        assert(0 <= scaled) by (nonlinear_arith)
            requires
                scaled == rem * 0x1_0000_0000_0000_0000,
        ;
        assert(0 <= taken) by (nonlinear_arith)
            requires
                taken == quo * div,
        ;
    }
    let dividend: u128 = rem.wrapping_mul(0x1_0000_0000_0000_0000u128).wrapping_add(next);
    let product: u128 = quo.wrapping_mul(div);
    dividend.wrapping_sub(product)
}

/// One digit of a long division in base two to the power 64: divides
/// `rem * 2^64 + next` by a divisor whose top bit is set, where `rem` is
/// below the divisor, and returns the digit and the new remainder.
///
/// The digit is estimated from the leading half of the divisor by a
/// division of a word by half a word, and lowered while its product with
/// the divisor is above the dividend.
#[verifier::rlimit(50)]
pub fn div_digit(rem: u128, next: u128, div: u128) -> (r: (u128, u128))
    requires
        div >= word_base() / 2,
        rem < div,
        next < half_base(),
    ensures
        r.0 == (rem as nat * half_base() + next as nat) / (div as nat),
        r.1 == (rem as nat * half_base() + next as nat) % (div as nat),
        r.0 < half_base(),
{
    let base: u128 = 0x1_0000_0000_0000_0000u128;
    let div_high: u128 = high_half(div);
    let div_low: u128 = low_half(div);
    let ghost n: nat = rem as nat * half_base() + next as nat;
    let ghost exact: nat = n / (div as nat);
    let (estimate, left) = estimate_digit(rem, div_high);
    let mut quo: u128 = estimate;
    let mut rest: u128 = left;
    proof {
        lemma_fundamental_div_mod(n as int, div as int);
        assert(exact * div == div * exact) by (nonlinear_arith);
        if quo == rem as nat / (div_high as nat) {
            lemma_estimate_not_below(
                exact,
                rem as nat,
                next as nat,
                div_high as nat,
                div_low as nat,
                half_base(),
            );
        } else if exact >= half_base() {
            assert(exact * div >= half_base() * div) by (nonlinear_arith)
                requires
                    exact >= half_base(),
            ;
            assert(false);
        }
        lemma_half_product_fits(quo, div_low);
    }
    while rest < base && quo * div_low > rest * base + next
        invariant
            base == half_base(),
            div == div_high * half_base() + div_low,
            div_low < half_base(),
            div_high < half_base(),
            next < half_base(),
            n == rem as nat * half_base() + next as nat,
            exact == n / (div as nat),
            div > 0,
            quo * div_high + rest == rem,
            exact <= quo < half_base(),
            rest < 2 * half_base(),
            quo * div_low <= 0xFFFF_FFFF_FFFF_FFFE_0000_0000_0000_0001,
        decreases quo,
    {
        proof {
            lemma_digit_against_dividend(
                quo as nat,
                rest as nat,
                rem as nat,
                next as nat,
                div_high as nat,
                div_low as nat,
                half_base(),
            );
            lemma_above_quotient(quo as nat, n, div as nat);
            assert((quo - 1) * div_high == quo * div_high - div_high) by (nonlinear_arith);
        }
        quo = quo - 1;
        rest = rest + div_high;
        proof {
            lemma_half_product_fits(quo, div_low);
        }
    }
    proof {
        lemma_digit_against_dividend(
            quo as nat,
            rest as nat,
            rem as nat,
            next as nat,
            div_high as nat,
            div_low as nat,
            half_base(),
        );
        if rest >= base {
            assert(rest * half_base() >= half_base() * half_base()) by (nonlinear_arith)
                requires
                    rest >= half_base(),
            ;
        }
        lemma_is_quotient(quo as nat, n, div as nat);
    }
    let new_rem: u128 = digit_remainder(rem, next, quo, div);
    (quo, new_rem)
}

/// Divides the double word `high:low` by the word `div` and returns the
/// quotient and the remainder.
///
/// `high` has to be below `div`: only then does the quotient fit in a word.
/// The operands are shifted left until the top bit of the divisor is set,
/// the two halves of the quotient are found one after the other, and the
/// remainder is shifted back.
#[verifier::rlimit(50)]
pub fn u256_by_u128_div_rem(high: u128, low: u128, div: u128) -> (r: (u128, u128))
    requires
        high < div,
    ensures
        r.0 == value_of(low, high) / (div as nat),
        r.1 == value_of(low, high) % (div as nat),
{
    let s: u32 = leading_zeros_word(div);
    let norm_div: u128 = funnel_shl(div, 0, s);
    let (norm_low, norm_high, _) = shl_words(high, low, s);
    let ghost n: nat = value_of(low, high);
    let ghost p: nat = pow2(s as nat);
    let ghost q: nat = pow2((128 - s) as nat);
    proof {
        lemma_pow2_split(s as nat);
        assert(div < q) by (nonlinear_arith)
            requires
                div * p < p * q,
                p > 0,
        ;
        lemma_small_mod(div as nat, q);
        lemma_basic_div(0, q as int);
        assert(norm_div == div * p);
        assert(n * p < norm_div * word_base()) by (nonlinear_arith)
            requires
                n < div * word_base(),
                norm_div == div * p,
                p > 0,
        {
            assert(n * p < (div * word_base()) * p);
        }
    }
    let top_digit: u128 = high_half(norm_low);
    let low_digit: u128 = low_half(norm_low);
    let (quo_high, rem_high) = div_digit(norm_high, top_digit, norm_div);
    let (quo_low, rem_low) = div_digit(rem_high, low_digit, norm_div);
    let quo: u128 = join_halves(quo_high, quo_low);
    let rem: u128 = rem_low >> s;
    proof {
        let nd: nat = norm_div as nat;
        lemma_fundamental_div_mod(norm_high * half_base() + top_digit, nd as int);
        lemma_fundamental_div_mod(rem_high * half_base() + low_digit, nd as int);
        lemma_mod_bound(rem_high * half_base() + low_digit, nd as int);
        let x1: int = nd * quo_high;
        let x0: int = nd * quo_low;
        assert(n * p == x1 * half_base() + x0 + rem_low);
        assert(quo * (div * p) == x1 * half_base() + x0) by (nonlinear_arith)
            requires
                quo == quo_high * half_base() + quo_low,
                nd == div * p,
                x1 == nd * quo_high,
                x0 == nd * quo_low,
        ;
        lemma_unnormalise(n, div as nat, p, quo as nat, rem_low as nat);
        lemma_shr_value(rem_low, s);
    }
    (quo, rem)
}

/// The product of a 256-bit integer and a word: its low 256 bits and the
/// word above them.
pub fn mul_word(a: &U256, k: u128) -> (r: (U256, u128))
    ensures
        r.0@ + r.1 * wide_base() == a@ * k,
{
    let (low, carry) = mul_wide(a.0[0], k);
    let (mid, top) = mul_wide(a.0[1], k);
    let high: u128 = mid.wrapping_add(carry);
    let ghost full: int = low + (mid + carry) * word_base() + top * wide_base();
    proof {
        assert(full == a@ * k) by (nonlinear_arith)
            requires
                low + carry * word_base() == a.0[0] * k,
                mid + top * word_base() == a.0[1] * k,
                a@ == a.0[0] + a.0[1] * word_base(),
                full == low + (mid + carry) * word_base() + top * (word_base() * word_base()),
        ;
        assert(a@ * k <= (wide_base() - 1) * (word_base() - 1)) by (nonlinear_arith)
            requires
                a@ <= wide_base() - 1,
                k <= word_base() - 1,
        ;
    }
    let over: u128 = if high < mid { top + 1 } else { top };
    (U256([low, high]), over)
}

/// Division by a divisor of one word: the high word of the dividend is
/// divided first, and what is left of it goes in front of the low word.
pub fn div_rem_by_word(a: &U256, div: u128) -> (r: (U256, U256))
    requires
        div != 0,
    ensures
        r.0@ == a@ / (div as nat),
        r.1@ == a@ % (div as nat),
{
    if a.0[1] == 0 {
        let (quo, rem) = u128_div_rem(a.0[0], div);
        (U256([quo, 0]), U256([rem, 0]))
    } else {
        let (quo_high, rem_high) = u128_div_rem(a.0[1], div);
        let (quo_low, rem) = u256_by_u128_div_rem(rem_high, a.0[0], div);
        proof {
            let d: int = div as int;
            lemma_fundamental_div_mod(a.0[1] as int, d);
            lemma_fundamental_div_mod(value_of(a.0[0], rem_high) as int, d);
            lemma_mod_bound(value_of(a.0[0], rem_high) as int, d);
            let x1: int = d * quo_high;
            let x0: int = d * quo_low;
            assert(a@ == x1 * word_base() + x0 + rem);
            assert((quo_low + quo_high * word_base()) * d == x1 * word_base() + x0)
                by (nonlinear_arith)
                requires
                    x1 == d * quo_high,
                    x0 == d * quo_low,
            ;
            lemma_fundamental_div_mod_converse(
                a@ as int,
                d,
                quo_low + quo_high * word_base(),
                rem as int,
            );
        }
        (U256([quo_low, quo_high]), U256([rem, 0]))
    }
}

/// Division by a divisor of two words. The quotient fits in one word. It is
/// estimated from the leading words of the operands, after both were shifted
/// left until the top bit of the divisor is set, and lowered while its
/// product with the divisor is above the dividend.
#[verifier::rlimit(50)]
pub fn div_rem_by_wide(a: &U256, b: &U256) -> (r: (U256, U256))
    requires
        b.0[1] != 0,
    ensures
        r.0@ == a@ / b@,
        r.1@ == a@ % b@,
{
    let s: u32 = leading_zeros_word(b.0[1]);
    let (div_rest, div_top, div_spilled) = shl_words(b.0[1], b.0[0], s);
    let (rest, mid, top) = shl_words(a.0[1], a.0[0], s);
    let ghost p: nat = pow2(s as nat);
    let ghost exact: nat = a@ / b@;
    proof {
        let q: nat = pow2((128 - s) as nat);
        lemma_pow2_split(s as nat);
        lemma_pow2_unfold((128 - s) as nat);
        lemma_pow2_pos((127 - s) as nat);
        let lead: nat = b.0[1] as nat * p;
        assert(b.0[1] + 1 <= q) by (nonlinear_arith)
            requires
                b.0[1] * p < p * q,
                p > 0,
        ;
        assert((b.0[1] + 1) * p <= word_base()) by (nonlinear_arith)
            requires
                b.0[1] + 1 <= q,
                p * q == word_base(),
        ;
        assert(b@ * p == b.0[0] * p + lead * word_base()) by (nonlinear_arith)
            requires
                b@ == b.0[0] + b.0[1] * word_base(),
                lead == b.0[1] * p,
        ;
        assert(b.0[0] * p < word_base() * p) by (nonlinear_arith)
            requires
                b.0[0] < word_base(),
                p > 0,
        ;
        assert((b.0[1] + 1) * p == lead + p) by (nonlinear_arith)
            requires
                lead == b.0[1] * p,
        ;
        assert(word_base() * p + lead * word_base() == (lead + p) * word_base())
            by (nonlinear_arith);
        assert((lead + p) * word_base() <= word_base() * word_base()) by (nonlinear_arith)
            requires
                lead + p <= word_base(),
        ;
        assert(div_spilled == 0);
        assert(div_top >= lead);
        assert(p <= word_base() / 2);
        lemma_fundamental_div_mod(a@ as int, b@ as int);
        assert(exact * (b@ * p) <= a@ * p) by (nonlinear_arith)
            requires
                a@ == b@ * exact + a@ % b@,
                a@ % b@ >= 0,
                p > 0,
        {
            assert(exact * (b@ * p) == (b@ * exact) * p);
        }
        assert(top * wide_base() == (top * word_base()) * word_base()) by (nonlinear_arith)
            requires
                wide_base() == word_base() * word_base(),
        ;
        lemma_estimate_not_below(
            exact,
            value_of(mid, top),
            rest as nat,
            div_top as nat,
            div_rest as nat,
            word_base(),
        );
    }
    let (estimate, _) = u256_by_u128_div_rem(top, mid, div_top);
    let mut quo: u128 = estimate;
    let (mut prod, mut over) = mul_word(b, quo);
    while over != 0 || prod.is_above(a)
        invariant
            prod@ + over * wide_base() == b@ * quo,
            exact == a@ / b@,
            exact <= quo,
            b@ > 0,
        decreases quo,
    {
        proof {
            assert(quo * b@ == b@ * quo) by (nonlinear_arith);
            lemma_above_quotient(quo as nat, a@, b@);
            assert(b@ * (quo - 1) == b@ * quo - b@) by (nonlinear_arith);
            assert(b@ * quo >= b@) by (nonlinear_arith)
                requires
                    quo >= 1,
            ;
        }
        quo = quo - 1;
        let prev: U256 = prod;
        let borrow: bool = usubc(&mut prod, &prev, b);
        if borrow {
            over = over - 1;
        }
    }
    let mut rem: U256 = U256([0, 0]);
    let _ = usubc(&mut rem, a, &prod);
    proof {
        assert(quo * b@ == b@ * quo) by (nonlinear_arith);
        lemma_is_quotient(quo as nat, a@, b@);
    }
    (U256([quo, 0]), rem)
}

/// The quotient and the remainder of `a` divided by `b`.
pub fn div_rem(a: &U256, b: &U256) -> (r: (U256, U256))
    requires
        b@ != 0,
    ensures
        r.0@ == a@ / b@,
        r.1@ == a@ % b@,
{
    if b.is_above(a) {
        proof {
            lemma_basic_div(a@ as int, b@ as int);
            lemma_small_mod(a@, b@);
        }
        (U256([0, 0]), *a)
    } else if b.0[1] == 0 {
        div_rem_by_word(a, b.0[0])
    } else {
        div_rem_by_wide(a, b)
    }
}

/// Writes the quotient of `a` divided by `b` into `res` and, where a slot
/// for it is given, the remainder into `rem`.
pub fn udivmod4(res: &mut U256, a: &U256, b: &U256, rem: Option<&mut U256>)
    requires
        b@ != 0,
    ensures
        final(res)@ == a@ / b@,
        match rem {
            Some(slot) => final(slot)@ == a@ % b@,
            None => true,
        },
{
    let (quo, left) = div_rem(a, b);
    *res = quo;
    match rem {
        Some(slot) => {
            *slot = left;
        },
        None => {},
    }
}

/// The magnitude of the signed integer with the bits of `x`: `x` itself, or
/// its two's-complement negation where the sign bit is set.
fn magnitude_of(x: &I256) -> (m: U256)
    ensures
        m@ == magnitude(x@),
{
    let bits: U256 = x.as_u256();
    if x.is_negative() {
        let mut m: U256 = U256([0, 0]);
        sub3(&mut m, &U256([0, 0]), &bits);
        m
    } else {
        bits
    }
}

/// The signed integer of magnitude `m`, below zero if `negative`, wrapped
/// into 256 bits.
fn with_sign(m: &U256, negative: bool) -> (x: I256)
    ensures
        x@ == wrapped(if negative { -(m@ as int) } else { m@ as int }),
{
    if negative {
        let mut bits: U256 = U256([0, 0]);
        sub3(&mut bits, &U256([0, 0]), m);
        I256::from_u256(&bits)
    } else {
        I256::from_u256(m)
    }
}

/// Writes the quotient of `a` divided by `b`, rounded toward zero, into
/// `res` and, where a slot for it is given, the remainder into `rem`.
///
/// The division is done on the magnitudes, and the signs are put back: the
/// quotient is below zero where the signs of the operands differ, the
/// remainder where the dividend is. The least integer divided by minus one
/// wraps around to the least integer.
pub fn idivmod4(res: &mut I256, a: &I256, b: &I256, rem: Option<&mut I256>)
    requires
        b@ != 0,
    ensures
        final(res)@ == wrapped(truncating_quotient(a@, b@)),
        match rem {
            Some(slot) => final(slot)@ == truncating_remainder(a@, b@),
            None => true,
        },
{
    let a_negative: bool = a.is_negative();
    let b_negative: bool = b.is_negative();
    let dividend: U256 = magnitude_of(a);
    let divisor: U256 = magnitude_of(b);
    let (quo, left) = div_rem(&dividend, &divisor);
    proof {
        lemma_mod_decreases(dividend@, divisor@);
        lemma_mod_bound(dividend@ as int, divisor@ as int);
    }
    *res = with_sign(&quo, a_negative != b_negative);
    match rem {
        Some(slot) => {
            *slot = with_sign(&left, a_negative);
        },
        None => {},
    }
}

} // verus!
