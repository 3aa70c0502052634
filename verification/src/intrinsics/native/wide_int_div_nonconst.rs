//! Division by a divisor that is only known when the call is made.

use vstd::prelude::*;
use vstd::arithmetic::div_mod::{lemma_fundamental_div_mod, lemma_mod_bound};
use vstd::arithmetic::power2::{pow2, lemma_pow2_adds, lemma_pow2_pos, lemma2_to64, lemma2_to64_rest};
use vstd::bits::{lemma_u64_shl_is_mul, lemma_u64_shr_is_div};
use crate::intrinsics::native::quotient::{
    lemma_above_quotient,
    lemma_digit_against_dividend,
    lemma_estimate_not_below,
    lemma_is_quotient,
    lemma_unnormalise,
};
use crate::intrinsics::native::shift::{lemma_leading_zeros_bounds, lemma_shl_exact};
use crate::intrinsics::native::wide_int_div::u64_by_u64_div_rem;
use crate::intrinsics::native::word::{half_base, high_half, low_half};

verus! {


/// Calls `specialized_div_rem::u128_div_rem_asymmetric`, which builds the
/// full division out of divisions of a double word by a single word.
/// Trusted: for a divisor other than zero it returns the quotient and the
/// remainder of the unsigned division; on a zero divisor it panics, so that
/// is ruled out.
#[verifier::external_body]
fn u128_div_rem_asymmetric(duo: u128, div: u128) -> (r: (u128, u128))
    requires
        div != 0,
    ensures
        r.0 == duo / div,
        r.1 == duo % div,
{
    specialized_div_rem::u128_div_rem_asymmetric(duo, div)
}

/// Divides `duo` by `div` and returns the quotient and the remainder.
pub fn u128_div_rem(duo: u128, div: u128) -> (r: (u128, u128))
    requires
        div != 0,
    ensures
        r.0 == duo / div,
        r.1 == duo % div,
{
    u128_div_rem_asymmetric(duo, div)
}

/// Two to the power 32: the weight of the high half of a single word.
pub open spec fn quarter_base() -> nat {
    0x1_0000_0000
}

/// What a digit leaves of the dividend `rem * 2^32 + next`, where that is
/// not below zero and fits in a word.
fn half_digit_remainder(rem: u64, next: u64, quo: u64, div: u64) -> (left: u64)
    requires
        0 <= rem * quarter_base() + next - quo * div <= u64::MAX,
    ensures
        left == rem * quarter_base() + next - quo * div,
{
    let ghost scaled: int = rem * 0x1_0000_0000;
    let ghost taken: int = quo * div;
    proof {
        assert(0 <= scaled) by (nonlinear_arith)
            requires
                scaled == rem * 0x1_0000_0000,
        ;
        assert(0 <= taken) by (nonlinear_arith)
            requires
                taken == quo * div,
        ;
    }
    let dividend: u64 = rem.wrapping_mul(0x1_0000_0000u64).wrapping_add(next);
    let product: u64 = quo.wrapping_mul(div);
    dividend.wrapping_sub(product)
}

/// The quotient of a word below the normalised divisor and the leading half
/// of that divisor is at most two above the greatest digit.
pub proof fn lemma_estimate_bound(quo: nat, rest: nat, rem: nat, div_high: nat, base: nat)
    requires
        quo * div_high + rest == rem,
        rem < (div_high + 1) * base,
        2 * div_high >= base,
    ensures
        quo <= base + 1,
{
    if quo >= base + 2 {
        assert(quo * div_high >= (base + 2) * div_high) by (nonlinear_arith)
            requires
                quo >= base + 2,
        ;
        assert((base + 2) * div_high == base * div_high + 2 * div_high) by (nonlinear_arith);
        assert((div_high + 1) * base == base * div_high + base) by (nonlinear_arith);
    }
}

/// A digit that does not fit in half a word leaves less than half a word of
/// the leading part of the dividend.
pub proof fn lemma_overflowing_digit(quo: nat, rest: nat, rem: nat, div_high: nat, base: nat)
    requires
        quo * div_high + rest == rem,
        rem < (div_high + 1) * base,
        quo >= base,
    ensures
        rest < base,
{
    assert(quo * div_high >= base * div_high) by (nonlinear_arith)
        requires
            quo >= base,
    ;
    assert((div_high + 1) * base == base * div_high + base) by (nonlinear_arith);
}

/// One digit of a long division in base two to the power 32: divides
/// `rem * 2^32 + next` by a divisor whose top bit is set, where `rem` is
/// below the divisor, and returns the digit and the new remainder.
///
/// The digit is estimated by a division of single words, of `rem` by the
/// leading half of the divisor, and lowered while it does not fit in half a
/// word or its product with the divisor is above the dividend.
#[verifier::rlimit(50)]
pub fn div_half_digit(rem: u64, next: u64, div: u64) -> (r: (u64, u64))
    requires
        div >= 0x8000_0000_0000_0000,
        rem < div,
        next < quarter_base(),
    ensures
        r.0 == (rem as nat * quarter_base() + next as nat) / (div as nat),
        r.1 == (rem as nat * quarter_base() + next as nat) % (div as nat),
        r.0 < quarter_base(),
{
    let base: u64 = 0x1_0000_0000u64;
    let div_high: u64 = div / base;
    let div_low: u64 = div % base;
    let ghost n: nat = rem as nat * quarter_base() + next as nat;
    let ghost exact: nat = n / (div as nat);
    let (estimate, left) = u64_by_u64_div_rem(rem, div_high);
    let mut quo: u64 = estimate;
    let mut rest: u64 = left;
    proof {
        lemma_fundamental_div_mod(rem as int, div_high as int);
        lemma_fundamental_div_mod(n as int, div as int);
        assert(exact * div == div * exact) by (nonlinear_arith);
        assert(quo * div_high == div_high * quo) by (nonlinear_arith);
        lemma_estimate_not_below(
            exact,
            rem as nat,
            next as nat,
            div_high as nat,
            div_low as nat,
            quarter_base(),
        );
        if exact >= quarter_base() {
            assert(exact * div >= quarter_base() * div) by (nonlinear_arith)
                requires
                    exact >= quarter_base(),
            ;
            assert(false);
        }
        lemma_estimate_bound(
            quo as nat,
            rest as nat,
            rem as nat,
            div_high as nat,
            quarter_base(),
        );
        lemma_digit_product_fits(quo, div_low);
    }
    while rest < base && (quo >= base || quo * div_low > rest * base + next)
        invariant
            base == quarter_base(),
            div == div_high * quarter_base() + div_low,
            div_high < quarter_base(),
            div_low < quarter_base(),
            next < quarter_base(),
            n == rem as nat * quarter_base() + next as nat,
            exact == n / (div as nat),
            exact < quarter_base(),
            div > 0,
            rem < div,
            quo * div_high + rest == rem,
            exact <= quo <= quarter_base() + 1,
            rest < 2 * quarter_base(),
            quo * div_low <= 0xFFFF_FFFF_FFFF_FFFF,
        decreases quo,
    {
        proof {
            if quo < base {
                lemma_digit_against_dividend(
                    quo as nat,
                    rest as nat,
                    rem as nat,
                    next as nat,
                    div_high as nat,
                    div_low as nat,
                    quarter_base(),
                );
                lemma_above_quotient(quo as nat, n, div as nat);
            }
            assert((quo - 1) * div_high == quo * div_high - div_high) by (nonlinear_arith);
        }
        quo = quo - 1;
        rest = rest + div_high;
        proof {
            lemma_digit_product_fits(quo, div_low);
        }
    }
    proof {
        if quo >= base {
            lemma_overflowing_digit(
                quo as nat,
                rest as nat,
                rem as nat,
                div_high as nat,
                quarter_base(),
            );
        }
        lemma_digit_against_dividend(
            quo as nat,
            rest as nat,
            rem as nat,
            next as nat,
            div_high as nat,
            div_low as nat,
            quarter_base(),
        );
        if rest >= base {
            assert(rest * quarter_base() >= quarter_base() * quarter_base())
                by (nonlinear_arith)
                requires
                    rest >= quarter_base(),
            ;
            assert(quo * div_low <= quarter_base() * quarter_base()) by (nonlinear_arith)
                requires
                    quo <= quarter_base(),
                    div_low <= quarter_base(),
            ;
        }
        lemma_is_quotient(quo as nat, n, div as nat);
    }
    let new_rem: u64 = half_digit_remainder(rem, next, quo, div);
    (quo, new_rem)
}

/// The product of an estimated digit and half a word fits in a word.
pub proof fn lemma_digit_product_fits(quo: u64, low: u64)
    requires
        quo <= quarter_base() + 1,
        low < quarter_base(),
    ensures
        quo * low <= 0xFFFF_FFFF_FFFF_FFFF,
{
    assert(quo * low <= 0x1_0000_0001 * 0xFFFF_FFFF) by (nonlinear_arith)
        requires
            quo <= 0x1_0000_0001,
            low <= 0xFFFF_FFFF,
    ;
}

/// Divides the double word `duo` by the single word `div` and returns the
/// quotient and the remainder.
///
/// The high half of `duo` has to be below `div`: only then does the quotient
/// fit in a single word. The division is put together from two divisions of
/// single words, one for each half of the quotient, after the operands were
/// shifted left until the top bit of the divisor is set; the remainder is
/// shifted back.
#[verifier::rlimit(50)]
pub fn u128_by_u64_div_rem(duo: u128, div: u64) -> (r: (u64, u64))
    requires
        div != 0,
        duo / 0x1_0000_0000_0000_0000 < div,
    ensures
        r.0 == duo / (div as u128),
        r.1 == duo % (div as u128),
{
    let s: u32 = div.leading_zeros();
    let ghost p: nat = pow2(s as nat);
    proof {
        lemma_leading_zeros_bounds(div);
        lemma2_to64();
        lemma2_to64_rest();
        lemma_pow2_pos(s as nat);
        lemma_pow2_adds((63 - s) as nat, s as nat);
        lemma_pow2_adds((64 - s) as nat, s as nat);
        assert(0x8000_0000_0000_0000 <= div * p < 0x1_0000_0000_0000_0000) by (nonlinear_arith)
            requires
                pow2((63 - s) as nat) <= div < pow2((64 - s) as nat),
                pow2((63 - s) as nat) * p == 0x8000_0000_0000_0000,
                pow2((64 - s) as nat) * p == 0x1_0000_0000_0000_0000,
                p > 0,
        {
            assert(pow2((63 - s) as nat) * p <= div * p);
            assert((div + 1) * p <= pow2((64 - s) as nat) * p);
        }
        assert(duo * p < (div * p) * half_base()) by (nonlinear_arith)
            requires
                duo < div * half_base(),
                p > 0,
        {
            assert(duo * p < (div * half_base()) * p);
        }
        lemma_u64_shl_is_mul(div, s as u64);
        assert(div << s == div << (s as u64)) by (bit_vector)
            requires
                s < 64,
        ;
        lemma_shl_exact(duo, s);
    }
    let norm_div: u64 = div << s;
    let norm_duo: u128 = duo << s;
    let top: u64 = high_half(norm_duo) as u64;
    let low: u64 = low_half(norm_duo) as u64;
    let (quo_high, rem_high) = div_half_digit(top, low / 0x1_0000_0000u64, norm_div);
    let (quo_low, rem_low) = div_half_digit(rem_high, low % 0x1_0000_0000u64, norm_div);
    let quo: u64 = quo_high * 0x1_0000_0000u64 + quo_low;
    let rem: u64 = rem_low >> s;
    proof {
        let nd: int = norm_div as int;
        let high_digit: int = (low / 0x1_0000_0000u64) as int;
        let low_digit: int = (low % 0x1_0000_0000u64) as int;
        lemma_fundamental_div_mod(top * quarter_base() + high_digit, nd);
        lemma_fundamental_div_mod(rem_high * quarter_base() + low_digit, nd);
        lemma_mod_bound(rem_high * quarter_base() + low_digit, nd);
        let x1: int = nd * quo_high;
        let x0: int = nd * quo_low;
        assert(duo * p == x1 * quarter_base() + x0 + rem_low);
        assert(quo * (div * p) == x1 * quarter_base() + x0) by (nonlinear_arith)
            requires
                quo == quo_high * quarter_base() + quo_low,
                nd == div * p,
                x1 == nd * quo_high,
                x0 == nd * quo_low,
        ;
        lemma_unnormalise(duo as nat, div as nat, p, quo as nat, rem_low as nat);
        lemma_u64_shr_is_div(rem_low, s as u64);
        assert(rem_low >> s == rem_low >> (s as u64)) by (bit_vector)
            requires
                s < 64,
        ;
    }
    (quo, rem)
}

} // verus!
