//! What the division algorithms rest on: bounds on a quotient that was
//! estimated from the leading parts of the operands.

use vstd::prelude::*;
use vstd::arithmetic::div_mod::{
    lemma_div_by_multiple,
    lemma_fundamental_div_mod,
    lemma_fundamental_div_mod_converse,
};

verus! {

/// A quotient is not above the quotient of the leading parts: if `quo`
/// times the divisor `div_top * base + div_low` is at most the dividend
/// `top * base + low`, then `quo` is at most `top / div_top`.
pub proof fn lemma_estimate_not_below(
    quo: nat,
    top: nat,
    low: nat,
    div_top: nat,
    div_low: nat,
    base: nat,
)
    requires
        quo * (div_top * base + div_low) <= top * base + low,
        low < base,
        div_top > 0,
    ensures
        quo <= top / div_top,
{
    assert(quo * div_top <= top) by (nonlinear_arith)
        requires
            quo * (div_top * base + div_low) <= top * base + low,
            low < base,
    {
        assert(quo * (div_top * base + div_low) == (quo * div_top) * base + quo * div_low);
        assert((quo * div_top) * base < (top + 1) * base);
    }
    lemma_fundamental_div_mod(top as int, div_top as int);
    assert(quo <= top / div_top) by (nonlinear_arith)
        requires
            quo * div_top <= top,
            top == div_top * (top / div_top) + top % div_top,
            top % div_top < div_top,
            div_top > 0,
    {
        if quo > top / div_top {
            assert(quo * div_top >= (top / div_top + 1) * div_top);
        }
    }
}

/// By how much the product of a digit and the divisor is above the
/// dividend: by as much as the product of the digit and the low half of the
/// divisor is above what the digit leaves of the leading part of the
/// dividend, followed by the next digit of the dividend.
pub proof fn lemma_digit_against_dividend(
    quo: nat,
    rest: nat,
    rem: nat,
    next: nat,
    div_high: nat,
    div_low: nat,
    base: nat,
)
    requires
        quo * div_high + rest == rem,
    ensures
        quo * (div_high * base + div_low) - (rem * base + next) == quo * div_low - (rest * base
            + next),
{
    assert(quo * (div_high * base + div_low) == (quo * div_high) * base + quo * div_low)
        by (nonlinear_arith);
    assert((quo * div_high + rest) * base == (quo * div_high) * base + rest * base)
        by (nonlinear_arith);
}

/// A number whose product with the divisor is above the dividend is above
/// the quotient.
pub proof fn lemma_above_quotient(quo: nat, n: nat, div: nat)
    requires
        div > 0,
        quo * div > n,
    ensures
        quo > n / div,
{
    lemma_fundamental_div_mod(n as int, div as int);
    assert(quo > n / div) by (nonlinear_arith)
        requires
            quo * div > n,
            n == div * (n / div) + n % div,
            n % div >= 0,
            div > 0,
    {
        if quo <= n / div {
            assert(quo * div <= (n / div) * div);
        }
    }
}

/// A number that is not below the quotient, and whose product with the
/// divisor is not above the dividend, is the quotient.
pub proof fn lemma_is_quotient(quo: nat, n: nat, div: nat)
    requires
        div > 0,
        quo * div <= n,
        n / div <= quo,
    ensures
        quo == n / div,
        n - quo * div == n % div,
{
    lemma_fundamental_div_mod(n as int, div as int);
    assert(quo <= n / div) by (nonlinear_arith)
        requires
            quo * div <= n,
            n == div * (n / div) + n % div,
            n % div < div,
            div > 0,
    {
        if quo > n / div {
            assert(quo * div >= (n / div + 1) * div);
        }
    }
    assert(quo * div == div * quo) by (nonlinear_arith);
}

/// The quotient and the remainder of operands that were both multiplied by
/// `p` give those of the operands themselves: the quotient as it is, the
/// remainder divided by `p`.
pub proof fn lemma_unnormalise(n: nat, div: nat, p: nat, quo: nat, rem: nat)
    requires
        p > 0,
        div > 0,
        n * p == quo * (div * p) + rem,
        rem < div * p,
    ensures
        quo == n / div,
        rem / p == n % div,
{
    let r: int = n - quo * div;
    assert(rem == r * p) by (nonlinear_arith)
        requires
            n * p == quo * (div * p) + rem,
            r == n - quo * div,
    ;
    assert(0 <= r < div) by (nonlinear_arith)
        requires
            rem == r * p,
            0 <= rem < div * p,
            p > 0,
    ;
    lemma_div_by_multiple(r, p as int);
    lemma_fundamental_div_mod_converse(n as int, div as int, quo as int, r);
}

} // verus!
