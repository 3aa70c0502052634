//! Shifts of machine words, stated as multiplication and division by powers
//! of two.

use vstd::prelude::*;
use vstd::arithmetic::power2::{
    pow2,
    lemma_pow2_pos,
    lemma_pow2_unfold,
    lemma_pow2_adds,
    lemma2_to64,
    lemma2_to64_rest,
};
use vstd::arithmetic::div_mod::{
    lemma_basic_div,
    lemma_fundamental_div_mod,
    lemma_fundamental_div_mod_converse,
    lemma_mod_bound,
    lemma_small_mod,
};
use vstd::bits::lemma_u128_shr_is_div;
use vstd::std_specs::bits::u64_leading_zeros;
use crate::intrinsics::native::word::{high_half, low_half};
use crate::uint::{value_of, wide_base, word_base};

verus! {

/// Two to the power 128 is the weight of the high word.
pub proof fn lemma_pow2_128()
    ensures
        pow2(128) == word_base(),
        pow2(64) == 0x1_0000_0000_0000_0000,
{
    lemma2_to64();
    lemma_pow2_adds(64, 64);
}

/// Two powers of two whose exponents add up to 128 multiply to the weight of
/// the high word.
pub proof fn lemma_pow2_split(s: nat)
    requires
        s <= 128,
    ensures
        pow2(s) * pow2((128 - s) as nat) == word_base(),
        pow2(s) > 0,
        pow2((128 - s) as nat) > 0,
{
    lemma_pow2_128();
    lemma_pow2_adds(s, (128 - s) as nat);
    lemma_pow2_pos(s);
    lemma_pow2_pos((128 - s) as nat);
}

/// A left shift that pushes no set bit out multiplies by a power of two.
pub proof fn lemma_shl_exact(x: u128, s: u32)
    requires
        s < 128,
        x * pow2(s as nat) <= u128::MAX,
    ensures
        x << s == x * pow2(s as nat),
    decreases s,
{
    if s == 0 {
        lemma2_to64();
        assert(x << 0u32 == x) by (bit_vector);
    } else {
        let t: u32 = (s - 1) as u32;
        lemma_pow2_unfold(s as nat);
        lemma_pow2_pos(t as nat);
        let p: int = pow2(t as nat) as int;
        assert(x * (2 * p) == 2 * (x * p)) by (nonlinear_arith);
        lemma_shl_exact(x, t);
        assert(x << s == 2 * (x << t)) by (bit_vector)
            requires
                0 < s < 128,
                t == s - 1,
                (x << t) <= 0x7FFF_FFFF_FFFF_FFFF_FFFF_FFFF_FFFF_FFFFu128,
        ;
    }
}

/// A right shift divides by a power of two.
pub proof fn lemma_shr_value(x: u128, s: u32)
    requires
        s < 128,
    ensures
        x >> s == x as nat / pow2(s as nat),
{
    lemma_u128_shr_is_div(x, s as u128);
    assert(x >> s == x >> (s as u128)) by (bit_vector)
        requires
            s < 128,
    ;
}

/// A left shift drops the bits it pushes out and multiplies the rest by a
/// power of two.
pub proof fn lemma_shl_value(x: u128, s: u32)
    requires
        s < 128,
    ensures
        x << s == (x as nat % pow2((128 - s) as nat)) * pow2(s as nat),
{
    lemma_pow2_split(s as nat);
    let q: nat = pow2((128 - s) as nat);
    let p: nat = pow2(s as nat);
    if s == 0 {
        lemma2_to64();
        assert(x << 0u32 == x) by (bit_vector);
        lemma_small_mod(x as nat, q);
    } else {
        let t: u32 = (128 - s) as u32;
        let c: u128 = x >> t;
        lemma_shr_value(x, t);
        lemma_fundamental_div_mod(x as int, q as int);
        lemma_mod_bound(x as int, q as int);
        let m: int = (x as int) % (q as int);
        assert(c * q == q * c) by (nonlinear_arith);
        assert(c * q <= u128::MAX);
        lemma_shl_exact(c, t);
        let kept: u128 = x & (0xFFFF_FFFF_FFFF_FFFF_FFFF_FFFF_FFFF_FFFFu128 >> s);
        assert(kept == x - ((x >> t) << t)) by (bit_vector)
            requires
                0 < s < 128,
                t == 128 - s,
                kept == x & (0xFFFF_FFFF_FFFF_FFFF_FFFF_FFFF_FFFF_FFFFu128 >> s),
        ;
        assert(kept == m);
        assert(x << s == kept << s) by (bit_vector)
            requires
                0 < s < 128,
                kept == x & (0xFFFF_FFFF_FFFF_FFFF_FFFF_FFFF_FFFF_FFFFu128 >> s),
        ;
        assert(m * p < q * p) by (nonlinear_arith)
            requires
                0 <= m < q,
                p > 0,
        ;
        assert(q * p == p * q) by (nonlinear_arith);
        lemma_shl_exact(kept, s);
    }
}

/// The bits that a left shift keeps and the bits that the matching right
/// shift brings down do not overlap.
pub proof fn lemma_or_is_sum(high: u128, low: u128, s: u32)
    requires
        0 < s < 128,
    ensures
        ((high << s) | (low >> ((128 - s) as u32))) == (high << s) + (low >> ((128 - s) as u32)),
{
    let t: u32 = (128 - s) as u32;
    assert(((high << s) | (low >> t)) == (high << s) + (low >> t)) by (bit_vector)
        requires
            0 < s < 128,
            t == 128 - s,
    ;
}

/// The high word of the double word `high:low` shifted left by `s` bits:
/// the bits of `high` that stay, followed by the top `s` bits of `low`.
pub open spec fn funnel(high: u128, low: u128, s: nat) -> nat {
    (high as nat % pow2((128 - s) as nat)) * pow2(s) + low as nat / pow2((128 - s) as nat)
}

/// The high word of the double word `high:low` shifted left by `s` bits.
pub fn funnel_shl(high: u128, low: u128, s: u32) -> (w: u128)
    requires
        s < 128,
    ensures
        w == funnel(high, low, s as nat),
{
    if s == 0 {
        proof {
            lemma_pow2_split(0);
            lemma2_to64();
            lemma_small_mod(high as nat, pow2(128));
            lemma_basic_div(low as int, pow2(128) as int);
        }
        high
    } else {
        let t: u32 = 128 - s;
        proof {
            lemma_shl_value(high, s);
            lemma_shr_value(low, t);
            lemma_or_is_sum(high, low, s);
        }
        (high << s) | (low >> t)
    }
}

/// Shifting a double word up by `s` bits, word by word: `p` and `q` are the
/// powers of two with exponents `s` and `128 - s`, and `w` is their product.
pub proof fn lemma_shift_up(low: nat, high: nat, p: nat, q: nat, w: nat)
    requires
        p * q == w,
        p > 0,
        q > 0,
    ensures
        (low % q) * p + ((high % q) * p + low / q) * w + (high / q) * w * w == (low + high * w) * p,
{
    lemma_fundamental_div_mod(low as int, q as int);
    lemma_fundamental_div_mod(high as int, q as int);
    let lq: int = (low / q) as int;
    let lr: int = (low % q) as int;
    let hq: int = (high / q) as int;
    let hr: int = (high % q) as int;
    assert(low * p == lq * w + lr * p) by (nonlinear_arith)
        requires
            low == q * lq + lr,
            p * q == w,
    ;
    assert(high * p == hq * w + hr * p) by (nonlinear_arith)
        requires
            high == q * hq + hr,
            p * q == w,
    ;
    assert((low + high * w) * p == low * p + (high * p) * w) by (nonlinear_arith);
    assert((hq * w + hr * p) * w == hq * w * w + (hr * p) * w) by (nonlinear_arith);
    assert((hr * p + lq) * w == (hr * p) * w + lq * w) by (nonlinear_arith);
}

/// Shifting a double word down by `s` bits, word by word: `p` and `q` are
/// the powers of two with exponents `s` and `128 - s`, and `w` is their
/// product.
pub proof fn lemma_shift_down(low: nat, high: nat, p: nat, q: nat, w: nat)
    requires
        p * q == w,
        p > 0,
        q > 0,
    ensures
        (high % p) * q + low / p + (high / p) * w == (low + high * w) / p,
{
    lemma_fundamental_div_mod(low as int, p as int);
    lemma_fundamental_div_mod(high as int, p as int);
    lemma_mod_bound(low as int, p as int);
    let lq: int = (low / p) as int;
    let lr: int = (low % p) as int;
    let hq: int = (high / p) as int;
    let hr: int = (high % p) as int;
    let k: int = hr * q + lq + hq * w;
    assert(low + high * w == k * p + lr) by (nonlinear_arith)
        requires
            low == p * lq + lr,
            high == p * hq + hr,
            p * q == w,
            k == hr * q + lq + hq * w,
    ;
    lemma_fundamental_div_mod_converse((low + high * w) as int, p as int, k, lr);
}

/// The double word `high:low` shifted left by `s` bits: the low word, the
/// high word, and the bits pushed out of the high word.
pub fn shl_words(high: u128, low: u128, s: u32) -> (r: (u128, u128, u128))
    requires
        s < 128,
    ensures
        value_of(r.0, r.1) + r.2 * word_base() * word_base() == value_of(low, high) * pow2(
            s as nat,
        ),
        r.2 < pow2(s as nat),
{
    let kept_low: u128 = funnel_shl(low, 0, s);
    let kept_high: u128 = funnel_shl(high, low, s);
    let spilled: u128 = funnel_shl(0, high, s);
    proof {
        let p: nat = pow2(s as nat);
        let q: nat = pow2((128 - s) as nat);
        lemma_pow2_split(s as nat);
        lemma_shift_up(low as nat, high as nat, p, q, word_base());
        lemma_small_mod(0, q);
        lemma_basic_div(0, q as int);
        assert(0nat * p == 0);
        assert((high as nat / q) < p) by (nonlinear_arith)
            requires
                p * q == 0x1_0000_0000_0000_0000_0000_0000_0000_0000,
                high < 0x1_0000_0000_0000_0000_0000_0000_0000_0000,
                q > 0,
        {
            assert(high as nat >= (high as nat / q) * q);
        }
    }
    (kept_low, kept_high, spilled)
}

/// The double word `high:low` shifted right by `s` bits: the low word and
/// the high word.
pub fn shr_words(high: u128, low: u128, s: u32) -> (r: (u128, u128))
    requires
        s < 128,
    ensures
        value_of(r.0, r.1) == value_of(low, high) / pow2(s as nat),
{
    if s == 0 {
        proof {
            lemma2_to64();
            assert(pow2(0) == 1);
        }
        (low, high)
    } else {
        let t: u32 = 128 - s;
        let kept_low: u128 = funnel_shl(high, low, t);
        let kept_high: u128 = funnel_shl(0, high, t);
        proof {
            let p: nat = pow2(s as nat);
            let q: nat = pow2(t as nat);
            lemma_pow2_split(s as nat);
            lemma_shift_down(low as nat, high as nat, p, q, word_base());
            lemma_small_mod(0, p);
            assert(0nat * q == 0);
            assert(kept_low == (high as nat % p) * q + low as nat / p);
            assert(kept_high == high as nat / p);
        }
        (kept_low, kept_high)
    }
}

/// A 64-bit number other than zero lies between the two powers of two that
/// its count of leading zeros names.
pub proof fn lemma_leading_zeros_bounds(i: u64)
    requires
        i != 0,
    ensures
        0 <= u64_leading_zeros(i) <= 63,
        pow2((63 - u64_leading_zeros(i)) as nat) <= i < pow2((64 - u64_leading_zeros(i)) as nat),
    decreases i,
{
    reveal(u64_leading_zeros);
    lemma2_to64();
    if i == 1 {
        assert(u64_leading_zeros(0) == 64);
        assert(u64_leading_zeros(1) == 63);
    } else {
        let j: u64 = i / 2;
        lemma_leading_zeros_bounds(j);
        let lj: int = u64_leading_zeros(j);
        lemma2_to64_rest();
        lemma_pow2_unfold((64 - lj) as nat);
        if lj == 0 {
            assert(false);
        }
        lemma_pow2_unfold((65 - lj) as nat);
    }
}

/// A number whose top 64 bits `top` have `n` leading zeros reaches the top
/// bit of a word when it is shifted up by `n` bits.
pub proof fn lemma_normalised(x: nat, top: nat, n: nat)
    requires
        n <= 63,
        pow2((63 - n) as nat) <= top < pow2((64 - n) as nat),
        top * pow2(64) <= x < (top + 1) * pow2(64),
    ensures
        word_base() / 2 <= x * pow2(n) < word_base(),
{
    lemma2_to64();
    lemma2_to64_rest();
    let p: nat = pow2(n);
    let b: nat = pow2(64);
    lemma_pow2_pos(n);
    lemma_pow2_adds((63 - n) as nat, n);
    lemma_pow2_adds((64 - n) as nat, n);
    let lo: nat = pow2((63 - n) as nat);
    let hi: nat = pow2((64 - n) as nat);
    assert(x * p >= 0x8000_0000_0000_0000 * b) by (nonlinear_arith)
        requires
            x >= top * b,
            top >= lo,
            lo * p == 0x8000_0000_0000_0000,
    {
        assert(top * p >= lo * p);
        assert(x * p >= (top * b) * p);
        assert((top * b) * p == (top * p) * b);
    }
    assert(x * p < 0x1_0000_0000_0000_0000 * b) by (nonlinear_arith)
        requires
            x < (top + 1) * b,
            top + 1 <= hi,
            hi * p == 0x1_0000_0000_0000_0000,
            p > 0,
    {
        assert((top + 1) * p <= hi * p);
        assert(x * p < ((top + 1) * b) * p);
        assert(((top + 1) * b) * p == ((top + 1) * p) * b);
    }
}

/// The number of leading zero bits of a word: the shift that brings the top
/// set bit of `x` to the top of the word.
pub fn leading_zeros_word(x: u128) -> (n: u32)
    ensures
        n <= 128,
        (x == 0) == (n == 128),
        x != 0 ==> word_base() / 2 <= x * pow2(n as nat) < word_base(),
{
    let high: u64 = high_half(x) as u64;
    let low: u64 = low_half(x) as u64;
    proof {
        lemma2_to64();
    }
    if high != 0 {
        let n: u32 = high.leading_zeros();
        proof {
            lemma_leading_zeros_bounds(high);
            lemma_normalised(x as nat, high as nat, n as nat);
        }
        n
    } else if low != 0 {
        let n: u32 = low.leading_zeros();
        proof {
            lemma_leading_zeros_bounds(low);
            lemma_normalised(x as nat * pow2(64), low as nat, n as nat);
            lemma_pow2_adds(64, n as nat);
            assert(x * pow2(64 + n as nat) == (x as nat * pow2(64)) * pow2(n as nat))
                by (nonlinear_arith)
                requires
                    pow2(64 + n as nat) == pow2(64) * pow2(n as nat),
            ;
        }
        64 + n
    } else {
        128
    }
}

/// A 256-bit number shifted left by fewer than 128 bits, modulo two to the
/// power 256, word by word: what stays of the low word, and above it what
/// stays of the high word followed by the top bits of the low word.
pub proof fn lemma_shl_within_word(low: u128, high: u128, s: nat)
    requires
        s < 128,
    ensures
        (value_of(low, high) * pow2(s)) % wide_base() == (low as nat % pow2((128 - s) as nat))
            * pow2(s) + funnel(high, low, s) * word_base(),
        (low as nat % pow2((128 - s) as nat)) * pow2(s) < word_base(),
        funnel(high, low, s) < word_base(),
{
    let p: nat = pow2(s);
    let q: nat = pow2((128 - s) as nat);
    lemma_pow2_split(s);
    lemma_shift_up(low as nat, high as nat, p, q, word_base());
    lemma_mod_bound(low as int, q as int);
    lemma_mod_bound(high as int, q as int);
    let kept: nat = (low as nat % q) * p;
    let m: nat = (high as nat % q) * p;
    assert(kept < word_base()) by (nonlinear_arith)
        requires
            kept == (low as nat % q) * p,
            low as nat % q < q,
            p * q == word_base(),
            p > 0,
    {
        assert((low as nat % q) * p < q * p);
    }
    assert(m + p <= word_base()) by (nonlinear_arith)
        requires
            m == (high as nat % q) * p,
            high as nat % q < q,
            p * q == word_base(),
    {
        assert((high as nat % q + 1) * p <= q * p);
    }
    assert(low as nat / q < p) by (nonlinear_arith)
        requires
            p * q == word_base(),
            low < word_base(),
            q > 0,
    {
        assert(low as nat >= (low as nat / q) * q);
    }
    let top: nat = high as nat / q;
    assert(top * word_base() * word_base() == top * wide_base()) by (nonlinear_arith)
        requires
            wide_base() == word_base() * word_base(),
    ;
    lemma_fundamental_div_mod_converse(
        (value_of(low, high) * p) as int,
        wide_base() as int,
        top as int,
        (kept + funnel(high, low, s) * word_base()) as int,
    );
}

/// A 256-bit number shifted left by `t + 128` bits, modulo two to the power
/// 256: what stays of the low word, as the high word.
pub proof fn lemma_shl_beyond_word(low: u128, high: u128, t: nat)
    requires
        t < 128,
    ensures
        (value_of(low, high) * pow2(t + 128)) % wide_base() == funnel(low, 0, t) * word_base(),
        funnel(low, 0, t) < word_base(),
{
    let p: nat = pow2(t);
    let q: nat = pow2((128 - t) as nat);
    lemma_pow2_split(t);
    lemma_pow2_128();
    lemma_pow2_adds(t, 128);
    lemma_shl_within_word(low, high, t);
    lemma_shift_up(low as nat, high as nat, p, q, word_base());
    lemma_basic_div(0, q as int);
    let kept: nat = (low as nat % q) * p;
    assert(funnel(low, 0, t) == kept);
    let rest: nat = funnel(high, low, t) + (high as nat / q) * word_base();
    let a: nat = value_of(low, high);
    assert(a * p == kept + rest * word_base()) by (nonlinear_arith)
        requires
            kept + funnel(high, low, t) * word_base() + (high as nat / q) * word_base()
                * word_base() == a * p,
            rest == funnel(high, low, t) + (high as nat / q) * word_base(),
    ;
    assert(a * pow2(t + 128) == rest * wide_base() + kept * word_base()) by (nonlinear_arith)
        requires
            a * p == kept + rest * word_base(),
            pow2(t + 128) == p * word_base(),
            wide_base() == word_base() * word_base(),
    {
        assert(a * (p * word_base()) == (a * p) * word_base());
    }
    lemma_fundamental_div_mod_converse(
        (a * pow2(t + 128)) as int,
        wide_base() as int,
        rest as int,
        (kept * word_base()) as int,
    );
}

} // verus!
