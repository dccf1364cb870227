//! Reading a decimal number as the single precision number nearest to it.
//!
//! A number is written as an optional sign, digits with an optional point
//! among them, and an optional exponent: `e` or `E`, an optional sign and
//! digits. At least one digit stands before or after the point. The words
//! `inf`, `infinity` and `nan`, in any case, with an optional sign, are
//! numbers too.

use crate::arith::{lemma_approximates_powers, signed_bits};
use crate::bignat::{lemma_weight_step, weight_of, BigNat, Leading};
use crate::ieee::{
    lemma_round_nearest_is, lemma_rounding_exists, lemma_scaled_increases, lemma_scaled_pack,
    nearest, round_nearest, scaled, with_sign, HIDDEN_BIT, INFINITY, QUIET_NAN,
};
use crate::pack::{
    approximates, down_scale, lemma_below_half_rounds, lemma_scales_positive, pow2_u64,
    round_pack, up_scale,
};
use vstd::arithmetic::power2::*;
use vstd::prelude::*;

verus! {

/// `b` to the `k`.
pub open spec fn power(b: nat, k: nat) -> nat
    decreases k,
{
    if k == 0 {
        1
    } else {
        b * power(b, (k - 1) as nat)
    }
}

/// A power to a sum of exponents is the product of the powers.
pub proof fn lemma_power_adds(b: nat, i: nat, j: nat)
    ensures
        power(b, i + j) == power(b, i) * power(b, j),
    decreases i,
{
    if i == 0 {
        assert(1 * power(b, j) == power(b, j));
    } else {
        lemma_power_adds(b, (i - 1) as nat, j);
        assert(b * (power(b, (i - 1) as nat) * power(b, j)) == (b * power(b, (i - 1) as nat))
            * power(b, j)) by (nonlinear_arith);
    }
}

/// A power of a positive number is positive.
pub proof fn lemma_power_positive(b: nat, k: nat)
    requires
        b > 0,
    ensures
        power(b, k) > 0,
    decreases k,
{
    if k > 0 {
        lemma_power_positive(b, (k - 1) as nat);
        assert(b * power(b, (k - 1) as nat) > 0) by (nonlinear_arith)
            requires
                b > 0,
                power(b, (k - 1) as nat) > 0,
        ;
    }
}

/// A power of a positive number does not shrink as the exponent grows.
pub proof fn lemma_power_increases(b: nat, i: nat, j: nat)
    requires
        b > 0,
        i <= j,
    ensures
        power(b, i) <= power(b, j),
{
    lemma_power_adds(b, i, (j - i) as nat);
    lemma_power_positive(b, (j - i) as nat);
    lemma_power_positive(b, i);
    assert(power(b, i) * power(b, (j - i) as nat) >= power(b, i)) by (nonlinear_arith)
        requires
            power(b, (j - i) as nat) >= 1,
    ;
}

/// Ten to the `k` is five to the `k` times two to the `k`.
pub proof fn lemma_power_of_ten(k: nat)
    ensures
        power(10, k) == power(5, k) * pow2(k),
    decreases k,
{
    lemma2_to64();
    if k > 0 {
        lemma_power_of_ten((k - 1) as nat);
        lemma_pow2_unfold(k);
        let f: nat = power(5, (k - 1) as nat);
        let t: nat = pow2((k - 1) as nat);
        assert(power(10, k) == 10 * (f * t));
        assert(power(5, k) == 5 * f);
        assert(10 * (f * t) == (5 * f) * (2 * t)) by (nonlinear_arith);
    } else {
        assert(power(5, 0) * pow2(0) == 1);
    }
}

/// Ten to the 39th exceeds two to the 128th, and two to the 150th stays
/// below ten to the 46th.
pub proof fn lemma_decimal_limits()
    ensures
        power(10, 39) >= pow2(128),
        pow2(150) <= power(10, 46),
{
    lemma2_to64();
    lemma_pow2_adds(64, 64);
    lemma_pow2_adds(128, 22);
    reveal_with_fuel(power, 47);
    assert(power(10, 39) == 1_000_000_000_000_000_000_000_000_000_000_000_000_000);
    assert(power(10, 46) == 10_000_000_000_000_000_000_000_000_000_000_000_000_000_000_000);
    assert(pow2(128) == 0x1_0000_0000_0000_0000 * 0x1_0000_0000_0000_0000);
    assert(pow2(150) == pow2(128) * 0x40_0000);
}

/// The single precision magnitude nearest to `digits * 10^exponent`.
pub open spec fn rounded(digits: nat, exponent: int) -> u32 {
    if exponent >= 0 {
        round_nearest(digits * power(10, exponent as nat) * pow2(149), 1)
    } else {
        round_nearest(digits * pow2(149), power(10, (-exponent) as nat))
    }
}

/// A quantity at or beyond two to the 128th rounds to infinity.
pub proof fn lemma_huge_rounds(n: nat, d: nat)
    requires
        d > 0,
        n >= pow2(277) * d,
    ensures
        round_nearest(n, d) == INFINITY,
{
    lemma2_to64();
    lemma_scaled_pack(253, 0x100_0000);
    lemma_pow2_adds(24, 253);
    assert(253 * HIDDEN_BIT + 0x100_0000 == INFINITY);
    let prev: u32 = (INFINITY - 1) as u32;
    lemma_scaled_increases(prev, INFINITY);
    assert(2 * n > d * (scaled(prev) + scaled(INFINITY))) by (nonlinear_arith)
        requires
            n >= scaled(INFINITY) * d,
            scaled(prev) < scaled(INFINITY),
            d > 0,
    ;
    lemma_round_nearest_is(n, d, INFINITY);
}

/// A decimal number of `count` significant digits that reaches ten to the
/// 39th rounds to infinity.
pub proof fn lemma_decimal_huge(digits: nat, exponent: int, count: nat)
    requires
        count >= 1,
        digits >= power(10, (count - 1) as nat),
        count + exponent >= 40,
    ensures
        rounded(digits, exponent) == INFINITY,
{
    lemma_decimal_limits();
    lemma_pow2_adds(128, 149);
    lemma_pow2_pos(149);
    if exponent >= 0 {
        let scale: nat = power(10, exponent as nat);
        // digits * scale >= 10^(count - 1 + exponent) >= 10^39
        lemma_power_adds(10, (count - 1) as nat, exponent as nat);
        lemma_power_increases(10, 39, (count - 1 + exponent) as nat);
        assert(digits * scale * pow2(149) >= pow2(277) * 1) by (nonlinear_arith)
            requires
                digits >= power(10, (count - 1) as nat),
                power(10, (count - 1) as nat) * scale >= pow2(128),
                pow2(277) == pow2(128) * pow2(149),
        ;
        lemma_huge_rounds(digits * scale * pow2(149), 1);
    } else {
        let below: nat = power(10, (-exponent) as nat);
        // digits >= 10^(count - 1) == 10^(count - 1 + exponent) * below >= 10^39 * below
        lemma_power_adds(10, (count - 1 + exponent) as nat, (-exponent) as nat);
        lemma_power_increases(10, 39, (count - 1 + exponent) as nat);
        lemma_power_positive(10, (-exponent) as nat);
        assert(digits * pow2(149) >= pow2(277) * below) by (nonlinear_arith)
            requires
                digits >= power(10, (count - 1 + exponent) as nat) * below,
                power(10, (count - 1 + exponent) as nat) >= pow2(128),
                pow2(277) == pow2(128) * pow2(149),
                below > 0,
        ;
        lemma_huge_rounds(digits * pow2(149), below);
    }
}

/// A decimal number of `count` significant digits that stays below ten to
/// the minus 46th rounds to zero.
pub proof fn lemma_decimal_tiny(digits: nat, exponent: int, count: nat)
    requires
        digits < power(10, count),
        count + exponent <= -46,
    ensures
        rounded(digits, exponent) == 0,
{
    lemma_decimal_limits();
    lemma_pow2_unfold(150);
    let below: nat = power(10, (-exponent) as nat);
    // below >= 10^(count + 46) >= digits * 2^150
    lemma_power_adds(10, count, 46);
    lemma_power_increases(10, count + 46, (-exponent) as nat);
    lemma_power_positive(10, (-exponent) as nat);
    let p: nat = power(10, count);
    let t: nat = power(10, 46);
    lemma_power_positive(10, 46);
    assert(2 * (digits * pow2(149)) <= digits * t) by (nonlinear_arith)
        requires
            t >= 2 * pow2(149),
    ;
    assert(digits * t < p * t) by (nonlinear_arith)
        requires
            digits < p,
            t > 0,
    ;
    lemma_below_half_rounds(digits * pow2(149), below);
}


/// A description of a quantity stays one when the low `k` bits of its
/// significand are folded into the sticky flag.
pub proof fn lemma_coarsen(n: nat, d: nat, v: nat, e: int, s0: bool, m: nat, k: nat, st: bool)
    requires
        d > 0,
        approximates(n, d, v, e, s0),
        m * pow2(k) <= v < (m + 1) * pow2(k),
        st == (v != m * pow2(k)),
    ensures
        approximates(n, d, m, e + k, s0 || st),
{
    let p: nat = down_scale(e);
    let r: nat = up_scale(e);
    let pc: nat = down_scale(e + k);
    let rc: nat = up_scale(e + k);
    let w: nat = pow2(k);
    lemma_scales_positive(e);
    lemma_scales_positive(e + k);
    lemma_pow2_pos(k);
    lemma2_to64();
    // 2^(e + k) is 2^e times 2^k
    assert(rc * p == r * w * pc) by {
        if e > 0 {
            lemma_pow2_adds(e as nat, k);
            assert(rc * 1 == r * w * 1) by (nonlinear_arith)
                requires
                    rc == r * w,
            ;
        } else if e == 0 {
            assert(r == 1 && rc == w);
            assert(rc * 1 == 1 * w * 1) by (nonlinear_arith)
                requires
                    rc == w,
            ;
        } else if e + k >= 0 {
            lemma_pow2_adds((-e) as nat, (e + k) as nat);
            assert(rc * p == 1 * w * 1) by (nonlinear_arith)
                requires
                    p * rc == w,
            ;
        } else {
            lemma_pow2_adds(k, (-e - k) as nat);
            assert(1 * p == 1 * w * pc) by (nonlinear_arith)
                requires
                    w * pc == p,
            ;
        }
    }
    let a: nat = n * p;
    let ac: nat = n * pc;
    let t: nat = d * r;
    let low: nat = m * d * rc;
    let high: nat = (m + 1) * d * rc;
    assert(t > 0) by (nonlinear_arith)
        requires
            t == d * r,
            d > 0,
            r > 0,
    ;
    assert(ac * p == a * pc) by (nonlinear_arith)
        requires
            a == n * p,
            ac == n * pc,
    ;
    let c: nat = rc * p;
    assert(low * p == (m * d) * c && high * p == ((m + 1) * d) * c) by (nonlinear_arith)
        requires
            low == m * d * rc,
            high == (m + 1) * d * rc,
            c == rc * p,
    ;
    assert((m * w) * t * pc == (m * d) * (r * w * pc)) by (nonlinear_arith)
        requires
            t == d * r,
    ;
    assert(((m + 1) * w) * t * pc == ((m + 1) * d) * (r * w * pc)) by (nonlinear_arith)
        requires
            t == d * r,
    ;
    assert(v * d * r == v * t && (v + 1) * d * r == (v + 1) * t) by (nonlinear_arith)
        requires
            t == d * r,
    ;
    if s0 || st {
        assert(a > (m * w) * t) by (nonlinear_arith)
            requires
                if s0 {
                    a > v * t
                } else {
                    a == v * t
                },
                v >= m * w,
                !s0 ==> v > m * w,
                t > 0,
        ;
        assert(a < ((m + 1) * w) * t) by (nonlinear_arith)
            requires
                if s0 {
                    a < (v + 1) * t
                } else {
                    a == v * t
                },
                v + 1 <= (m + 1) * w,
                t > 0,
        ;
        assert(a * pc > (m * w) * t * pc && a * pc < ((m + 1) * w) * t * pc) by (nonlinear_arith)
            requires
                a > (m * w) * t,
                a < ((m + 1) * w) * t,
                pc > 0,
        ;
        assert(ac > low && ac < high) by (nonlinear_arith)
            requires
                ac * p > low * p,
                ac * p < high * p,
                p > 0,
        ;
    } else {
        assert(ac * p == low * p);
        assert(ac == low) by (nonlinear_arith)
            requires
                ac * p == low * p,
                p > 0,
        ;
    }
}

/// A quantity described with a positive significand and an exponent of at
/// least 277 reaches two to the 128th.
pub proof fn lemma_described_huge(n: nat, d: nat, m: nat, e: int, sticky: bool)
    requires
        d > 0,
        approximates(n, d, m, e, sticky),
        m >= 1,
        e >= 277,
    ensures
        round_nearest(n, d) == INFINITY,
{
    lemma_scales_positive(e);
    let r: nat = up_scale(e);
    if e > 277 {
        lemma_pow2_strictly_increases(277, e as nat);
    }
    assert(n >= pow2(277) * d) by (nonlinear_arith)
        requires
            n * 1 >= m * d * r,
            m >= 1,
            r >= pow2(277),
            d > 0,
    ;
    lemma_huge_rounds(n, d);
}

/// Rounds the quantity `n / d` that the number `v`, the exponent `e0` and
/// the flag `s0` describe.
pub fn round_big(v: &BigNat, e0: i64, s0: bool, Ghost(n): Ghost<nat>, Ghost(d): Ghost<nat>) -> (b:
    u32)
    requires
        d > 0,
        approximates(n, d, v@, e0 as int, s0),
        -1000 <= e0 <= 1000,
        s0 ==> e0 < 0,
    ensures
        b == round_nearest(n, d),
        b <= INFINITY,
{
    let l: Leading = v.leading();
    proof {
        lemma_rounding_exists(n, d);
        assert(weight_of(l.skipped as nat) == pow2((32 * l.skipped) as nat));
        lemma_coarsen(
            n,
            d,
            v@,
            e0 as int,
            s0,
            l.lead as nat,
            (32 * l.skipped) as nat,
            l.sticky,
        );
    }
    if l.skipped > 0x1000 {
        proof {
            lemma_described_huge(
                n,
                d,
                l.lead as nat,
                e0 + 32 * l.skipped,
                s0 || l.sticky,
            );
        }
        return INFINITY;
    }
    let e: i64 = e0 + 32 * (l.skipped as i64);
    proof {
        if l.skipped == 0 {
            lemma_weight_step(0);
            assert(l.lead * 1 == l.lead && (l.lead + 1) * 1 == l.lead + 1);
        }
    }
    round_pack(l.lead, e, s0 || l.sticky, Ghost(n), Ghost(d))
}

/// How the quotient of a cut and shifted numerator by a power of five
/// describes a decimal fraction: `digits` is `kept * cut + rest`, and
/// `kept * 2^(150 - j)` is `q * 5^j + rem`.
pub proof fn lemma_decimal_quotient(
    digits: nat,
    cut: nat,
    kept: nat,
    rest: nat,
    j: nat,
    q: nat,
    rem: nat,
)
    requires
        cut > 0,
        digits == kept * cut + rest,
        rest < cut,
        1 <= j <= 150,
        rest != 0 ==> j == 150,
        kept * pow2((150 - j) as nat) == q * power(5, j) + rem,
        rem < power(5, j),
    ensures
        approximates(digits * pow2(149), power(10, j) * cut, q, -1, rest != 0 || rem != 0),
{
    let n: nat = digits * pow2(149);
    let d: nat = power(10, j) * cut;
    let f: nat = power(5, j);
    let t: nat = pow2(j);
    let u: nat = pow2((150 - j) as nat);
    lemma_scales_positive(-1);
    lemma2_to64();
    assert(down_scale(-1) == 2);
    assert(up_scale(-1) == 1);
    lemma_power_of_ten(j);
    lemma_power_positive(5, j);
    lemma_pow2_pos(j);
    lemma_pow2_adds(j, (150 - j) as nat);
    lemma_pow2_unfold(150);
    // twice n is q * d and a remainder: t * cut * rem + rest * 2^150
    let gap: nat = t * cut * rem + rest * pow2(150);
    let full: nat = pow2(150);
    lemma_pow2_pos(150);
    assert(kept * full == (q * f + rem) * t) by (nonlinear_arith)
        requires
            kept * u == q * f + rem,
            t * u == full,
    ;
    assert(n * 2 == (kept * full) * cut + rest * full) by (nonlinear_arith)
        requires
            n == digits * pow2(149),
            full == 2 * pow2(149),
            digits == kept * cut + rest,
    ;
    assert(((q * f + rem) * t) * cut == q * d + t * cut * rem) by (nonlinear_arith)
        requires
            d == (f * t) * cut,
    ;
    assert(n * 2 == q * d + gap);
    assert(q * d * 1 == q * d && (q + 1) * d * 1 == q * d + d) by (nonlinear_arith);
    if rest != 0 || rem != 0 {
        assert(gap > 0) by (nonlinear_arith)
            requires
                gap == t * cut * rem + rest * pow2(150),
                rest != 0 || rem != 0,
                t > 0,
                cut > 0,
                pow2(150) > 0,
        ;
        if rest == 0 {
            assert(gap < d) by (nonlinear_arith)
                requires
                    gap == t * cut * rem + rest * pow2(150),
                    rest == 0,
                    d == (f * t) * cut,
                    rem < f,
                    t > 0,
                    cut > 0,
            ;
        } else {
            assert(t == pow2(150));
            assert(gap < d) by (nonlinear_arith)
                requires
                    gap == t * cut * rem + rest * t,
                    d == (f * t) * cut,
                    rem + 1 <= f,
                    rest < cut,
                    t > 0,
            ;
        }
    } else {
        assert(gap == 0) by (nonlinear_arith)
            requires
                gap == t * cut * rem + rest * pow2(150),
                rest == 0,
                rem == 0,
        ;
    }
}


/// Whether a number of `count` significant digits can be `digits`: it has
/// exactly that many digits, or is zero where the count is zero.
pub open spec fn has_digits(digits: nat, count: nat) -> bool {
    &&& digits < power(10, count)
    &&& count > 0 ==> digits >= power(10, (count - 1) as nat)
}

/// How far an exponent that was counted with a cap stands for the true one:
/// exactly below the cap, and as a bound at or beyond it.
pub open spec fn tracks(counted: int, exponent: int) -> bool {
    &&& -EXPONENT_LIMIT < counted < EXPONENT_LIMIT ==> counted == exponent
    &&& counted >= EXPONENT_LIMIT ==> exponent >= EXPONENT_LIMIT
    &&& counted <= -EXPONENT_LIMIT ==> exponent <= -EXPONENT_LIMIT
}

/// Beyond this size an exponent decides the result by itself: ten to the 29th.
pub const EXPONENT_LIMIT: i128 = 100_000_000_000_000_000_000_000_000_000;

/// Divides the number by `divisor`, `times` times, and tells whether
/// anything was left over.
fn divide_by(big: &mut BigNat, divisor: u32, times: usize) -> (sticky: bool)
    requires
        divisor > 0,
    ensures
        final(big)@ == old(big)@ / power(divisor as nat, times as nat),
        sticky == (old(big)@ % power(divisor as nat, times as nat) != 0),
{
    let ghost start: nat = big@;
    let ghost mut rest: nat = 0;
    let mut sticky: bool = false;
    let mut k: usize = 0;
    proof {
        assert(big@ * 1 == big@);
    }
    while k < times
        invariant
            k <= times,
            divisor > 0,
            start == big@ * power(divisor as nat, k as nat) + rest,
            rest < power(divisor as nat, k as nat),
            sticky == (rest != 0),
        decreases times - k,
    {
        let ghost scale: nat = power(divisor as nat, k as nat);
        let r: u32 = big.div_rem(divisor);
        proof {
            lemma_power_positive(divisor as nat, k as nat);
            assert((big@ * divisor + r) * scale + rest == big@ * (divisor * scale) + (r * scale
                + rest)) by (nonlinear_arith);
            assert(r * scale + rest < divisor * scale) by (nonlinear_arith)
                requires
                    r + 1 <= divisor,
                    rest < scale,
            ;
            assert((r * scale + rest != 0) == (r != 0 || rest != 0)) by (nonlinear_arith)
                requires
                    scale > 0,
                    r >= 0,
                    rest >= 0,
            ;
            rest = (r * scale + rest) as nat;
        }
        if r != 0 {
            sticky = true;
        }
        k += 1;
    }
    proof {
        let scale: nat = power(divisor as nat, times as nat);
        lemma_power_positive(divisor as nat, times as nat);
        vstd::arithmetic::div_mod::lemma_fundamental_div_mod_converse(
            start as int,
            scale as int,
            big@ as int,
            rest as int,
        );
    }
    sticky
}

/// Multiplies the number by two to the `bits`.
fn shift_up(big: &mut BigNat, bits: usize)
    ensures
        final(big)@ == old(big)@ * pow2(bits as nat),
{
    let ghost start: nat = big@;
    let mut left: usize = bits;
    proof {
        lemma2_to64();
        assert(big@ * 1 == big@);
    }
    while left >= 31
        invariant
            left <= bits,
            big@ == start * pow2((bits - left) as nat),
        decreases left,
    {
        proof {
            lemma2_to64();
            lemma_pow2_adds((bits - left) as nat, 31);
            assert((start * pow2((bits - left) as nat)) * 0x8000_0000 + 0 == start * (pow2(
                (bits - left) as nat,
            ) * 0x8000_0000)) by (nonlinear_arith);
        }
        big.mul_add(0x8000_0000, 0);
        left -= 31;
    }
    proof {
        lemma2_to64();
        lemma_pow2_adds((bits - left) as nat, left as nat);
        if left < 30 {
            lemma_pow2_strictly_increases(left as nat, 30);
        }
        assert((start * pow2((bits - left) as nat)) * pow2(left as nat) + 0 == start * (pow2(
            (bits - left) as nat,
        ) * pow2(left as nat))) by (nonlinear_arith);
    }
    let factor: u64 = pow2_u64(left as u32);
    big.mul_add(factor as u32, 0);
}

/// Multiplies the number by `factor`, `times` times.
fn multiply_by(big: &mut BigNat, factor: u32, times: usize)
    ensures
        final(big)@ == old(big)@ * power(factor as nat, times as nat),
{
    let ghost start: nat = big@;
    let mut k: usize = 0;
    proof {
        assert(big@ * 1 == big@);
    }
    while k < times
        invariant
            k <= times,
            big@ == start * power(factor as nat, k as nat),
        decreases times - k,
    {
        proof {
            assert((start * power(factor as nat, k as nat)) * factor + 0 == start * (factor
                * power(factor as nat, k as nat))) by (nonlinear_arith);
        }
        big.mul_add(factor, 0);
        k += 1;
    }
}

/// Rounds the decimal number `big * 10^exponent`, which has `count`
/// significant digits, to a magnitude.
pub fn convert(big: BigNat, count: usize, counted: i128, Ghost(exponent): Ghost<int>) -> (b: u32)
    requires
        has_digits(big@, count as nat),
        tracks(counted as int, exponent),
        -20 * EXPONENT_LIMIT < counted < 20 * EXPONENT_LIMIT,
    ensures
        b == rounded(big@, exponent),
        b <= INFINITY,
{
    let ghost digits: nat = big@;
    let mut big: BigNat = big;
    let reach: i128 = count as i128 + counted;
    if count == 0 {
        proof {
            assert(power(10, 0) == 1);
            lemma_tiny_zero(exponent);
        }
        return 0;
    }
    if reach >= 40 {
        proof {
            lemma_decimal_huge(digits, exponent, count as nat);
        }
        return INFINITY;
    }
    if reach <= -46 {
        proof {
            lemma_decimal_tiny(digits, exponent, count as nat);
        }
        return 0;
    }
    assert(counted == exponent);
    if counted >= 0 {
        multiply_by(&mut big, 10, counted as usize);
        proof {
            lemma_approximates_powers(big@, 149, 0);
            lemma2_to64();
        }
        return round_big(&big, 149, false, Ghost(big@ * pow2(149)), Ghost(1));
    }
    // digits past the 150th place after the point only tell whether the
    // number lies on a multiple of 10^-150 or above one
    let over: usize = if counted < -150 {
        (-150 - counted) as usize
    } else {
        0
    };
    let sticky_cut: bool = divide_by(&mut big, 10, over);
    let j: usize = if counted < -150 {
        150
    } else {
        (-counted) as usize
    };
    let ghost cut: nat = power(10, over as nat);
    let ghost kept: nat = big@;
    let ghost rest: nat = digits % cut;
    proof {
        lemma_power_positive(10, over as nat);
        vstd::arithmetic::div_mod::lemma_fundamental_div_mod(digits as int, cut as int);
        vstd::arithmetic::div_mod::lemma_mod_bound(digits as int, cut as int);
        assert(cut * kept == kept * cut) by (nonlinear_arith);
        if over == 0 {
            assert(cut == 1);
        }
    }
    shift_up(&mut big, 150 - j);
    let ghost top: nat = big@;
    let sticky_five: bool = divide_by(&mut big, 5, j);
    let ghost n: nat = digits * pow2(149);
    let ghost d: nat = power(10, (-exponent) as nat);
    proof {
        let fives: nat = power(5, j as nat);
        let rem: nat = top % fives;
        lemma_power_positive(5, j as nat);
        vstd::arithmetic::div_mod::lemma_fundamental_div_mod(top as int, fives as int);
        vstd::arithmetic::div_mod::lemma_mod_bound(top as int, fives as int);
        assert(fives * big@ == big@ * fives) by (nonlinear_arith);
        lemma_decimal_quotient(digits, cut, kept, rest, j as nat, big@, rem);
        lemma_power_adds(10, j as nat, over as nat);
        lemma_power_positive(10, (-exponent) as nat);
    }
    round_big(&big, -1, sticky_cut || sticky_five, Ghost(n), Ghost(d))
}

/// Zero times any power of ten rounds to zero.
proof fn lemma_tiny_zero(exponent: int)
    ensures
        rounded(0, exponent) == 0,
{
    if exponent >= 0 {
        assert(0 * power(10, exponent as nat) * pow2(149) == 0) by (nonlinear_arith);
        lemma_below_half_rounds(0, 1);
    } else {
        assert(0 * pow2(149) == 0);
        lemma_power_positive(10, (-exponent) as nat);
        lemma_below_half_rounds(0, power(10, (-exponent) as nat));
    }
}


/// Whether a character is one of the ten digits.
pub open spec fn is_digit(c: char) -> bool {
    0x30 <= c as u32 <= 0x39
}

/// The value of a digit.
pub open spec fn digit_of(c: char) -> nat {
    (c as u32 - 0x30) as nat
}

/// Whether a character is a sign.
pub open spec fn is_sign(c: char) -> bool {
    c == '+' || c == '-'
}

/// Whether `c` is the lower-case letter `letter` or its upper-case form.
pub open spec fn same_letter(c: char, letter: char) -> bool {
    c as u32 == letter as u32 || c as u32 + 32 == letter as u32
}

/// The place where the run of digits that starts at `from` ends.
pub open spec fn digits_end(s: Seq<char>, from: int) -> int
    decreases s.len() - from,
{
    if 0 <= from < s.len() && is_digit(s[from]) {
        digits_end(s, from + 1)
    } else {
        from
    }
}

/// The number that the digits from `from` up to `to` spell.
pub open spec fn digits_value(s: Seq<char>, from: int, to: int) -> nat
    decreases to - from,
{
    if to <= from {
        0
    } else {
        digits_value(s, from, to - 1) * 10 + digit_of(s[to - 1])
    }
}

/// Whether the characters from `from` on are exactly the letters of `word`,
/// in either case.
pub open spec fn spells(s: Seq<char>, from: int, word: Seq<char>) -> bool {
    &&& s.len() - from == word.len()
    &&& forall|k: int| 0 <= k < word.len() ==> same_letter(#[trigger] s[from + k], word[k])
}

/// The short word for infinity.
pub open spec fn word_inf() -> Seq<char> {
    seq!['i', 'n', 'f']
}

/// The long word for infinity.
pub open spec fn word_infinity() -> Seq<char> {
    seq!['i', 'n', 'f', 'i', 'n', 'i', 't', 'y']
}

/// The word for a NaN.
pub open spec fn word_nan() -> Seq<char> {
    seq!['n', 'a', 'n']
}

/// The places at which the parts of a written number begin and end.
pub ghost struct Shape {
    /// Where the digits before the point begin: after the sign, if any.
    pub start: int,
    /// Where the digits before the point end.
    pub point: int,
    /// Where the digits after the point begin.
    pub frac: int,
    /// Where the digits after the point end.
    pub mark: int,
    /// Whether an exponent mark stands at `mark`.
    pub has_exp: bool,
    /// Where the digits of the exponent begin.
    pub exp: int,
    /// Where the digits of the exponent end.
    pub end: int,
}

/// The parts of `s` read as a written number, as far as they go.
pub open spec fn shape_of(s: Seq<char>) -> Shape {
    let start: int = if s.len() > 0 && is_sign(s[0]) {
        1
    } else {
        0
    };
    let point = digits_end(s, start);
    let has_point = point < s.len() && s[point] == '.';
    let frac = if has_point {
        point + 1
    } else {
        point
    };
    let mark = digits_end(s, frac);
    let has_exp = mark < s.len() && same_letter(s[mark], 'e');
    let exp = if has_exp && mark + 1 < s.len() && is_sign(s[mark + 1]) {
        mark + 2
    } else if has_exp {
        mark + 1
    } else {
        mark
    };
    let end = digits_end(s, exp);
    Shape { start, point, frac, mark, has_exp, exp, end }
}

/// Whether `s` is a written number: it has a digit before or after the
/// point, a digit in its exponent if it has an exponent mark, and nothing
/// after that.
pub open spec fn is_decimal(s: Seq<char>) -> bool {
    let sh = shape_of(s);
    &&& (sh.point - sh.start) + (sh.mark - sh.frac) >= 1
    &&& sh.has_exp ==> sh.end > sh.exp
    &&& sh.end == s.len()
}

/// The digits of a written number, read as one whole number.
pub open spec fn decimal_digits(s: Seq<char>) -> nat {
    let sh = shape_of(s);
    digits_value(s, sh.start, sh.point) * power(10, (sh.mark - sh.frac) as nat) + digits_value(
        s,
        sh.frac,
        sh.mark,
    )
}

/// The power of ten that the digits of a written number are to be taken
/// with: its exponent, less the number of digits after the point.
pub open spec fn decimal_exponent(s: Seq<char>) -> int {
    let sh = shape_of(s);
    let written = digits_value(s, sh.exp, sh.end) as int;
    (if sh.has_exp && s[sh.mark + 1] == '-' {
        -written
    } else {
        written
    }) - (sh.mark - sh.frac)
}

/// The number that `s` is read as, if it is one.
pub open spec fn number_of(s: Seq<char>) -> Option<u32> {
    let negative = s.len() > 0 && s[0] == '-';
    let start = shape_of(s).start;
    if spells(s, start, word_inf()) || spells(s, start, word_infinity()) {
        Some(with_sign(negative, INFINITY))
    } else if spells(s, start, word_nan()) {
        Some(QUIET_NAN)
    } else if is_decimal(s) {
        Some(with_sign(negative, rounded(decimal_digits(s), decimal_exponent(s))))
    } else {
        None
    }
}

/// The largest exponent that is counted exactly: ten to the 30th.
pub const EXPONENT_CAP: u128 = 1_000_000_000_000_000_000_000_000_000_000;

/// The value of the digit at place `i`, if a digit stands there.
fn digit_at(s: &Vec<char>, i: usize) -> (r: Option<u32>)
    ensures
        match r {
            Some(v) => i < s@.len() && is_digit(s@[i as int]) && v == digit_of(s@[i as int]),
            None => !(i < s@.len() && is_digit(s@[i as int])),
        },
{
    if i < s.len() {
        let c: u32 = s[i] as u32;
        if 0x30 <= c && c <= 0x39 {
            return Some(c - 0x30);
        }
    }
    None
}

/// Reads the run of digits that starts at `from` into `big`, behind the
/// digits that it holds, and counts the significant ones.
fn scan_digits(s: &Vec<char>, from: usize, big: &mut BigNat, count: &mut usize) -> (to: usize)
    requires
        from <= s@.len(),
        has_digits(old(big)@, *old(count) as nat),
        *old(count) <= from,
    ensures
        to == digits_end(s@, from as int),
        from <= to <= s@.len(),
        final(big)@ == old(big)@ * power(10, (to - from) as nat) + digits_value(
            s@,
            from as int,
            to as int,
        ),
        has_digits(final(big)@, *final(count) as nat),
        *final(count) <= to,
{
    let ghost start: nat = big@;
    let mut i: usize = from;
    proof {
        assert(start * 1 == start);
    }
    loop
        invariant
            from <= i <= s@.len(),
            s@.len() == s.len(),
            start == old(big)@,
            digits_end(s@, i as int) == digits_end(s@, from as int),
            big@ == start * power(10, (i - from) as nat) + digits_value(s@, from as int, i as int),
            has_digits(big@, *count as nat),
            *count <= i,
        decreases s@.len() - i,
    {
        match digit_at(s, i) {
            None => {
                return i;
            },
            Some(v) => {
                proof {
                    let scale: nat = power(10, (i - from) as nat);
                    let sofar: nat = digits_value(s@, from as int, i as int);
                    assert((start * scale + sofar) * 10 + v == start * (10 * scale) + (sofar * 10
                        + v)) by (nonlinear_arith);
                    // one more digit keeps the count of significant digits right
                    let c: nat = *count as nat;
                    assert(big@ * 10 + v < 10 * power(10, c)) by (nonlinear_arith)
                        requires
                            big@ + 1 <= power(10, c),
                            v <= 9,
                    ;
                    if c > 0 {
                        assert(big@ * 10 + v >= 10 * power(10, (c - 1) as nat))
                            by (nonlinear_arith)
                            requires
                                big@ >= power(10, (c - 1) as nat),
                        ;
                    } else {
                        assert(power(10, 0) == 1);
                    }
                }
                let leading_zero: bool = *count == 0 && v == 0;
                big.mul_add(10, v);
                if !leading_zero {
                    *count = *count + 1;
                }
                i += 1;
            },
        }
    }
}

/// Reads the run of digits that starts at `from` as a number, which is
/// capped at `EXPONENT_CAP`.
fn scan_exponent(s: &Vec<char>, from: usize) -> (r: (usize, u128))
    requires
        from <= s@.len(),
    ensures
        r.0 == digits_end(s@, from as int),
        from <= r.0 <= s@.len(),
        r.1 == if digits_value(s@, from as int, r.0 as int) < EXPONENT_CAP {
            digits_value(s@, from as int, r.0 as int)
        } else {
            EXPONENT_CAP as nat
        },
{
    let mut i: usize = from;
    let mut x: u128 = 0;
    loop
        invariant
            from <= i <= s@.len(),
            s@.len() == s.len(),
            digits_end(s@, i as int) == digits_end(s@, from as int),
            x == if digits_value(s@, from as int, i as int) < EXPONENT_CAP {
                digits_value(s@, from as int, i as int)
            } else {
                EXPONENT_CAP as nat
            },
        decreases s@.len() - i,
    {
        match digit_at(s, i) {
            None => {
                return (i, x);
            },
            Some(v) => {
                let next: u128 = x * 10 + v as u128;
                x = if next < EXPONENT_CAP {
                    next
                } else {
                    EXPONENT_CAP
                };
                i += 1;
            },
        }
    }
}


/// The end of a run of digits is the end of the run that starts there.
proof fn lemma_digits_end_stays(s: Seq<char>, from: int)
    requires
        0 <= from <= s.len(),
    ensures
        digits_end(s, digits_end(s, from)) == digits_end(s, from),
        from <= digits_end(s, from) <= s.len(),
    decreases s.len() - from,
{
    if from < s.len() && is_digit(s[from]) {
        lemma_digits_end_stays(s, from + 1);
    }
}

/// Whether the characters from `from` on are exactly the letters of `word`,
/// in either case.
fn spells_word(s: &Vec<char>, from: usize, word: &Vec<char>) -> (r: bool)
    requires
        from <= s@.len(),
    ensures
        r == spells(s@, from as int, word@),
{
    if s.len() - from != word.len() {
        return false;
    }
    let mut k: usize = 0;
    while k < word.len()
        invariant
            k <= word@.len(),
            s@.len() == s.len(),
            s@.len() - from == word@.len(),
            forall|i: int| 0 <= i < k ==> same_letter(#[trigger] s@[from + i], word@[i]),
        decreases word@.len() - k,
    {
        let c: u32 = s[from + k] as u32;
        let l: u32 = word[k] as u32;
        if !(c == l || (l >= 32 && c == l - 32)) {
            return false;
        }
        k += 1;
    }
    true
}

/// Whether the characters from `from` on are one of the words for infinity.
fn spells_infinity(s: &Vec<char>, from: usize) -> (r: bool)
    requires
        from <= s@.len(),
    ensures
        r == (spells(s@, from as int, word_inf()) || spells(s@, from as int, word_infinity())),
{
    let rest: usize = s.len() - from;
    if rest == 3 {
        let inf: Vec<char> = vec!['i', 'n', 'f'];
        assert(inf@ =~= word_inf());
        spells_word(s, from, &inf)
    } else if rest == 8 {
        let infinity: Vec<char> = vec!['i', 'n', 'f', 'i', 'n', 'i', 't', 'y'];
        assert(infinity@ =~= word_infinity());
        spells_word(s, from, &infinity)
    } else {
        false
    }
}

/// Whether the characters from `from` on are the word for a NaN.
fn spells_nan(s: &Vec<char>, from: usize) -> (r: bool)
    requires
        from <= s@.len(),
    ensures
        r == spells(s@, from as int, word_nan()),
{
    if s.len() - from == 3 {
        let nan: Vec<char> = vec!['n', 'a', 'n'];
        assert(nan@ =~= word_nan());
        spells_word(s, from, &nan)
    } else {
        false
    }
}

/// What reading the digits of a written number found.
struct Mantissa {
    point: usize,
    frac: usize,
    mark: usize,
    big: BigNat,
    count: usize,
}

/// Reads the digits before and after the point.
fn read_mantissa(s: &Vec<char>, start: usize) -> (m: Mantissa)
    requires
        start <= s@.len(),
    ensures
        m.point == digits_end(s@, start as int),
        m.frac == if m.point < s@.len() && s@[m.point as int] == '.' {
            m.point + 1
        } else {
            m.point as int
        },
        m.mark == digits_end(s@, m.frac as int),
        start <= m.point <= m.frac <= m.mark <= s@.len(),
        m.big@ == digits_value(s@, start as int, m.point as int) * power(
            10,
            (m.mark - m.frac) as nat,
        ) + digits_value(s@, m.frac as int, m.mark as int),
        has_digits(m.big@, m.count as nat),
        digits_end(s@, m.mark as int) == m.mark,
{
    let mut big: BigNat = BigNat::zero();
    let mut count: usize = 0;
    proof {
        assert(power(10, 0) == 1);
    }
    let point: usize = scan_digits(s, start, &mut big, &mut count);
    let frac: usize = if point < s.len() && s[point] == '.' {
        point + 1
    } else {
        point
    };
    proof {
        assert(0 * power(10, (point - start) as nat) == 0);
        lemma_digits_end_stays(s@, frac as int);
    }
    let mark: usize = scan_digits(s, frac, &mut big, &mut count);
    Mantissa { point, frac, mark, big, count }
}

/// What reading the exponent of a written number found.
struct Exponent {
    has_exp: bool,
    negative: bool,
    exp: usize,
    end: usize,
    capped: u128,
}

/// Reads the exponent that may stand at `mark`, where a run of digits ended.
fn read_exponent(s: &Vec<char>, mark: usize) -> (x: Exponent)
    requires
        mark <= s@.len(),
        digits_end(s@, mark as int) == mark,
    ensures
        x.has_exp == (mark < s@.len() && same_letter(s@[mark as int], 'e')),
        x.exp == if x.has_exp && mark + 1 < s@.len() && is_sign(s@[mark + 1]) {
            mark + 2
        } else if x.has_exp {
            mark + 1
        } else {
            mark as int
        },
        x.end == digits_end(s@, x.exp as int),
        mark <= x.exp <= x.end <= s@.len(),
        x.negative == (x.has_exp && mark + 1 < s@.len() && s@[mark + 1] == '-'),
        x.capped == if digits_value(s@, x.exp as int, x.end as int) < EXPONENT_CAP {
            digits_value(s@, x.exp as int, x.end as int)
        } else {
            EXPONENT_CAP as nat
        },
{
    let len: usize = s.len();
    let has_exp: bool = mark < len && (s[mark] as u32 == 0x65 || s[mark] as u32 == 0x45);
    if !has_exp {
        return Exponent { has_exp, negative: false, exp: mark, end: mark, capped: 0 };
    }
    let mut exp: usize = mark + 1;
    let mut negative: bool = false;
    if exp < len && (s[exp] == '+' || s[exp] == '-') {
        negative = s[exp] == '-';
        exp = exp + 1;
    }
    let (end, capped) = scan_exponent(s, exp);
    Exponent { has_exp, negative, exp, end, capped }
}

/// Reads the characters as a number.
pub fn parse_chars(s: &Vec<char>) -> (r: Option<u32>)
    ensures
        r == number_of(s@),
{
    let len: usize = s.len();
    let negative: bool = len > 0 && s[0] == '-';
    let start: usize = if len > 0 && (s[0] == '+' || s[0] == '-') {
        1
    } else {
        0
    };
    if spells_infinity(s, start) {
        return Some(signed_bits(negative, INFINITY));
    }
    if spells_nan(s, start) {
        return Some(QUIET_NAN);
    }
    let m: Mantissa = read_mantissa(s, start);
    let x: Exponent = read_exponent(s, m.mark);
    let ghost sh: Shape = shape_of(s@);
    assert(sh.start == start && sh.point == m.point && sh.frac == m.frac && sh.mark == m.mark);
    assert(sh.has_exp == x.has_exp && sh.exp == x.exp && sh.end == x.end);
    if (m.point - start) + (m.mark - m.frac) == 0 {
        return None;
    }
    if x.has_exp && x.end == x.exp {
        return None;
    }
    if x.end != len {
        return None;
    }
    let written: i128 = if x.negative {
        -(x.capped as i128)
    } else {
        x.capped as i128
    };
    let counted: i128 = written - (m.mark - m.frac) as i128;
    let bits: u32 = convert(m.big, m.count, counted, Ghost(decimal_exponent(s@)));
    Some(signed_bits(negative, bits))
}

/// Reads the text as a number.
pub fn parse_number(text: &str) -> (r: Option<u32>)
    ensures
        r == number_of(text@),
{
    let chars: Vec<char> = crate::cube::chars_of(text);
    parse_chars(&chars)
}

} // verus!
