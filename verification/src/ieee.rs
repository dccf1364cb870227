//! The mathematical model of IEEE 754 single precision numbers.
//!
//! A number is held as its 32-bit pattern: one sign bit, eight exponent bits
//! and twenty-three fraction bits. Contracts speak of a pattern through its
//! magnitude (the pattern without the sign bit) and through `scaled`, the
//! size of a magnitude counted in units of 2^-149, the smallest positive
//! number of the format. Every finite number is a whole count of such units.

use vstd::arithmetic::mul::*;
use vstd::arithmetic::power2::*;
use vstd::prelude::*;

verus! {

/// The sign bit of a pattern.
pub const SIGN_BIT: u32 = 0x8000_0000;

/// The magnitude of infinity; every greater magnitude is a NaN.
pub const INFINITY: u32 = 0x7f80_0000;

/// The one NaN pattern that operations of this library produce.
pub const QUIET_NAN: u32 = 0x7fc0_0000;

/// The pattern of the number one.
pub const ONE: u32 = 0x3f80_0000;

/// The pattern of the number 255.
pub const BYTE_MAX: u32 = 0x437f_0000;

/// Two to the 23rd: the weight of the implicit leading bit of a normal number.
pub const HIDDEN_BIT: u32 = 0x80_0000;

/// The pattern without its sign bit.
pub open spec fn magnitude(x: u32) -> u32 {
    if x >= SIGN_BIT {
        (x - SIGN_BIT) as u32
    } else {
        x
    }
}

/// Whether the sign bit is set.
pub open spec fn is_negative(x: u32) -> bool {
    x >= SIGN_BIT
}

/// Whether the pattern is a NaN.
pub open spec fn is_nan(x: u32) -> bool {
    magnitude(x) > INFINITY
}

/// Whether the pattern is an infinity.
pub open spec fn is_infinite(x: u32) -> bool {
    magnitude(x) == INFINITY
}

/// Whether the pattern is a finite number.
pub open spec fn is_finite(x: u32) -> bool {
    magnitude(x) < INFINITY
}

/// Whether the pattern is a zero, of either sign.
pub open spec fn is_zero(x: u32) -> bool {
    magnitude(x) == 0
}

/// The pattern with magnitude `m` and the given sign.
pub open spec fn with_sign(negative: bool, m: u32) -> u32 {
    if negative {
        (m + SIGN_BIT) as u32
    } else {
        m
    }
}

/// The size of the magnitude `m` in units of 2^-149. For the magnitude of
/// infinity this is 2^277, the power of two that follows the largest finite
/// number.
pub open spec fn scaled(m: u32) -> nat {
    let e = m / HIDDEN_BIT;
    let f = m % HIDDEN_BIT;
    if e == 0 {
        f as nat
    } else {
        ((HIDDEN_BIT + f) * pow2((e - 1) as nat)) as nat
    }
}

/// The value of a pattern that is no NaN, in units of 2^-149, with its sign.
pub open spec fn signed(x: u32) -> int {
    if is_negative(x) {
        -(scaled(magnitude(x)) as int)
    } else {
        scaled(magnitude(x)) as int
    }
}

/// The magnitude `b` is what the quantity `n / d`, counted in units of 2^-149,
/// rounds to: `n / d` lies between the midpoints to the neighbouring
/// magnitudes, and on a midpoint only if `b` is even. Quantities at or
/// beyond the midpoint above the largest finite number round to infinity.
pub open spec fn nearest(n: nat, d: nat, b: u32) -> bool {
    &&& b <= INFINITY
    &&& b > 0 ==> {
        let below = d * (scaled((b - 1) as u32) + scaled(b));
        2 * n > below || (2 * n == below && b % 2 == 0)
    }
    &&& b < INFINITY ==> {
        let above = d * (scaled(b) + scaled((b + 1) as u32));
        2 * n < above || (2 * n == above && b % 2 == 0)
    }
}

/// Round to nearest, ties to even: the magnitude that `n / d` units round to.
pub open spec fn round_nearest(n: nat, d: nat) -> u32 {
    choose|b: u32| nearest(n, d, b)
}

/// A magnitude written as exponent step `k` and significand `q` has the size
/// `q * 2^k`. The significand may be 2^24, one past the largest, which is
/// the first number of the next binade.
pub proof fn lemma_scaled_pack(k: nat, q: nat)
    requires
        k <= 253,
        q <= 0x100_0000,
        k > 0 ==> q >= HIDDEN_BIT,
    ensures
        k * HIDDEN_BIT + q <= INFINITY,
        scaled((k * HIDDEN_BIT + q) as u32) == q * pow2(k),
{
    let b = (k * HIDDEN_BIT + q) as u32;
    assert(k * HIDDEN_BIT + q <= INFINITY) by (nonlinear_arith)
        requires
            k <= 253,
            q <= 0x100_0000,
    ;
    lemma2_to64();
    if q < HIDDEN_BIT {
        assert(k == 0);
        assert(b / HIDDEN_BIT == 0);
        assert(q * pow2(0) == q);
    } else if q < 0x100_0000 {
        assert(b / HIDDEN_BIT == k + 1 && b % HIDDEN_BIT == q - HIDDEN_BIT) by (nonlinear_arith)
            requires
                b == k * HIDDEN_BIT + q,
                HIDDEN_BIT <= q < 0x100_0000,
        ;
    } else {
        assert(b / HIDDEN_BIT == k + 2 && b % HIDDEN_BIT == 0) by (nonlinear_arith)
            requires
                b == k * HIDDEN_BIT + q,
                q == 0x100_0000,
        ;
        lemma_pow2_unfold(k + 1);
        assert(HIDDEN_BIT * (2 * pow2(k)) == 0x100_0000 * pow2(k)) by (nonlinear_arith);
    }
}

/// Greater magnitudes are greater numbers.
pub proof fn lemma_scaled_increases(a: u32, b: u32)
    requires
        a < b <= INFINITY,
    ensures
        scaled(a) < scaled(b),
{
    let ea = (a / HIDDEN_BIT) as nat;
    let fa = (a % HIDDEN_BIT) as nat;
    let eb = (b / HIDDEN_BIT) as nat;
    let fb = (b % HIDDEN_BIT) as nat;
    lemma2_to64();
    if ea == eb {
        if ea > 0 {
            lemma_pow2_pos((ea - 1) as nat);
            lemma_mul_strict_inequality(
                (HIDDEN_BIT + fa) as int,
                (HIDDEN_BIT + fb) as int,
                pow2((ea - 1) as nat) as int,
            );
        }
    } else {
        assert(ea < eb);
        // scaled(a) stays below 2^23 * 2^ea, which scaled(b) reaches.
        lemma_pow2_pos((eb - 1) as nat);
        if ea == 0 {
            lemma_mul_inequality(1, pow2((eb - 1) as nat) as int, HIDDEN_BIT as int);
            assert(HIDDEN_BIT * pow2((eb - 1) as nat) <= (HIDDEN_BIT + fb) * pow2((eb - 1) as nat))
                by (nonlinear_arith);
        } else {
            let pa = pow2((ea - 1) as nat);
            let pb = pow2((eb - 1) as nat);
            lemma_pow2_pos((ea - 1) as nat);
            lemma_pow2_unfold(ea);
            if ea < eb - 1 {
                lemma_pow2_strictly_increases(ea, (eb - 1) as nat);
            }
            assert(2 * pa <= pb);
            assert((HIDDEN_BIT + fa) * pa < (HIDDEN_BIT + fb) * pb) by (nonlinear_arith)
                requires
                    fa < HIDDEN_BIT,
                    2 * pa <= pb,
                    pa > 0,
                    fb >= 0,
                    HIDDEN_BIT == 0x80_0000,
            ;
        }
    }
}

/// At most one magnitude is nearest to a quantity.
pub proof fn lemma_nearest_unique(n: nat, d: nat, a: u32, b: u32)
    requires
        d > 0,
        nearest(n, d, a),
        nearest(n, d, b),
    ensures
        a == b,
{
    lemma_nearest_not_below(n, d, a, b);
    lemma_nearest_not_below(n, d, b, a);
}

/// Of two magnitudes nearest to one quantity, the first is not the smaller.
proof fn lemma_nearest_not_below(n: nat, d: nat, a: u32, b: u32)
    requires
        d > 0,
        nearest(n, d, a),
        nearest(n, d, b),
    ensures
        a >= b,
{
    if a < b {
        let a1 = (a + 1) as u32;
        let b1 = (b - 1) as u32;
        let above = d * (scaled(a) + scaled(a1));
        let below = d * (scaled(b1) + scaled(b));
        lemma_scaled_increases(a, a1);
        if a1 < b {
            lemma_scaled_increases(a1, b);
            lemma_scaled_increases(a, b1);
            assert(above < below) by (nonlinear_arith)
                requires
                    above == d * (scaled(a) + scaled(a1)),
                    below == d * (scaled(b1) + scaled(b)),
                    scaled(a) < scaled(b1),
                    scaled(a1) < scaled(b),
                    d > 0,
            ;
        } else {
            assert(above == below);
            assert(a % 2 == 0 && b % 2 == 0);
        }
    }
}

/// The rounding of a quantity is the one magnitude nearest to it.
pub proof fn lemma_round_nearest_is(n: nat, d: nat, b: u32)
    requires
        d > 0,
        nearest(n, d, b),
    ensures
        round_nearest(n, d) == b,
{
    lemma_nearest_unique(n, d, b, round_nearest(n, d));
}

/// A quantity that is a magnitude's own size rounds to that magnitude.
pub proof fn lemma_nearest_exact(d: nat, b: u32)
    requires
        d > 0,
        b <= INFINITY,
    ensures
        nearest(scaled(b) * d, d, b),
        round_nearest(scaled(b) * d, d) == b,
{
    let n = scaled(b) * d;
    if b > 0 {
        let lo = (b - 1) as u32;
        lemma_scaled_increases(lo, b);
        assert(2 * n > d * (scaled(lo) + scaled(b))) by (nonlinear_arith)
            requires
                n == scaled(b) * d,
                scaled(lo) < scaled(b),
                d > 0,
        ;
    }
    if b < INFINITY {
        let hi = (b + 1) as u32;
        lemma_scaled_increases(b, hi);
        assert(2 * n < d * (scaled(b) + scaled(hi))) by (nonlinear_arith)
            requires
                n == scaled(b) * d,
                scaled(b) < scaled(hi),
                d > 0,
        ;
    }
    lemma_round_nearest_is(n, d, b);
}

/// Rounding never crosses a magnitude: a quantity at most the size of `c`
/// rounds to at most `c`, and one at least the size of `c` to at least `c`.
pub proof fn lemma_nearest_bounds(n: nat, d: nat, b: u32, c: u32)
    requires
        d > 0,
        nearest(n, d, b),
        c <= INFINITY,
    ensures
        n <= scaled(c) * d ==> b <= c,
        n >= scaled(c) * d ==> b >= c,
{
    if n <= scaled(c) * d && b > c {
        let lo = (b - 1) as u32;
        if c < lo {
            lemma_scaled_increases(c, lo);
        }
        lemma_scaled_increases(lo, b);
        assert(2 * n < d * (scaled(lo) + scaled(b))) by (nonlinear_arith)
            requires
                n <= scaled(c) * d,
                scaled(c) <= scaled(lo),
                scaled(lo) < scaled(b),
                d > 0,
        ;
    }
    if n >= scaled(c) * d && b < c {
        let hi = (b + 1) as u32;
        if hi < c {
            lemma_scaled_increases(hi, c);
        }
        lemma_scaled_increases(b, hi);
        assert(2 * n > d * (scaled(b) + scaled(hi))) by (nonlinear_arith)
            requires
                n >= scaled(c) * d,
                scaled(hi) <= scaled(c),
                scaled(b) < scaled(hi),
                d > 0,
        ;
    }
}


/// The integer significand of a magnitude: the fraction bits, with the
/// implicit leading bit where the exponent field is not zero.
pub open spec fn significand(m: u32) -> nat {
    if m / HIDDEN_BIT == 0 {
        (m % HIDDEN_BIT) as nat
    } else {
        (HIDDEN_BIT + m % HIDDEN_BIT) as nat
    }
}

/// The exponent step of a magnitude: the power of two, in units of 2^-149,
/// that its significand counts.
pub open spec fn step(m: u32) -> nat {
    if m / HIDDEN_BIT == 0 {
        0
    } else {
        (m / HIDDEN_BIT - 1) as nat
    }
}

/// The size of a magnitude is its significand times two to its exponent step.
pub proof fn lemma_scaled_parts(m: u32)
    ensures
        scaled(m) == significand(m) * pow2(step(m)),
        significand(m) < 0x100_0000,
        step(m) > 0 ==> significand(m) >= HIDDEN_BIT,
        m >= 0x100_0000 ==> step(m) > 0,
        step(m) <= 510,
        m <= INFINITY ==> step(m) <= 254,
        m < INFINITY ==> step(m) <= 253,
        m > 0 ==> significand(m) > 0,
        m > 0 ==> scaled(m) > 0,
        m == 0 ==> scaled(m) == 0,
{
    lemma2_to64();
    lemma_pow2_pos(step(m));
    if m / HIDDEN_BIT == 0 {
        assert(significand(m) * 1 == significand(m));
    }
    if m > 0 {
        lemma_mul_strictly_positive(significand(m) as int, pow2(step(m)) as int);
    }
}

/// Magnitudes are ordered as their exponent steps are.
pub proof fn lemma_step_ordered(a: u32, b: u32)
    requires
        a <= b,
    ensures
        step(a) <= step(b),
{
}


/// The greatest magnitude, at most `b`, whose size does not exceed `n / d`.
pub open spec fn magnitude_below(n: nat, d: nat, b: nat) -> nat
    decreases b,
{
    if b == 0 || (b <= INFINITY && scaled(b as u32) * d <= n) {
        b
    } else {
        magnitude_below(n, d, (b - 1) as nat)
    }
}

/// `magnitude_below` is at most the quantity, and the magnitude after it is beyond it.
proof fn lemma_magnitude_below(n: nat, d: nat, b: nat)
    requires
        b <= INFINITY,
    ensures
        magnitude_below(n, d, b) <= b,
        scaled(magnitude_below(n, d, b) as u32) * d <= n,
        magnitude_below(n, d, b) < b ==> scaled((magnitude_below(n, d, b) + 1) as u32) * d > n,
    decreases b,
{
    if b == 0 {
        assert(scaled(0) == 0);
        assert(0 * d == 0);
    } else if scaled(b as u32) * d <= n {
    } else {
        lemma_magnitude_below(n, d, (b - 1) as nat);
    }
}

/// Every quantity has a magnitude nearest to it, and `round_nearest` is it.
pub proof fn lemma_rounding_exists(n: nat, d: nat)
    requires
        d > 0,
    ensures
        nearest(n, d, round_nearest(n, d)),
{
    lemma_magnitude_below(n, d, INFINITY as nat);
    let low: u32 = magnitude_below(n, d, INFINITY as nat) as u32;
    if low > 0 {
        let prev: u32 = (low - 1) as u32;
        lemma_scaled_increases(prev, low);
        assert(2 * n > d * (scaled(prev) + scaled(low))) by (nonlinear_arith)
            requires
                scaled(low) * d <= n,
                scaled(prev) < scaled(low),
                d > 0,
        ;
    }
    if low == INFINITY {
        assert(nearest(n, d, low));
    } else {
        let high: u32 = (low + 1) as u32;
        let mid: nat = d * (scaled(low) + scaled(high));
        lemma_scaled_increases(low, high);
        if high < INFINITY {
            let next: u32 = (high + 1) as u32;
            lemma_scaled_increases(high, next);
            assert(2 * n < d * (scaled(high) + scaled(next))) by (nonlinear_arith)
                requires
                    scaled(high) * d > n,
                    scaled(high) < scaled(next),
                    d > 0,
            ;
        }
        if 2 * n < mid || (2 * n == mid && low % 2 == 0) {
            assert(nearest(n, d, low));
        } else {
            assert(nearest(n, d, high));
        }
    }
}


/// Rounding keeps the order of quantities.
pub proof fn lemma_rounding_is_monotone(n: nat, m: nat, d: nat)
    requires
        d > 0,
        n <= m,
    ensures
        round_nearest(n, d) <= round_nearest(m, d),
{
    let a: u32 = round_nearest(n, d);
    let b: u32 = round_nearest(m, d);
    lemma_rounding_exists(n, d);
    lemma_rounding_exists(m, d);
    if b < a {
        let b1: u32 = (b + 1) as u32;
        let a1: u32 = (a - 1) as u32;
        let above: nat = d * (scaled(b) + scaled(b1));
        let below: nat = d * (scaled(a1) + scaled(a));
        lemma_scaled_increases(b, b1);
        if b1 < a {
            lemma_scaled_increases(b1, a);
            lemma_scaled_increases(b, a1);
            assert(above < below) by (nonlinear_arith)
                requires
                    above == d * (scaled(b) + scaled(b1)),
                    below == d * (scaled(a1) + scaled(a)),
                    scaled(b) < scaled(a1),
                    scaled(b1) < scaled(a),
                    d > 0,
            ;
        } else {
            assert(above == below);
            assert(a % 2 == 0 && b % 2 == 0);
        }
    }
}

} // verus!
