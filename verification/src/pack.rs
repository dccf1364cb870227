//! Rounding an integer significand and a binary exponent to a magnitude.

use crate::ieee::{lemma_nearest_exact, lemma_round_nearest_is, lemma_scaled_increases, lemma_scaled_pack, nearest, round_nearest, scaled, HIDDEN_BIT, INFINITY};
use vstd::arithmetic::mul::*;
use vstd::arithmetic::power2::*;
use vstd::bits::*;
use vstd::prelude::*;
use vstd::std_specs::bits::*;

verus! {

/// Two to the `|e|` where `e` is negative, else one.
pub open spec fn down_scale(e: int) -> nat {
    pow2(
        if e < 0 {
            (-e) as nat
        } else {
            0
        },
    )
}

/// Two to the `e` where `e` is positive, else one.
pub open spec fn up_scale(e: int) -> nat {
    pow2(
        if e > 0 {
            e as nat
        } else {
            0
        },
    )
}

/// The quantity `n / d` is `m * 2^e` exactly, or, where `sticky` is set, lies
/// strictly between `m * 2^e` and `(m + 1) * 2^e`.
pub open spec fn approximates(n: nat, d: nat, m: nat, e: int, sticky: bool) -> bool {
    let p = down_scale(e);
    let r = up_scale(e);
    if sticky {
        m * d * r < n * p && n * p < (m + 1) * d * r
    } else {
        n * p == m * d * r
    }
}

/// The number of bits of `m`: zero for zero, else the position of the
/// leading one, counted from one.
pub open spec fn bit_length(m: nat) -> nat
    decreases m,
{
    if m == 0 {
        0
    } else {
        bit_length(m / 2) + 1
    }
}

/// A number of `l` bits lies from two to the `l - 1` up to two to the `l`.
pub proof fn lemma_bit_length_bounds(m: nat)
    ensures
        m > 0 ==> pow2((bit_length(m) - 1) as nat) <= m < pow2(bit_length(m)),
        m == 0 ==> bit_length(m) == 0,
    decreases m,
{
    lemma2_to64();
    if m > 0 {
        let h = m / 2;
        lemma_bit_length_bounds(h);
        if h > 0 {
            lemma_pow2_unfold(bit_length(h));
            lemma_pow2_unfold(bit_length(m));
        } else {
            assert(bit_length(h) == 0);
            assert(bit_length(m) == 1);
        }
    }
}

/// The leading zeros of a 64-bit number are the bits that it does not use.
proof fn lemma_leading_zeros_is_bit_length(m: u64)
    ensures
        u64_leading_zeros(m) == 64 - bit_length(m as nat),
    decreases m,
{
    reveal(u64_leading_zeros);
    if m != 0 {
        lemma_leading_zeros_is_bit_length(m / 2);
    }
}

/// The number of bits of `m`.
pub fn bit_len(m: u64) -> (l: u32)
    ensures
        l == bit_length(m as nat),
        l <= 64,
        m > 0 ==> l >= 1 && pow2((l - 1) as nat) <= m < pow2(l as nat),
        m == 0 ==> l == 0,
{
    proof {
        lemma_leading_zeros_is_bit_length(m);
        lemma_bit_length_bounds(m as nat);
        axiom_u64_leading_zeros(m);
    }
    64 - m.leading_zeros()
}

/// Two to the `s`.
pub fn pow2_u64(s: u32) -> (r: u64)
    requires
        s < 64,
    ensures
        r == pow2(s as nat),
        r > 0,
{
    proof {
        lemma_u64_pow2_no_overflow(s as nat);
        lemma_u64_shl_is_mul(1, s as u64);
        lemma_pow2_pos(s as nat);
    }
    1u64 << (s as u64)
}

/// Where a quantity sits among the multiples of the spacing `k2` once its
/// significand `m` is cut into the kept part `q` and the dropped part `rem`.
proof fn lemma_round_step(
    n: nat,
    d: nat,
    m: nat,
    sticky: bool,
    p: nat,
    r: nat,
    s2: nat,
    k2: nat,
    q: nat,
    rem: nat,
)
    requires
        d > 0,
        p > 0,
        r > 0,
        k2 > 0,
        s2 % 2 == 0,
        s2 > 0,
        if sticky {
            m * d * r < n * p && n * p < (m + 1) * d * r
        } else {
            n * p == m * d * r
        },
        k2 * p == s2 * r,
        m == q * s2 + rem,
        rem < s2,
    ensures
        n >= q * k2 * d,
        n < (q + 1) * k2 * d,
        2 * rem < s2 ==> 2 * n < (2 * q + 1) * k2 * d,
        2 * rem > s2 ==> 2 * n > (2 * q + 1) * k2 * d,
        2 * rem == s2 && sticky ==> 2 * n > (2 * q + 1) * k2 * d,
        2 * rem == s2 && !sticky ==> 2 * n == (2 * q + 1) * k2 * d,
{
    let a = n * p;
    let t = d * r;
    let h = s2 / 2;
    assert(s2 == 2 * h);
    // The comparisons are made after scaling both sides by p.
    assert((q * k2 * d) * p == (q * s2) * t) by (nonlinear_arith)
        requires
            k2 * p == s2 * r,
            t == d * r,
    ;
    assert(((q + 1) * k2 * d) * p == ((q + 1) * s2) * t) by (nonlinear_arith)
        requires
            k2 * p == s2 * r,
            t == d * r,
    ;
    assert(((2 * q + 1) * k2 * d) * p == ((2 * q + 1) * s2) * t) by (nonlinear_arith)
        requires
            k2 * p == s2 * r,
            t == d * r,
    ;
    assert(m * d * r == m * t) by (nonlinear_arith)
        requires
            t == d * r,
    ;
    assert((m + 1) * d * r == (m + 1) * t) by (nonlinear_arith)
        requires
            t == d * r,
    ;
    assert(t > 0) by (nonlinear_arith)
        requires
            t == d * r,
            d > 0,
            r > 0,
    ;
    // q * s2 <= m < (q + 1) * s2
    assert(a >= (q * s2) * t) by (nonlinear_arith)
        requires
            a >= m * t,
            m >= q * s2,
            t > 0,
    ;
    assert(m + 1 <= (q + 1) * s2 && m >= q * s2) by (nonlinear_arith)
        requires
            m == q * s2 + rem,
            rem < s2,
    ;
    assert(a < ((q + 1) * s2) * t) by (nonlinear_arith)
        requires
            if sticky {
                a < (m + 1) * t
            } else {
                a == m * t
            },
            m + 1 <= (q + 1) * s2,
            t > 0,
    ;
    lemma_cancel_ge(n, q * k2 * d, p);
    lemma_cancel_lt(n, (q + 1) * k2 * d, p);
    let mid = (2 * q + 1) * k2 * d;
    assert((2 * q + 1) * s2 == 2 * (q * s2) + s2) by (nonlinear_arith);
    if 2 * rem < s2 {
        // 2 * (m + 1) <= (2 * q + 1) * s2, both sides being even
        assert(2 * (m + 1) <= (2 * q + 1) * s2) by (nonlinear_arith)
            requires
                m == q * s2 + rem,
                2 * rem < s2,
                s2 == 2 * h,
        ;
        assert(2 * a < ((2 * q + 1) * s2) * t) by (nonlinear_arith)
            requires
                if sticky {
                    a < (m + 1) * t
                } else {
                    a == m * t
                },
                2 * (m + 1) <= (2 * q + 1) * s2,
                t > 0,
        ;
        assert((2 * n) * p == 2 * a) by (nonlinear_arith)
            requires
                a == n * p,
        ;
        lemma_cancel_lt(2 * n, mid, p);
    }
    if 2 * rem > s2 || (2 * rem == s2 && sticky) {
        assert(2 * m >= (2 * q + 1) * s2) by (nonlinear_arith)
            requires
                m == q * s2 + rem,
                2 * rem >= s2,
        ;
        assert(2 * a > ((2 * q + 1) * s2) * t) by (nonlinear_arith)
            requires
                if sticky {
                    a > m * t
                } else {
                    a == m * t
                },
                2 * m >= (2 * q + 1) * s2,
                !sticky ==> 2 * m > (2 * q + 1) * s2,
                t > 0,
        ;
        assert((2 * n) * p == 2 * a) by (nonlinear_arith)
            requires
                a == n * p,
        ;
        lemma_cancel_gt(2 * n, mid, p);
    }
    if 2 * rem == s2 && !sticky {
        assert(2 * m == (2 * q + 1) * s2) by (nonlinear_arith)
            requires
                m == q * s2 + rem,
                2 * rem == s2,
        ;
        assert(2 * a == ((2 * q + 1) * s2) * t) by (nonlinear_arith)
            requires
                a == m * t,
                2 * m == (2 * q + 1) * s2,
        ;
        assert((2 * n) * p == 2 * a) by (nonlinear_arith)
            requires
                a == n * p,
        ;
        lemma_mul_equality_converse(p as int, (2 * n) as int, mid as int);
        assert(p * (2 * n) == (2 * n) * p) by (nonlinear_arith);
        assert(p * mid == mid * p) by (nonlinear_arith);
    }
}

/// A positive factor can be taken off both sides of `>=`.
proof fn lemma_cancel_ge(x: nat, y: nat, p: nat)
    requires
        p > 0,
        x * p >= y * p,
    ensures
        x >= y,
{
    assert(x >= y) by (nonlinear_arith)
        requires
            p > 0,
            x * p >= y * p,
    ;
}

/// A positive factor can be taken off both sides of `<`.
proof fn lemma_cancel_lt(x: nat, y: nat, p: nat)
    requires
        p > 0,
        x * p < y * p,
    ensures
        x < y,
{
    assert(x < y) by (nonlinear_arith)
        requires
            p > 0,
            x * p < y * p,
    ;
}

/// A positive factor can be taken off both sides of `>`.
proof fn lemma_cancel_gt(x: nat, y: nat, p: nat)
    requires
        p > 0,
        x * p > y * p,
    ensures
        x > y,
{
    assert(x > y) by (nonlinear_arith)
        requires
            p > 0,
            x * p > y * p,
    ;
}


/// The two scales of an exponent are positive, and one of them is one.
pub proof fn lemma_scales_positive(e: int)
    ensures
        down_scale(e) > 0,
        up_scale(e) > 0,
        e >= 0 ==> down_scale(e) == 1,
        e <= 0 ==> up_scale(e) == 1,
        e > 0 ==> up_scale(e) == pow2(e as nat),
        e < 0 ==> down_scale(e) == pow2((-e) as nat),
{
    lemma2_to64();
    if e < 0 {
        lemma_pow2_pos((-e) as nat);
    }
    if e > 0 {
        lemma_pow2_pos(e as nat);
    }
}

/// Two to the `k`, scaled down by `e`, is two to the `k - e`, scaled up by `e`.
proof fn lemma_scale_split(k: int, e: int, s: int)
    requires
        0 <= k,
        s == k - e,
        s >= 0,
    ensures
        pow2(k as nat) * down_scale(e) == pow2(s as nat) * up_scale(e),
{
    lemma_scales_positive(e);
    let a: nat = pow2(k as nat);
    let b: nat = pow2(s as nat);
    if e < 0 {
        lemma_pow2_adds(k as nat, (-e) as nat);
        assert(b * 1 == b) by (nonlinear_arith);
    } else if e > 0 {
        lemma_pow2_adds(s as nat, e as nat);
        assert(a * 1 == a) by (nonlinear_arith);
    } else {
        assert(a * 1 == b * 1);
    }
}

/// The case of `round_pack` in which the significand needs no rounding: it
/// is moved `left` places up and packed as it is.
proof fn lemma_pack_exact(n: nat, d: nat, m: nat, e: int, len: int, k: int, left: int, q: nat)
    requires
        d > 0,
        approximates(n, d, m, e, false),
        m > 0,
        1 <= len <= 64,
        pow2((len - 1) as nat) <= m < pow2(len as nat),
        k == if len + e - 24 > 0 {
            len + e - 24
        } else {
            0
        },
        k <= 253,
        left == e - k,
        left >= 0,
        q == m * pow2(left as nat),
    ensures
        q < 0x100_0000,
        k * HIDDEN_BIT + q < INFINITY,
        nearest(n, d, (k * HIDDEN_BIT + q) as u32),
{
    let p: nat = down_scale(e);
    let r: nat = up_scale(e);
    let k2: nat = pow2(k as nat);
    let l2: nat = pow2(left as nat);
    lemma_scales_positive(e);
    lemma2_to64();
    lemma_pow2_pos(left as nat);
    lemma_pow2_pos(k as nat);
    // len + left <= 24, so the shifted significand stays below 2^24
    lemma_pow2_adds(len as nat, left as nat);
    if len + left < 24 {
        lemma_pow2_strictly_increases((len + left) as nat, 24);
    }
    assert(q < 0x100_0000) by (nonlinear_arith)
        requires
            q == m * l2,
            m < pow2(len as nat),
            pow2(len as nat) * l2 <= 0x100_0000,
            l2 > 0,
    ;
    if k > 0 {
        lemma_pow2_adds((len - 1) as nat, left as nat);
        assert(q >= 0x80_0000) by (nonlinear_arith)
            requires
                q == m * l2,
                m >= pow2((len - 1) as nat),
                pow2((len - 1) as nat) * l2 == 0x80_0000,
                l2 > 0,
        ;
    }
    lemma_scaled_pack(k as nat, q);
    let bits: u32 = (k * HIDDEN_BIT + q) as u32;
    assert(k * HIDDEN_BIT + q < INFINITY) by (nonlinear_arith)
        requires
            k <= 253,
            q < 0x100_0000,
    ;
    lemma_pow2_adds(left as nat, k as nat);
    assert(l2 * k2 == r);
    assert(q * k2 == m * r) by (nonlinear_arith)
        requires
            q == m * l2,
            l2 * k2 == r,
    ;
    assert(n == scaled(bits) * d) by (nonlinear_arith)
        requires
            n * p == m * d * r,
            p == 1,
            scaled(bits) == m * r,
    ;
    lemma_nearest_exact(d, bits);
}

/// The case of `round_pack` in which `s` low bits of the significand are
/// dropped: the kept part `q`, raised by one where `up` says so, is packed.
proof fn lemma_pack_rounded(
    n: nat,
    d: nat,
    m: nat,
    e: int,
    sticky: bool,
    len: int,
    k: int,
    s: int,
    q: nat,
    rem: nat,
    up: bool,
)
    requires
        d > 0,
        approximates(n, d, m, e, sticky),
        m > 0,
        1 <= len <= 64,
        pow2((len - 1) as nat) <= m < pow2(len as nat),
        k == if len + e - 24 > 0 {
            len + e - 24
        } else {
            0
        },
        k <= 253,
        s == k - e,
        s >= 1,
        m == q * pow2(s as nat) + rem,
        rem < pow2(s as nat),
        up == (2 * rem > pow2(s as nat) || (2 * rem == pow2(s as nat) && (sticky || q % 2 == 1))),
    ensures
        q < 0x100_0000,
        k * HIDDEN_BIT + q + 1 <= INFINITY,
        nearest(
            n,
            d,
            (k * HIDDEN_BIT + q + if up {
                1int
            } else {
                0int
            }) as u32,
        ),
{
    let p: nat = down_scale(e);
    let r: nat = up_scale(e);
    let k2: nat = pow2(k as nat);
    let s2: nat = pow2(s as nat);
    lemma_scales_positive(e);
    lemma2_to64();
    lemma_pow2_pos(k as nat);
    lemma_pow2_pos(s as nat);
    lemma_pow2_unfold(s as nat);
    lemma_scale_split(k, e, s);
    lemma_round_step(n, d, m, sticky, p, r, s2, k2, q, rem);
    // the kept part has at most 24 bits, and exactly 24 above the lowest binade
    lemma_pow2_adds(24, s as nat);
    if k > 0 {
        lemma_pow2_adds(23, s as nat);
        assert(q < 0x100_0000 && q >= 0x80_0000) by (nonlinear_arith)
            requires
                m == q * s2 + rem,
                rem < s2,
                0x80_0000 * s2 <= m,
                m < 0x100_0000 * s2,
        ;
    } else {
        if len < 24 + s {
            lemma_pow2_strictly_increases(len as nat, (24 + s) as nat);
        }
        assert(q < 0x100_0000) by (nonlinear_arith)
            requires
                m == q * s2 + rem,
                m < 0x100_0000 * s2,
        ;
    }
    lemma_scaled_pack(k as nat, q);
    lemma_scaled_pack(k as nat, q + 1);
    let low: u32 = (k * HIDDEN_BIT + q) as u32;
    let high: u32 = (k * HIDDEN_BIT + q + 1) as u32;
    let mid: nat = (2 * q + 1) * k2 * d;
    assert(d * (scaled(low) + scaled(high)) == mid) by (nonlinear_arith)
        requires
            mid == (2 * q + 1) * k2 * d,
            scaled(low) == q * k2,
            scaled(high) == (q + 1) * k2,
    ;
    assert((k * HIDDEN_BIT) % 2 == 0) by (nonlinear_arith)
        requires
            HIDDEN_BIT == 0x80_0000,
    ;
    if up {
        if high < INFINITY {
            let next: u32 = (high + 1) as u32;
            lemma_scaled_increases(high, next);
            assert(2 * n < d * (scaled(high) + scaled(next))) by (nonlinear_arith)
                requires
                    n < (q + 1) * k2 * d,
                    scaled(high) == (q + 1) * k2,
                    scaled(high) < scaled(next),
                    d > 0,
            ;
        }
        assert(nearest(n, d, high));
    } else {
        if low > 0 {
            let prev: u32 = (low - 1) as u32;
            lemma_scaled_increases(prev, low);
            assert(2 * n > d * (scaled(prev) + scaled(low))) by (nonlinear_arith)
                requires
                    n >= q * k2 * d,
                    scaled(low) == q * k2,
                    scaled(prev) < scaled(low),
                    d > 0,
            ;
        }
        assert(nearest(n, d, low));
    }
}

/// Rounds the quantity that `m`, `e` and `sticky` describe to the nearest
/// magnitude, ties to even. The ghost pair `n / d` is the quantity itself.
pub fn round_pack(m: u64, e: i64, sticky: bool, Ghost(n): Ghost<nat>, Ghost(d): Ghost<nat>) -> (b:
    u32)
    requires
        d > 0,
        -0x100_0000_0000 <= e <= 0x100_0000_0000,
        approximates(n, d, m as nat, e as int, sticky),
        sticky ==> m >= 0x100_0000 || e < 0,
    ensures
        nearest(n, d, b),
        b == round_nearest(n, d),
{
    if m == 0 {
        proof {
            lemma_zero_rounds(n, d, e as int, sticky);
        }
        return 0;
    }
    let len: i64 = bit_len(m) as i64;
    let top: i64 = len + e - 24;
    let k: i64 = if top > 0 {
        top
    } else {
        0
    };
    if k > 253 {
        proof {
            lemma_overflow_rounds(n, d, m as nat, e as int, sticky, len as int);
        }
        return INFINITY;
    }
    let s: i64 = k - e;
    if s <= 0 {
        let left: u64 = (-s) as u64;
        proof {
            lemma2_to64();
            if len < 24 {
                lemma_pow2_strictly_increases(len as nat, 24);
            }
            assert(!sticky);
            lemma_pack_exact(
                n,
                d,
                m as nat,
                e as int,
                len as int,
                k as int,
                left as int,
                m as nat * pow2(left as nat),
            );
            lemma_u64_shl_is_mul(m, left);
        }
        let q: u64 = m << left;
        let bits: u32 = ((k as u64) * 0x80_0000 + q) as u32;
        proof {
            lemma_round_nearest_is(n, d, bits);
        }
        return bits;
    }
    if s > 64 {
        proof {
            lemma_tiny_rounds(n, d, m as nat, e as int, sticky);
        }
        return 0;
    }
    let half: u64 = pow2_u64((s - 1) as u32);
    let q: u64;
    let rem: u64;
    proof {
        lemma_pow2_unfold(s as nat);
        lemma2_to64_rest();
    }
    if s == 64 {
        q = 0;
        rem = m;
    } else {
        proof {
            let s2: nat = pow2(s as nat);
            lemma_pow2_pos(s as nat);
            if s < 63 {
                lemma_pow2_strictly_increases(s as nat, 63);
            }
            lemma_u64_shr_is_div(m, s as u64);
            vstd::arithmetic::div_mod::lemma_fundamental_div_mod(m as int, s2 as int);
            vstd::arithmetic::div_mod::lemma_mod_bound(m as int, s2 as int);
            assert(s2 * (m as int / s2 as int) == (m as int / s2 as int) * s2) by (nonlinear_arith);
        }
        q = m >> (s as u64);
        rem = m - q * (half + half);
    }
    let up: bool = rem > half || (rem == half && (sticky || q % 2 == 1));
    proof {
        lemma_pack_rounded(
            n,
            d,
            m as nat,
            e as int,
            sticky,
            len as int,
            k as int,
            s as int,
            q as nat,
            rem as nat,
            up,
        );
    }
    let bits: u32 = ((k as u64) * 0x80_0000 + q + if up {
        1u64
    } else {
        0u64
    }) as u32;
    proof {
        lemma_round_nearest_is(n, d, bits);
    }
    bits
}

/// A quantity below half a unit rounds to zero.
pub proof fn lemma_below_half_rounds(n: nat, d: nat)
    requires
        d > 0,
        2 * n < d,
    ensures
        nearest(n, d, 0),
        round_nearest(n, d) == 0,
{
    lemma2_to64();
    assert(scaled(0) == 0);
    assert(scaled(1) == 1);
    assert(d * (0 + 1) == d) by (nonlinear_arith);
    lemma_round_nearest_is(n, d, 0);
}

/// A quantity described with the significand zero rounds to zero.
proof fn lemma_zero_rounds(n: nat, d: nat, e: int, sticky: bool)
    requires
        d > 0,
        approximates(n, d, 0, e, sticky),
        sticky ==> e < 0,
    ensures
        nearest(n, d, 0),
        round_nearest(n, d) == 0,
{
    let p: nat = down_scale(e);
    let r: nat = up_scale(e);
    lemma2_to64();
    if sticky {
        lemma_pow2_unfold((-e) as nat);
        lemma_pow2_pos((-e - 1) as nat);
        assert(r == 1);
        assert(2 * n < d) by (nonlinear_arith)
            requires
                n * p < (0 + 1) * d * r,
                r == 1,
                p >= 2,
        ;
    } else {
        lemma_pow2_pos(
            if e < 0 {
                (-e) as nat
            } else {
                0
            },
        );
        assert(n == 0) by (nonlinear_arith)
            requires
                n * p == 0 * d * r,
                p > 0,
        ;
    }
    lemma_below_half_rounds(n, d);
}

/// A 64-bit significand with an exponent below minus 64 describes a
/// quantity that rounds to zero.
proof fn lemma_tiny_rounds(n: nat, d: nat, m: nat, e: int, sticky: bool)
    requires
        d > 0,
        approximates(n, d, m, e, sticky),
        m < 0x1_0000_0000_0000_0000,
        e < -64,
    ensures
        nearest(n, d, 0),
        round_nearest(n, d) == 0,
{
    let p: nat = down_scale(e);
    let r: nat = up_scale(e);
    lemma2_to64();
    lemma2_to64_rest();
    assert(r == 1);
    if 65 < -e {
        lemma_pow2_strictly_increases(65, (-e) as nat);
    }
    assert(pow2(65) == 2 * pow2(64)) by {
        lemma_pow2_unfold(65);
    }
    assert(n * p < (m + 1) * d * r) by (nonlinear_arith)
        requires
            if sticky {
                n * p < (m + 1) * d * r
            } else {
                n * p == m * d * r
            },
            d > 0,
            r == 1,
    ;
    assert(2 * n < d) by (nonlinear_arith)
        requires
            n * p < (m + 1) * d * r,
            r == 1,
            m + 1 <= 0x1_0000_0000_0000_0000,
            p >= 2 * 0x1_0000_0000_0000_0000,
            d > 0,
    ;
    lemma_below_half_rounds(n, d);
}

/// A quantity whose significand and exponent reach two to the 277th unit
/// rounds to infinity.
proof fn lemma_overflow_rounds(n: nat, d: nat, m: nat, e: int, sticky: bool, len: int)
    requires
        d > 0,
        approximates(n, d, m, e, sticky),
        1 <= len <= 64,
        pow2((len - 1) as nat) <= m,
        len + e - 24 > 253,
    ensures
        nearest(n, d, INFINITY),
        round_nearest(n, d) == INFINITY,
{
    let p: nat = down_scale(e);
    let r: nat = up_scale(e);
    lemma2_to64();
    assert(p == 1);
    assert(r == pow2(e as nat));
    lemma_scaled_pack(253, 0x100_0000);
    assert(253 * HIDDEN_BIT + 0x100_0000 == INFINITY);
    // the quantity is at least 2^(len - 1 + e), which is at least 2^277
    lemma_pow2_adds((len - 1) as nat, e as nat);
    lemma_pow2_adds(24, 253);
    if 277 < len - 1 + e {
        lemma_pow2_strictly_increases(277, (len - 1 + e) as nat);
    }
    assert(n >= scaled(INFINITY) * d) by (nonlinear_arith)
        requires
            n * p >= m * d * r,
            p == 1,
            m >= pow2((len - 1) as nat),
            pow2((len - 1) as nat) * r >= scaled(INFINITY),
            d > 0,
    ;
    let prev: u32 = (INFINITY - 1) as u32;
    lemma_scaled_increases(prev, INFINITY);
    assert(2 * n > d * (scaled(prev) + scaled(INFINITY))) by (nonlinear_arith)
        requires
            n >= scaled(INFINITY) * d,
            scaled(prev) < scaled(INFINITY),
            d > 0,
    ;
    lemma_round_nearest_is(n, d, INFINITY);
}

} // verus!
