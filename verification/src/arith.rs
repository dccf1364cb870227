//! The four operations of arithmetic, and order, on single precision patterns.
//!
//! Each operation returns the exact result rounded to nearest, ties to even,
//! as IEEE 754 prescribes. A NaN that an operation produces is `QUIET_NAN`.

use crate::ieee::{
    is_infinite, is_nan, is_negative, lemma_nearest_exact, lemma_scaled_increases,
    lemma_scaled_parts, lemma_step_ordered, magnitude, nearest, round_nearest, scaled, signed,
    significand, step, with_sign, HIDDEN_BIT, INFINITY, QUIET_NAN, SIGN_BIT,
};
use crate::pack::{
    approximates, bit_len, down_scale, lemma_below_half_rounds, lemma_scales_positive, round_pack,
    up_scale,
};
use vstd::arithmetic::mul::*;
use vstd::arithmetic::power2::*;
use vstd::bits::*;
use vstd::prelude::*;

verus! {

/// The product of two numbers.
pub open spec fn product(a: u32, b: u32) -> u32 {
    let negative = is_negative(a) != is_negative(b);
    if is_nan(a) || is_nan(b) {
        QUIET_NAN
    } else if is_infinite(a) || is_infinite(b) {
        if magnitude(a) == 0 || magnitude(b) == 0 {
            QUIET_NAN
        } else {
            with_sign(negative, INFINITY)
        }
    } else {
        with_sign(
            negative,
            round_nearest(scaled(magnitude(a)) * scaled(magnitude(b)), pow2(149)),
        )
    }
}

/// The quotient of two numbers.
pub open spec fn quotient(a: u32, b: u32) -> u32 {
    let negative = is_negative(a) != is_negative(b);
    if is_nan(a) || is_nan(b) {
        QUIET_NAN
    } else if is_infinite(a) {
        if is_infinite(b) {
            QUIET_NAN
        } else {
            with_sign(negative, INFINITY)
        }
    } else if is_infinite(b) {
        with_sign(negative, 0)
    } else if magnitude(b) == 0 {
        if magnitude(a) == 0 {
            QUIET_NAN
        } else {
            with_sign(negative, INFINITY)
        }
    } else {
        with_sign(
            negative,
            round_nearest(scaled(magnitude(a)) * pow2(149), scaled(magnitude(b))),
        )
    }
}

/// The sum of two numbers. An exact zero is negative only where both
/// operands are.
pub open spec fn sum(a: u32, b: u32) -> u32 {
    if is_nan(a) || is_nan(b) {
        QUIET_NAN
    } else if is_infinite(a) {
        if is_infinite(b) && is_negative(a) != is_negative(b) {
            QUIET_NAN
        } else {
            a
        }
    } else if is_infinite(b) {
        b
    } else {
        let t = signed(a) + signed(b);
        if t == 0 {
            with_sign(is_negative(a) && is_negative(b), 0)
        } else if t > 0 {
            round_nearest(t as nat, 1)
        } else {
            with_sign(true, round_nearest((-t) as nat, 1))
        }
    }
}

/// The number with the opposite sign.
pub open spec fn negated(a: u32) -> u32 {
    with_sign(!is_negative(a), magnitude(a))
}

/// The difference of two numbers.
pub open spec fn difference(a: u32, b: u32) -> u32 {
    sum(a, negated(b))
}

/// Whether `a` is less than `b`. No NaN is less than, or greater than, anything.
pub open spec fn less(a: u32, b: u32) -> bool {
    !is_nan(a) && !is_nan(b) && signed(a) < signed(b)
}

/// The whole number `v` as a number of the format.
pub open spec fn from_nat(v: nat) -> u32 {
    round_nearest(v * pow2(149), 1)
}

/// The pattern without its sign bit.
pub fn abs_bits(x: u32) -> (m: u32)
    ensures
        m == magnitude(x),
{
    if x >= SIGN_BIT {
        x - SIGN_BIT
    } else {
        x
    }
}

/// Whether the sign bit is set.
pub fn sign_of(x: u32) -> (s: bool)
    ensures
        s == is_negative(x),
{
    x >= SIGN_BIT
}

/// The pattern with magnitude `m` and the given sign.
pub fn signed_bits(negative: bool, m: u32) -> (x: u32)
    requires
        m < SIGN_BIT,
    ensures
        x == with_sign(negative, m),
        magnitude(x) == m,
        is_negative(x) == negative,
{
    if negative {
        m + SIGN_BIT
    } else {
        m
    }
}

/// Splits a magnitude into significand and exponent step.
pub fn unpack(m: u32) -> (r: (u64, i64))
    requires
        m <= INFINITY,
    ensures
        r.0 == significand(m),
        r.1 == step(m),
        scaled(m) == r.0 * pow2(r.1 as nat),
        r.0 < 0x100_0000,
        r.1 > 0 ==> r.0 >= 0x80_0000,
        0 <= r.1 <= 254,
        m < INFINITY ==> r.1 <= 253,
        m > 0 ==> r.0 > 0,
{
    proof {
        lemma_scaled_parts(m);
    }
    let e: u32 = m / HIDDEN_BIT;
    let f: u32 = m % HIDDEN_BIT;
    if e == 0 {
        (f as u64, 0i64)
    } else {
        ((HIDDEN_BIT + f) as u64, (e - 1) as i64)
    }
}

/// A significand times a power of two, over a power of two, is described by
/// the significand and the difference of the exponents.
pub proof fn lemma_approximates_powers(m: nat, a: nat, b: nat)
    ensures
        approximates(m * pow2(a), pow2(b), m, a - b, false),
{
    let e: int = a - b;
    lemma_scales_positive(e);
    let p: nat = down_scale(e);
    let r: nat = up_scale(e);
    if e < 0 {
        lemma_pow2_adds(a, (-e) as nat);
        assert((m * pow2(a)) * p == m * pow2(b) * r) by (nonlinear_arith)
            requires
                pow2(a) * p == pow2(b),
                r == 1,
        ;
    } else if e > 0 {
        lemma_pow2_adds(b, e as nat);
        assert((m * pow2(a)) * p == m * pow2(b) * r) by (nonlinear_arith)
            requires
                pow2(b) * r == pow2(a),
                p == 1,
        ;
    } else {
        assert((m * pow2(a)) * p == m * pow2(b) * r) by (nonlinear_arith)
            requires
                a == b,
                p == 1,
                r == 1,
        ;
    }
}

/// Multiplies two numbers.
pub fn times(a: u32, b: u32) -> (r: u32)
    ensures
        r == product(a, b),
{
    let ma: u32 = abs_bits(a);
    let mb: u32 = abs_bits(b);
    let negative: bool = sign_of(a) != sign_of(b);
    if ma > INFINITY || mb > INFINITY {
        return QUIET_NAN;
    }
    if ma == INFINITY || mb == INFINITY {
        if ma == 0 || mb == 0 {
            return QUIET_NAN;
        }
        return signed_bits(negative, INFINITY);
    }
    let (qa, ka) = unpack(ma);
    let (qb, kb) = unpack(mb);
    proof {
        assert(qa * qb < 0x1_0000_0000_0000) by (nonlinear_arith)
            requires
                qa < 0x100_0000,
                qb < 0x100_0000,
        ;
    }
    let m: u64 = qa * qb;
    let e: i64 = ka + kb - 149;
    let ghost n: nat = scaled(ma) * scaled(mb);
    let ghost d: nat = pow2(149);
    proof {
        lemma_pow2_pos(149);
        lemma_pow2_adds(ka as nat, kb as nat);
        assert(n == m as nat * pow2((ka + kb) as nat)) by (nonlinear_arith)
            requires
                n == (qa * pow2(ka as nat)) * (qb * pow2(kb as nat)),
                pow2((ka + kb) as nat) == pow2(ka as nat) * pow2(kb as nat),
                m == qa * qb,
        ;
        lemma_approximates_powers(m as nat, (ka + kb) as nat, 149);
    }
    let bits: u32 = round_pack(m, e, false, Ghost(n), Ghost(d));
    signed_bits(negative, bits)
}

/// Converts a whole number.
pub fn from_u64(v: u64) -> (r: u32)
    ensures
        r == from_nat(v as nat),
        !is_negative(r),
        !is_nan(r),
{
    proof {
        lemma_approximates_powers(v as nat, 149, 0);
        lemma2_to64();
    }
    round_pack(v, 149, false, Ghost(v as nat * pow2(149)), Ghost(1))
}


/// The quantity behind a division of significands: `top / qb`, kept as the
/// whole quotient `m` and a flag for a remainder, describes `n / d`.
proof fn lemma_quotient_approximates(
    qa: nat,
    ka: int,
    qb: nat,
    kb: int,
    z: int,
    m: nat,
    rem: nat,
)
    requires
        0 <= ka,
        0 <= kb,
        0 <= z,
        qb > 0,
        qa * pow2((z + 32) as nat) == m * qb + rem,
        rem < qb,
    ensures
        approximates(
            qa * pow2(ka as nat) * pow2(149),
            qb * pow2(kb as nat),
            m,
            ka - z - 32 + 149 - kb,
            rem != 0,
        ),
{
    let e: int = ka - z - 32 + 149 - kb;
    let n: nat = qa * pow2(ka as nat) * pow2(149);
    let d: nat = qb * pow2(kb as nat);
    let p: nat = down_scale(e);
    let r: nat = up_scale(e);
    lemma_scales_positive(e);
    // n * p == qa * 2^hi and d * r == qb * 2^lo with hi - lo == z + 32
    let hi: nat = (ka + 149 + if e < 0 {
        -e
    } else {
        0
    }) as nat;
    let lo: nat = (kb + if e > 0 {
        e
    } else {
        0
    }) as nat;
    let w: nat = pow2(lo);
    let top: nat = qa * pow2((z + 32) as nat);
    lemma_pow2_pos(lo);
    lemma_pow2_adds(ka as nat, 149);
    lemma_pow2_adds((ka + 149) as nat, (hi - ka - 149) as nat);
    lemma_pow2_adds(kb as nat, (lo - kb) as nat);
    lemma_pow2_adds(lo, (z + 32) as nat);
    assert(n * p == top * w) by (nonlinear_arith)
        requires
            n == qa * pow2(ka as nat) * pow2(149),
            pow2(ka as nat) * pow2(149) * p == pow2(hi),
            pow2(hi) == w * pow2((z + 32) as nat),
            top == qa * pow2((z + 32) as nat),
    ;
    assert(m * d * r == (m * qb) * w && (m + 1) * d * r == ((m + 1) * qb) * w)
        by (nonlinear_arith)
        requires
            d == qb * pow2(kb as nat),
            pow2(kb as nat) * r == w,
    ;
    if rem != 0 {
        assert((m * qb) * w < top * w && top * w < ((m + 1) * qb) * w) by (nonlinear_arith)
            requires
                top == m * qb + rem,
                0 < rem < qb,
                w > 0,
        ;
    }
}

/// Divides `a` by `b`.
pub fn over(a: u32, b: u32) -> (r: u32)
    ensures
        r == quotient(a, b),
{
    let ma: u32 = abs_bits(a);
    let mb: u32 = abs_bits(b);
    let negative: bool = sign_of(a) != sign_of(b);
    if ma > INFINITY || mb > INFINITY {
        return QUIET_NAN;
    }
    if ma == INFINITY {
        if mb == INFINITY {
            return QUIET_NAN;
        }
        return signed_bits(negative, INFINITY);
    }
    if mb == INFINITY {
        return signed_bits(negative, 0);
    }
    if mb == 0 {
        if ma == 0 {
            return QUIET_NAN;
        }
        return signed_bits(negative, INFINITY);
    }
    let (qa, ka) = unpack(ma);
    let (qb, kb) = unpack(mb);
    let ghost n: nat = scaled(ma) * pow2(149);
    let ghost d: nat = scaled(mb);
    proof {
        lemma_scaled_parts(mb);
    }
    if ma == 0 {
        proof {
            lemma_scaled_parts(ma);
            assert(n == 0) by (nonlinear_arith)
                requires
                    n == scaled(ma) * pow2(149),
                    scaled(ma) == 0,
            ;
            lemma_below_half_rounds(n, d);
        }
        return signed_bits(negative, 0);
    }
    // bring the dividend's significand up to 24 bits, then 32 more
    let len: u32 = bit_len(qa);
    proof {
        lemma2_to64();
        if len > 24 {
            lemma_pow2_strictly_increases(24, (len - 1) as nat);
        }
    }
    let z: i64 = 24 - len as i64;
    proof {
        lemma2_to64_rest();
        lemma_pow2_adds(len as nat, (z + 32) as nat);
        lemma_pow2_adds((len - 1) as nat, (z + 32) as nat);
        lemma_pow2_pos((z + 32) as nat);
        assert(qa * pow2((z + 32) as nat) < 0x100_0000_0000_0000 && qa * pow2((z + 32) as nat)
            >= 0x80_0000_0000_0000) by (nonlinear_arith)
            requires
                qa < pow2(len as nat),
                qa >= pow2((len - 1) as nat),
                pow2(len as nat) * pow2((z + 32) as nat) == 0x100_0000_0000_0000,
                pow2((len - 1) as nat) * pow2((z + 32) as nat) == 0x80_0000_0000_0000,
                pow2((z + 32) as nat) > 0,
        ;
        lemma_u64_shl_is_mul(qa, (z + 32) as u64);
    }
    let top: u64 = qa << ((z + 32) as u64);
    let m: u64 = top / qb;
    let rem: u64 = top % qb;
    let e: i64 = ka - z - 32 + 149 - kb;
    proof {
        vstd::arithmetic::div_mod::lemma_fundamental_div_mod(top as int, qb as int);
        assert(qb * m == m * qb) by (nonlinear_arith);
        lemma_quotient_approximates(
            qa as nat,
            ka as int,
            qb as nat,
            kb as int,
            z as int,
            m as nat,
            rem as nat,
        );
        assert(m >= 0x100_0000) by (nonlinear_arith)
            requires
                top == m * qb + rem,
                rem < qb,
                qb < 0x100_0000,
                top >= 0x80_0000_0000_0000,
        ;
    }
    let bits: u32 = round_pack(m, e, rem != 0, Ghost(n), Ghost(d));
    signed_bits(negative, bits)
}

/// Whether `a` is less than `b`.
pub fn is_less(a: u32, b: u32) -> (r: bool)
    ensures
        r == less(a, b),
{
    let ma: u32 = abs_bits(a);
    let mb: u32 = abs_bits(b);
    if ma > INFINITY || mb > INFINITY {
        return false;
    }
    proof {
        lemma_scaled_parts(ma);
        lemma_scaled_parts(mb);
        if ma < mb {
            lemma_scaled_increases(ma, mb);
        }
        if mb < ma {
            lemma_scaled_increases(mb, ma);
        }
    }
    let na: bool = sign_of(a);
    let nb: bool = sign_of(b);
    if na {
        if nb {
            mb < ma
        } else {
            ma != 0 || mb != 0
        }
    } else {
        if nb {
            false
        } else {
            ma < mb
        }
    }
}

/// The sum or difference of two aligned magnitudes, of which the first is
/// the greater, rounds as `round_pack` is asked to round it.
proof fn lemma_aligned_approximates(
    qa: nat,
    ka: int,
    qb: nat,
    kb: int,
    subtract: bool,
)
    requires
        0 <= kb <= ka,
        ka - kb <= 38,
        subtract ==> qa * pow2((ka - kb) as nat) >= qb,
    ensures
        approximates(
            if subtract {
                (qa * pow2(ka as nat) - qb * pow2(kb as nat)) as nat
            } else {
                qa * pow2(ka as nat) + qb * pow2(kb as nat)
            },
            1,
            if subtract {
                (qa * pow2((ka - kb) as nat) - qb) as nat
            } else {
                qa * pow2((ka - kb) as nat) + qb
            },
            kb,
            false,
        ),
{
    let shift: nat = pow2((ka - kb) as nat);
    let low: nat = pow2(kb as nat);
    lemma_scales_positive(kb);
    lemma_pow2_adds((ka - kb) as nat, kb as nat);
    lemma2_to64();
    let r: nat = up_scale(kb);
    assert(r == low);
    if subtract {
        assert((qa * pow2(ka as nat) - qb * low) * 1 == (qa * shift - qb) * 1 * r)
            by (nonlinear_arith)
            requires
                pow2(ka as nat) == shift * low,
                r == low,
        ;
        assert(qa * pow2(ka as nat) >= qb * low) by (nonlinear_arith)
            requires
                pow2(ka as nat) == shift * low,
                qa * shift >= qb,
        ;
    } else {
        assert((qa * pow2(ka as nat) + qb * low) * 1 == (qa * shift + qb) * 1 * r)
            by (nonlinear_arith)
            requires
                pow2(ka as nat) == shift * low,
                r == low,
        ;
    }
}

/// Where the smaller magnitude lies more than 38 exponent steps below the
/// greater, the sum or difference is the greater one nudged up or down.
proof fn lemma_distant_approximates(qa: nat, ka: int, sb: nat, subtract: bool)
    requires
        ka >= 27,
        qa >= 0x80_0000,
        0 < sb < pow2((ka - 2) as nat),
    ensures
        approximates(
            if subtract {
                (qa * pow2(ka as nat) - sb) as nat
            } else {
                qa * pow2(ka as nat) + sb
            },
            1,
            if subtract {
                (4 * qa - 1) as nat
            } else {
                4 * qa
            },
            ka - 2,
            true,
        ),
        qa * pow2(ka as nat) > sb,
{
    let w: nat = pow2((ka - 2) as nat);
    lemma_scales_positive(ka - 2);
    lemma_pow2_adds(2, (ka - 2) as nat);
    lemma2_to64();
    let r: nat = up_scale(ka - 2);
    assert(r == w);
    let sa: nat = qa * pow2(ka as nat);
    assert(sa == 4 * qa * w) by (nonlinear_arith)
        requires
            sa == qa * pow2(ka as nat),
            pow2(ka as nat) == 4 * w,
    ;
    assert(sa > sb) by (nonlinear_arith)
        requires
            sa == 4 * qa * w,
            sb < w,
            qa >= 1,
    ;
    if subtract {
        assert((4 * qa - 1) * 1 * r < (sa - sb) * 1 && (sa - sb) * 1 < ((4 * qa - 1) + 1) * 1 * r)
            by (nonlinear_arith)
            requires
                sa == 4 * qa * w,
                r == w,
                0 < sb < w,
                qa >= 1,
        ;
    } else {
        assert((4 * qa) * 1 * r < (sa + sb) * 1 && (sa + sb) * 1 < ((4 * qa) + 1) * 1 * r)
            by (nonlinear_arith)
            requires
                sa == 4 * qa * w,
                r == w,
                0 < sb < w,
        ;
    }
}

/// Adds two numbers.
pub fn plus(a: u32, b: u32) -> (r: u32)
    ensures
        r == sum(a, b),
{
    let ma0: u32 = abs_bits(a);
    let mb0: u32 = abs_bits(b);
    if ma0 > INFINITY || mb0 > INFINITY {
        return QUIET_NAN;
    }
    if ma0 == INFINITY {
        if mb0 == INFINITY && sign_of(a) != sign_of(b) {
            return QUIET_NAN;
        }
        return a;
    }
    if mb0 == INFINITY {
        return b;
    }
    // order the operands by magnitude
    let swap: bool = ma0 < mb0;
    let ma: u32 = if swap {
        mb0
    } else {
        ma0
    };
    let mb: u32 = if swap {
        ma0
    } else {
        mb0
    };
    let na: bool = if swap {
        sign_of(b)
    } else {
        sign_of(a)
    };
    let nb: bool = if swap {
        sign_of(a)
    } else {
        sign_of(b)
    };
    let ghost sa: nat = scaled(ma);
    let ghost sb: nat = scaled(mb);
    let ghost t: int = signed(a) + signed(b);
    proof {
        lemma_scaled_parts(ma);
        lemma_scaled_parts(mb);
        lemma_step_ordered(mb, ma);
        if mb < ma {
            lemma_scaled_increases(mb, ma);
        }
        assert(t == (if na {
            -(sa as int)
        } else {
            sa as int
        }) + (if nb {
            -(sb as int)
        } else {
            sb as int
        }));
    }
    if mb == 0 {
        if ma == 0 {
            return signed_bits(na && nb, 0);
        }
        proof {
            lemma_nearest_exact(1, ma);
            assert(sa * 1 == sa);
        }
        return signed_bits(na, ma);
    }
    let subtract: bool = na != nb;
    if subtract && ma == mb {
        return 0;
    }
    let (qa, ka) = unpack(ma);
    let (qb, kb) = unpack(mb);
    let gap: i64 = ka - kb;
    let ghost n: nat = if subtract {
        (sa - sb) as nat
    } else {
        sa + sb
    };
    let m: u64;
    let e: i64;
    let sticky: bool;
    if gap <= 38 {
        proof {
            lemma2_to64();
            lemma2_to64_rest();
            lemma_pow2_pos(gap as nat);
            if gap < 38 {
                lemma_pow2_strictly_increases(gap as nat, 38);
            }
            assert(qa * pow2(gap as nat) < 0x4000_0000_0000_0000) by (nonlinear_arith)
                requires
                    qa < 0x100_0000,
                    pow2(gap as nat) <= 0x40_0000_0000,
            ;
            lemma_u64_shl_is_mul(qa, gap as u64);
            lemma_pow2_adds(gap as nat, kb as nat);
            if subtract {
                assert(qa * pow2(gap as nat) >= qb) by (nonlinear_arith)
                    requires
                        sa > sb,
                        sa == qa * pow2(ka as nat),
                        sb == qb * pow2(kb as nat),
                        pow2(ka as nat) == pow2(gap as nat) * pow2(kb as nat),
                ;
            }
            lemma_aligned_approximates(qa as nat, ka as int, qb as nat, kb as int, subtract);
        }
        let wide: u64 = qa << (gap as u64);
        m = if subtract {
            wide - qb
        } else {
            wide + qb
        };
        e = kb;
        sticky = false;
    } else {
        proof {
            lemma_pow2_adds(24, kb as nat);
            lemma2_to64();
            lemma_pow2_pos(kb as nat);
            if 24 + kb < ka - 2 {
                lemma_pow2_strictly_increases((24 + kb) as nat, (ka - 2) as nat);
            }
            assert(sb < pow2((ka - 2) as nat)) by (nonlinear_arith)
                requires
                    sb == qb * pow2(kb as nat),
                    qb < 0x100_0000,
                    0x100_0000 * pow2(kb as nat) <= pow2((ka - 2) as nat),
                    pow2(kb as nat) > 0,
            ;
            lemma_distant_approximates(qa as nat, ka as int, sb, subtract);
        }
        m = if subtract {
            4 * qa - 1
        } else {
            4 * qa
        };
        e = ka - 2;
        sticky = true;
    }
    let bits: u32 = round_pack(m, e, sticky, Ghost(n), Ghost(1));
    signed_bits(na, bits)
}

/// The number with the opposite sign.
pub fn negate(a: u32) -> (r: u32)
    ensures
        r == negated(a),
{
    if a >= SIGN_BIT {
        a - SIGN_BIT
    } else {
        a + SIGN_BIT
    }
}

/// Subtracts `b` from `a`.
pub fn minus(a: u32, b: u32) -> (r: u32)
    ensures
        r == difference(a, b),
{
    plus(a, negate(b))
}

} // verus!
