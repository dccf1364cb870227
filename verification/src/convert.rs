//! Conversions between single precision patterns and whole numbers, and the
//! clamp to the unit interval.

use crate::arith::{abs_bits, from_nat, is_less, less, sign_of, unpack};
use crate::ieee::{
    is_nan, is_negative, lemma_nearest_exact, lemma_scaled_increases, lemma_scaled_pack,
    lemma_scaled_parts, magnitude, scaled, signed, HIDDEN_BIT, INFINITY, ONE,
};
use crate::pack::{bit_length, lemma_bit_length_bounds};
use vstd::arithmetic::div_mod::*;
use vstd::arithmetic::power2::*;
use vstd::bits::*;
use vstd::prelude::*;

verus! {

/// The whole part of a number that is not negative; zero for a negative
/// number and for a NaN.
pub open spec fn whole_part(x: u32) -> nat {
    if is_nan(x) || is_negative(x) {
        0
    } else {
        scaled(magnitude(x)) / pow2(149)
    }
}

/// The whole number nearest to a number that is not negative, a half going
/// up; zero for a negative number and for a NaN.
pub open spec fn nearest_whole(x: u32) -> nat {
    if is_nan(x) || is_negative(x) {
        0
    } else {
        (2 * scaled(magnitude(x)) + pow2(149)) / pow2(150)
    }
}

/// The smaller of two whole numbers.
pub open spec fn at_most(v: nat, cap: nat) -> nat {
    if v <= cap {
        v
    } else {
        cap
    }
}

/// The number clamped to the interval from zero to one: zero where it is
/// less than zero, one where it is greater than one, else itself. A NaN
/// stays a NaN, and a negative zero stays negative.
pub open spec fn clamp_unit(x: u32) -> u32 {
    if less(x, 0) {
        0
    } else if less(ONE, x) {
        ONE
    } else {
        x
    }
}

/// Whether the number, in units of 2^-149, is a whole multiple of 2^149.
pub open spec fn is_whole(x: u32) -> bool {
    !is_nan(x) && scaled(magnitude(x)) % pow2(149) == 0
}

/// The pattern `ONE` is the number one: 2^149 units.
pub proof fn lemma_one()
    ensures
        scaled(ONE) == pow2(149),
        signed(ONE) == pow2(149),
        scaled(0) == 0,
{
    lemma2_to64();
    lemma_scaled_pack(126, 0x80_0000);
    lemma_pow2_adds(23, 126);
}

/// A clamped number is a NaN or lies between zero and one.
pub proof fn lemma_clamp_unit_range(x: u32)
    ensures
        is_nan(clamp_unit(x)) || (magnitude(clamp_unit(x)) <= ONE && signed(clamp_unit(x)) >= 0),
        is_nan(clamp_unit(x)) <==> is_nan(x),
{
    lemma_one();
    let c: u32 = clamp_unit(x);
    if !is_nan(x) && !less(x, 0) && !less(ONE, x) {
        lemma_scaled_parts(magnitude(x));
        if magnitude(x) > ONE {
            lemma_scaled_increases(ONE, magnitude(x));
        }
    }
}

/// Whole numbers below 2^24 are numbers of the format.
pub proof fn lemma_from_nat_exact(v: nat)
    requires
        v < 0x100_0000,
    ensures
        scaled(from_nat(v)) == v * pow2(149),
        from_nat(v) < INFINITY,
        whole_part(from_nat(v)) == v,
        nearest_whole(from_nat(v)) == v,
        is_whole(from_nat(v)),
{
    lemma2_to64();
    lemma_pow2_pos(149);
    let n: nat = v * pow2(149);
    if v == 0 {
        assert(n == 0) by (nonlinear_arith)
            requires
                n == 0 * pow2(149),
        ;
        lemma_nearest_exact(1, 0);
        assert(scaled(0) * 1 == 0);
    } else {
        let len: nat = bit_length(v);
        lemma_bit_length_bounds(v);
        if len > 24 {
            lemma_pow2_strictly_increases(24, (len - 1) as nat);
        }
        let up: nat = pow2((24 - len) as nat);
        let q: nat = v * up;
        let k: nat = (125 + len) as nat;
        lemma_pow2_adds(len, (24 - len) as nat);
        lemma_pow2_adds((len - 1) as nat, (24 - len) as nat);
        lemma_pow2_pos((24 - len) as nat);
        assert(0x80_0000 <= q < 0x100_0000) by (nonlinear_arith)
            requires
                q == v * up,
                pow2((len - 1) as nat) <= v < pow2(len),
                pow2((len - 1) as nat) * up == 0x80_0000,
                pow2(len) * up == 0x100_0000,
                up > 0,
        ;
        lemma_scaled_pack(k, q);
        let b: u32 = (k * HIDDEN_BIT + q) as u32;
        lemma_pow2_adds((24 - len) as nat, k);
        assert(scaled(b) == n) by (nonlinear_arith)
            requires
                scaled(b) == q * pow2(k),
                q == v * up,
                up * pow2(k) == pow2(149),
                n == v * pow2(149),
        ;
        lemma_nearest_exact(1, b);
        assert(scaled(b) * 1 == scaled(b));
        assert(b < INFINITY) by (nonlinear_arith)
            requires
                b == k * HIDDEN_BIT + q,
                k <= 149,
                q < 0x100_0000,
                HIDDEN_BIT == 0x80_0000,
        ;
    }
    let b: u32 = from_nat(v);
    assert(scaled(b) == n);
    lemma_div_by_multiple(v as int, pow2(149) as int);
    lemma_mod_multiples_basic(v as int, pow2(149) as int);
    lemma_whole_rounds_to_itself(b, v);
}

/// A whole number is its own nearest whole number.
pub proof fn lemma_whole_rounds_to_itself(x: u32, v: nat)
    requires
        !is_nan(x),
        !is_negative(x),
        scaled(magnitude(x)) == v * pow2(149),
    ensures
        nearest_whole(x) == v,
        whole_part(x) == v,
{
    let w: nat = pow2(149);
    lemma_pow2_pos(149);
    lemma_pow2_unfold(150);
    lemma_div_by_multiple(v as int, w as int);
    assert(2 * (v * w) + w == (2 * v + 1) * w) by (nonlinear_arith);
    lemma_div_multiples_vanish_quotient(w as int, (2 * v + 1) as int, 2);
    assert(w * (2 * v + 1) == (2 * v + 1) * w) by (nonlinear_arith);
    assert(w * 2 == pow2(150));
}

/// Clamps a number to the interval from zero to one.
pub fn clamp_to_unit(x: u32) -> (r: u32)
    ensures
        r == clamp_unit(x),
{
    if is_less(x, 0) {
        0
    } else if is_less(ONE, x) {
        ONE
    } else {
        x
    }
}

/// The whole part of a number, at most `cap`.
pub fn whole_part_capped(x: u32, cap: u64) -> (r: u64)
    ensures
        r == at_most(whole_part(x), cap as nat),
{
    let m: u32 = abs_bits(x);
    if m > INFINITY || sign_of(x) {
        return 0;
    }
    let (q, k) = unpack(m);
    let ghost w: nat = pow2(149);
    proof {
        lemma_pow2_pos(149);
        lemma2_to64();
        lemma2_to64_rest();
    }
    if k >= 149 {
        let sh: i64 = k - 149;
        proof {
            lemma_pow2_adds(sh as nat, 149);
            lemma_pow2_pos(sh as nat);
            assert(scaled(m) == (q * pow2(sh as nat)) * w) by (nonlinear_arith)
                requires
                    scaled(m) == q * pow2(k as nat),
                    pow2(k as nat) == pow2(sh as nat) * w,
            ;
            lemma_div_by_multiple((q * pow2(sh as nat)) as int, w as int);
        }
        if sh > 40 {
            proof {
                if sh > 41 {
                    lemma_pow2_strictly_increases(41, sh as nat);
                }
                assert(q * pow2(sh as nat) >= 0x1_0000_0000_0000_0000) by (nonlinear_arith)
                    requires
                        q >= 0x80_0000,
                        pow2(sh as nat) >= 2 * 0x100_0000_0000,
                ;
            }
            return cap;
        }
        proof {
            if sh < 40 {
                lemma_pow2_strictly_increases(sh as nat, 40);
            }
            assert(q * pow2(sh as nat) < 0x1_0000_0000_0000_0000) by (nonlinear_arith)
                requires
                    q < 0x100_0000,
                    pow2(sh as nat) <= 0x100_0000_0000,
            ;
            lemma_u64_shl_is_mul(q, sh as u64);
        }
        let v: u64 = q << (sh as u64);
        if v <= cap {
            v
        } else {
            cap
        }
    } else {
        let sh: i64 = 149 - k;
        proof {
            lemma_pow2_adds(k as nat, sh as nat);
            lemma_pow2_pos(k as nat);
            lemma_pow2_pos(sh as nat);
            lemma_div_multiples_vanish_quotient(
                pow2(k as nat) as int,
                q as int,
                pow2(sh as nat) as int,
            );
            assert(pow2(k as nat) * q == q * pow2(k as nat)) by (nonlinear_arith);
        }
        if sh >= 24 {
            proof {
                if sh > 24 {
                    lemma_pow2_strictly_increases(24, sh as nat);
                }
                lemma_basic_div(q as int, pow2(sh as nat) as int);
            }
            return 0;
        }
        proof {
            lemma_u64_shr_is_div(q, sh as u64);
        }
        let v: u64 = q >> (sh as u64);
        if v <= cap {
            v
        } else {
            cap
        }
    }
}

/// The whole number nearest to a number, a half going up, at most `cap`.
pub fn nearest_whole_capped(x: u32, cap: u64) -> (r: u64)
    ensures
        r == at_most(nearest_whole(x), cap as nat),
{
    let m: u32 = abs_bits(x);
    if m > INFINITY || sign_of(x) {
        return 0;
    }
    let (q, k) = unpack(m);
    if k >= 149 {
        proof {
            let sh: nat = (k - 149) as nat;
            lemma_pow2_adds(sh, 149);
            assert(scaled(m) == (q * pow2(sh)) * pow2(149)) by (nonlinear_arith)
                requires
                    scaled(m) == q * pow2(k as nat),
                    pow2(k as nat) == pow2(sh) * pow2(149),
            ;
            lemma_whole_rounds_to_itself(x, q as nat * pow2(sh));
        }
        return whole_part_capped(x, cap);
    }
    let sh: i64 = 149 - k;
    let ghost low: nat = pow2((k + 1) as nat);
    let ghost half: nat = pow2((sh - 1) as nat);
    proof {
        lemma2_to64();
        lemma2_to64_rest();
        lemma_pow2_unfold((k + 1) as nat);
        lemma_pow2_adds((k + 1) as nat, (sh - 1) as nat);
        lemma_pow2_adds((k + 1) as nat, sh as nat);
        lemma_pow2_pos((k + 1) as nat);
        lemma_pow2_pos(sh as nat);
        lemma_pow2_pos((sh - 1) as nat);
        lemma_pow2_unfold(sh as nat);
        assert(2 * scaled(m) + pow2(149) == low * (q + half)) by (nonlinear_arith)
            requires
                scaled(m) == q * pow2(k as nat),
                low == 2 * pow2(k as nat),
                pow2(149) == low * half,
        ;
        lemma_div_multiples_vanish_quotient(low as int, (q + half) as int, pow2(sh as nat) as int);
    }
    if sh >= 25 {
        proof {
            if sh > 25 {
                lemma_pow2_strictly_increases(24, (sh - 1) as nat);
            }
            lemma_basic_div((q + half) as int, pow2(sh as nat) as int);
        }
        return 0;
    }
    proof {
        if sh < 24 {
            lemma_pow2_strictly_increases((sh - 1) as nat, 23);
        }
        lemma_u64_shl_is_mul(1, (sh - 1) as u64);
        lemma_u64_shr_is_div((q + half) as u64, sh as u64);
    }
    let v: u64 = (q + (1u64 << ((sh - 1) as u64))) >> (sh as u64);
    if v <= cap {
        v
    } else {
        cap
    }
}

} // verus!
