//! Whole numbers of any size, for the exact arithmetic that reading a
//! decimal number takes.

use vstd::arithmetic::div_mod::*;
use vstd::arithmetic::mul::*;
use vstd::arithmetic::power2::*;
use vstd::prelude::*;

verus! {

/// The base of the limbs: two to the 32nd.
pub const BASE: u64 = 0x1_0000_0000;

/// The number that the limbs spell, least significant limb first.
pub open spec fn limbs_value(s: Seq<u32>) -> nat
    decreases s.len(),
{
    if s.len() == 0 {
        0
    } else {
        s[0] as nat + BASE as nat * limbs_value(s.drop_first())
    }
}

/// The weight of limb `k`.
pub open spec fn weight_of(k: nat) -> nat {
    pow2(32 * k)
}

/// The weight of a limb is the base times the weight of the limb before it.
pub proof fn lemma_weight_step(k: nat)
    ensures
        weight_of(k + 1) == BASE * weight_of(k),
        weight_of(k) > 0,
        weight_of(0) == 1,
{
    lemma2_to64();
    lemma_pow2_adds(32, 32 * k);
    lemma_pow2_pos(32 * k);
}

/// Appending a limb adds it at the weight of its place.
pub proof fn lemma_value_push(s: Seq<u32>, x: u32)
    ensures
        limbs_value(s.push(x)) == limbs_value(s) + x * weight_of(s.len()),
    decreases s.len(),
{
    lemma_weight_step(0);
    if s.len() == 0 {
        assert(s.push(x).drop_first() =~= Seq::<u32>::empty());
        assert(limbs_value(s.push(x)) == x as nat + BASE as nat * limbs_value(
            Seq::<u32>::empty(),
        ));
        assert(x * 1 == x);
    } else {
        let rest: Seq<u32> = s.drop_first();
        lemma_value_push(rest, x);
        assert(s.push(x).drop_first() =~= rest.push(x));
        lemma_weight_step(rest.len());
        assert(BASE as nat * (limbs_value(rest) + x * weight_of(rest.len())) == BASE as nat
            * limbs_value(rest) + x * weight_of(s.len())) by (nonlinear_arith)
            requires
                weight_of(s.len()) == BASE * weight_of(rest.len()),
        ;
    }
}

/// The limbs from place `k` on count in units of the weight of place `k`.
pub proof fn lemma_value_split(s: Seq<u32>, k: int)
    requires
        0 <= k <= s.len(),
    ensures
        limbs_value(s) == limbs_value(s.take(k)) + weight_of(k as nat) * limbs_value(s.skip(k)),
    decreases s.len() - k,
{
    lemma_weight_step(k as nat);
    if k == s.len() {
        assert(s.take(k) =~= s);
        assert(s.skip(k) =~= Seq::<u32>::empty());
        assert(weight_of(k as nat) * 0 == 0);
    } else {
        lemma_value_split(s, k + 1);
        let head: Seq<u32> = s.take(k);
        assert(s.take(k + 1) =~= head.push(s[k]));
        lemma_value_push(head, s[k]);
        assert(s.skip(k).drop_first() =~= s.skip(k + 1));
        let hi: nat = limbs_value(s.skip(k + 1));
        let w: nat = weight_of(k as nat);
        assert(w * (s[k] as nat + BASE as nat * hi) == s[k] * w + (BASE * w) * hi)
            by (nonlinear_arith);
    }
}

/// The limbs spell a number below the weight of the place after the last.
pub proof fn lemma_value_bound(s: Seq<u32>)
    ensures
        limbs_value(s) < weight_of(s.len()),
    decreases s.len(),
{
    lemma_weight_step(0);
    if s.len() > 0 {
        let rest: Seq<u32> = s.drop_first();
        lemma_value_bound(rest);
        lemma_weight_step(rest.len());
        assert(s[0] as nat + BASE as nat * limbs_value(rest) < BASE * weight_of(rest.len()))
            by (nonlinear_arith)
            requires
                s[0] < BASE,
                limbs_value(rest) + 1 <= weight_of(rest.len()),
        ;
    }
}

/// The limbs spell zero exactly where each of them is zero.
pub proof fn lemma_value_zero(s: Seq<u32>)
    ensures
        limbs_value(s) == 0 <==> forall|i: int| 0 <= i < s.len() ==> s[i] == 0,
    decreases s.len(),
{
    if s.len() > 0 {
        let rest: Seq<u32> = s.drop_first();
        lemma_value_zero(rest);
        if limbs_value(s) == 0 {
            assert(limbs_value(rest) == 0) by (nonlinear_arith)
                requires
                    s[0] as nat + BASE as nat * limbs_value(rest) == 0,
            ;
            assert forall|i: int| 0 <= i < s.len() implies s[i] == 0 by {
                if i > 0 {
                    assert(rest[i - 1] == s[i]);
                }
            }
        }
        if forall|i: int| 0 <= i < s.len() ==> s[i] == 0 {
            assert forall|i: int| 0 <= i < rest.len() implies rest[i] == 0 by {
                assert(rest[i] == s[i + 1]);
            }
            assert(BASE as nat * 0 == 0);
        }
    }
}

/// A whole number of any size.
pub struct BigNat {
    pub limbs: Vec<u32>,
}

impl View for BigNat {
    type V = nat;

    open spec fn view(&self) -> nat {
        limbs_value(self.limbs@)
    }
}

impl BigNat {
    /// The number zero.
    pub fn zero() -> (r: BigNat)
        ensures
            r@ == 0,
    {
        BigNat { limbs: Vec::new() }
    }

    /// Whether the number is zero.
    pub fn is_zero(&self) -> (b: bool)
        ensures
            b == (self@ == 0),
    {
        let mut i: usize = 0;
        while i < self.limbs.len()
            invariant
                i <= self.limbs@.len(),
                forall|j: int| 0 <= j < i ==> self.limbs@[j] == 0,
            decreases self.limbs@.len() - i,
        {
            if self.limbs[i] != 0 {
                proof {
                    lemma_value_zero(self.limbs@);
                }
                return false;
            }
            i += 1;
        }
        proof {
            lemma_value_zero(self.limbs@);
        }
        true
    }

    /// Multiplies the number by `factor` and adds `addend`.
    pub fn mul_add(&mut self, factor: u32, addend: u32)
        ensures
            final(self)@ == old(self)@ * factor + addend,
    {
        let ghost before: Seq<u32> = self.limbs@;
        let mut out: Vec<u32> = Vec::new();
        let mut carry: u64 = addend as u64;
        let mut i: usize = 0;
        proof {
            lemma_weight_step(0);
            assert(before.take(0) =~= Seq::<u32>::empty());
            assert(limbs_value(Seq::<u32>::empty()) == 0);
            assert(carry * 1 == carry);
            assert(0 * factor == 0);
        }
        while i < self.limbs.len()
            invariant
                i <= before.len(),
                self.limbs@ == before,
                out@.len() == i,
                carry < BASE,
                limbs_value(out@) + carry * weight_of(i as nat) == limbs_value(before.take(i as int))
                    * factor + addend,
            decreases before.len() - i,
        {
            let limb: u64 = self.limbs[i] as u64;
            proof {
                assert(limb * factor + carry < BASE * BASE) by (nonlinear_arith)
                    requires
                        limb < BASE,
                        factor < BASE,
                        carry < BASE,
                ;
            }
            let wide: u64 = limb * (factor as u64) + carry;
            let low: u32 = (wide % BASE) as u32;
            let high: u64 = wide / BASE;
            proof {
                let w: nat = weight_of(i as nat);
                lemma_weight_step(i as nat);
                lemma_value_push(out@, low);
                assert(before.take(i + 1) =~= before.take(i as int).push(before[i as int]));
                lemma_value_push(before.take(i as int), before[i as int]);
                assert(low * w + high * (BASE * w) == (limb * factor + carry) * w)
                    by (nonlinear_arith)
                    requires
                        wide == limb * factor + carry,
                        wide == high * BASE + low,
                ;
                assert((limbs_value(before.take(i as int)) + limb * w) * factor
                    == limbs_value(before.take(i as int)) * factor + (limb * factor) * w)
                    by (nonlinear_arith);
                assert((limb * factor + carry) * w == (limb * factor) * w + carry * w)
                    by (nonlinear_arith);
            }
            out.push(low);
            carry = high;
            i += 1;
        }
        proof {
            assert(before.take(i as int) =~= before);
            lemma_value_push(out@, carry as u32);
        }
        if carry != 0 {
            out.push(carry as u32);
        } else {
            assert(carry * weight_of(i as nat) == 0) by (nonlinear_arith)
                requires
                    carry == 0,
            ;
        }
        self.limbs = out;
    }

    /// Divides the number by `divisor` and returns the remainder.
    pub fn div_rem(&mut self, divisor: u32) -> (rem: u32)
        requires
            divisor > 0,
        ensures
            old(self)@ == final(self)@ * divisor + rem,
            rem < divisor,
            final(self).limbs@.len() == old(self).limbs@.len(),
    {
        let ghost before: Seq<u32> = self.limbs@;
        let mut rem: u64 = 0;
        let mut i: usize = self.limbs.len();
        proof {
            assert(before.skip(i as int) =~= Seq::<u32>::empty());
            assert(self.limbs@.skip(i as int) =~= Seq::<u32>::empty());
            assert(limbs_value(Seq::<u32>::empty()) == 0);
            assert(0 * divisor == 0);
        }
        while i > 0
            invariant
                i <= before.len(),
                self.limbs@.len() == before.len(),
                rem < divisor,
                forall|j: int| 0 <= j < i ==> self.limbs@[j] == before[j],
                limbs_value(before.skip(i as int)) == limbs_value(self.limbs@.skip(i as int))
                    * divisor + rem,
            decreases i,
        {
            i -= 1;
            let ghost prior: Seq<u32> = self.limbs@;
            proof {
                assert(rem * BASE + self.limbs@[i as int] < BASE * BASE) by (nonlinear_arith)
                    requires
                        rem < BASE,
                        self.limbs@[i as int] < BASE,
                ;
            }
            let cur: u64 = rem * BASE + self.limbs[i] as u64;
            let q: u64 = cur / (divisor as u64);
            let r: u64 = cur % (divisor as u64);
            proof {
                lemma_fundamental_div_mod(cur as int, divisor as int);
                assert(q < BASE) by (nonlinear_arith)
                    requires
                        cur == divisor * q + r,
                        cur < rem * BASE + BASE,
                        rem + 1 <= divisor,
                        r >= 0,
                        divisor > 0,
                ;
            }
            self.limbs.set(i, q as u32);
            proof {
                let now: Seq<u32> = self.limbs@;
                assert(now.skip(i as int).drop_first() =~= prior.skip(i + 1));
                assert(before.skip(i as int).drop_first() =~= before.skip(i + 1));
                assert(now.skip(i as int)[0] == q);
                assert(before.skip(i as int)[0] == before[i as int]);
                let hi_q: nat = limbs_value(prior.skip(i + 1));
                let hi_b: nat = limbs_value(before.skip(i + 1));
                assert(before[i as int] as nat + BASE as nat * hi_b == (q + BASE as nat * hi_q)
                    * divisor + r) by (nonlinear_arith)
                    requires
                        hi_b == hi_q * divisor + rem,
                        rem * BASE + before[i as int] == divisor * q + r,
                ;
            }
            rem = r;
        }
        proof {
            assert(before.skip(0) =~= before);
            assert(self.limbs@.skip(0) =~= self.limbs@);
        }
        rem as u32
    }
}


/// The leading part of a number: `lead` counts in units of the weight of
/// limb `skipped`, and `sticky` says whether anything lies below it.
pub struct Leading {
    pub lead: u64,
    pub skipped: usize,
    pub sticky: bool,
}

impl BigNat {
    /// The two most significant limbs of the number, with the place they
    /// stand at and the word whether the limbs below them hold anything.
    pub fn leading(&self) -> (r: Leading)
        ensures
            r.lead * weight_of(r.skipped as nat) <= self@ < (r.lead + 1) * weight_of(
                r.skipped as nat,
            ),
            r.sticky == (self@ != r.lead * weight_of(r.skipped as nat)),
            r.skipped > 0 ==> r.lead >= BASE,
            r.skipped <= self.limbs@.len(),
    {
        let ghost s: Seq<u32> = self.limbs@;
        let mut n: usize = self.limbs.len();
        while n > 0 && self.limbs[n - 1] == 0
            invariant
                n <= s.len(),
                s == self.limbs@,
                forall|j: int| n <= j < s.len() ==> s[j] == 0,
            decreases n,
        {
            n -= 1;
        }
        proof {
            // the limbs from n on are zero, so the first n limbs spell the number
            lemma_value_split(s, n as int);
            lemma_value_zero(s.skip(n as int));
            assert(weight_of(n as nat) * 0 == 0);
            lemma_weight_step(0);
        }
        let ghost head: Seq<u32> = s.take(n as int);
        assert(limbs_value(s) == limbs_value(head));
        if n <= 2 {
            let low: u64 = if n >= 1 {
                self.limbs[0] as u64
            } else {
                0
            };
            let high: u64 = if n == 2 {
                self.limbs[1] as u64
            } else {
                0
            };
            proof {
                lemma_two_limbs(head);
                assert(high * BASE + low <= 0xffff_ffff * BASE + 0xffff_ffff) by (nonlinear_arith)
                    requires
                        high <= 0xffff_ffff,
                        low <= 0xffff_ffff,
                ;
                assert((high * BASE + low) * 1 == high * BASE + low);
                assert((high * BASE + low + 1) * 1 == high * BASE + low + 1);
            }
            return Leading { lead: high * BASE + low, skipped: 0, sticky: false };
        }
        let k: usize = n - 2;
        let low: u64 = self.limbs[k] as u64;
        let high: u64 = self.limbs[k + 1] as u64;
        proof {
            assert(high * BASE + low <= 0xffff_ffff * BASE + 0xffff_ffff && high * BASE + low
                >= BASE) by (nonlinear_arith)
                requires
                    1 <= high <= 0xffff_ffff,
                    low <= 0xffff_ffff,
            ;
        }
        let lead: u64 = high * BASE + low;
        let mut sticky: bool = false;
        let mut i: usize = 0;
        while i < k
            invariant
                i <= k <= s.len(),
                s == self.limbs@,
                sticky == exists|j: int| 0 <= j < i && s[j] != 0,
            decreases k - i,
        {
            if self.limbs[i] != 0 {
                sticky = true;
            }
            i += 1;
        }
        proof {
            let below: Seq<u32> = head.take(k as int);
            let above: Seq<u32> = head.skip(k as int);
            let w: nat = weight_of(k as nat);
            lemma_value_split(head, k as int);
            lemma_two_limbs(above);
            assert(limbs_value(above) == lead);
            lemma_value_bound(below);
            lemma_value_zero(below);
            assert(forall|j: int| 0 <= j < k ==> below[j] == s[j]);
            assert(sticky == (limbs_value(below) != 0));
            assert(w * lead == lead * w && (lead + 1) * w == lead * w + w) by (nonlinear_arith);
        }
        Leading { lead, skipped: k, sticky }
    }
}

/// Up to two limbs spell their own sum of weights.
proof fn lemma_two_limbs(s: Seq<u32>)
    requires
        s.len() <= 2,
    ensures
        s.len() == 0 ==> limbs_value(s) == 0,
        s.len() == 1 ==> limbs_value(s) == s[0],
        s.len() == 2 ==> limbs_value(s) == s[0] + BASE * s[1],
{
    if s.len() >= 1 {
        let rest: Seq<u32> = s.drop_first();
        if s.len() == 2 {
            assert(rest.drop_first().len() == 0);
            assert(limbs_value(rest.drop_first()) == 0);
            assert(limbs_value(rest) == rest[0] as nat + BASE as nat * 0);
        } else {
            assert(limbs_value(rest) == 0);
        }
    }
}

} // verus!
