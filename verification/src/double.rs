//! IEEE 754 binary64 numbers, held as their bit patterns, with the arithmetic of the standard:
//! each operation gives the double nearest to the exact result, and of two that are equally near
//! the one with an even significand.
//!
//! The magnitude of a double is modelled as a whole number of the smallest positive double,
//! `2^-1074`. One second is therefore `2^1074` of these units.

use crate::natural::Natural;
use crate::rounding;
use vstd::arithmetic::div_mod;
use vstd::arithmetic::power2;
use vstd::prelude::*;

verus! {

/// A double, by its bit pattern: the sign in the highest bit, then 11 bits of exponent, then 52
/// bits of fraction.
#[derive(Clone, Copy, Debug, PartialEq, Eq, Structural)]
pub struct Double {
    pub bits: u64,
}

/// The magnitude of the number 1, in units.
pub open spec fn unit() -> nat {
    power2::pow2(1074)
}

/// The magnitude that stands for infinity, in units: `2^1024`, one step above the largest double.
pub open spec fn infinite_magnitude() -> nat {
    power2::pow2(2098)
}

/// What is left of a magnitude after overflow to infinity.
pub open spec fn saturated(magnitude: nat) -> nat {
    if magnitude < infinite_magnitude() {
        magnitude
    } else {
        infinite_magnitude()
    }
}

/// What is left of a whole number after saturation to 64 bits.
pub open spec fn at_most_u64(n: nat) -> nat {
    if n <= u64::MAX {
        n
    } else {
        u64::MAX as nat
    }
}

impl Double {
    pub open spec fn negative(self) -> bool {
        self.bits >= 0x8000_0000_0000_0000
    }

    pub open spec fn biased(self) -> nat {
        ((self.bits / 0x10_0000_0000_0000) % 2048) as nat
    }

    pub open spec fn fraction(self) -> nat {
        (self.bits % 0x10_0000_0000_0000) as nat
    }

    pub open spec fn is_nan(self) -> bool {
        self.biased() == 2047 && self.fraction() != 0
    }

    pub open spec fn finite(self) -> bool {
        self.biased() != 2047
    }

    pub open spec fn infinite(self) -> bool {
        self.biased() == 2047 && self.fraction() == 0
    }

    pub open spec fn significand(self) -> nat {
        if self.biased() == 0 {
            self.fraction()
        } else {
            0x10_0000_0000_0000 + self.fraction()
        }
    }

    /// The power of two that the significand is to be multiplied with, in units.
    pub open spec fn exponent(self) -> nat {
        if self.biased() == 0 {
            0
        } else {
            (self.biased() - 1) as nat
        }
    }

    /// The absolute value, in units.
    pub open spec fn magnitude(self) -> nat {
        self.significand() * power2::pow2(self.exponent())
    }

    /// The value, in units.
    pub open spec fn value(self) -> int {
        if self.negative() {
            -(self.magnitude() as int)
        } else {
            self.magnitude() as int
        }
    }
}

/// The double of that sign nearest to `num / den` units, or infinity where that is too large.
pub open spec fn rounded(negative: bool, num: nat, den: nat) -> Double {
    choose|d: Double|
        !d.is_nan() && d.negative() == negative && d.magnitude() == saturated(
            rounding::nearest(num, den),
        )
}

/// The double of a whole number.
pub open spec fn whole(n: nat) -> Double {
    rounded(false, n * unit(), 1)
}

/// The double nearest to the fraction `num / den`.
pub open spec fn fraction(num: nat, den: nat) -> Double {
    rounded(false, num * unit(), den)
}

/// The result of an operation that has none.
pub open spec fn nan() -> Double {
    Double { bits: 0x7ff8_0000_0000_0000 }
}

/// Infinity of that sign.
pub open spec fn infinity(negative: bool) -> Double {
    if negative {
        Double { bits: 0xfff0_0000_0000_0000 }
    } else {
        Double { bits: 0x7ff0_0000_0000_0000 }
    }
}

/// The sum of two doubles.
pub open spec fn sum(a: Double, b: Double) -> Double {
    let exact = a.value() + b.value();
    if a.is_nan() || b.is_nan() {
        nan()
    } else if a.infinite() {
        if b.infinite() && a.negative() != b.negative() {
            nan()
        } else {
            a
        }
    } else if b.infinite() {
        b
    } else if exact == 0 {
        rounded(a.negative() && b.negative(), 0, 1)
    } else if exact > 0 {
        rounded(false, exact as nat, 1)
    } else {
        rounded(true, (-exact) as nat, 1)
    }
}

/// The double of the opposite sign.
pub open spec fn negated(a: Double) -> Double {
    if a.negative() {
        Double { bits: (a.bits - 0x8000_0000_0000_0000) as u64 }
    } else {
        Double { bits: (a.bits + 0x8000_0000_0000_0000) as u64 }
    }
}

/// The double without its sign.
pub open spec fn absolute(a: Double) -> Double {
    Double { bits: (a.bits % 0x8000_0000_0000_0000) as u64 }
}

/// The difference of two doubles.
pub open spec fn difference(a: Double, b: Double) -> Double {
    sum(a, negated(b))
}

/// The product of two doubles.
pub open spec fn product(a: Double, b: Double) -> Double {
    let negative = a.negative() != b.negative();
    if a.is_nan() || b.is_nan() {
        nan()
    } else if a.infinite() || b.infinite() {
        if a.magnitude() == 0 || b.magnitude() == 0 {
            nan()
        } else {
            infinity(negative)
        }
    } else {
        rounded(negative, a.magnitude() * b.magnitude(), unit())
    }
}

/// The quotient of two doubles.
pub open spec fn quotient(a: Double, b: Double) -> Double {
    let negative = a.negative() != b.negative();
    if a.is_nan() || b.is_nan() {
        nan()
    } else if a.infinite() {
        if b.infinite() {
            nan()
        } else {
            infinity(negative)
        }
    } else if b.infinite() {
        rounded(negative, 0, 1)
    } else if b.magnitude() == 0 {
        if a.magnitude() == 0 {
            nan()
        } else {
            infinity(negative)
        }
    } else {
        rounded(negative, a.magnitude() * unit(), b.magnitude())
    }
}

/// Whether `a` is smaller than `b`; a NaN is neither smaller nor larger than anything.
pub open spec fn smaller(a: Double, b: Double) -> bool {
    !a.is_nan() && !b.is_nan() && a.value() < b.value()
}

/// Magnitudes are ordered as the bit patterns without the sign.
proof fn lemma_magnitude_order(a: Double, b: Double)
    requires
        a.bits % 0x8000_0000_0000_0000 < b.bits % 0x8000_0000_0000_0000,
    ensures
        a.magnitude() < b.magnitude(),
{
    power2::lemma2_to64();
    let ea = a.exponent();
    let eb = b.exponent();
    let sa = a.significand();
    let sb = b.significand();
    power2::lemma_pow2_pos(ea);
    if a.biased() == b.biased() {
        let w = power2::pow2(ea);
        assert(sa * w < sb * w) by (nonlinear_arith)
            requires
                sa < sb,
                w > 0,
        ;
    } else {
        assert(a.biased() < b.biased());
        if a.biased() == 0 {
            power2::lemma_pow2_pos(eb);
            let w = power2::pow2(eb);
            assert(sa * power2::pow2(0) == sa) by (nonlinear_arith)
                requires
                    power2::pow2(0) == 1,
            ;
            assert(sb * w >= sb) by (nonlinear_arith)
                requires
                    w >= 1,
            ;
        } else {
            let wa = power2::pow2(ea);
            let wb = power2::pow2(eb);
            power2::lemma_pow2_unfold(ea + 1);
            if ea + 1 < eb {
                power2::lemma_pow2_strictly_increases(ea + 1, eb);
            }
            assert(sa * wa < 0x10_0000_0000_0000 * (2 * wa)) by (nonlinear_arith)
                requires
                    sa < 0x20_0000_0000_0000,
                    wa > 0,
            ;
            assert(0x10_0000_0000_0000 * (2 * wa) <= sb * wb) by (nonlinear_arith)
                requires
                    0x10_0000_0000_0000 <= sb,
                    2 * wa <= wb,
            ;
        }
    }
}

/// Sign and magnitude determine a double.
pub proof fn lemma_unique(a: Double, b: Double)
    requires
        a.negative() == b.negative(),
        a.magnitude() == b.magnitude(),
    ensures
        a == b,
{
    let ka = a.bits % 0x8000_0000_0000_0000;
    let kb = b.bits % 0x8000_0000_0000_0000;
    if ka < kb {
        lemma_magnitude_order(a, b);
    } else if kb < ka {
        lemma_magnitude_order(b, a);
    }
}

/// A double that has the sign and the magnitude is the rounded one.
proof fn lemma_rounded_is(d: Double, negative: bool, num: nat, den: nat)
    requires
        !d.is_nan(),
        d.negative() == negative,
        d.magnitude() == saturated(rounding::nearest(num, den)),
    ensures
        d == rounded(negative, num, den),
{
    lemma_unique(d, rounded(negative, num, den));
}

/// The bit pattern of `m * 2^k` units.
spec fn packed(negative: bool, m: nat, k: nat) -> Double {
    let sign: int = if negative {
        0x8000_0000_0000_0000
    } else {
        0
    };
    let (m, k) = if m == 0x20_0000_0000_0000 {
        (0x10_0000_0000_0000, k + 1)
    } else {
        (m, k)
    };
    if m < 0x10_0000_0000_0000 {
        Double { bits: (sign + m) as u64 }
    } else if k >= 2046 {
        Double { bits: (sign + 0x7ff0_0000_0000_0000) as u64 }
    } else {
        Double { bits: (sign + (k + 1) * 0x10_0000_0000_0000 + (m - 0x10_0000_0000_0000)) as u64 }
    }
}

proof fn lemma_packed(negative: bool, m: nat, k: nat)
    requires
        m <= 0x20_0000_0000_0000,
        m < 0x10_0000_0000_0000 ==> k == 0,
    ensures
        !packed(negative, m, k).is_nan(),
        packed(negative, m, k).negative() == negative,
        packed(negative, m, k).magnitude() == saturated(m * power2::pow2(k)),
{
    let r = packed(negative, m, k);
    power2::lemma2_to64();
    power2::lemma2_to64_rest();
    if m < 0x10_0000_0000_0000 {
        assert(r.biased() == 0);
        assert(r.fraction() == m);
        power2::lemma_pow2_strictly_increases(52, 2098);
        assert(m * power2::pow2(0) == m) by (nonlinear_arith)
            requires
                power2::pow2(0) == 1,
        ;
    } else {
        let (m2, k2) = if m == 0x20_0000_0000_0000 {
            (0x10_0000_0000_0000nat, k + 1)
        } else {
            (m, k)
        };
        power2::lemma_pow2_unfold(k + 1);
        let w = power2::pow2(k);
        assert(0x20_0000_0000_0000 * w == 0x10_0000_0000_0000 * (2 * w)) by (nonlinear_arith);
        let w2 = power2::pow2(k2);
        if k2 >= 2046 {
            assert(r.biased() == 2047);
            assert(r.fraction() == 0);
            power2::lemma_pow2_adds(52, 2046);
            if k2 > 2046 {
                power2::lemma_pow2_strictly_increases(2046, k2);
            }
            assert(m2 * w2 >= 0x10_0000_0000_0000 * power2::pow2(2046)) by (nonlinear_arith)
                requires
                    m2 >= 0x10_0000_0000_0000,
                    w2 >= power2::pow2(2046),
            ;
        } else {
            assert(r.biased() == k2 + 1);
            assert(r.fraction() == m2 - 0x10_0000_0000_0000);
            power2::lemma_pow2_adds(53, 2045);
            if k2 < 2045 {
                power2::lemma_pow2_strictly_increases(k2, 2045);
            }
            power2::lemma_pow2_pos(k2);
            assert(m2 * w2 < 0x20_0000_0000_0000 * power2::pow2(2045)) by (nonlinear_arith)
                requires
                    m2 < 0x20_0000_0000_0000,
                    0 < w2 <= power2::pow2(2045),
            ;
        }
    }
}

/// Every ratio rounds to a double: one that is not a NaN, has the sign asked for, and has the
/// nearest magnitude.
pub proof fn lemma_rounded(negative: bool, num: nat, den: nat)
    requires
        den > 0,
    ensures
        !rounded(negative, num, den).is_nan(),
        rounded(negative, num, den).negative() == negative,
        rounded(negative, num, den).magnitude() == saturated(rounding::nearest(num, den)),
{
    let k = rounding::binade(num, den);
    let step = power2::pow2(k);
    power2::lemma_pow2_pos(k);
    let m = rounding::half_even(num, den * step);
    rounding::lemma_significand_bounds(num, den);
    lemma_packed(negative, m, k);
    let d = packed(negative, m, k);
    assert(!d.is_nan() && d.negative() == negative && d.magnitude() == saturated(
        rounding::nearest(num, den),
    ));
}

/// The double `m * 2^k` units, or infinity where that is too large.
fn pack(negative: bool, m: u64, k: u32) -> (r: Double)
    requires
        m <= 0x20_0000_0000_0000,
        m < 0x10_0000_0000_0000 ==> k == 0,
        k <= 5000,
    ensures
        !r.is_nan(),
        r.negative() == negative,
        r.magnitude() == saturated((m * power2::pow2(k as nat)) as nat),
{
    let sign: u64 = if negative {
        0x8000_0000_0000_0000
    } else {
        0
    };
    proof {
        lemma_packed(negative, m as nat, k as nat);
    }
    let (m2, k2): (u64, u32) = if m == 0x20_0000_0000_0000 {
        (0x10_0000_0000_0000, k + 1)
    } else {
        (m, k)
    };
    if m2 < 0x10_0000_0000_0000 {
        Double { bits: sign + m2 }
    } else if k2 >= 2046 {
        Double { bits: sign + 0x7ff0_0000_0000_0000 }
    } else {
        Double {
            bits: sign + (k2 as u64 + 1) * 0x10_0000_0000_0000 + (m2 - 0x10_0000_0000_0000),
        }
    }
}

/// The whole number nearest to `num / (top / 2^53)`, by 53 steps of long division.
fn divide_rounding(num: Natural, top: &Natural) -> (q: u64)
    requires
        num@ < top@,
        top@ % 0x20_0000_0000_0000 == 0,
    ensures
        q <= 0x20_0000_0000_0000,
        q == rounding::half_even(num@, top@ / 0x20_0000_0000_0000),
{
    let ghost n0 = num@;
    let ghost t = top@;
    let mut rest = num;
    let mut q: u64 = 0;
    let mut i: u32 = 0;
    proof {
        power2::lemma2_to64();
        assert(n0 * power2::pow2(0) == n0) by (nonlinear_arith)
            requires
                power2::pow2(0) == 1,
        ;
    }
    while i < 53
        invariant
            i <= 53,
            t == top@,
            n0 < t,
            rest@ < t,
            n0 * power2::pow2(i as nat) == q * t + rest@,
            q < power2::pow2(i as nat),
        decreases 53 - i,
    {
        let ghost w = power2::pow2(i as nat);
        let ghost q0 = q;
        let ghost r0 = rest@;
        proof {
            power2::lemma2_to64();
            power2::lemma2_to64_rest();
            power2::lemma_pow2_unfold((i + 1) as nat);
            if i < 52 {
                power2::lemma_pow2_strictly_increases((i + 1) as nat, 53);
            }
            assert(n0 * (2 * w) == 2 * q0 * t + 2 * r0) by (nonlinear_arith)
                requires
                    n0 * w == q0 * t + r0,
            ;
        }
        rest.double();
        q = q * 2;
        if !rest.less(top) {
            rest.minus(top);
            q = q + 1;
            assert((2 * q0 + 1) * t == 2 * q0 * t + t) by (nonlinear_arith);
        }
        i = i + 1;
    }
    let ghost c: nat = 0x20_0000_0000_0000;
    let ghost den = t / c;
    let mut twice = rest;
    let ghost rem = twice@ as int;
    twice.double();
    proof {
        power2::lemma2_to64_rest();
        power2::lemma2_to64();
        assert(t == den * c);
        // the remainder of the long division is `2^53` times that of the division
        let r = n0 - q * den;
        assert(n0 * c == q * (den * c) + rem);
        assert(rem == r * c) by (nonlinear_arith)
            requires
                n0 * c == q * (den * c) + rem,
                r == n0 - q * den,
        ;
        assert(0 <= r < den) by (nonlinear_arith)
            requires
                0 <= rem < den * c,
                rem == r * c,
                c == 0x20_0000_0000_0000,
        ;
        assert(n0 == q * den + r);
        div_mod::lemma_fundamental_div_mod_converse(n0 as int, den as int, q as int, r);
        assert(2 * rem < den * c <==> 2 * r < den) by (nonlinear_arith)
            requires
                rem == r * c,
                c == 0x20_0000_0000_0000,
        ;
        assert(2 * rem > den * c <==> 2 * r > den) by (nonlinear_arith)
            requires
                rem == r * c,
                c == 0x20_0000_0000_0000,
        ;
    }
    if twice.less(top) {
        return q;
    }
    if top.less(&twice) || q % 2 == 1 {
        q + 1
    } else {
        q
    }
}

/// The double of that sign nearest to `num * 2^e / den` units.
fn round_ratio(negative: bool, num: Natural, den: Natural, e: u32) -> (r: Double)
    requires
        den@ > 0,
        e <= 4000,
    ensures
        !r.is_nan(),
        r.negative() == negative,
        r.magnitude() == saturated(
            rounding::nearest(num@ * power2::pow2(e as nat), den@),
        ),
        r == rounded(negative, num@ * power2::pow2(e as nat), den@),
{
    let ghost n0 = num@;
    let ghost d0 = den@;
    let ghost ratio = n0 * power2::pow2(e as nat);
    let ghost mut dd = d0;
    let ghost c: nat = 0x20_0000_0000_0000;
    let ghost h: nat = 0x10_0000_0000_0000;
    let mut top = den;
    top.shift_up(53);
    let mut part = num;
    let mut k: u32 = e;
    proof {
        power2::lemma2_to64();
        power2::lemma2_to64_rest();
        power2::lemma_pow2_pos(e as nat);
        assert(d0 * c > 0) by (nonlinear_arith)
            requires
                d0 > 0,
                c > 0,
        ;
    }
    if !part.less(&top) {
        let ghost mut i: nat = 0;
        assert(d0 * c * power2::pow2(0) == d0 * c) by (nonlinear_arith)
            requires
                power2::pow2(0) == 1,
        ;
        while !part.less(&top)
            invariant
                c == 0x20_0000_0000_0000,
                h == 0x10_0000_0000_0000,
                d0 > 0,
                n0 == num@,
                d0 == den@,
                part@ == n0,
                top@ == d0 * c * power2::pow2(i),
                k == e + i,
                e <= 4000,
                ratio == n0 * power2::pow2(e as nat),
                k <= 4000,
                i > 0 ==> n0 >= d0 * h * power2::pow2(i),
            ensures
                n0 < d0 * c * power2::pow2(i),
            decreases 4001 - k,
        {
            if k >= 2046 {
                proof {
                    let w = power2::pow2(e as nat);
                    power2::lemma_pow2_pos(e as nat);
                    power2::lemma_pow2_adds(i, e as nat);
                    let wi = power2::pow2(i);
                    assert(n0 * w >= d0 * c * (wi * w)) by (nonlinear_arith)
                        requires
                            n0 >= d0 * c * wi,
                    ;
                    lemma_overflow(ratio, d0, k as nat);
                }
                let r = pack(negative, 0x10_0000_0000_0000, 2046);
                proof {
                    power2::lemma_pow2_adds(52, 2046);
                    power2::lemma2_to64_rest();
                    power2::lemma2_to64();
                    lemma_rounded_is(r, negative, ratio, d0);
                }
                return r;
            }
            proof {
                power2::lemma_pow2_unfold(i + 1);
                let wi = power2::pow2(i);
                assert(d0 * c * wi * 2 == d0 * c * (2 * wi)) by (nonlinear_arith);
                assert(d0 * c * wi == d0 * h * (2 * wi)) by (nonlinear_arith)
                    requires
                        c == 2 * h,
                ;
                i = i + 1;
            }
            top.double();
            k = k + 1;
        }
        proof {
            let w = power2::pow2(e as nat);
            power2::lemma_pow2_adds(i, e as nat);
            power2::lemma_pow2_pos(e as nat);
            let wi = power2::pow2(i);
            power2::lemma_pow2_pos(i);
            assert(n0 * w < d0 * c * (wi * w)) by (nonlinear_arith)
                requires
                    n0 < d0 * c * wi,
                    w > 0,
            ;
            if i > 0 {
                assert(n0 * w >= d0 * h * (wi * w)) by (nonlinear_arith)
                    requires
                        n0 >= d0 * h * wi,
                ;
            } else {
                assert(d0 * c * power2::pow2(0) == d0 * c) by (nonlinear_arith)
                    requires
                        power2::pow2(0) == 1,
                ;
                assert(false);
            }
            rounding::lemma_binade_is(ratio, d0, k as nat);
            dd = d0 * wi;
            assert(dd > 0) by (nonlinear_arith)
                requires
                    dd == d0 * wi,
                    d0 > 0,
                    wi > 0,
            ;
            assert(dd * w == d0 * (wi * w)) by (nonlinear_arith)
                requires
                    dd == d0 * wi,
            ;
            rounding::lemma_half_even_scale(n0, dd, w);
            assert(d0 * c * wi == dd * c) by (nonlinear_arith)
                requires
                    dd == d0 * wi,
            ;
        }
    } else {
        let ghost mut j: nat = 0;
        let mut done: bool = false;
        assert(n0 * power2::pow2(0) == n0) by (nonlinear_arith)
            requires
                power2::pow2(0) == 1,
        ;
        while k > 0 && !done
            invariant
                c == 0x20_0000_0000_0000,
                top@ == d0 * c,
                j <= e,
                k == e - j,
                part@ == n0 * power2::pow2(j),
                part@ < top@,
                done ==> 2 * part@ >= top@,
            decreases k, (if done { 0int } else { 1int }),
        {
            let mut doubled = part.copy();
            doubled.double();
            if doubled.less(&top) {
                proof {
                    power2::lemma_pow2_unfold(j + 1);
                    let wj = power2::pow2(j);
                    assert(n0 * wj * 2 == n0 * (2 * wj)) by (nonlinear_arith);
                    j = j + 1;
                }
                part = doubled;
                k = k - 1;
            } else {
                done = true;
            }
        }
        proof {
            let w = power2::pow2(k as nat);
            let wj = power2::pow2(j);
            power2::lemma_pow2_adds(j, k as nat);
            power2::lemma_pow2_pos(k as nat);
            assert(n0 * (wj * w) == (n0 * wj) * w) by (nonlinear_arith);
            let n = n0 * wj;
            assert(n * w < d0 * c * w) by (nonlinear_arith)
                requires
                    n < d0 * c,
                    w > 0,
            ;
            if k > 0 {
                assert(n * w >= d0 * h * w) by (nonlinear_arith)
                    requires
                        2 * n >= d0 * c,
                        c == 2 * h,
                ;
            }
            rounding::lemma_binade_is(ratio, d0, k as nat);
            rounding::lemma_half_even_scale(n, d0, w);
        }
    }
    assert(top@ % c == 0 && top@ / c == dd) by {
        div_mod::lemma_div_multiples_vanish(dd as int, c as int);
        div_mod::lemma_mod_multiples_basic(dd as int, c as int);
        assert(dd * c == c * dd) by (nonlinear_arith);
    }
    let m: u64 = divide_rounding(part, &top);
    proof {
        rounding::lemma_significand_bounds(ratio, d0);
    }
    let r = pack(negative, m, k);
    proof {
        lemma_rounded_is(r, negative, ratio, d0);
    }
    r
}

/// Infinity has the magnitude that overflow saturates to.
pub proof fn lemma_infinity(negative: bool)
    ensures
        !infinity(negative).is_nan(),
        infinity(negative).negative() == negative,
        infinity(negative).magnitude() == infinite_magnitude(),
{
    power2::lemma_pow2_adds(52, 2046);
    power2::lemma2_to64_rest();
    power2::lemma2_to64();
}

/// A ratio of `2^(53 + k)` units or more, `k` being at least 2046, overflows.
pub proof fn lemma_overflow(num: nat, den: nat, k: nat)
    requires
        den > 0,
        k >= 2046,
        num >= den * 0x20_0000_0000_0000 * power2::pow2(k),
    ensures
        saturated(rounding::nearest(num, den)) == infinite_magnitude(),
{
    let b = rounding::binade(num, den);
    rounding::lemma_binade_bounds(num, den);
    let c: nat = 0x20_0000_0000_0000;
    let h: nat = 0x10_0000_0000_0000;
    let wb = power2::pow2(b);
    let wk = power2::pow2(k);
    if b <= k {
        if b < k {
            power2::lemma_pow2_strictly_increases(b, k);
        }
        assert(den * c * wb <= den * c * wk) by (nonlinear_arith)
            requires
                wb <= wk,
        ;
        assert(false);
    }
    rounding::lemma_significand_bounds(num, den);
    let q = rounding::half_even(num, den * wb);
    power2::lemma_pow2_strictly_increases(2046, b);
    power2::lemma_pow2_adds(52, 2046);
    power2::lemma2_to64_rest();
    power2::lemma2_to64();
    assert(q * wb >= h * power2::pow2(2046)) by (nonlinear_arith)
        requires
            q >= h,
            wb >= power2::pow2(2046),
    ;
}

/// A ratio below half of infinity rounds to a finite double.
pub proof fn lemma_finite(negative: bool, num: nat, den: nat)
    requires
        den > 0,
        2 * num < den * infinite_magnitude(),
    ensures
        rounded(negative, num, den).finite(),
        rounded(negative, num, den).negative() == negative,
        rounded(negative, num, den).magnitude() == rounding::nearest(num, den),
{
    let d = rounded(negative, num, den);
    let n = rounding::nearest(num, den);
    lemma_rounded(negative, num, den);
    rounding::lemma_nearest_bounds(num, den);
    assert(n < infinite_magnitude()) by (nonlinear_arith)
        requires
            n * den <= 2 * num,
            2 * num < den * infinite_magnitude(),
            den > 0,
    ;
    if !d.finite() {
        assert(d.significand() == 0x10_0000_0000_0000);
        assert(d.exponent() == 2046);
        lemma_infinity(false);
        assert(d.magnitude() == infinity(false).magnitude());
    }
}

/// How large numbers that matter are, in units.
pub proof fn lemma_unit()
    ensures
        unit() > 0x10_0000_0000_0000_0000_0000_0000,
        unit() * 0x100_0000_0000_0000_0000_0000_0000_0000 < infinite_magnitude(),
{
    power2::lemma2_to64_rest();
    power2::lemma_pow2_adds(50, 50);
    power2::lemma_pow2_strictly_increases(100, 1074);
    power2::lemma_pow2_adds(60, 60);
    power2::lemma_pow2_adds(1074, 120);
    power2::lemma_pow2_strictly_increases(1194, 2098);
}

/// A whole number of 64 bits is a finite double that is not negative; below `2^53` it is exact.
pub proof fn lemma_whole(n: nat)
    requires
        n <= u64::MAX,
    ensures
        whole(n).finite(),
        !whole(n).negative(),
        whole(n).magnitude() == rounding::nearest(n * unit(), 1),
        n > 0 ==> whole(n).magnitude() > 0,
        whole(n).magnitude() <= 2 * n * unit(),
        n < 0x20_0000_0000_0000 ==> whole(n).magnitude() == n * unit(),
{
    let u = unit();
    let num = n * u;
    lemma_unit();
    assert(2 * num < 1 * infinite_magnitude()) by (nonlinear_arith)
        requires
            num == n * u,
            n <= 0xffff_ffff_ffff_ffff,
            u * 0x100_0000_0000_0000_0000_0000_0000_0000 < infinite_magnitude(),
            u > 0,
    ;
    lemma_finite(false, num, 1);
    rounding::lemma_nearest_bounds(num, 1);
    assert(n > 0 ==> num > 0) by (nonlinear_arith)
        requires
            num == n * u,
            u > 0,
    ;
    assert(2 * n * u == 2 * num) by (nonlinear_arith)
        requires
            num == n * u,
    ;
    if n < 0x20_0000_0000_0000 {
        rounding::lemma_nearest_exact(n, 1074);
    }
}

/// The quotient of a finite double by a whole number: the nearest one to the exact quotient.
pub proof fn lemma_over_whole(d: Double, n: nat)
    requires
        d.finite(),
        !d.negative(),
        2 * d.magnitude() < infinite_magnitude(),
        0 < n < 0x20_0000_0000_0000,
    ensures
        quotient(d, whole(n)).finite(),
        !quotient(d, whole(n)).negative(),
        quotient(d, whole(n)).magnitude() == rounding::nearest(d.magnitude(), n),
{
    let u = unit();
    let m = d.magnitude();
    lemma_unit();
    lemma_whole(n);
    assert(2 * (m * u) < (n * u) * infinite_magnitude()) by (nonlinear_arith)
        requires
            2 * m < infinite_magnitude(),
            n >= 1,
            u > 0,
    ;
    assert(n * u > 0) by (nonlinear_arith)
        requires
            n > 0,
            u > 0,
    ;
    lemma_finite(false, m * u, n * u);
    rounding::lemma_nearest_scale(m, n, u);
}

/// A finite double is below infinity.
pub proof fn lemma_double_bound(d: Double)
    requires
        d.finite(),
    ensures
        d.magnitude() < infinite_magnitude(),
{
    let inf = infinity(false);
    lemma_infinity(false);
    lemma_magnitude_order(d, inf);
}

/// A double that is below infinity and not a NaN is finite.
pub proof fn lemma_finite_by_magnitude(d: Double)
    requires
        !d.is_nan(),
        d.magnitude() < infinite_magnitude(),
    ensures
        d.finite(),
{
    if !d.finite() {
        lemma_infinity(false);
        assert(d.significand() == infinity(false).significand());
        assert(d.exponent() == infinity(false).exponent());
    }
}

/// A double rounds to itself.
pub proof fn lemma_double_exact(d: Double)
    ensures
        rounding::nearest(d.magnitude(), 1) == d.magnitude(),
{
    rounding::lemma_nearest_exact(d.significand(), d.exponent());
}

/// Half of a finite double.
pub proof fn lemma_half(d: Double)
    requires
        d.finite(),
    ensures
        quotient(d, whole(2)).finite(),
        quotient(d, whole(2)).negative() == d.negative(),
        quotient(d, whole(2)).magnitude() == rounding::nearest(d.magnitude(), 2),
{
    let u = unit();
    let m = d.magnitude();
    lemma_unit();
    lemma_whole(2);
    lemma_double_bound(d);
    lemma_rounded(d.negative(), m * u, 2 * u);
    rounding::lemma_nearest_scale(m, 2, u);
    // half of it is no more than all of it
    rounding::lemma_nearest_monotone(m, 2 * m, 2);
    rounding::lemma_nearest_scale(m, 1, 2);
    lemma_double_exact(d);
    assert(m * 2 == 2 * m);
    lemma_finite_by_magnitude(quotient(d, whole(2)));
}

/// A positive whole number times a double that is not a NaN and not negative is of that kind too.
pub proof fn lemma_small_factor(n: nat, d: Double)
    requires
        0 < n <= u64::MAX,
        !d.is_nan(),
        !d.negative(),
    ensures
        !product(whole(n), d).is_nan(),
        !product(whole(n), d).negative(),
{
    lemma_whole(n);
    power2::lemma_pow2_pos(1074);
    if d.infinite() {
        lemma_infinity(false);
        let w = power2::pow2(2046);
        power2::lemma_pow2_pos(2046);
        assert(d.significand() * w > 0) by (nonlinear_arith)
            requires
                d.significand() > 0,
                w > 0,
        ;
    } else {
        lemma_rounded(false, whole(n).magnitude() * d.magnitude(), unit());
    }
}

impl Double {
    pub fn from_bits(bits: u64) -> (r: Self)
        ensures
            r.bits == bits,
    {
        Double { bits }
    }

    pub fn to_bits(self) -> (r: u64)
        ensures
            r == self.bits,
    {
        self.bits
    }

    /// Whether the sign bit is set, as it is for `-0.0` too.
    pub fn is_sign_negative(self) -> (r: bool)
        ensures
            r == self.negative(),
            r == (self.bits >= 0x8000_0000_0000_0000),
    {
        self.bits >= 0x8000_0000_0000_0000
    }

    pub fn is_finite(self) -> (r: bool)
        ensures
            r == self.finite(),
            r == ((self.bits / 0x10_0000_0000_0000) % 2048 != 2047),
    {
        (self.bits / 0x10_0000_0000_0000) % 2048 != 2047
    }

    pub fn is_zero(self) -> (r: bool)
        ensures
            r == (self.magnitude() == 0),
    {
        let m: u64 = self.parts().0;
        proof {
            let w = power2::pow2(self.exponent());
            power2::lemma_pow2_pos(self.exponent());
            assert(m * w == 0 <==> m == 0) by (nonlinear_arith)
                requires
                    w > 0,
            ;
        }
        m == 0
    }

    fn parts(self) -> (r: (u64, u32))
        ensures
            r.0 == self.significand(),
            r.1 == self.exponent(),
            r.0 < 0x20_0000_0000_0000,
            r.1 <= 2046,
            self.finite() ==> r.1 <= 2045,
    {
        let biased: u64 = (self.bits / 0x10_0000_0000_0000) % 2048;
        let fraction: u64 = self.bits % 0x10_0000_0000_0000;
        if biased == 0 {
            (fraction, 0)
        } else {
            (0x10_0000_0000_0000 + fraction, (biased - 1) as u32)
        }
    }

    /// The double nearest to a whole number.
    pub fn from_u64(n: u64) -> (r: Self)
        ensures
            r == whole(n as nat),
            !r.is_nan(),
            !r.negative(),
            r.magnitude() == saturated(rounding::nearest(n as nat * unit(), 1)),
    {
        round_ratio(false, Natural::from_u128(n as u128), Natural::from_u128(1), 1074)
    }

    /// The double of the opposite sign.
    pub fn neg(self) -> (r: Self)
        ensures
            r == negated(self),
            r.negative() == !self.negative(),
            r.magnitude() == self.magnitude(),
    {
        let r = if self.bits >= 0x8000_0000_0000_0000 {
            Double { bits: self.bits - 0x8000_0000_0000_0000 }
        } else {
            Double { bits: self.bits + 0x8000_0000_0000_0000 }
        };
        assert(r.biased() == self.biased());
        assert(r.fraction() == self.fraction());
        r
    }

    fn is_nan_bits(self) -> (r: bool)
        ensures
            r == self.is_nan(),
    {
        (self.bits / 0x10_0000_0000_0000) % 2048 == 2047 && self.bits % 0x10_0000_0000_0000 != 0
    }

    /// Infinity of that sign.
    pub fn infinity_of(negative: bool) -> (r: Self)
        ensures
            r == infinity(negative),
            !r.finite() && !r.is_nan(),
            r.negative() == negative,
    {
        if negative {
            Double { bits: 0xfff0_0000_0000_0000 }
        } else {
            Double { bits: 0x7ff0_0000_0000_0000 }
        }
    }

    /// The double nearest to the fraction `num / den`.
    pub fn from_fraction(num: u64, den: u64) -> (r: Self)
        requires
            den > 0,
        ensures
            r == fraction(num as nat, den as nat),
    {
        Double::signed_ratio(false, Natural::from_u128(num as u128), Natural::from_u128(den as u128))
    }

    /// The double without its sign.
    pub fn abs(self) -> (r: Self)
        ensures
            r == absolute(self),
            !r.negative(),
            r.is_nan() == self.is_nan(),
            r.magnitude() == self.magnitude(),
    {
        let r = Double { bits: self.bits % 0x8000_0000_0000_0000 };
        assert(r.biased() == self.biased());
        assert(r.fraction() == self.fraction());
        r
    }

    /// The double of that sign nearest to `num / den`.
    pub fn signed_ratio(negative: bool, num: Natural, den: Natural) -> (r: Self)
        requires
            den@ > 0,
        ensures
            r == rounded(negative, num@ * unit(), den@),
    {
        round_ratio(negative, num, den, 1074)
    }

    /// The sum.
    pub fn plus(self, other: Double) -> (r: Self)
        ensures
            r == sum(self, other),
    {
        if self.is_nan_bits() || other.is_nan_bits() {
            Double { bits: 0x7ff8_0000_0000_0000 }
        } else if !self.is_finite() {
            if !other.is_finite() && self.is_sign_negative() != other.is_sign_negative() {
                Double { bits: 0x7ff8_0000_0000_0000 }
            } else {
                self
            }
        } else if !other.is_finite() {
            other
        } else {
            self.finite_plus(other)
        }
    }

    fn finite_plus(self, other: Double) -> (r: Self)
        requires
            self.finite(),
            other.finite(),
        ensures
            r == sum(self, other),
            !r.is_nan(),
    {
        let (ma, ea) = self.parts();
        let (mb, eb) = other.parts();
        let e: u32 = if ea < eb {
            ea
        } else {
            eb
        };
        let mut a = Natural::from_u128(ma as u128);
        a.shift_up(ea - e);
        let mut b = Natural::from_u128(mb as u128);
        b.shift_up(eb - e);
        proof {
            let w = power2::pow2(e as nat);
            power2::lemma_pow2_pos(e as nat);
            power2::lemma_pow2_adds((ea - e) as nat, e as nat);
            power2::lemma_pow2_adds((eb - e) as nat, e as nat);
            let wa = power2::pow2((ea - e) as nat);
            let wb = power2::pow2((eb - e) as nat);
            assert(ma * (wa * w) == (ma * wa) * w) by (nonlinear_arith);
            assert(mb * (wb * w) == (mb * wb) * w) by (nonlinear_arith);
            let (x, y) = (a@ as int, b@ as int);
            assert(x * w + y * w == (x + y) * w) by (nonlinear_arith);
            assert(x * w - y * w == (x - y) * w) by (nonlinear_arith);
            assert(y * w - x * w == (y - x) * w) by (nonlinear_arith);
            assert(x < y ==> (y - x) * w > 0) by (nonlinear_arith)
                requires
                    w > 0,
            ;
            assert(y < x ==> (x - y) * w > 0) by (nonlinear_arith)
                requires
                    w > 0,
            ;
            assert(0 * w == 0) by (nonlinear_arith);
        }
        let one = Natural::from_u128(1);
        if self.is_sign_negative() == other.is_sign_negative() {
            a.plus(&b);
            round_ratio(self.is_sign_negative(), a, one, e)
        } else if a.less(&b) {
            b.minus(&a);
            round_ratio(other.is_sign_negative(), b, one, e)
        } else if b.less(&a) {
            a.minus(&b);
            round_ratio(self.is_sign_negative(), a, one, e)
        } else {
            round_ratio(false, Natural::from_u128(0), one, e)
        }
    }

    /// The difference.
    pub fn minus(self, other: Double) -> (r: Self)
        ensures
            r == difference(self, other),
    {
        let n = other.neg();
        self.plus(n)
    }

    /// The product.
    pub fn times(self, other: Double) -> (r: Self)
        ensures
            r == product(self, other),
    {
        if self.is_nan_bits() || other.is_nan_bits() {
            Double { bits: 0x7ff8_0000_0000_0000 }
        } else if !self.is_finite() || !other.is_finite() {
            if self.is_zero() || other.is_zero() {
                Double { bits: 0x7ff8_0000_0000_0000 }
            } else {
                Double::infinity_of(self.is_sign_negative() != other.is_sign_negative())
            }
        } else {
            self.finite_times(other)
        }
    }

    fn finite_times(self, other: Double) -> (r: Self)
        requires
            self.finite(),
            other.finite(),
        ensures
            r == product(self, other),
            !r.is_nan(),
    {
        let (ma, ea) = self.parts();
        let (mb, eb) = other.parts();
        assert(ma * mb < 0x20_0000_0000_0000 * 0x20_0000_0000_0000) by (nonlinear_arith)
            requires
                ma < 0x20_0000_0000_0000,
                mb < 0x20_0000_0000_0000,
        ;
        let m: u128 = ma as u128 * mb as u128;
        let negative: bool = self.is_sign_negative() != other.is_sign_negative();
        let e: u32 = ea + eb;
        let ghost exact = self.magnitude() * other.magnitude();
        proof {
            power2::lemma_pow2_adds(ea as nat, eb as nat);
            let wa = power2::pow2(ea as nat);
            let wb = power2::pow2(eb as nat);
            assert((ma * wa) * (mb * wb) == (ma * mb) * (wa * wb)) by (nonlinear_arith);
            power2::lemma_pow2_pos(1074);
        }
        if e >= 1074 {
            let r = round_ratio(negative, Natural::from_u128(m), Natural::from_u128(1), e - 1074);
            proof {
                power2::lemma_pow2_adds((e - 1074) as nat, 1074);
                let w = power2::pow2((e - 1074) as nat);
                assert(m * (w * unit()) == (m * w) * unit()) by (nonlinear_arith);
                rounding::lemma_nearest_scale((m * w) as nat, 1, unit());
                assert(1 * unit() == unit()) by (nonlinear_arith);
                lemma_rounded_is(r, negative, exact, unit());
            }
            r
        } else {
            let mut den = Natural::from_u128(1);
            den.shift_up(1074 - e);
            proof {
                power2::lemma_pow2_pos((1074 - e) as nat);
                power2::lemma2_to64();
            }
            let r = round_ratio(negative, Natural::from_u128(m), den, 0);
            proof {
                power2::lemma_pow2_adds((1074 - e) as nat, e as nat);
                power2::lemma_pow2_pos(e as nat);
                let d = power2::pow2((1074 - e) as nat);
                assert(1 * d == d) by (nonlinear_arith);
                assert(m * power2::pow2(0) == m) by (nonlinear_arith)
                    requires
                        power2::pow2(0) == 1,
                ;
                rounding::lemma_nearest_scale(m as nat, d, power2::pow2(e as nat));
                lemma_rounded_is(r, negative, exact, unit());
            }
            r
        }
    }

    /// The quotient.
    pub fn over(self, other: Double) -> (r: Self)
        ensures
            r == quotient(self, other),
    {
        let negative: bool = self.is_sign_negative() != other.is_sign_negative();
        if self.is_nan_bits() || other.is_nan_bits() {
            Double { bits: 0x7ff8_0000_0000_0000 }
        } else if !self.is_finite() {
            if !other.is_finite() {
                Double { bits: 0x7ff8_0000_0000_0000 }
            } else {
                Double::infinity_of(negative)
            }
        } else if !other.is_finite() {
            let r = round_ratio(negative, Natural::from_u128(0), Natural::from_u128(1), 0);
            assert(0 * power2::pow2(0) == 0) by (nonlinear_arith);
            r
        } else if other.is_zero() {
            if self.is_zero() {
                Double { bits: 0x7ff8_0000_0000_0000 }
            } else {
                Double::infinity_of(negative)
            }
        } else {
            self.finite_over(other)
        }
    }

    fn finite_over(self, other: Double) -> (r: Self)
        requires
            self.finite(),
            other.finite(),
            other.magnitude() > 0,
        ensures
            r == quotient(self, other),
            !r.is_nan(),
    {
        let (ma, ea) = self.parts();
        let (mb, eb) = other.parts();
        let negative: bool = self.is_sign_negative() != other.is_sign_negative();
        let ghost num = self.magnitude() * unit();
        let ghost den = other.magnitude();
        proof {
            power2::lemma2_to64();
            power2::lemma_pow2_pos(1074);
            power2::lemma_pow2_adds(ea as nat, 1074);
            let wa = power2::pow2(ea as nat);
            let wb = power2::pow2(eb as nat);
            assert((ma * wa) * unit() == ma * (wa * unit())) by (nonlinear_arith);
            assert(mb > 0) by (nonlinear_arith)
                requires
                    mb * wb > 0,
            ;
        }
        if ea + 1074 >= eb {
            let e: u32 = ea + 1074 - eb;
            let r = round_ratio(
                negative,
                Natural::from_u128(ma as u128),
                Natural::from_u128(mb as u128),
                e,
            );
            proof {
                power2::lemma_pow2_adds(e as nat, eb as nat);
                power2::lemma_pow2_pos(eb as nat);
                let w = power2::pow2(e as nat);
                let wb = power2::pow2(eb as nat);
                assert(ma * (w * wb) == (ma * w) * wb) by (nonlinear_arith);
                rounding::lemma_nearest_scale((ma * w) as nat, mb as nat, wb);
                lemma_rounded_is(r, negative, num, den);
            }
            r
        } else {
            let s: u32 = eb - (ea + 1074);
            let mut d = Natural::from_u128(mb as u128);
            d.shift_up(s);
            proof {
                power2::lemma_pow2_pos(s as nat);
                let w = power2::pow2(s as nat);
                assert(mb * w > 0) by (nonlinear_arith)
                    requires
                        mb > 0,
                        w > 0,
                ;
            }
            let r = round_ratio(negative, Natural::from_u128(ma as u128), d, 0);
            proof {
                let c = power2::pow2((ea + 1074) as nat);
                power2::lemma_pow2_pos((ea + 1074) as nat);
                power2::lemma_pow2_adds(s as nat, (ea + 1074) as nat);
                let w = power2::pow2(s as nat);
                assert(mb * (w * c) == (mb * w) * c) by (nonlinear_arith);
                assert(ma * power2::pow2(0) == ma) by (nonlinear_arith)
                    requires
                        power2::pow2(0) == 1,
                ;
                rounding::lemma_nearest_scale(ma as nat, (mb * w) as nat, c);
                lemma_rounded_is(r, negative, num, den);
            }
            r
        }
    }

    /// The whole part of the absolute value, at most `u64::MAX`, and what is left as `num / 2^s`.
    fn split(self) -> (r: (u64, u64, u32))
        requires
            !self.is_nan(),
        ensures
            r.0 == at_most_u64(self.magnitude() / unit()),
            r.1 < 0x20_0000_0000_0000,
            r.1 < power2::pow2(r.2 as nat),
            r.2 <= 1074,
            self.magnitude() % unit() == r.1 * power2::pow2((1074 - r.2) as nat),
    {
        let (m, e) = self.parts();
        proof {
            power2::lemma2_to64();
            power2::lemma2_to64_rest();
            power2::lemma_pow2_pos(1074);
        }
        if e >= 1074 {
            let up: u32 = e - 1074;
            proof {
                let w = power2::pow2(up as nat);
                power2::lemma_pow2_adds(up as nat, 1074);
                assert(m * (w * unit()) == (m * w) * unit()) by (nonlinear_arith);
                div_mod::lemma_div_multiples_vanish((m * w) as int, unit() as int);
                div_mod::lemma_mod_multiples_basic((m * w) as int, unit() as int);
                assert((m * w) * unit() == unit() * (m * w)) by (nonlinear_arith);
                assert(0 * unit() == 0) by (nonlinear_arith);
                if up > 11 {
                    if up > 12 {
                        power2::lemma_pow2_strictly_increases(12, up as nat);
                    }
                    assert(m * w >= 0x10_0000_0000_0000 * 0x1000) by (nonlinear_arith)
                        requires
                            m >= 0x10_0000_0000_0000,
                            w >= 0x1000,
                    ;
                } else {
                    if up < 11 {
                        power2::lemma_pow2_strictly_increases(up as nat, 11);
                    }
                    assert(m * w < 0x20_0000_0000_0000 * 0x800) by (nonlinear_arith)
                        requires
                            m < 0x20_0000_0000_0000,
                            0 <= w <= 0x800,
                    ;
                }
            }
            if up > 11 {
                (0xffff_ffff_ffff_ffff, 0, 0)
            } else {
                ((m as u128 * rounding::power_of_two(up)) as u64, 0, 0)
            }
        } else {
            let s: u32 = 1074 - e;
            proof {
                let w = power2::pow2(e as nat);
                power2::lemma_pow2_pos(e as nat);
                power2::lemma_pow2_pos(s as nat);
                power2::lemma_pow2_adds(s as nat, e as nat);
                rounding::lemma_div_mod_scale(m as nat, power2::pow2(s as nat), w);
                div_mod::lemma_mod_bound(m as int, power2::pow2(s as nat) as int);
            }
            if s >= 53 {
                proof {
                    if s > 53 {
                        power2::lemma_pow2_strictly_increases(53, s as nat);
                    }
                    div_mod::lemma_small_mod(m as nat, power2::pow2(s as nat));
                    div_mod::lemma_basic_div(m as int, power2::pow2(s as nat) as int);
                }
                (0, m, s)
            } else {
                let p: u64 = rounding::power_of_two(s) as u64;
                proof {
                    power2::lemma_pow2_strictly_increases(s as nat, 53);
                    assert(m % p <= m && m / p <= m) by (nonlinear_arith)
                        requires
                            p > 0,
                            m >= 0,
                    ;
                }
                (m / p, m % p, s)
            }
        }
    }

    /// The whole part of the absolute value, at most `u64::MAX`.
    pub fn whole_part(self) -> (r: u64)
        requires
            !self.is_nan(),
        ensures
            r == at_most_u64(self.magnitude() / unit()),
            self.magnitude() / unit() <= 0xffff_ffff_ffff_ffff ==> r == self.magnitude() / unit(),
            self.magnitude() / unit() > 0xffff_ffff_ffff_ffff ==> r == 0xffff_ffff_ffff_ffff,
    {
        self.split().0
    }

    /// Whether the whole part of the absolute value is above `u64::MAX`.
    pub fn exceeds_u64(self) -> (r: bool)
        requires
            !self.is_nan(),
        ensures
            r == (self.magnitude() / unit() > u64::MAX),
    {
        // 2^64, by its bit pattern
        let bound = Double { bits: 0x43f0_0000_0000_0000 };
        let a: u64 = self.bits % 0x8000_0000_0000_0000;
        proof {
            power2::lemma2_to64();
            power2::lemma2_to64_rest();
            power2::lemma_pow2_pos(1074);
            power2::lemma_pow2_adds(52, 1086);
            power2::lemma_pow2_adds(64, 1074);
            assert(bound.biased() == 1087);
            assert(bound.fraction() == 0);
            let mag = self.magnitude();
            let u = unit();
            if a < bound.bits {
                lemma_magnitude_order(self, bound);
                div_mod::lemma_multiply_divide_lt(mag as int, u as int, 0x1_0000_0000_0000_0000);
            } else {
                if a > bound.bits {
                    lemma_magnitude_order(bound, self);
                } else {
                    assert(self.biased() == bound.biased() && self.fraction() == bound.fraction());
                }
                div_mod::lemma_div_is_ordered(
                    (0x1_0000_0000_0000_0000 * u) as int,
                    mag as int,
                    u as int,
                );
                div_mod::lemma_div_multiples_vanish(0x1_0000_0000_0000_0000, u as int);
            }
        }
        a >= 0x43f0_0000_0000_0000
    }

    /// Whether anything is left beside the whole part.
    pub fn has_fraction(self) -> (r: bool)
        requires
            !self.is_nan(),
        ensures
            r == (self.magnitude() % unit() > 0),
    {
        let (whole, num, s) = self.split();
        proof {
            let w = power2::pow2((1074 - s) as nat);
            power2::lemma_pow2_pos((1074 - s) as nat);
            assert(num * w > 0 <==> num > 0) by (nonlinear_arith)
                requires
                    w > 0,
            ;
        }
        num > 0
    }

    /// What is left beside the whole part, in the nearest number of parts of which `parts` make
    /// one.
    pub fn fraction_in(self, parts: u32) -> (r: u64)
        requires
            !self.is_nan(),
        ensures
            r == rounding::half_even((self.magnitude() % unit()) * parts as nat, unit()),
            r <= parts,
            2 * (r * unit()) <= 2 * ((self.magnitude() % unit()) * parts as nat) + unit(),
            2 * ((self.magnitude() % unit()) * parts as nat) <= 2 * (r * unit()) + unit(),
    {
        let (whole, num, s) = self.split();
        assert(num * parts < 0x20_0000_0000_0000 * 0x1_0000_0000) by (nonlinear_arith)
            requires
                num < 0x20_0000_0000_0000,
                parts < 0x1_0000_0000,
        ;
        let scaled: u128 = num as u128 * parts as u128;
        let ghost p = power2::pow2(s as nat);
        proof {
            power2::lemma2_to64();
            power2::lemma2_to64_rest();
            let w = power2::pow2((1074 - s) as nat);
            power2::lemma_pow2_pos((1074 - s) as nat);
            power2::lemma_pow2_pos(s as nat);
            power2::lemma_pow2_adds(s as nat, (1074 - s) as nat);
            assert((num * w) * parts == (num * parts) * w) by (nonlinear_arith);
            rounding::lemma_half_even_scale(scaled as nat, p, w);
            power2::lemma_pow2_pos(1074);
            rounding::lemma_half_even_is_nearest((self.magnitude() % unit()) * parts as nat, unit());
            // fewer than all parts before rounding
            assert(scaled <= parts * p) by (nonlinear_arith)
                requires
                    scaled == num * parts,
                    num <= p,
            ;
            rounding::lemma_half_even_bound(scaled as nat, p, parts as nat);
        }
        if s >= 120 {
            proof {
                power2::lemma_pow2_adds(56, 64);
                if s > 120 {
                    power2::lemma_pow2_strictly_increases(120, s as nat);
                }
                div_mod::lemma_small_mod(scaled as nat, p);
                div_mod::lemma_basic_div(scaled as int, p as int);
            }
            0
        } else {
            let den: u128 = rounding::power_of_two(s);
            proof {
                power2::lemma_pow2_adds(63, 64);
                power2::lemma_pow2_strictly_increases(s as nat, 127);
            }
            rounding::round_half_even(scaled, den) as u64
        }
    }

    /// The whole number nearest to the absolute value, halves going up, at most `u64::MAX`.
    pub fn round_half_up(self) -> (r: u64)
        requires
            !self.is_nan(),
        ensures
            r == at_most_u64(rounding::half_up(self.magnitude(), unit())),
            r < 0xffff_ffff_ffff_ffff ==> {
                &&& 2 * (r * unit()) <= 2 * self.magnitude() + unit()
                &&& 2 * self.magnitude() < 2 * (r * unit()) + unit()
            },
            r == 0xffff_ffff_ffff_ffff ==> 2 * (0xffff_ffff_ffff_ffff * unit()) <= 2
                * self.magnitude() + unit(),
    {
        let (whole, num, s) = self.split();
        let ghost w = power2::pow2((1074 - s) as nat);
        let ghost p = power2::pow2(s as nat);
        proof {
            power2::lemma2_to64();
            power2::lemma2_to64_rest();
            power2::lemma_pow2_pos(1074);
            power2::lemma_pow2_pos((1074 - s) as nat);
            power2::lemma_pow2_adds(s as nat, (1074 - s) as nat);
            rounding::lemma_half_up(self.magnitude(), unit());
            rounding::lemma_half_up_is_nearest(self.magnitude(), unit());
            let rounded = rounding::half_up(self.magnitude(), unit());
            if rounded > 0xffff_ffff_ffff_ffff {
                assert(rounded * unit() >= 0xffff_ffff_ffff_ffff * unit()) by (nonlinear_arith)
                    requires
                        rounded >= 0xffff_ffff_ffff_ffff,
                        unit() > 0,
                ;
            }
            assert(2 * (num * w) >= p * w <==> 2 * num >= p) by (nonlinear_arith)
                requires
                    w > 0,
            ;
        }
        let up: bool = if s >= 64 {
            proof {
                if s > 64 {
                    power2::lemma_pow2_strictly_increases(64, s as nat);
                }
            }
            false
        } else {
            2 * num as u128 >= rounding::power_of_two(s)
        };
        if up && whole < 0xffff_ffff_ffff_ffff {
            whole + 1
        } else {
            whole
        }
    }

    /// The smallest whole number that is not below the absolute value, at most `u64::MAX`.
    pub fn round_up(self) -> (r: u64)
        requires
            !self.is_nan(),
        ensures
            r == at_most_u64(rounding::ceiling(self.magnitude(), unit())),
            r < 0xffff_ffff_ffff_ffff ==> self.magnitude() <= r * unit() < self.magnitude() + unit(),
            r == 0xffff_ffff_ffff_ffff ==> 0xffff_ffff_ffff_ffff * unit() < self.magnitude()
                + unit(),
    {
        let whole: u64 = self.whole_part();
        let more: bool = self.has_fraction();
        proof {
            power2::lemma_pow2_pos(1074);
            rounding::lemma_ceiling(self.magnitude(), unit());
            rounding::lemma_ceiling_is_least(self.magnitude(), unit());
            let rounded = rounding::ceiling(self.magnitude(), unit());
            if rounded > 0xffff_ffff_ffff_ffff {
                assert(rounded * unit() >= 0xffff_ffff_ffff_ffff * unit()) by (nonlinear_arith)
                    requires
                        rounded >= 0xffff_ffff_ffff_ffff,
                        unit() > 0,
                ;
            }
        }
        if more && whole < 0xffff_ffff_ffff_ffff {
            whole + 1
        } else {
            whole
        }
    }

    /// Whether this number is smaller than `other`.
    pub fn less(self, other: Double) -> (r: bool)
        ensures
            r == smaller(self, other),
            r == (!self.is_nan() && !other.is_nan() && self.value() < other.value()),
    {
        if self.is_nan_bits() || other.is_nan_bits() {
            return false;
        }
        let a: u64 = self.bits % 0x8000_0000_0000_0000;
        let b: u64 = other.bits % 0x8000_0000_0000_0000;
        let an: bool = self.is_sign_negative();
        let bn: bool = other.is_sign_negative();
        proof {
            if a < b {
                lemma_magnitude_order(self, other);
            } else if b < a {
                lemma_magnitude_order(other, self);
            } else {
                assert(self.biased() == other.biased() && self.fraction() == other.fraction());
            }
            let zero = Double { bits: 0 };
            assert(zero.magnitude() == 0) by (nonlinear_arith)
                requires
                    zero.significand() == 0,
            ;
            if a > 0 {
                lemma_magnitude_order(zero, self);
            } else {
                assert(self.biased() == zero.biased() && self.fraction() == zero.fraction());
            }
            if b > 0 {
                lemma_magnitude_order(zero, other);
            } else {
                assert(other.biased() == zero.biased() && other.fraction() == zero.fraction());
            }
        }
        if an && bn {
            b < a
        } else if an {
            a > 0 || b > 0
        } else if bn {
            false
        } else {
            a < b
        }
    }
}

/// The sum of finite doubles is the exact sum, rounded to 53 significant bits, and infinite where
/// that is too large.
pub proof fn lemma_sum_is_nearest(a: Double, b: Double)
    requires
        a.finite(),
        b.finite(),
    ensures
        !sum(a, b).is_nan(),
        a.value() + b.value() > 0 ==> !sum(a, b).negative(),
        a.value() + b.value() < 0 ==> sum(a, b).negative(),
        a.value() + b.value() == 0 ==> sum(a, b).value() == 0,
        sum(a, b).finite() ==> {
            let exact = a.value() + b.value();
            let got = sum(a, b).value();
            &&& exact >= 0 ==> got * 0x20_0000_0000_0000 <= exact * 0x20_0000_0000_0001
                + 0x10_0000_0000_0000
            &&& exact >= 0 ==> exact * 0x1f_ffff_ffff_ffff <= got * 0x20_0000_0000_0000
                + 0x10_0000_0000_0000
            &&& exact <= 0 ==> -got * 0x20_0000_0000_0000 <= -exact * 0x20_0000_0000_0001
                + 0x10_0000_0000_0000
            &&& exact <= 0 ==> -exact * 0x1f_ffff_ffff_ffff <= -got * 0x20_0000_0000_0000
                + 0x10_0000_0000_0000
        },
        -infinite_magnitude() < 2 * (a.value() + b.value()) < infinite_magnitude() ==> sum(
            a,
            b,
        ).finite(),
{
    let exact = a.value() + b.value();
    let size = (if exact < 0 {
        -exact
    } else {
        exact
    }) as nat;
    let negative = if exact == 0 {
        a.negative() && b.negative()
    } else {
        exact < 0
    };
    lemma_rounded(negative, size, 1);
    rounding::lemma_nearest_is_close(size, 1);
    rounding::lemma_nearest_bounds(size, 1);
    let n = rounding::nearest(size, 1);
    assert(n * 1 == n) by (nonlinear_arith);
    assert(1 * infinite_magnitude() == infinite_magnitude()) by (nonlinear_arith);
    if 2 * size < infinite_magnitude() {
        lemma_finite(negative, size, 1);
    }
    if sum(a, b).finite() {
        lemma_double_bound(sum(a, b));
    }
}

/// The product of finite doubles is the exact product, rounded.
pub proof fn lemma_product_is_nearest(a: Double, b: Double)
    requires
        a.finite(),
        b.finite(),
    ensures
        !product(a, b).is_nan(),
        product(a, b).negative() == (a.negative() != b.negative()),
        2 * (a.magnitude() * b.magnitude()) < unit() * infinite_magnitude() ==> product(
            a,
            b,
        ).finite(),
        product(a, b).finite() ==> {
            let exact = a.magnitude() * b.magnitude();
            let got = product(a, b).magnitude() * unit();
            &&& got * 0x20_0000_0000_0000 <= exact * 0x20_0000_0000_0001 + unit()
                * 0x10_0000_0000_0000
            &&& exact * 0x1f_ffff_ffff_ffff <= got * 0x20_0000_0000_0000 + unit()
                * 0x10_0000_0000_0000
        },
{
    lemma_unit();
    lemma_rounded(a.negative() != b.negative(), a.magnitude() * b.magnitude(), unit());
    rounding::lemma_nearest_is_close(a.magnitude() * b.magnitude(), unit());
    if 2 * (a.magnitude() * b.magnitude()) < unit() * infinite_magnitude() {
        lemma_finite(a.negative() != b.negative(), a.magnitude() * b.magnitude(), unit());
    }
    if product(a, b).finite() {
        lemma_double_bound(product(a, b));
    }
}

/// The quotient of finite doubles is the exact quotient, rounded.
pub proof fn lemma_quotient_is_nearest(a: Double, b: Double)
    requires
        a.finite(),
        b.finite(),
        b.magnitude() > 0,
    ensures
        !quotient(a, b).is_nan(),
        quotient(a, b).negative() == (a.negative() != b.negative()),
        2 * (a.magnitude() * unit()) < b.magnitude() * infinite_magnitude() ==> quotient(
            a,
            b,
        ).finite(),
        quotient(a, b).finite() ==> {
            let exact = a.magnitude() * unit();
            let got = quotient(a, b).magnitude() * b.magnitude();
            &&& got * 0x20_0000_0000_0000 <= exact * 0x20_0000_0000_0001 + b.magnitude()
                * 0x10_0000_0000_0000
            &&& exact * 0x1f_ffff_ffff_ffff <= got * 0x20_0000_0000_0000 + b.magnitude()
                * 0x10_0000_0000_0000
        },
{
    lemma_rounded(a.negative() != b.negative(), a.magnitude() * unit(), b.magnitude());
    rounding::lemma_nearest_is_close(a.magnitude() * unit(), b.magnitude());
    if 2 * (a.magnitude() * unit()) < b.magnitude() * infinite_magnitude() {
        lemma_finite(a.negative() != b.negative(), a.magnitude() * unit(), b.magnitude());
    }
    if quotient(a, b).finite() {
        lemma_double_bound(quotient(a, b));
    }
}

/// The double of a fraction is the exact fraction, rounded.
pub proof fn lemma_fraction_is_nearest(num: nat, den: nat)
    requires
        den > 0,
    ensures
        !fraction(num, den).is_nan(),
        !fraction(num, den).negative(),
        2 * (num * unit()) < den * infinite_magnitude() ==> fraction(num, den).finite(),
        fraction(num, den).finite() ==> {
            let exact = num * unit();
            let got = fraction(num, den).magnitude() * den;
            &&& got * 0x20_0000_0000_0000 <= exact * 0x20_0000_0000_0001 + den
                * 0x10_0000_0000_0000
            &&& exact * 0x1f_ffff_ffff_ffff <= got * 0x20_0000_0000_0000 + den
                * 0x10_0000_0000_0000
        },
{
    lemma_rounded(false, num * unit(), den);
    rounding::lemma_nearest_is_close(num * unit(), den);
    if 2 * (num * unit()) < den * infinite_magnitude() {
        lemma_finite(false, num * unit(), den);
    }
    if fraction(num, den).finite() {
        lemma_double_bound(fraction(num, den));
    }
}

/// How far two numbers are apart.
pub open spec fn apart(a: nat, b: nat) -> int {
    if a < b {
        b - a
    } else {
        a - b
    }
}

/// A double that is not below the binade of a step is a multiple of the step.
proof fn lemma_multiple(x: Double, k: nat) -> (j: nat)
    requires
        k > 0 ==> x.magnitude() >= 0x10_0000_0000_0000 * power2::pow2(k),
    ensures
        x.magnitude() == j * power2::pow2(k),
{
    power2::lemma2_to64();
    let (s, e) = (x.significand(), x.exponent());
    let (v, w) = (power2::pow2(e), power2::pow2(k));
    power2::lemma_pow2_pos(e);
    power2::lemma_pow2_pos(k);
    if e < k {
        power2::lemma_pow2_unfold(e + 1);
        if e + 1 < k {
            power2::lemma_pow2_strictly_increases(e + 1, k);
        }
        assert(s * v < 0x20_0000_0000_0000 * v) by (nonlinear_arith)
            requires
                s < 0x20_0000_0000_0000,
                v > 0,
        ;
        assert(false);
    }
    let up = power2::pow2((e - k) as nat);
    power2::lemma_pow2_adds((e - k) as nat, k);
    assert(s * (up * w) == (s * up) * w) by (nonlinear_arith);
    s * up
}

/// No multiple of the step is nearer than the one that rounding gives.
proof fn lemma_no_multiple_is_nearer(num: nat, d: nat, j: nat)
    requires
        d > 0,
    ensures
        apart(num, rounding::half_even(num, d) * d) <= apart(num, j * d),
        apart(num, rounding::half_even(num, d) * d) == apart(num, j * d) && j
            != rounding::half_even(num, d) ==> rounding::half_even(num, d) % 2 == 0,
{
    let q = rounding::half_even(num, d);
    rounding::lemma_half_even_is_nearest(num, d);
    let (x, y) = (q * d, j * d);
    if j < q {
        assert(y + d <= x) by (nonlinear_arith)
            requires
                x == q * d,
                y == j * d,
                j + 1 <= q,
        ;
    } else if q < j {
        assert(x + d <= y) by (nonlinear_arith)
            requires
                x == q * d,
                y == j * d,
                q + 1 <= j,
        ;
    }
}

/// An even significand makes an even bit pattern.
proof fn lemma_even_bits(negative: bool, m: nat, k: nat)
    requires
        m <= 0x20_0000_0000_0000,
        m < 0x10_0000_0000_0000 ==> k == 0,
        m % 2 == 0,
    ensures
        packed(negative, m, k).bits % 2 == 0,
{
}

/// No double is nearer to an exact ratio than the one it is rounded to, and where another is as
/// near, the last bit of that one is zero.
pub proof fn lemma_no_double_is_nearer(negative: bool, num: nat, den: nat, x: Double)
    requires
        den > 0,
        rounded(negative, num, den).finite(),
        x.finite(),
    ensures
        apart(num, rounded(negative, num, den).magnitude() * den) <= apart(
            num,
            x.magnitude() * den,
        ),
        apart(num, rounded(negative, num, den).magnitude() * den) == apart(
            num,
            x.magnitude() * den,
        ) && x.magnitude() != rounded(negative, num, den).magnitude() ==> rounded(
            negative,
            num,
            den,
        ).bits % 2 == 0,
{
    let r = rounded(negative, num, den);
    let k = rounding::binade(num, den);
    let w = power2::pow2(k);
    let h: nat = 0x10_0000_0000_0000;
    power2::lemma_pow2_pos(k);
    lemma_rounded(negative, num, den);
    lemma_double_bound(r);
    let d = den * w;
    assert(d > 0) by (nonlinear_arith)
        requires
            d == den * w,
            den > 0,
            w > 0,
    ;
    let q = rounding::half_even(num, d);
    rounding::lemma_significand_bounds(num, den);
    lemma_packed(negative, q, k);
    lemma_rounded_is(packed(negative, q, k), negative, num, den);
    if q % 2 == 0 {
        lemma_even_bits(negative, q, k);
    }
    assert(r.magnitude() == q * w);
    assert((q * w) * den == q * d) by (nonlinear_arith)
        requires
            d == den * w,
    ;
    if k > 0 && x.magnitude() < h * w {
        rounding::lemma_binade_bounds(num, den);
        lemma_no_multiple_is_nearer(num, d, h);
        assert(h * d == den * h * w) by (nonlinear_arith)
            requires
                d == den * w,
        ;
        let m = x.magnitude();
        assert(m * den < h * d) by (nonlinear_arith)
            requires
                d == den * w,
                m < h * w,
                den > 0,
        ;
    } else {
        let j = lemma_multiple(x, k);
        lemma_no_multiple_is_nearer(num, d, j);
        assert((j * w) * den == j * d) by (nonlinear_arith)
            requires
                d == den * w,
        ;
    }
}

/// No double is nearer to the exact product than the product, and where another is as near, the
/// last bit of the product is zero.
pub proof fn lemma_no_double_is_nearer_the_product(a: Double, b: Double, x: Double)
    requires
        a.finite(),
        b.finite(),
        product(a, b).finite(),
        x.finite(),
    ensures
        product(a, b).negative() == (a.negative() != b.negative()),
        apart(a.magnitude() * b.magnitude(), product(a, b).magnitude() * unit()) <= apart(
            a.magnitude() * b.magnitude(),
            x.magnitude() * unit(),
        ),
        apart(a.magnitude() * b.magnitude(), product(a, b).magnitude() * unit()) == apart(
            a.magnitude() * b.magnitude(),
            x.magnitude() * unit(),
        ) && x.magnitude() != product(a, b).magnitude() ==> product(a, b).bits % 2 == 0,
{
    power2::lemma_pow2_pos(1074);
    let exact = a.magnitude() * b.magnitude();
    lemma_rounded(a.negative() != b.negative(), exact, unit());
    lemma_no_double_is_nearer(a.negative() != b.negative(), exact, unit(), x);
}

/// No double is nearer to the exact quotient than the quotient, and where another is as near, the
/// last bit of the quotient is zero.
pub proof fn lemma_no_double_is_nearer_the_quotient(a: Double, b: Double, x: Double)
    requires
        a.finite(),
        b.finite(),
        b.magnitude() > 0,
        quotient(a, b).finite(),
        x.finite(),
    ensures
        quotient(a, b).negative() == (a.negative() != b.negative()),
        apart(a.magnitude() * unit(), quotient(a, b).magnitude() * b.magnitude()) <= apart(
            a.magnitude() * unit(),
            x.magnitude() * b.magnitude(),
        ),
        apart(a.magnitude() * unit(), quotient(a, b).magnitude() * b.magnitude()) == apart(
            a.magnitude() * unit(),
            x.magnitude() * b.magnitude(),
        ) && x.magnitude() != quotient(a, b).magnitude() ==> quotient(a, b).bits % 2 == 0,
{
    let exact = a.magnitude() * unit();
    lemma_rounded(a.negative() != b.negative(), exact, b.magnitude());
    lemma_no_double_is_nearer(a.negative() != b.negative(), exact, b.magnitude(), x);
}

/// No double is nearer to a fraction than the one that stands for it, and where another is as near,
/// the last bit of that one is zero.
pub proof fn lemma_no_double_is_nearer_the_fraction(num: nat, den: nat, x: Double)
    requires
        den > 0,
        fraction(num, den).finite(),
        x.finite(),
    ensures
        !fraction(num, den).negative(),
        apart(num * unit(), fraction(num, den).magnitude() * den) <= apart(
            num * unit(),
            x.magnitude() * den,
        ),
        apart(num * unit(), fraction(num, den).magnitude() * den) == apart(
            num * unit(),
            x.magnitude() * den,
        ) && x.magnitude() != fraction(num, den).magnitude() ==> fraction(num, den).bits % 2 == 0,
        whole(num) == fraction(num, 1),
{
    lemma_rounded(false, num * unit(), den);
    lemma_no_double_is_nearer(false, num * unit(), den, x);
}

/// How far two numbers are apart, of either sign.
pub open spec fn distance(a: int, b: int) -> int {
    if a < b {
        b - a
    } else {
        a - b
    }
}

/// No double is nearer to the exact sum than the sum, and where another is as near, the last bit of
/// the sum is zero.
pub proof fn lemma_no_double_is_nearer_the_sum(a: Double, b: Double, x: Double)
    requires
        a.finite(),
        b.finite(),
        sum(a, b).finite(),
        x.finite(),
    ensures
        distance(a.value() + b.value(), sum(a, b).value()) <= distance(
            a.value() + b.value(),
            x.value(),
        ),
        distance(a.value() + b.value(), sum(a, b).value()) == distance(
            a.value() + b.value(),
            x.value(),
        ) && x.value() != sum(a, b).value() ==> sum(a, b).bits % 2 == 0,
        a.value() + b.value() == 0 ==> sum(a, b).negative() == (a.negative() && b.negative()),
{
    let exact = a.value() + b.value();
    let size = distance(exact, 0) as nat;
    let negative = if exact == 0 {
        a.negative() && b.negative()
    } else {
        exact < 0
    };
    lemma_sum_is_nearest(a, b);
    lemma_rounded(negative, size, 1);
    assert(sum(a, b) == rounded(negative, size, 1));
    lemma_no_double_is_nearer(negative, size, 1, x);
    let (g, m) = (sum(a, b).magnitude(), x.magnitude());
    assert(g * 1 == g) by (nonlinear_arith);
    assert(m * 1 == m) by (nonlinear_arith);
}

/// What the operations give of infinities, of zeros and of values that are no number.
pub proof fn lemma_special_values(a: Double, b: Double)
    ensures
        a.is_nan() || b.is_nan() ==> sum(a, b).is_nan() && product(a, b).is_nan() && quotient(
            a,
            b,
        ).is_nan() && !smaller(a, b),
        a.infinite() && b.finite() ==> sum(a, b) == a && difference(a, b) == a && difference(b, a)
            == negated(a) && sum(b, a) == a,
        a.infinite() && b.infinite() ==> {
            &&& quotient(a, b).is_nan()
            &&& sum(a, b).is_nan() <==> a.negative() != b.negative()
            &&& difference(a, b).is_nan() <==> a.negative() == b.negative()
            &&& a.negative() == b.negative() ==> sum(a, b) == a
            &&& a.negative() != b.negative() ==> difference(a, b) == a
        },
        a.infinite() && b.value() == 0 ==> product(a, b).is_nan() && product(b, a).is_nan(),
        a.infinite() && !b.is_nan() && b.value() != 0 ==> {
            &&& product(a, b).infinite()
            &&& product(a, b) == product(b, a)
            &&& product(a, b).negative() == (a.negative() != b.negative())
        },
        a.infinite() && b.finite() ==> {
            &&& quotient(a, b).infinite()
            &&& quotient(a, b).negative() == (a.negative() != b.negative())
            &&& quotient(b, a).value() == 0 && quotient(b, a).finite()
            &&& quotient(b, a).negative() == (a.negative() != b.negative())
        },
        a.finite() && b.finite() && b.value() == 0 ==> {
            &&& a.value() == 0 ==> quotient(a, b).is_nan()
            &&& a.value() != 0 ==> quotient(a, b).infinite() && quotient(a, b).negative() == (
            a.negative() != b.negative())
        },
{
    assert(nan().is_nan());
    assert(infinity(true).infinite() && infinity(false).infinite());
    lemma_negated(a);
    lemma_negated(b);
    lemma_infinity(true);
    lemma_infinity(false);
    power2::lemma_pow2_pos(2098);
    power2::lemma_pow2_pos(a.exponent());
    power2::lemma_pow2_pos(b.exponent());
    if a.infinite() {
        lemma_unique(a, infinity(a.negative()));
    }
    if b.infinite() {
        lemma_unique(b, infinity(b.negative()));
    }
    lemma_rounded(a.negative() != b.negative(), 0, 1);
    rounding::lemma_nearest_bounds(0, 1);
    let zero = rounded(a.negative() != b.negative(), 0, 1);
    assert(zero.magnitude() == 0);
    lemma_finite_by_magnitude(zero);
}

/// The opposite of a double has the other sign and is otherwise the same.
pub proof fn lemma_negated(a: Double)
    ensures
        negated(a).negative() == !a.negative(),
        negated(a).is_nan() == a.is_nan(),
        negated(a).finite() == a.finite(),
        negated(a).infinite() == a.infinite(),
        negated(a).magnitude() == a.magnitude(),
        negated(a).value() == -a.value(),
{
    let r = negated(a);
    assert(r.biased() == a.biased());
    assert(r.fraction() == a.fraction());
}

} // verus!
