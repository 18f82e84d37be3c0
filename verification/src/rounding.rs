//! Rounding of exact ratios: to whole numbers, and to the 53 significant bits of a double.

use vstd::arithmetic::div_mod;
use vstd::arithmetic::mul;
use vstd::arithmetic::power2;
use vstd::prelude::*;

verus! {

/// The whole number nearest to `num / den`; of two that are equally near, the even one.
pub open spec fn half_even(num: nat, den: nat) -> nat {
    let q = num / den;
    let r = num % den;
    if 2 * r < den || (2 * r == den && q % 2 == 0) {
        q
    } else {
        q + 1
    }
}

/// The whole number nearest to `num / den`; of two that are equally near, the larger one.
pub open spec fn half_up(num: nat, den: nat) -> nat {
    (2 * num + den) / (2 * den)
}

/// The smallest whole number that is not below `num / den`.
pub open spec fn ceiling(num: nat, den: nat) -> nat {
    ((num + den - 1) / den as int) as nat
}

/// The smallest `k` for which `num / den` is below `2^(53 + k)`.
pub open spec fn binade(num: nat, den: nat) -> nat
    decreases num - den,
    when den > 0
{
    if num < den * 0x20_0000_0000_0000 {
        0
    } else {
        1 + binade(num, 2 * den)
    }
}

/// The number nearest to `num / den` among those with at most 53 significant bits; of two that are
/// equally near, the one whose 53rd bit is zero.
pub open spec fn nearest(num: nat, den: nat) -> nat {
    let step = power2::pow2(binade(num, den));
    half_even(num, den * step) * step
}

pub proof fn lemma_binade_bounds(num: nat, den: nat)
    requires
        den > 0,
    ensures
        num < den * 0x20_0000_0000_0000 * power2::pow2(binade(num, den)),
        binade(num, den) > 0 ==> num >= den * 0x10_0000_0000_0000 * power2::pow2(binade(num, den)),
    decreases num - den,
{
    power2::lemma2_to64();
    if num < den * 0x20_0000_0000_0000 {
        assert(den * 0x20_0000_0000_0000 * power2::pow2(0) == den * 0x20_0000_0000_0000)
            by (nonlinear_arith)
            requires
                power2::pow2(0) == 1,
        ;
    } else {
        lemma_binade_bounds(num, 2 * den);
        let k = binade(num, 2 * den);
        power2::lemma_pow2_unfold(k + 1);
        let w = power2::pow2(k);
        let c: nat = 0x20_0000_0000_0000;
        assert(2 * den * c * w == den * c * (2 * w)) by (nonlinear_arith);
        let h: nat = 0x10_0000_0000_0000;
        assert(2 * den * h * w == den * h * (2 * w)) by (nonlinear_arith);
        if k == 0 {
            assert(den * h * (2 * w) == den * c) by (nonlinear_arith)
                requires
                    w == 1,
                    c == 2 * h,
            ;
        }
    }
}

/// The two bounds single the binade out.
pub proof fn lemma_binade_is(num: nat, den: nat, k: nat)
    requires
        den > 0,
        num < den * 0x20_0000_0000_0000 * power2::pow2(k),
        k > 0 ==> num >= den * 0x10_0000_0000_0000 * power2::pow2(k),
    ensures
        binade(num, den) == k,
    decreases k,
{
    power2::lemma2_to64();
    let c: nat = 0x20_0000_0000_0000;
    let h: nat = 0x10_0000_0000_0000;
    if k == 0 {
        assert(den * c * power2::pow2(0) == den * c) by (nonlinear_arith)
            requires
                power2::pow2(0) == 1,
        ;
    } else {
        let j = (k - 1) as nat;
        power2::lemma_pow2_unfold(k);
        power2::lemma_pow2_pos(j);
        let w = power2::pow2(j);
        assert(2 * den * c * w == den * c * (2 * w)) by (nonlinear_arith);
        assert(2 * den * h * w == den * h * (2 * w)) by (nonlinear_arith);
        assert(den * h * (2 * w) >= den * c) by (nonlinear_arith)
            requires
                w >= 1,
                c == 2 * h,
        ;
        lemma_binade_is(num, 2 * den, j);
    }
}

pub proof fn lemma_div_mod_scale(num: nat, den: nat, c: nat)
    requires
        den > 0,
        c > 0,
    ensures
        den * c > 0,
        (num * c) / (den * c) == num / den,
        (num * c) % (den * c) == (num % den) * c,
{
    let q = (num / den) as int;
    let r = (num % den) as int;
    div_mod::lemma_fundamental_div_mod(num as int, den as int);
    div_mod::lemma_mod_bound(num as int, den as int);
    let big = (den * c) as int;
    assert(big > 0) by (nonlinear_arith)
        requires
            big == den * c,
            den > 0,
            c > 0,
    ;
    assert(num * c == q * big + r * c) by (nonlinear_arith)
        requires
            num == den * q + r,
            big == den * c,
    ;
    assert(0 <= r * c < big) by (nonlinear_arith)
        requires
            0 <= r < den,
            big == den * c,
            c > 0,
    ;
    div_mod::lemma_fundamental_div_mod_converse((num * c) as int, big, q, r * c);
}

/// Rounding looks at the ratio alone.
pub proof fn lemma_half_even_scale(num: nat, den: nat, c: nat)
    requires
        den > 0,
        c > 0,
    ensures
        half_even(num * c, den * c) == half_even(num, den),
{
    lemma_div_mod_scale(num, den, c);
    let r = num % den;
    assert(2 * (r * c) < den * c <==> 2 * r < den) by (nonlinear_arith)
        requires
            c > 0,
    ;
    assert(2 * (r * c) == den * c <==> 2 * r == den) by (nonlinear_arith)
        requires
            c > 0,
    ;
}

/// Rounding to 53 significant bits looks at the ratio alone.
pub proof fn lemma_nearest_scale(num: nat, den: nat, c: nat)
    requires
        den > 0,
        c > 0,
    ensures
        den * c > 0,
        binade(num * c, den * c) == binade(num, den),
        nearest(num * c, den * c) == nearest(num, den),
{
    let k = binade(num, den);
    let w = power2::pow2(k);
    lemma_binade_bounds(num, den);
    power2::lemma_pow2_pos(k);
    assert(den * c > 0) by (nonlinear_arith)
        requires
            den > 0,
            c > 0,
    ;
    assert(num * c < (den * c) * 0x20_0000_0000_0000 * w) by (nonlinear_arith)
        requires
            num < den * 0x20_0000_0000_0000 * w,
            c > 0,
    ;
    if k > 0 {
        assert(num * c >= (den * c) * 0x10_0000_0000_0000 * w) by (nonlinear_arith)
            requires
                num >= den * 0x10_0000_0000_0000 * w,
                c > 0,
        ;
    }
    lemma_binade_is(num * c, den * c, k);
    assert(den * w > 0) by (nonlinear_arith)
        requires
            den > 0,
            w > 0,
    ;
    lemma_half_even_scale(num, den * w, c);
    assert((den * w) * c == (den * c) * w) by (nonlinear_arith);
}

/// A ratio of at most `bound` does not round to more.
pub proof fn lemma_half_even_bound(num: nat, den: nat, bound: nat)
    requires
        den > 0,
        num <= bound * den,
    ensures
        half_even(num, den) <= bound,
{
    let q = num / den;
    let r = num % den;
    div_mod::lemma_fundamental_div_mod(num as int, den as int);
    if q >= bound {
        assert(r == 0 && q == bound) by (nonlinear_arith)
            requires
                num == den * q + r,
                num <= bound * den,
                q >= bound,
                r >= 0,
                den > 0,
        ;
    }
}

/// A ratio of at least `bound` does not round to less.
pub proof fn lemma_half_even_at_least(num: nat, den: nat, bound: nat)
    requires
        den > 0,
        num >= bound * den,
    ensures
        half_even(num, den) >= bound,
{
    div_mod::lemma_div_is_ordered((bound * den) as int, num as int, den as int);
    div_mod::lemma_div_multiples_vanish(bound as int, den as int);
    assert(bound * den == den * bound) by (nonlinear_arith);
}

/// The significand that a ratio rounds to has at most 53 bits, or is `2^53`; above the lowest
/// binade it has no fewer.
pub proof fn lemma_significand_bounds(num: nat, den: nat)
    requires
        den > 0,
    ensures
        den * power2::pow2(binade(num, den)) > 0,
        half_even(num, den * power2::pow2(binade(num, den))) <= 0x20_0000_0000_0000,
        binade(num, den) > 0 ==> half_even(num, den * power2::pow2(binade(num, den)))
            >= 0x10_0000_0000_0000,
{
    let k = binade(num, den);
    let w = power2::pow2(k);
    let step = den * w;
    lemma_binade_bounds(num, den);
    power2::lemma_pow2_pos(k);
    assert(step > 0) by (nonlinear_arith)
        requires
            step == den * w,
            den > 0,
            w > 0,
    ;
    let c: nat = 0x20_0000_0000_0000;
    let h: nat = 0x10_0000_0000_0000;
    assert(den * c * w == c * step) by (nonlinear_arith)
        requires
            step == den * w,
    ;
    assert(den * h * w == h * step) by (nonlinear_arith)
        requires
            step == den * w,
    ;
    lemma_half_even_bound(num, step, c);
    if k > 0 {
        lemma_half_even_at_least(num, step, h);
    }
}

pub proof fn lemma_half_up(num: nat, den: nat)
    requires
        den > 0,
    ensures
        half_up(num, den) == num / den + if 2 * (num % den) >= den {
            1nat
        } else {
            0
        },
{
    let q = (num / den) as int;
    let r = (num % den) as int;
    div_mod::lemma_fundamental_div_mod(num as int, den as int);
    div_mod::lemma_mod_bound(num as int, den as int);
    let d2 = (2 * den) as int;
    if 2 * r >= den {
        assert(2 * num + den == (q + 1) * d2 + (2 * r - den)) by (nonlinear_arith)
            requires
                num == den * q + r,
                d2 == 2 * den,
        ;
        div_mod::lemma_fundamental_div_mod_converse(
            (2 * num + den) as int,
            d2,
            q + 1,
            2 * r - den,
        );
    } else {
        assert(2 * num + den == q * d2 + (2 * r + den)) by (nonlinear_arith)
            requires
                num == den * q + r,
                d2 == 2 * den,
        ;
        div_mod::lemma_fundamental_div_mod_converse((2 * num + den) as int, d2, q, 2 * r + den);
    }
}

pub proof fn lemma_ceiling(num: nat, den: nat)
    requires
        den > 0,
    ensures
        ceiling(num, den) == num / den + if num % den > 0 {
            1nat
        } else {
            0
        },
{
    let q = (num / den) as int;
    let r = (num % den) as int;
    let d = den as int;
    div_mod::lemma_fundamental_div_mod(num as int, d);
    div_mod::lemma_mod_bound(num as int, d);
    if r > 0 {
        assert(num + den - 1 == (q + 1) * d + (r - 1)) by (nonlinear_arith)
            requires
                num == d * q + r,
                d == den,
        ;
        div_mod::lemma_fundamental_div_mod_converse(num + den - 1, d, q + 1, r - 1);
    } else {
        assert(num + den - 1 == q * d + (d - 1)) by (nonlinear_arith)
            requires
                num == d * q + r,
                d == den,
                r == 0,
        ;
        div_mod::lemma_fundamental_div_mod_converse(num + den - 1, d, q, d - 1);
    }
}

/// Rounding keeps order.
pub proof fn lemma_half_even_monotone(a: nat, b: nat, den: nat)
    requires
        den > 0,
        a <= b,
    ensures
        half_even(a, den) <= half_even(b, den),
{
    let (qa, ra) = ((a / den) as int, (a % den) as int);
    let (qb, rb) = ((b / den) as int, (b % den) as int);
    div_mod::lemma_fundamental_div_mod(a as int, den as int);
    div_mod::lemma_fundamental_div_mod(b as int, den as int);
    div_mod::lemma_div_is_ordered(a as int, b as int, den as int);
    if qa == qb {
        assert(den * qa == den * qb);
    }
}

/// Rounding to 53 significant bits keeps order.
pub proof fn lemma_nearest_monotone(a: nat, b: nat, den: nat)
    requires
        den > 0,
        a <= b,
    ensures
        nearest(a, den) <= nearest(b, den),
{
    let (ka, kb) = (binade(a, den), binade(b, den));
    let (wa, wb) = (power2::pow2(ka), power2::pow2(kb));
    lemma_binade_bounds(a, den);
    lemma_binade_bounds(b, den);
    lemma_significand_bounds(a, den);
    lemma_significand_bounds(b, den);
    power2::lemma_pow2_pos(ka);
    power2::lemma_pow2_pos(kb);
    let ma = half_even(a, den * wa);
    let mb = half_even(b, den * wb);
    let c: nat = 0x20_0000_0000_0000;
    let h: nat = 0x10_0000_0000_0000;
    if ka == kb {
        lemma_half_even_monotone(a, b, den * wa);
        assert(ma * wa <= mb * wa) by (nonlinear_arith)
            requires
                ma <= mb,
        ;
    } else if ka < kb {
        power2::lemma_pow2_unfold(ka + 1);
        if ka + 1 < kb {
            power2::lemma_pow2_strictly_increases(ka + 1, kb);
        }
        assert(ma * wa <= mb * wb) by (nonlinear_arith)
            requires
                ma <= c,
                c == 2 * h,
                mb >= h,
                2 * wa <= wb,
        ;
    } else {
        power2::lemma_pow2_unfold(kb + 1);
        if kb + 1 < ka {
            power2::lemma_pow2_strictly_increases(kb + 1, ka);
        }
        assert(den * c * wb <= den * h * wa) by (nonlinear_arith)
            requires
                c == 2 * h,
                2 * wb <= wa,
        ;
        assert(false);
    }
}

/// Rounding to 53 significant bits errs by at most half of the last bit.
pub proof fn lemma_nearest_error(num: nat, den: nat)
    requires
        den > 0,
    ensures
        2 * nearest(num, den) * den + den * power2::pow2(binade(num, den)) >= 2 * num,
        2 * nearest(num, den) * den <= 2 * num + den * power2::pow2(binade(num, den)),
{
    let k = binade(num, den);
    let w = power2::pow2(k);
    let step = den * w;
    lemma_significand_bounds(num, den);
    let m = half_even(num, step);
    let (q, r) = (num / step, num % step);
    div_mod::lemma_fundamental_div_mod(num as int, step as int);
    div_mod::lemma_mod_bound(num as int, step as int);
    assert((2 * (m * w)) * den == 2 * (m * step)) by (nonlinear_arith)
        requires
            step == den * w,
    ;
    assert(2 * (m * step) + step >= 2 * num && 2 * (m * step) <= 2 * num + step)
        by (nonlinear_arith)
        requires
            num == step * q + r,
            (m == q && 2 * r <= step) || (m == q + 1 && 2 * r >= step),
            0 <= r < step,
    ;
}

/// Rounding to 53 significant bits takes away no more than the `2^53`th part of a ratio of at least
/// `2^53`.
pub proof fn lemma_nearest_loss(num: nat, den: nat)
    requires
        den > 0,
        num >= den * 0x20_0000_0000_0000,
    ensures
        nearest(num, den) * den * 0x20_0000_0000_0000 >= num * 0x1f_ffff_ffff_ffff,
{
    lemma_nearest_error(num, den);
    lemma_binade_bounds(num, den);
    let n = nearest(num, den) * den;
    let step = den * power2::pow2(binade(num, den));
    let w = power2::pow2(binade(num, den));
    assert(2 * nearest(num, den) * den == 2 * n) by (nonlinear_arith)
        requires
            n == nearest(num, den) * den,
    ;
    assert(den * 0x10_0000_0000_0000 * w == 0x10_0000_0000_0000 * step) by (nonlinear_arith)
        requires
            step == den * w,
    ;
}

/// A number with at most 53 significant bits stays as it is.
pub proof fn lemma_nearest_exact(m: nat, j: nat)
    requires
        m < 0x20_0000_0000_0000,
    ensures
        nearest(m * power2::pow2(j), 1) == m * power2::pow2(j),
{
    let v = m * power2::pow2(j);
    let k = binade(v, 1);
    let w = power2::pow2(k);
    lemma_binade_bounds(v, 1);
    power2::lemma_pow2_pos(k);
    power2::lemma_pow2_pos(j);
    if k > j {
        power2::lemma_pow2_unfold(j + 1);
        if k > j + 1 {
            power2::lemma_pow2_strictly_increases(j + 1, k);
        }
        let wj = power2::pow2(j);
        assert(m * wj < 0x10_0000_0000_0000 * w) by (nonlinear_arith)
            requires
                m < 0x20_0000_0000_0000,
                2 * wj <= w,
                wj > 0,
        ;
        assert(1 * 0x10_0000_0000_0000 * w == 0x10_0000_0000_0000 * w) by (nonlinear_arith);
        assert(false);
    }
    let d = (j - k) as nat;
    power2::lemma_pow2_adds(d, k);
    let n = m * power2::pow2(d);
    assert(v == n * w) by (nonlinear_arith)
        requires
            v == m * power2::pow2(j),
            power2::pow2(j) == power2::pow2(d) * w,
            n == m * power2::pow2(d),
    ;
    div_mod::lemma_div_multiples_vanish(n as int, w as int);
    div_mod::lemma_mod_multiples_basic(n as int, w as int);
    assert(n * w == w * n) by (nonlinear_arith);
    assert(1 * w == w) by (nonlinear_arith);
}

/// Rounding to 53 significant bits at most doubles a ratio, and leaves something of one that is at
/// least 1.
pub proof fn lemma_nearest_bounds(num: nat, den: nat)
    requires
        den > 0,
    ensures
        nearest(num, den) * den <= 2 * num,
        num >= den ==> nearest(num, den) > 0,
{
    let k = binade(num, den);
    let w = power2::pow2(k);
    let step = den * w;
    lemma_significand_bounds(num, den);
    lemma_binade_bounds(num, den);
    power2::lemma_pow2_pos(k);
    power2::lemma2_to64();
    let m = half_even(num, step);
    let q = num / step;
    let r = num % step;
    div_mod::lemma_fundamental_div_mod(num as int, step as int);
    div_mod::lemma_mod_bound(num as int, step as int);
    assert(m * step <= 2 * num) by (nonlinear_arith)
        requires
            num == step * q + r,
            m == q || (m == q + 1 && 2 * r >= step),
            r >= 0,
            step > 0,
            q >= 0,
    ;
    assert((m * w) * den == m * step) by (nonlinear_arith)
        requires
            step == den * w,
    ;
    if num >= den {
        if k == 0 {
            assert(step == den) by (nonlinear_arith)
                requires
                    step == den * w,
                    w == 1,
            ;
            assert(1 * step == step) by (nonlinear_arith);
            lemma_half_even_at_least(num, step, 1);
        }
        assert(m * w > 0) by (nonlinear_arith)
            requires
                m >= 1,
                w >= 1,
        ;
    }
}

/// An even whole number passes through rounding.
pub proof fn lemma_half_even_shift(num: nat, den: nat, n: nat)
    requires
        den > 0,
        n % 2 == 0,
    ensures
        half_even(n * den + num, den) == n + half_even(num, den),
{
    let q = (num / den) as int;
    let r = (num % den) as int;
    div_mod::lemma_fundamental_div_mod(num as int, den as int);
    div_mod::lemma_mod_bound(num as int, den as int);
    assert(n * den + num == (n + q) * den + r) by (nonlinear_arith)
        requires
            num == den * q + r,
    ;
    div_mod::lemma_fundamental_div_mod_converse((n * den + num) as int, den as int, n + q, r);
}

/// [`half_even`] of two machine numbers.
pub fn round_half_even(num: u128, den: u128) -> (r: u128)
    requires
        0 < den <= 0x8000_0000_0000_0000_0000_0000_0000_0000,
        num < 0x8000_0000_0000_0000_0000_0000_0000_0000,
    ensures
        r == half_even(num as nat, den as nat),
{
    let q: u128 = num / den;
    let r: u128 = num % den;
    assert(q <= num) by (nonlinear_arith)
        requires
            q == num / den,
            den > 0,
    ;
    if 2 * r < den || (2 * r == den && q % 2 == 0) {
        q
    } else {
        q + 1
    }
}

/// `2^n` as a machine number.
pub fn power_of_two(n: u32) -> (r: u128)
    requires
        n < 128,
    ensures
        r == power2::pow2(n as nat),
{
    let mut r: u128 = 1;
    let mut i: u32 = 0;
    proof {
        power2::lemma2_to64();
        power2::lemma2_to64_rest();
        power2::lemma_pow2_adds(63, 64);
    }
    while i < n
        invariant
            i <= n < 128,
            r == power2::pow2(i as nat),
            power2::pow2(127) == 0x8000_0000_0000_0000_0000_0000_0000_0000,
        decreases n - i,
    {
        proof {
            power2::lemma_pow2_unfold((i + 1) as nat);
            if i + 1 < 127 {
                power2::lemma_pow2_strictly_increases((i + 1) as nat, 127);
            }
        }
        r = r * 2;
        i = i + 1;
    }
    r
}

/// Rounding to a whole number is off by a half at most, and at a half it gives an even number.
pub proof fn lemma_half_even_is_nearest(num: nat, den: nat)
    requires
        den > 0,
    ensures
        2 * (half_even(num, den) * den) <= 2 * num + den,
        2 * num <= 2 * (half_even(num, den) * den) + den,
        2 * (half_even(num, den) * den) == 2 * num + den ==> half_even(num, den) % 2 == 0,
        2 * num == 2 * (half_even(num, den) * den) + den ==> half_even(num, den) % 2 == 0,
{
    let (q, r) = ((num / den) as int, (num % den) as int);
    let d = den as int;
    div_mod::lemma_fundamental_div_mod(num as int, d);
    div_mod::lemma_mod_bound(num as int, d);
    assert(q * d == d * q) by (nonlinear_arith);
    assert((q + 1) * d == d * q + d) by (nonlinear_arith);
}

/// Rounding halves up is off by a half at most, and at a half it gives the larger number.
pub proof fn lemma_half_up_is_nearest(num: nat, den: nat)
    requires
        den > 0,
    ensures
        2 * (half_up(num, den) * den) <= 2 * num + den,
        2 * num < 2 * (half_up(num, den) * den) + den,
{
    lemma_half_up(num, den);
    let (q, r) = ((num / den) as int, (num % den) as int);
    let d = den as int;
    div_mod::lemma_fundamental_div_mod(num as int, d);
    div_mod::lemma_mod_bound(num as int, d);
    assert(q * d == d * q) by (nonlinear_arith);
    assert((q + 1) * d == d * q + d) by (nonlinear_arith);
}

/// Rounding up gives the least whole number that is not below.
pub proof fn lemma_ceiling_is_least(num: nat, den: nat)
    requires
        den > 0,
    ensures
        num <= ceiling(num, den) * den < num + den,
{
    lemma_ceiling(num, den);
    let (q, r) = ((num / den) as int, (num % den) as int);
    let d = den as int;
    div_mod::lemma_fundamental_div_mod(num as int, d);
    div_mod::lemma_mod_bound(num as int, d);
    assert(q * d == d * q) by (nonlinear_arith);
    assert((q + 1) * d == d * q + d) by (nonlinear_arith);
}

/// Rounding to 53 significant bits is off by no more than the `2^53`th part, or half a unit.
pub proof fn lemma_nearest_is_close(num: nat, den: nat)
    requires
        den > 0,
    ensures
        nearest(num, den) * den * 0x20_0000_0000_0000 <= num * 0x20_0000_0000_0001 + den
            * 0x10_0000_0000_0000,
        num * 0x1f_ffff_ffff_ffff <= nearest(num, den) * den * 0x20_0000_0000_0000 + den
            * 0x10_0000_0000_0000,
        num >= den * 0x20_0000_0000_0000 ==> {
            &&& nearest(num, den) * den * 0x20_0000_0000_0000 <= num * 0x20_0000_0000_0001
            &&& num * 0x1f_ffff_ffff_ffff <= nearest(num, den) * den * 0x20_0000_0000_0000
        },
{
    lemma_nearest_error(num, den);
    lemma_binade_bounds(num, den);
    power2::lemma2_to64();
    let k = binade(num, den);
    let w = power2::pow2(k);
    let n = nearest(num, den) * den;
    let step = den * w;
    assert(2 * nearest(num, den) * den == 2 * n) by (nonlinear_arith)
        requires
            n == nearest(num, den) * den,
    ;
    if k > 0 {
        assert(den * 0x10_0000_0000_0000 * w == 0x10_0000_0000_0000 * step) by (nonlinear_arith)
            requires
                step == den * w,
        ;
    } else {
        assert(step == den) by (nonlinear_arith)
            requires
                step == den * w,
                w == 1,
        ;
        assert(den * 0x20_0000_0000_0000 * w == den * 0x20_0000_0000_0000) by (nonlinear_arith)
            requires
                w == 1,
        ;
    }
}


} // verus!
