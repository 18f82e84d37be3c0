//! What transcription costs, and how much of it may be spent.

use crate::double;
use crate::double::Double;
use crate::rounding;
use crate::span;
use crate::span::Span;
use vstd::prelude::*;

verus! {

/// The price of a second, as millionths of a unit of money.
pub const PRICE_MILLIONTHS_PER_SECOND: u64 = 193;

/// The most that may have been spent before a transcription starts, in units of money.
pub const MAX_PRICE: u64 = 30;

/// The price of a second in cents.
pub open spec fn cents_per_second() -> Double {
    double::product(
        double::whole(100),
        double::fraction(PRICE_MILLIONTHS_PER_SECOND as nat, 1_000_000),
    )
}

/// The price of a recording, in the nearest number of cents, halves going up.
pub open spec fn price_of(length: Span) -> nat {
    double::at_most_u64(
        rounding::half_up(
            double::product(cents_per_second(), length.seconds()).magnitude(),
            double::unit(),
        ),
    )
}

/// Money spent, as a number of whole cents divided by a hundred.
pub open spec fn money(cents: nat) -> Double {
    double::quotient(double::whole(cents), double::whole(100))
}

proof fn lemma_price(length: Span)
    requires
        length.wf(),
    ensures
        !double::product(cents_per_second(), length.seconds()).is_nan(),
        !double::product(cents_per_second(), length.seconds()).negative(),
{
    let u = double::unit();
    double::lemma_unit();
    double::lemma_whole(100);
    let num = 193 * u;
    let inf = double::infinite_magnitude();
    assert(2 * num < 1_000_000 * inf);
    double::lemma_finite(false, num, 1_000_000);
    rounding::lemma_nearest_bounds(num, 1_000_000);
    let f = double::fraction(193, 1_000_000);
    let fm = f.magnitude();
    assert(fm <= u);
    assert(2 * ((100 * u) * fm) < u * inf) by (nonlinear_arith)
        requires
            fm <= u,
            200 * u < inf,
            u > 0,
    ;
    double::lemma_finite(false, (100 * u) * fm, u);
    span::lemma_seconds(length);
    double::lemma_rounded(
        false,
        cents_per_second().magnitude() * length.seconds().magnitude(),
        u,
    );
}

/// What the transcription of a recording costs, in cents.
pub fn price_in_cents(length: &Span) -> (r: u64)
    requires
        length.wf(),
    ensures
        r == price_of(*length),
        2 * (r * 10_000_000_000_000) * 0x2_0000_0000_0000 <= 2 * (193 * length.total())
            * 0x2_0000_0000_0001 + 10_000_000_000_000 * 0x2_0000_0000_0000,
        2 * (193 * length.total()) * 0x1_ffff_ffff_ffff <= 2 * (r * 10_000_000_000_000)
            * 0x2_0000_0000_0000 + 10_000_000_000_000 * 0x2_0000_0000_0000,
{
    let rate = Double::from_u64(100).times(
        Double::from_fraction(PRICE_MILLIONTHS_PER_SECOND, 1_000_000),
    );
    let price = rate.times(length.as_double());
    proof {
        lemma_price(*length);
        lemma_price_is_close(*length);
    }
    price.round_half_up()
}

/// Amounts of money compare with the limit as the cents do.
proof fn lemma_money(cents: nat)
    requires
        cents <= u64::MAX,
    ensures
        double::smaller(double::whole(30), money(cents)) == (cents > 3000),
{
    let u = double::unit();
    double::lemma_unit();
    double::lemma_whole(cents);
    double::lemma_whole(30);
    let c = double::whole(cents);
    let inf = double::infinite_magnitude();
    assert(2 * c.magnitude() < inf) by (nonlinear_arith)
        requires
            c.magnitude() <= 2 * cents * u,
            cents <= 0xffff_ffff_ffff_ffff,
            u * 0x100_0000_0000_0000_0000_0000_0000_0000 < inf,
            u > 0,
    ;
    double::lemma_over_whole(c, 100);
    let m = money(cents).magnitude();
    if cents <= 3000 {
        assert(cents * u <= 3000 * u) by (nonlinear_arith)
            requires
                cents <= 3000,
                u > 0,
        ;
        rounding::lemma_nearest_monotone(c.magnitude(), 3000 * u, 100);
        rounding::lemma_nearest_scale(30 * u, 1, 100);
        rounding::lemma_nearest_exact(30, 1074);
        assert((30 * u) * 100 == 3000 * u) by (nonlinear_arith);
    } else {
        assert(cents * u >= 3001 * u) by (nonlinear_arith)
            requires
                cents >= 3001,
                u > 0,
        ;
        rounding::lemma_nearest_exact(3001, 1074);
        rounding::lemma_nearest_monotone(3001 * u, cents * u, 1);
        rounding::lemma_nearest_monotone(3001 * u, c.magnitude(), 100);
        rounding::lemma_nearest_loss(3001 * u, 100);
    }
}

/// Whether more than the limit was spent before.
pub fn exceeds_budget(spent_cents: u64) -> (r: bool)
    ensures
        r == (spent_cents > 3000),
        r == double::smaller(double::whole(MAX_PRICE as nat), money(spent_cents as nat)),
{
    let total = Double::from_u64(spent_cents).over(Double::from_u64(100));
    proof {
        lemma_money(spent_cents as nat);
    }
    Double::from_u64(MAX_PRICE).less(total)
}

/// The cents spent after an attempt to spend a price.
pub open spec fn after_spending(spent_cents: int, cents: int) -> int {
    if spent_cents <= 3000 {
        (spent_cents + cents) % 0x1_0000_0000_0000_0000
    } else {
        spent_cents
    }
}

/// The cents spent so far.
#[derive(Clone, Copy, Debug, PartialEq, Eq, Structural)]
pub struct Budget {
    pub spent_cents: u64,
}

impl Budget {
    pub fn new() -> (r: Self)
        ensures
            r.spent_cents == 0,
    {
        Budget { spent_cents: 0 }
    }

    /// Spends the price of a transcription, unless more than the limit was spent before; says
    /// whether it did. The sum wraps at 64 bits.
    pub fn spend(&mut self, cents: u64) -> (spent: bool)
        ensures
            spent == (old(self).spent_cents <= 3000),
            final(self).spent_cents == after_spending(
                old(self).spent_cents as int,
                cents as int,
            ),
            old(self).spent_cents > 3000 ==> final(self).spent_cents == old(self).spent_cents,
            old(self).spent_cents <= 3000 && old(self).spent_cents + cents <= u64::MAX ==> final(self).spent_cents == old(self).spent_cents + cents,
    {
        if exceeds_budget(self.spent_cents) {
            false
        } else {
            self.spent_cents = self.spent_cents.wrapping_add(cents);
            true
        }
    }
}

/// Whether the captions of a video are to be made.
#[derive(Clone, Copy, Debug, PartialEq, Eq, Structural)]
pub enum Admission {
    /// There are captions already.
    Captioned,
    /// Too much was spent before.
    TooExpensive,
    /// They are to be made, and are paid for.
    Admitted,
}

impl Budget {
    /// Decides whether to caption a video, and pays for it where it is to be. Nothing is spent on
    /// another.
    pub fn consider(&mut self, captioned: bool, length: &Span) -> (r: Admission)
        requires
            length.wf(),
        ensures
            r == if captioned {
                Admission::Captioned
            } else if old(self).spent_cents > 3000 {
                Admission::TooExpensive
            } else {
                Admission::Admitted
            },
            final(self).spent_cents == if r is Admitted {
                after_spending(old(self).spent_cents as int, price_of(*length) as int)
            } else {
                old(self).spent_cents as int
            },
            !captioned && old(self).spent_cents <= 3000 ==> final(self).spent_cents == old(self).spent_cents + price_of(*length),
    {
        proof {
            lemma_price_is_close(*length);
        }
        if captioned {
            Admission::Captioned
        } else if self.spend(price_in_cents(length)) {
            Admission::Admitted
        } else {
            Admission::TooExpensive
        }
    }
}

/// The cents spent after attempts to spend several prices, one after the other.
pub open spec fn after_all(prices: Seq<u64>) -> int
    decreases prices.len(),
{
    if prices.len() == 0 {
        0
    } else {
        after_spending(after_all(prices.drop_last()), prices.last() as int)
    }
}

/// However many transcriptions are asked for, no more is spent than the limit and the price of a
/// single transcription.
pub proof fn lemma_overspending_is_bounded(prices: Seq<u64>, most: u64)
    requires
        forall|i: int| 0 <= i < prices.len() ==> #[trigger] prices[i] <= most,
    ensures
        0 <= after_all(prices) <= 3000 + most,
    decreases prices.len(),
{
    if prices.len() > 0 {
        let front = prices.drop_last();
        assert forall|i: int| 0 <= i < front.len() implies #[trigger] front[i] <= most by {
            assert(front[i] == prices[i]);
        }
        lemma_overspending_is_bounded(front, most);
        assert(prices.last() <= most);
    }
}

/// A second costs 0.0193 cents, hence a recording 193 cents for every ten thousand seconds: the
/// price is the nearest number of cents, up to the rounding of doubles. It is always far below what
/// a count of cents can hold.
pub proof fn lemma_price_is_close(length: Span)
    requires
        length.wf(),
    ensures
        price_of(length) <= 0x1000_0000_0000_0000,
        2 * (price_of(length) * 10_000_000_000_000) * 0x2_0000_0000_0000 <= 2 * (193
            * length.total()) * 0x2_0000_0000_0001 + 10_000_000_000_000 * 0x2_0000_0000_0000,
        2 * (193 * length.total()) * 0x1_ffff_ffff_ffff <= 2 * (price_of(length)
            * 10_000_000_000_000) * 0x2_0000_0000_0000 + 10_000_000_000_000 * 0x2_0000_0000_0000,
{
    let u = double::unit() as int;
    double::lemma_unit();
    span::lemma_seconds(length);
    span::lemma_seconds_are_close(length);
    let c = 0x20_0000_0000_0000int;
    let (lo, hi) = (c - 1, c + 1);
    let t = length.total() as int;
    let s = length.seconds().magnitude() as int;
    let k = cents_per_second();
    lemma_rate();
    let km = k.magnitude() as int;
    let exact = km * s;
    let p = double::product(k, length.seconds());
    let n = rounding::nearest(exact as nat, u as nat) as int;
    assert(exact >= 0) by (nonlinear_arith)
        requires
            exact == km * s,
            km >= 0,
            s >= 0,
    ;
    double::lemma_rounded(false, exact as nat, u as nat);
    rounding::lemma_nearest_is_close(exact as nat, u as nat);
    // the product is finite
    assert(exact <= s * u) by (nonlinear_arith)
        requires
            exact == km * s,
            km <= u,
            s >= 0,
    ;
    assert(2 * exact < u * double::infinite_magnitude()) by (nonlinear_arith)
        requires
            exact <= s * u,
            2 * s < double::infinite_magnitude(),
            u > 0,
    ;
    double::lemma_finite(false, exact as nat, u as nat);
    assert(p.magnitude() == n);
    let r = rounding::half_up(n as nat, u as nat) as int;
    rounding::lemma_half_up_is_nearest(n as nat, u as nat);
    let tu = t * u;
    let sb = s * 1_000_000_000;
    assert(tu * lo * lo <= sb * c * c && sb * c * c <= tu * hi * hi);
    if t == 0 {
        assert(exact == 0) by (nonlinear_arith)
            requires
                exact == km * s,
                s == 0,
        ;
        rounding::lemma_nearest_bounds(0, u as nat);
        assert(n == 0) by (nonlinear_arith)
            requires
                n * u <= 0,
                u > 0,
                n >= 0,
        ;
        assert(r == 0) by (nonlinear_arith)
            requires
                2 * (r * u) <= u,
                u > 0,
                r >= 0,
        ;
    } else {
        assert(tu >= u) by (nonlinear_arith)
            requires
                tu == t * u,
                t >= 1,
                u > 0,
        ;
        assert(sb * 4 >= tu) by (nonlinear_arith)
            requires
                tu * lo * lo <= sb * c * c,
                c == 0x20_0000_0000_0000,
                lo == c - 1,
                tu >= 0,
        ;
        assert(exact >= km * (1000 * c)) by (nonlinear_arith)
            requires
                exact == km * s,
                s >= 1000 * c,
                km > 0,
        ;
        assert(exact >= u * c);
        let nu = n * u;
        assert(nu * c <= exact * hi && exact * lo <= nu * c);
        lemma_price_chain(n, km, s, t, u);
        let e = 0x2_0000_0000_0000int;
        let g = 10_000_000_000_000int;
        let ng = n * g;
        assert(ng * e <= 193 * tu * (e + 1) && 193 * tu * (e - 1) <= ng * e);
        let ru = r * u;
        assert(2 * ru <= 2 * n + u && 2 * n <= 2 * ru + u);
        assert(2 * (r * g) * e <= 2 * (193 * t) * (e + 1) + g * e) by (nonlinear_arith)
            requires
                2 * ru <= 2 * n + u,
                ru == r * u,
                n * g * e <= 193 * (t * u) * (e + 1),
                u > 0,
                g > 0,
                e > 0,
        ;
        assert(2 * (193 * t) * (e - 1) <= 2 * (r * g) * e + g * e) by (nonlinear_arith)
            requires
                2 * n <= 2 * ru + u,
                ru == r * u,
                193 * (t * u) * (e - 1) <= n * g * e,
                u > 0,
                g > 0,
                e > 0,
        ;
        assert(t < 0x1_0000_0000_0000_0000 * 1_000_000_000);
        assert(r <= 0x1000_0000_0000_0000);
    }
}

/// The price of a second in cents, off by two roundings.
proof fn lemma_rate()
    ensures
        ({
            let u = double::unit();
            let k = cents_per_second();
            let c: nat = 0x20_0000_0000_0000;
            &&& k.finite()
            &&& !k.negative()
            &&& k.magnitude() <= u
            &&& k.magnitude() * 1000 >= u
            &&& k.magnitude() * 10_000 * c * c <= 193 * u * (c + 1) * (c + 1)
            &&& 193 * u * (c - 1) * (c - 1) <= k.magnitude() * 10_000 * c * c
        }),
{
    let u = double::unit();
    double::lemma_unit();
    double::lemma_whole(100);
    let inf = double::infinite_magnitude();
    double::lemma_finite(false, 193 * u, 1_000_000);
    rounding::lemma_nearest_is_close(193 * u, 1_000_000);
    let f = double::fraction(193, 1_000_000);
    let fm = f.magnitude();
    let c: nat = 0x20_0000_0000_0000;
    let (lo, hi) = ((c - 1) as nat, c + 1);
    assert(fm * 1_000_000 * c <= 193 * u * hi && 193 * u * lo <= fm * 1_000_000 * c);
    let exact = (100 * u) * fm;
    assert(exact == (100 * fm) * u) by (nonlinear_arith)
        requires
            exact == (100 * u) * fm,
    ;
    rounding::lemma_nearest_scale(100 * fm, 1, u);
    assert(1 * u == u) by (nonlinear_arith);
    rounding::lemma_nearest_is_close(100 * fm, 1);
    rounding::lemma_nearest_bounds(100 * fm, 1);
    let km = rounding::nearest(100 * fm, 1);
    assert(km * 1 == km) by (nonlinear_arith);
    assert(2 * exact < u * inf) by (nonlinear_arith)
        requires
            exact == (100 * fm) * u,
            200 * fm < inf,
            u > 0,
    ;
    double::lemma_finite(false, exact, u);
    assert(cents_per_second().magnitude() == km);
    assert(km * 1 * c == km * c) by (nonlinear_arith);
    assert(km * c <= (100 * fm) * hi && (100 * fm) * lo <= km * c);
    assert(km * 10_000 * c * c <= 193 * u * hi * hi) by (nonlinear_arith)
        requires
            km * c <= (100 * fm) * hi,
            fm * 1_000_000 * c <= 193 * u * hi,
    ;
    assert(193 * u * lo * lo <= km * 10_000 * c * c) by (nonlinear_arith)
        requires
            (100 * fm) * lo <= km * c,
            193 * u * lo <= fm * 1_000_000 * c,
    ;
}

proof fn lemma_price_chain(n: int, k: int, s: int, t: int, u: int)
    requires
        n >= 0,
        k > 0,
        s > 0,
        t > 0,
        u > 0,
        ({
            let c = 0x20_0000_0000_0000int;
            let (lo, hi) = (c - 1, c + 1);
            &&& k * 10_000 * c * c <= 193 * u * hi * hi
            &&& 193 * u * lo * lo <= k * 10_000 * c * c
            &&& (n * u) * c <= (k * s) * hi
            &&& (k * s) * lo <= (n * u) * c
            &&& (t * u) * lo * lo <= s * 1_000_000_000 * c * c
            &&& s * 1_000_000_000 * c * c <= (t * u) * hi * hi
        }),
    ensures
        n * 10_000_000_000_000 * 0x2_0000_0000_0000 <= 193 * (t * u) * 0x2_0000_0000_0001,
        193 * (t * u) * 0x1_ffff_ffff_ffff <= n * 10_000_000_000_000 * 0x2_0000_0000_0000,
{
    let c = 0x20_0000_0000_0000int;
    let (lo, hi) = (c - 1, c + 1);
    let (c2, l2, h2) = (c * c, lo * lo, hi * hi);
    let (kb, sb) = (k * 10_000, s * 1_000_000_000);
    assert(kb * c2 <= 193 * u * h2 && 193 * u * l2 <= kb * c2) by (nonlinear_arith)
        requires
            kb * c * c <= 193 * u * hi * hi,
            193 * u * lo * lo <= kb * c * c,
            c2 == c * c,
            l2 == lo * lo,
            h2 == hi * hi,
    ;
    let tu = t * u;
    assert(sb * c2 <= tu * h2 && tu * l2 <= sb * c2) by (nonlinear_arith)
        requires
            sb * c * c <= tu * hi * hi,
            tu * lo * lo <= sb * c * c,
            c2 == c * c,
            l2 == lo * lo,
            h2 == hi * hi,
    ;
    let g = 10_000_000_000_000int;
    let ks = k * s;
    assert(ks * g == kb * sb) by (nonlinear_arith)
        requires
            ks == k * s,
            kb == k * 10_000,
            sb == s * 1_000_000_000,
            g == 10_000_000_000_000,
    ;
    let (c4, l4, h4) = (c2 * c2, l2 * l2, h2 * h2);
    let u193 = 193 * u;
    lemma_products(kb * c2, u193 * h2, sb * c2, tu * h2);
    lemma_products(u193 * l2, kb * c2, tu * l2, sb * c2);
    assert((kb * c2) * (sb * c2) == (ks * g) * c4) by (nonlinear_arith)
        requires
            ks * g == kb * sb,
            c4 == c2 * c2,
    ;
    assert((u193 * h2) * (tu * h2) == (u193 * tu) * h4) by (nonlinear_arith)
        requires
            h4 == h2 * h2,
    ;
    assert((u193 * l2) * (tu * l2) == (u193 * tu) * l4) by (nonlinear_arith)
        requires
            l4 == l2 * l2,
    ;
    // (n u) g c^5 is between 193 u t u (c -+ 1)^5
    let (c5, l5, h5) = (c4 * c, l4 * lo, h4 * hi);
    let nu = n * u;
    let want = u193 * tu;
    assert((nu * g) * c5 <= want * h5) by (nonlinear_arith)
        requires
            nu * c <= ks * hi,
            (ks * g) * c4 <= want * h4,
            c5 == c4 * c,
            h5 == h4 * hi,
            g > 0,
            c4 > 0,
            hi > 0,
    ;
    assert(want * l5 <= (nu * g) * c5) by (nonlinear_arith)
        requires
            ks * lo <= nu * c,
            want * l4 <= (ks * g) * c4,
            c5 == c4 * c,
            l5 == l4 * lo,
            g > 0,
            c4 > 0,
            lo > 0,
    ;
    // without the unit that both have
    let w = 193 * tu;
    let ng = n * g;
    assert(ng * c5 <= w * h5) by (nonlinear_arith)
        requires
            (nu * g) * c5 <= want * h5,
            nu == n * u,
            ng == n * g,
            want == (193 * u) * tu,
            w == 193 * tu,
            u > 0,
    ;
    assert(w * l5 <= ng * c5) by (nonlinear_arith)
        requires
            want * l5 <= (nu * g) * c5,
            nu == n * u,
            ng == n * g,
            want == (193 * u) * tu,
            w == 193 * tu,
            u > 0,
    ;
    let e = 0x2_0000_0000_0000int;
    assert(c2 == 0x400000000000000000000000000int && l2 == 0x3ffffffffffffc0000000000001int && h2 == 0x400000000000040000000000001int);
    assert(c4 == 0x100000000000000000000000000000000000000000000000000000int) by (nonlinear_arith)
        requires
            c4 == c2 * c2,
            c2 == 0x400000000000000000000000000int,
    ;
    assert(c5 == 0x2000000000000000000000000000000000000000000000000000000000000000000int) by (nonlinear_arith)
        requires
            c5 == c4 * c,
            c4 == 0x100000000000000000000000000000000000000000000000000000int,
            c == 0x20000000000000int,
    ;
    assert(l4 == 0xffffffffffffe00000000000017ffffffffffff80000000000001int) by (nonlinear_arith)
        requires
            l4 == l2 * l2,
            l2 == 0x3ffffffffffffc0000000000001int,
    ;
    assert(l5 == 0x1ffffffffffffb0000000000004ffffffffffffd80000000000009fffffffffffffint) by (nonlinear_arith)
        requires
            l5 == l4 * lo,
            l4 == 0xffffffffffffe00000000000017ffffffffffff80000000000001int,
            lo == 0x1fffffffffffffint,
    ;
    assert(h4 == 0x100000000000020000000000001800000000000080000000000001int) by (nonlinear_arith)
        requires
            h4 == h2 * h2,
            h2 == 0x400000000000040000000000001int,
    ;
    assert(h5 == 0x20000000000005000000000000500000000000028000000000000a0000000000001int) by (nonlinear_arith)
        requires
            h5 == h4 * hi,
            h4 == 0x100000000000020000000000001800000000000080000000000001int,
            hi == 0x20000000000001int,
    ;
    assert(h5 * e <= c5 * (e + 1));
    assert(c5 * (e - 1) <= l5 * e);
    assert(tu > 0) by (nonlinear_arith)
        requires
            tu == t * u,
            t > 0,
            u > 0,
    ;
    assert(ng * e <= w * (e + 1)) by (nonlinear_arith)
        requires
            ng * c5 <= w * h5,
            h5 * e <= c5 * (e + 1),
            c5 > 0,
            e > 0,
            w > 0,
    ;
    assert(w * (e - 1) <= ng * e) by (nonlinear_arith)
        requires
            w * l5 <= ng * c5,
            c5 * (e - 1) <= l5 * e,
            c5 > 0,
            e > 0,
            w > 0,
    ;
}

proof fn lemma_products(a: int, b: int, x: int, y: int)
    by (nonlinear_arith)
    requires
        0 <= a <= b,
        0 <= x <= y,
    ensures
        a * x <= b * y,
{
}

} // verus!
