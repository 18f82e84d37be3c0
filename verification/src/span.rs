//! Spans of time, in whole seconds and nanoseconds.

use crate::double;
use crate::double::Double;
use crate::rounding;
use vstd::arithmetic::div_mod;
use vstd::arithmetic::power2;
use vstd::prelude::*;

verus! {

/// A span of time; fewer nanoseconds than a second has stand beside the whole seconds.
#[derive(Clone, Copy, Debug, PartialEq, Eq, Structural)]
pub struct Span {
    pub secs: u64,
    pub nanos: u32,
}

/// One nanosecond more than the longest span.
pub open spec fn too_long() -> nat {
    0x1_0000_0000_0000_0000 * 1_000_000_000
}

/// The nearest whole number of nanoseconds, of two that are equally near the even one.
pub open spec fn nearest_nanos(seconds: Double) -> nat {
    rounding::half_even(seconds.magnitude() * 1_000_000_000, double::unit())
}

/// Whether a number of seconds is a span of time: it is finite, not below zero, and not too large.
pub open spec fn is_span(seconds: Double) -> bool {
    seconds.finite() && seconds.value() >= 0 && nearest_nanos(seconds) < too_long()
}

impl Span {
    pub open spec fn wf(self) -> bool {
        self.nanos < 1_000_000_000
    }

    /// The length in nanoseconds.
    pub open spec fn total(self) -> nat {
        self.secs as nat * 1_000_000_000 + self.nanos as nat
    }

    /// The length in seconds, as a double: the seconds plus the fraction, each rounded.
    pub open spec fn seconds(self) -> Double {
        double::sum(
            double::whole(self.secs as nat),
            double::quotient(double::whole(self.nanos as nat), double::whole(1_000_000_000)),
        )
    }

    /// The span of so many nanoseconds.
    pub open spec fn of_total(total: nat) -> Span {
        Span { secs: (total / 1_000_000_000) as u64, nanos: (total % 1_000_000_000) as u32 }
    }

    pub fn from_secs(secs: u64) -> (r: Self)
        ensures
            r.wf(),
            r.total() == secs * 1_000_000_000,
            r == (Span { secs, nanos: 0 }),
    {
        Span { secs, nanos: 0 }
    }

    pub fn is_zero(&self) -> (r: bool)
        ensures
            r == (self.total() == 0),
    {
        self.secs == 0 && self.nanos == 0
    }

    /// Whether this span is shorter than `other`.
    pub fn less(&self, other: &Span) -> (r: bool)
        requires
            self.wf(),
            other.wf(),
        ensures
            r == (self.total() < other.total()),
    {
        self.secs < other.secs || (self.secs == other.secs && self.nanos < other.nanos)
    }

    /// The two spans after one another; `None` where that is too long.
    pub fn checked_add(&self, other: &Span) -> (r: Option<Span>)
        requires
            self.wf(),
            other.wf(),
        ensures
            r is Some <==> self.total() + other.total() < too_long(),
            r is Some <==> self.total() + other.total() < 0x1_0000_0000_0000_0000 * 1_000_000_000,
            r matches Some(s) ==> s.wf() && s.total() == self.total() + other.total(),
    {
        let nanos: u32 = self.nanos + other.nanos;
        let (carry, nanos): (u64, u32) = if nanos >= 1_000_000_000 {
            (1, nanos - 1_000_000_000)
        } else {
            (0, nanos)
        };
        let secs: u128 = self.secs as u128 + other.secs as u128 + carry as u128;
        if secs <= 0xffff_ffff_ffff_ffff {
            Some(Span { secs: secs as u64, nanos })
        } else {
            None
        }
    }

    /// What is left of this span without `other`; nothing where `other` is longer.
    pub fn saturating_sub(&self, other: &Span) -> (r: Span)
        requires
            self.wf(),
            other.wf(),
        ensures
            r.wf(),
            r.total() == if other.total() <= self.total() {
                (self.total() - other.total()) as nat
            } else {
                0
            },
    {
        if self.less(other) {
            Span { secs: 0, nanos: 0 }
        } else if self.nanos >= other.nanos {
            Span { secs: self.secs - other.secs, nanos: self.nanos - other.nanos }
        } else {
            Span {
                secs: self.secs - other.secs - 1,
                nanos: 1_000_000_000 - other.nanos + self.nanos,
            }
        }
    }

    /// The length in whole milliseconds.
    pub fn as_millis(&self) -> (r: u128)
        requires
            self.wf(),
        ensures
            r == self.total() / 1_000_000,
            r == self.secs * 1000 + self.nanos / 1_000_000,
    {
        self.secs as u128 * 1000 + (self.nanos / 1_000_000) as u128
    }

    /// The length in seconds.
    pub fn as_double(&self) -> (r: Double)
        ensures
            r == self.seconds(),
            self.wf() ==> {
                &&& r.finite()
                &&& !r.negative()
                &&& r.magnitude() * 1_000_000_000 * 0x20_0000_0000_0000 * 0x20_0000_0000_0000
                    <= self.total() * double::unit() * 0x20_0000_0000_0001 * 0x20_0000_0000_0001
                &&& self.total() * double::unit() * 0x1f_ffff_ffff_ffff * 0x1f_ffff_ffff_ffff
                    <= r.magnitude() * 1_000_000_000 * 0x20_0000_0000_0000 * 0x20_0000_0000_0000
                &&& self.nanos == 0 && self.secs < 0x20_0000_0000_0000 ==> r.magnitude()
                    == self.secs * double::unit()
            },
    {
        proof {
            if self.wf() {
                lemma_seconds(*self);
                lemma_seconds_are_close(*self);
            }
        }
        let fraction = Double::from_u64(self.nanos as u64).over(Double::from_u64(1_000_000_000));
        Double::from_u64(self.secs).plus(fraction)
    }

    /// The span of that many seconds; `None` where the number is not one of a span.
    pub fn from_double(seconds: Double) -> (r: Option<Span>)
        ensures
            r is Some <==> is_span(seconds),
            !seconds.finite() || seconds.value() < 0 ==> r is None,
            seconds.finite() && seconds.value() >= 0 && seconds.magnitude() <= 0xffff_ffff_ffff_ffff
                * double::unit() ==> r is Some,
            seconds.magnitude() >= 0x1_0000_0000_0000_0000 * double::unit() ==> r is None,
            r matches Some(s) ==> {
                &&& 2 * (s.total() * double::unit()) <= 2 * (seconds.magnitude() * 1_000_000_000)
                    + double::unit()
                &&& 2 * (seconds.magnitude() * 1_000_000_000) <= 2 * (s.total() * double::unit())
                    + double::unit()
            },
            r matches Some(s) ==> s.wf() && s.total() == nearest_nanos(seconds),
    {
        proof {
            double::lemma_unit();
            let u = double::unit();
            let scaled = seconds.magnitude() * 1_000_000_000;
            rounding::lemma_half_even_is_nearest(scaled, u);
            if seconds.magnitude() <= 0xffff_ffff_ffff_ffff * u {
                let most: nat = 0xffff_ffff_ffff_ffff * 1_000_000_000;
                assert(scaled <= most * u) by (nonlinear_arith)
                    requires
                        scaled == seconds.magnitude() * 1_000_000_000,
                        seconds.magnitude() <= 0xffff_ffff_ffff_ffff * u,
                        most == 0xffff_ffff_ffff_ffff * 1_000_000_000,
                ;
                rounding::lemma_half_even_bound(scaled, u, most);
            }
            if seconds.magnitude() >= 0x1_0000_0000_0000_0000 * u {
                assert(scaled >= too_long() * u) by (nonlinear_arith)
                    requires
                        scaled == seconds.magnitude() * 1_000_000_000,
                        seconds.magnitude() >= 0x1_0000_0000_0000_0000 * u,
                        too_long() == 0x1_0000_0000_0000_0000 * 1_000_000_000,
                ;
                rounding::lemma_half_even_at_least(scaled, u, too_long());
            }
        }
        if !seconds.is_finite() {
            return None;
        }
        if seconds.is_sign_negative() && !seconds.is_zero() {
            return None;
        }
        let secs: u64 = seconds.whole_part();
        let nanos: u64 = seconds.fraction_in(1_000_000_000);
        proof {
            let u = double::unit();
            let mag = seconds.magnitude();
            power2::lemma_pow2_pos(1074);
            let n = mag / u;
            let f = mag % u;
            div_mod::lemma_fundamental_div_mod(mag as int, u as int);
            assert(mag * 1_000_000_000 == (n * 1_000_000_000) * u + f * 1_000_000_000)
                by (nonlinear_arith)
                requires
                    mag == u * n + f,
            ;
            assert((n * 1_000_000_000) % 2 == 0) by {
                assert(n * 1_000_000_000 == 2 * (n * 500_000_000));
            }
            rounding::lemma_half_even_shift(f * 1_000_000_000, u, n * 1_000_000_000);
        }
        if seconds.exceeds_u64() {
            return None;
        }
        if nanos < 1_000_000_000 {
            Some(Span { secs, nanos: nanos as u32 })
        } else if secs < 0xffff_ffff_ffff_ffff {
            Some(Span { secs: secs + 1, nanos: 0 })
        } else {
            None
        }
    }
}

/// A length is that of one span only.
pub proof fn lemma_total_unique(a: Span, b: Span)
    requires
        a.wf(),
        b.wf(),
        a.total() == b.total(),
    ensures
        a == b,
{
}

/// The length of a span in seconds is a finite double that is not negative. It is zero for the
/// empty span only, and falls short of the whole seconds by hardly anything.
pub proof fn lemma_seconds(s: Span)
    requires
        s.wf(),
    ensures
        s.seconds().finite(),
        !s.seconds().negative(),
        2 * s.seconds().magnitude() < double::infinite_magnitude(),
        s.total() == 0 ==> s.seconds().magnitude() == 0,
        s.total() > 0 ==> s.seconds().magnitude() >= 0x20_0000_0000_0000,
        s.seconds().magnitude() * 0x20_0000_0000_0000 * 0x20_0000_0000_0000 >= s.secs
            * double::unit() * 0x1f_ffff_ffff_ffff * 0x1f_ffff_ffff_ffff,
{
    let u = double::unit();
    double::lemma_unit();
    let nanos = s.nanos as nat;
    let secs = s.secs as nat;
    let part = double::whole(nanos);
    double::lemma_whole(nanos);
    double::lemma_whole(secs);
    let a = double::whole(secs);
    assert(nanos * u <= 1_000_000_000 * u) by (nonlinear_arith)
        requires
            nanos <= 1_000_000_000,
            u > 0,
    ;
    double::lemma_over_whole(part, 1_000_000_000);
    let q = double::quotient(part, double::whole(1_000_000_000));
    rounding::lemma_nearest_bounds(nanos * u, 1_000_000_000);
    // the fraction is at most two, the sum far from infinity
    let exact = a.magnitude() + q.magnitude();
    assert(q.magnitude() <= 2 * u);
    assert(a.magnitude() <= 0x2_0000_0000_0000_0000 * u) by (nonlinear_arith)
        requires
            a.magnitude() <= 2 * secs * u,
            secs <= 0x1_0000_0000_0000_0000,
    ;
    assert(a.value() + q.value() == exact);
    assert(exact <= 0x3_0000_0000_0000_0000 * u);
    let inf = double::infinite_magnitude();
    assert(1 * inf == inf) by (nonlinear_arith);
    if exact > 0 {
        double::lemma_finite(false, exact, 1);
    } else {
        double::lemma_finite(false, 0, 1);
    }
    rounding::lemma_nearest_bounds(exact, 1);
    assert(s.seconds().magnitude() == rounding::nearest(exact, 1));
    let mag = s.seconds().magnitude();
    if s.total() == 0 {
        assert(0 * u == 0) by (nonlinear_arith);
        assert(exact == 0);
    } else if secs == 0 {
        // one nanosecond is still many units
        assert(nanos * u >= u) by (nonlinear_arith)
            requires
                nanos >= 1,
                u > 0,
        ;
        rounding::lemma_nearest_loss(nanos * u, 1_000_000_000);
        lemma_representable();
        rounding::lemma_nearest_monotone(0x20_0000_0000_0000, exact, 1);
    } else {
        assert(secs * u >= u) by (nonlinear_arith)
            requires
                secs >= 1,
                u > 0,
        ;
        rounding::lemma_nearest_loss(secs * u, 1);
        lemma_representable();
        rounding::lemma_nearest_loss(exact, 1);
        let c: nat = 0x20_0000_0000_0000;
        let d: nat = 0x1f_ffff_ffff_ffff;
        let su = secs * u;
        let am = a.magnitude();
        assert(am * 1 * c == am * c) by (nonlinear_arith);
        assert(mag * 1 * c == mag * c) by (nonlinear_arith);
        assert(mag * c * c >= secs * u * d * d) by (nonlinear_arith)
            requires
                am * c >= su * d,
                mag * c >= exact * d,
                exact >= am,
                su == secs * u,
                c > 0,
                d > 0,
        ;
        rounding::lemma_nearest_monotone(0x20_0000_0000_0000, exact, 1);
    }
    if secs == 0 {
        assert(0 * u * 0x1f_ffff_ffff_ffff * 0x1f_ffff_ffff_ffff == 0) by (nonlinear_arith);
    }
}

/// `2^53` is a double.
proof fn lemma_representable()
    ensures
        rounding::nearest(0x20_0000_0000_0000, 1) == 0x20_0000_0000_0000,
{
    power2::lemma2_to64();
    rounding::lemma_nearest_exact(0x10_0000_0000_0000, 1);
}

/// The length of a span in seconds is off by no more than two roundings; a whole number of seconds
/// is exact.
pub proof fn lemma_seconds_are_close(s: Span)
    requires
        s.wf(),
    ensures
        s.seconds().magnitude() * 1_000_000_000 * 0x20_0000_0000_0000 * 0x20_0000_0000_0000
            <= s.total() * double::unit() * 0x20_0000_0000_0001 * 0x20_0000_0000_0001,
        s.total() * double::unit() * 0x1f_ffff_ffff_ffff * 0x1f_ffff_ffff_ffff
            <= s.seconds().magnitude() * 1_000_000_000 * 0x20_0000_0000_0000 * 0x20_0000_0000_0000,
        s.nanos == 0 && s.secs < 0x20_0000_0000_0000 ==> s.seconds().magnitude() == s.secs
            * double::unit(),
{
    let u = double::unit();
    double::lemma_unit();
    let (secs, nanos) = (s.secs as nat, s.nanos as nat);
    let (a, n) = (double::whole(secs), double::whole(nanos));
    double::lemma_whole(secs);
    double::lemma_whole(nanos);
    assert(nanos * u <= 1_000_000_000 * u) by (nonlinear_arith)
        requires
            nanos <= 1_000_000_000,
            u > 0,
    ;
    double::lemma_over_whole(n, 1_000_000_000);
    let q = double::quotient(n, double::whole(1_000_000_000));
    rounding::lemma_nearest_bounds(nanos * u, 1_000_000_000);
    let (am, qm) = (a.magnitude(), q.magnitude());
    let exact = am + qm;
    assert(a.value() + q.value() == exact);
    assert(am <= 0x2_0000_0000_0000_0000 * u) by (nonlinear_arith)
        requires
            am <= 2 * secs * u,
            secs <= 0x1_0000_0000_0000_0000,
    ;
    let inf = double::infinite_magnitude();
    assert(1 * inf == inf) by (nonlinear_arith);
    double::lemma_finite(false, exact, 1);
    let mag = s.seconds().magnitude();
    assert(mag == rounding::nearest(exact, 1));
    let c: nat = 0x20_0000_0000_0000;
    let su = secs * u;
    let nu = nanos * u;
    // the seconds and the fraction, each off by one rounding
    rounding::lemma_nearest_is_close(su, 1);
    rounding::lemma_nearest_is_close(nu, 1_000_000_000);
    if secs > 0 {
        assert(su >= u) by (nonlinear_arith)
            requires
                su == secs * u,
                secs >= 1,
        ;
    } else {
        assert(su == 0) by (nonlinear_arith)
            requires
                su == secs * u,
                secs == 0,
        ;
        rounding::lemma_nearest_bounds(su, 1);
    }
    if nanos > 0 {
        assert(nu >= u) by (nonlinear_arith)
            requires
                nu == nanos * u,
                nanos >= 1,
        ;
    } else {
        assert(nu == 0) by (nonlinear_arith)
            requires
                nu == nanos * u,
                nanos == 0,
        ;
    }
    assert(am * 1 * c == am * c) by (nonlinear_arith);
    let total = s.total();
    assert(total * u == su * 1_000_000_000 + nu) by (nonlinear_arith)
        requires
            total == secs * 1_000_000_000 + nanos,
            su == secs * u,
            nu == nanos * u,
    ;
    let tu = total * u;
    let eb = exact * 1_000_000_000;
    assert(eb * c <= tu * (c + 1));
    assert(tu * (c - 1) <= eb * c);
    // their sum, off by another
    rounding::lemma_nearest_is_close(exact, 1);
    assert(mag * 1 * c == mag * c) by (nonlinear_arith);
    if exact > 0 {
        assert(exact >= c) by {
            if secs > 0 {
                assert(am * c >= su * (c - 1));
            } else {
                assert(qm * 1_000_000_000 * c >= nu * (c - 1));
            }
        }
    } else {
        rounding::lemma_nearest_bounds(0, 1);
    }
    assert(mag * c <= exact * (c + 1) && exact * (c - 1) <= mag * c);
    let mb = mag * 1_000_000_000;
    assert(mb * c <= eb * (c + 1) && eb * (c - 1) <= mb * c);
    assert(mb * c * c <= tu * (c + 1) * (c + 1)) by (nonlinear_arith)
        requires
            mb * c <= eb * (c + 1),
            eb * c <= tu * (c + 1),
    ;
    assert(tu * (c - 1) * (c - 1) <= mb * c * c) by (nonlinear_arith)
        requires
            eb * (c - 1) <= mb * c,
            tu * (c - 1) <= eb * c,
            c > 1,
    ;
    if nanos == 0 && secs < c {
        assert(qm == 0);
        rounding::lemma_nearest_exact(secs, 1074);
    }
}

} // verus!
