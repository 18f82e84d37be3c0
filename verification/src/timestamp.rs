//! The time stamps of subtitles.

use crate::double;
use crate::double::Double;
use crate::number;
use crate::rounding;
use crate::text;
use vstd::arithmetic::div_mod;
use vstd::arithmetic::power2;
use vstd::prelude::*;

verus! {

/// The whole seconds that a time stamp shows; it saturates as a cast to `i64` does.
pub open spec fn shown_seconds(seconds: Double) -> nat {
    let n = seconds.magnitude() / double::unit();
    if n <= i64::MAX {
        n
    } else {
        i64::MAX as nat
    }
}

/// The thousandths that a time stamp shows: those nearest to the fraction of a second, but never a
/// full second.
pub open spec fn shown_millis(seconds: Double) -> nat {
    let n = rounding::half_even((seconds.magnitude() % double::unit()) * 1000, double::unit());
    if n < 1000 {
        n
    } else {
        999
    }
}

/// Hours, minutes and seconds of a number of seconds.
pub open spec fn clock_text(n: nat) -> Seq<char> {
    (text::two_digits(n / 3600).push(':') + text::two_digits(n / 60 % 60)).push(':')
        + text::two_digits(n % 60)
}

/// Hours, minutes and seconds, then the thousandths where there is a fraction of a second.
pub open spec fn timestamp(seconds: Double) -> Seq<char> {
    let time = clock_text(shown_seconds(seconds));
    if seconds.magnitude() % double::unit() == 0 {
        time
    } else {
        time.push(',') + text::three_digits(shown_millis(seconds))
    }
}

fn clock(n: u64) -> (r: String)
    ensures
        r@ == clock_text(n as nat),
{
    let mut out = String::new();
    text::push_two_digits(&mut out, n / 3600);
    assert(out@ == text::two_digits(n as nat / 3600));
    out.push(':');
    text::push_two_digits(&mut out, n / 60 % 60);
    out.push(':');
    text::push_two_digits(&mut out, n % 60);
    out
}

/// Writes a number of seconds as the time stamp of a subtitle, such as `01:01:01,300`.
///
/// A whole number of seconds is written without thousandths. Anything from 0.9995 up is shown as
/// 999 thousandths. Negative zero is shown as zero.
pub fn seconds_to_timestamp(fracs: Double) -> (r: String)
    requires
        fracs.finite(),
        fracs.value() >= 0,
    ensures
        r@ == timestamp(fracs),
{
    let whole: u64 = fracs.whole_part();
    let is: u64 = if whole <= 0x7fff_ffff_ffff_ffff {
        whole
    } else {
        0x7fff_ffff_ffff_ffff
    };
    let mut out = clock(is);
    proof {
        power2::lemma_pow2_pos(1074);
    }
    if fracs.has_fraction() {
        let thousandths: u64 = fracs.fraction_in(1000);
        out.push(',');
        if thousandths < 1000 {
            text::push_three_digits(&mut out, thousandths);
        } else {
            // just under a full second
            text::push_three_digits(&mut out, 999);
        }
    }
    out
}

/// The hours, minutes and seconds of a time stamp make up the seconds it shows, and minutes and
/// seconds stay below sixty.
pub proof fn lemma_clock_adds_up(n: nat)
    ensures
        n / 3600 * 3600 + n / 60 % 60 * 60 + n % 60 == n,
        n / 60 % 60 < 60,
        n % 60 < 60,
{
}

/// A double of that many seconds has no fraction of one.
proof fn lemma_large_is_whole(seconds: Double)
    requires
        seconds.magnitude() / double::unit() >= 0x20_0000_0000_0000,
    ensures
        seconds.magnitude() % double::unit() == 0,
{
    let u = double::unit();
    let m = seconds.significand();
    let e = seconds.exponent();
    power2::lemma_pow2_pos(1074);
    power2::lemma2_to64();
    div_mod::lemma_fundamental_div_mod(seconds.magnitude() as int, u as int);
    if e < 1074 {
        power2::lemma_pow2_strictly_increases(e, 1074);
        power2::lemma_pow2_pos(e);
        let w = power2::pow2(e);
        assert(m * w < 0x20_0000_0000_0000 * u) by (nonlinear_arith)
            requires
                m < 0x20_0000_0000_0000,
                w < u,
                w > 0,
        ;
        let q = (seconds.magnitude() / u) as int;
        assert(u * q >= u * 0x20_0000_0000_0000) by (nonlinear_arith)
            requires
                q >= 0x20_0000_0000_0000,
                u > 0,
        ;
    } else {
        power2::lemma_pow2_adds(1074, (e - 1074) as nat);
        let w = power2::pow2((e - 1074) as nat);
        assert(m * (u * w) == (m * w) * u) by (nonlinear_arith);
        div_mod::lemma_mod_multiples_basic((m * w) as int, u as int);
    }
}

/// A later moment is not shown as an earlier one.
pub proof fn lemma_timestamps_keep_order(a: Double, b: Double)
    requires
        a.magnitude() <= b.magnitude(),
    ensures
        shown_seconds(a) * 1000 + shown_millis(a) <= shown_seconds(b) * 1000 + shown_millis(b),
        shown_millis(a) < 1000,
{
    let u = double::unit();
    power2::lemma_pow2_pos(1074);
    let (x, y) = (a.magnitude(), b.magnitude());
    div_mod::lemma_div_is_ordered(x as int, y as int, u as int);
    div_mod::lemma_fundamental_div_mod(x as int, u as int);
    div_mod::lemma_fundamental_div_mod(y as int, u as int);
    if x / u == y / u {
        rounding::lemma_half_even_monotone((x % u) * 1000, (y % u) * 1000, u);
    } else if x / u >= i64::MAX {
        lemma_large_is_whole(a);
        assert((0nat * 1000) / u == 0 && (0nat * 1000) % u == 0) by {
            div_mod::lemma_basic_div(0, u as int);
            div_mod::lemma_small_mod(0, u);
        }
    }
}

/// What is shown is less than a thousandth of a second off, as long as the seconds can be shown. It
/// is the nearest thousandth where the fraction is below 0.9995.
pub proof fn lemma_timestamps_are_close(seconds: Double)
    requires
        seconds.magnitude() / double::unit() <= i64::MAX,
    ensures
        ({
            let shown = shown_seconds(seconds) * 1000 + shown_millis(seconds);
            &&& shown * double::unit() < seconds.magnitude() * 1000 + double::unit()
            &&& seconds.magnitude() * 1000 < (shown + 1) * double::unit()
            &&& seconds.magnitude() % double::unit() * 2000 < 1999 * double::unit() ==> {
                &&& 2 * (shown * double::unit()) <= 2 * (seconds.magnitude() * 1000)
                    + double::unit()
                &&& 2 * (seconds.magnitude() * 1000) <= 2 * (shown * double::unit())
                    + double::unit()
            }
        }),
{
    let u = double::unit() as int;
    power2::lemma_pow2_pos(1074);
    let mag = seconds.magnitude() as int;
    let n = mag / u;
    let f = mag % u;
    div_mod::lemma_fundamental_div_mod(mag, u);
    div_mod::lemma_mod_bound(mag, u);
    let part = f * 1000;
    let q = part / u;
    div_mod::lemma_fundamental_div_mod(part, u);
    div_mod::lemma_mod_bound(part, u);
    let r = part % u;
    let rounded = rounding::half_even(part as nat, u as nat) as int;
    let millis = shown_millis(seconds) as int;
    assert(q < 1000) by (nonlinear_arith)
        requires
            part == u * q + r,
            part < 1000 * u,
            0 <= r,
            u > 0,
    ;
    assert(rounded == q || (rounded == q + 1 && 2 * r >= u));
    let shown = n * 1000 + millis;
    assert(mag * 1000 == u * (n * 1000) + u * q + r) by (nonlinear_arith)
        requires
            mag == u * n + f,
            part == f * 1000,
            part == u * q + r,
    ;
    assert(shown * u == u * (n * 1000) + u * millis) by (nonlinear_arith)
        requires
            shown == n * 1000 + millis,
    ;
    assert(u * (q + 1) == u * q + u) by (nonlinear_arith);
    assert((shown + 1) * u == shown * u + u) by (nonlinear_arith);
    if rounded == q {
        assert(2 * r <= u);
    }
    if f * 2000 < 1999 * u {
        assert(rounded < 1000) by (nonlinear_arith)
            requires
                part == u * q + r,
                2 * part < 1999 * u,
                rounded == q || (rounded == q + 1 && 2 * r >= u),
                0 <= r < u,
                u > 0,
        ;
    }
}

/// Two digits, one by one.
proof fn lemma_two_digits(n: nat)
    requires
        n < 100,
    ensures
        text::two_digits(n) == seq![text::digit(n / 10), text::digit(n % 10)],
{
    reveal_with_fuel(text::decimal, 2);
}

/// The eight characters of hours, minutes and seconds below a hundred hours.
spec fn clock_chars(n: nat) -> Seq<char> {
    let (h, m, s) = (n / 3600, n / 60 % 60, n % 60);
    seq![
        text::digit(h / 10),
        text::digit(h % 10),
        ':',
        text::digit(m / 10),
        text::digit(m % 10),
        ':',
        text::digit(s / 10),
        text::digit(s % 10),
    ]
}

proof fn lemma_clock_chars(n: nat)
    requires
        n < 360_000,
    ensures
        clock_text(n) == clock_chars(n),
{
    lemma_two_digits(n / 3600);
    lemma_two_digits(n / 60 % 60);
    lemma_two_digits(n % 60);
}

/// The larger of two numbers has the larger digit where they first differ.
proof fn lemma_digits_differ(x: nat, y: nat)
    requires
        x < y < 100,
    ensures
        x / 10 < y / 10 || (x / 10 == y / 10 && x % 10 < y % 10),
{
}

/// More seconds have the larger character where the clocks first differ.
proof fn lemma_clocks_differ(n: nat, m: nat) -> (k: int)
    requires
        n < m < 360_000,
    ensures
        0 <= k < 8,
        clock_chars(n).take(k) == clock_chars(m).take(k),
        clock_chars(n)[k] < clock_chars(m)[k],
{
    let (h, i, s) = (n / 3600, n / 60 % 60, n % 60);
    let (g, j, t) = (m / 3600, m / 60 % 60, m % 60);
    lemma_clock_adds_up(n);
    lemma_clock_adds_up(m);
    let (x, y, base): (nat, nat, int) = if h != g {
        (h, g, 0)
    } else if i != j {
        (i, j, 3)
    } else {
        (s, t, 6)
    };
    assert(x < y);
    lemma_digits_differ(x, y);
    let k = if x / 10 < y / 10 {
        base
    } else {
        base + 1
    };
    assert(clock_chars(n).take(k) == clock_chars(m).take(k));
    k
}

/// More thousandths have the larger digit where they first differ.
proof fn lemma_millis_differ(x: nat, y: nat) -> (k: int)
    requires
        x < y < 1000,
    ensures
        0 <= k < 3,
        text::three_digits(x).take(k) == text::three_digits(y).take(k),
        text::three_digits(x)[k] < text::three_digits(y)[k],
{
    let k: int = if x / 100 < y / 100 {
        0
    } else if x / 10 < y / 10 {
        1
    } else {
        2
    };
    assert(text::three_digits(x).take(k) == text::three_digits(y).take(k));
    k
}

/// The first characters of a time stamp are those of its clock.
proof fn lemma_clock_first(seconds: Double)
    requires
        shown_seconds(seconds) < 360_000,
    ensures
        ({
            let t = timestamp(seconds);
            let c = clock_chars(shown_seconds(seconds));
            let e = text::three_digits(shown_millis(seconds));
            &&& c.len() == 8
            &&& e.len() == 3
            &&& seconds.magnitude() % double::unit() == 0 ==> t == c
            &&& seconds.magnitude() % double::unit() != 0 ==> t == c.push(',') + e
        }),
{
    lemma_clock_chars(shown_seconds(seconds));
}

/// Texts that go on after a common start sort as what follows it.
proof fn lemma_sorts_at(c: Seq<char>, d: Seq<char>, s: Seq<char>, t: Seq<char>, k: int)
    requires
        0 <= k < c.len(),
        k < d.len(),
        c.take(k) == d.take(k),
        c[k] < d[k],
        c.len() <= s.len(),
        d.len() <= t.len(),
        s.take(c.len() as int) == c,
        t.take(d.len() as int) == d,
    ensures
        text::sorts_before(s, t),
{
    assert(s.take(k) == c.take(k));
    assert(t.take(k) == d.take(k));
    assert(s[k] == c[k] && t[k] == d[k]);
    assert(text::first_smaller(s, t, k));
}

/// Below a hundred hours the texts of time stamps sort as the moments do.
pub proof fn lemma_timestamps_sort(a: Double, b: Double)
    requires
        a.magnitude() <= b.magnitude() < 360_000 * double::unit(),
    ensures
        timestamp(a) == timestamp(b) || text::sorts_before(timestamp(a), timestamp(b)),
{
    let u = double::unit() as int;
    power2::lemma_pow2_pos(1074);
    let (p, q) = (a.magnitude() as int, b.magnitude() as int);
    div_mod::lemma_multiply_divide_lt(p, u, 360_000);
    div_mod::lemma_multiply_divide_lt(q, u, 360_000);
    div_mod::lemma_div_is_ordered(p, q, u);
    div_mod::lemma_div_pos_is_pos(p, u);
    let (n, m) = (shown_seconds(a), shown_seconds(b));
    lemma_clock_first(a);
    lemma_clock_first(b);
    let (s, t) = (timestamp(a), timestamp(b));
    let (c, d) = (clock_chars(n), clock_chars(m));
    if n < m {
        let k = lemma_clocks_differ(n, m);
        assert(s.take(8) == c);
        assert(t.take(8) == d);
        lemma_sorts_at(c, d, s, t, k);
    } else {
        // the same second: what is left of it is ordered too
        div_mod::lemma_fundamental_div_mod(p, u);
        div_mod::lemma_fundamental_div_mod(q, u);
        assert(p % u <= q % u);
        lemma_timestamps_keep_order(a, b);
        lemma_timestamps_keep_order(b, b);
        lemma_same_second_sorts(a, b);
    }
}

proof fn lemma_same_second_sorts(a: Double, b: Double)
    requires
        shown_seconds(a) == shown_seconds(b) < 360_000,
        a.magnitude() % double::unit() <= b.magnitude() % double::unit(),
        shown_millis(a) <= shown_millis(b) < 1000,
    ensures
        timestamp(a) == timestamp(b) || text::sorts_before(timestamp(a), timestamp(b)),
{
    power2::lemma_pow2_pos(1074);
    div_mod::lemma_mod_bound(a.magnitude() as int, double::unit() as int);
    lemma_clock_first(a);
    lemma_clock_first(b);
    let (s, t) = (timestamp(a), timestamp(b));
    let c = clock_chars(shown_seconds(a));
    let (x, y) = (shown_millis(a), shown_millis(b));
    if a.magnitude() % double::unit() == 0 {
        if b.magnitude() % double::unit() != 0 {
            assert(s.take(8) == t.take(8));
            assert(text::first_smaller(s, t, 8));
        }
    } else if x < y {
        let k = lemma_millis_differ(x, y);
        let (e, f) = (text::three_digits(x), text::three_digits(y));
        assert(s.take(9 + k) == c.push(',') + e.take(k));
        assert(t.take(9 + k) == c.push(',') + f.take(k));
        assert(s[9 + k] == e[k] && t[9 + k] == f[k]);
        assert(text::first_smaller(s, t, 9 + k));
    }
}

/// A time stamp reads back as its moment. Around its two colons stand hours of two digits or more,
/// and minutes and seconds of two digits each that are below sixty; they add up to the whole
/// seconds. Where there is a fraction of a second, a comma and three digits follow that are the
/// nearest thousandths, or 999 where those would be a full second; otherwise nothing does.
pub proof fn lemma_timestamp_reads_back(seconds: Double)
    ensures
        exists|k: int|
            #![trigger timestamp(seconds)[k]]
            {
                let t = timestamp(seconds);
                let u = double::unit();
                let whole = seconds.magnitude() / u;
                let left = seconds.magnitude() % u;
                let hours = number::digits_value(t.take(k));
                let minutes = number::digits_value(t.subrange(k + 1, k + 3));
                let rest = number::digits_value(t.subrange(k + 4, k + 6));
                let millis = number::digits_value(t.subrange(k + 7, k + 10));
                &&& 2 <= k
                &&& k + 6 <= t.len()
                &&& t[k] == ':'
                &&& t[k + 3] == ':'
                &&& forall|i: int|
                    0 <= i < k + 6 && i != k && i != k + 3 ==> '0' <= #[trigger] t[i] && t[i] <= '9'
                &&& minutes < 60
                &&& rest < 60
                &&& hours * 3600 + minutes * 60 + rest == if whole <= 0x7fff_ffff_ffff_ffff {
                    whole
                } else {
                    0x7fff_ffff_ffff_ffff
                }
                &&& left == 0 ==> t.len() == k + 6
                &&& left > 0 ==> {
                    &&& t.len() == k + 10
                    &&& t[k + 6] == ','
                    &&& forall|i: int| k + 7 <= i < k + 10 ==> '0' <= #[trigger] t[i] && t[i] <= '9'
                    &&& millis < 1000
                    &&& 2 * (millis * u) <= 2000 * left + u
                    &&& 2000 * left <= 2 * (millis * u) + u || (millis == 999 && 2000 * left
                        >= 1999 * u)
                }
            },
{
    let u = double::unit();
    power2::lemma_pow2_pos(1074);
    let left = seconds.magnitude() % u;
    let n = shown_seconds(seconds);
    let ms = shown_millis(seconds);
    let (h, m, s) = (
        text::two_digits(n / 3600),
        text::two_digits(n / 60 % 60),
        text::two_digits(n % 60),
    );
    let f = text::three_digits(ms);
    number::lemma_two_digits_read_back(n / 3600);
    number::lemma_two_digits_read_back(n / 60 % 60);
    number::lemma_two_digits_read_back(n % 60);
    let rounded = rounding::half_even(left * 1000, u);
    rounding::lemma_half_even_is_nearest(left * 1000, u);
    lemma_timestamps_keep_order(seconds, seconds);
    number::lemma_three_digits_read_back(ms);
    lemma_clock_adds_up(n);
    let t = timestamp(seconds);
    let k = h.len() as int;
    assert(t.take(k) == h);
    assert(t[k] == ':');
    assert(t.subrange(k + 1, k + 3) == m);
    assert(t[k + 3] == ':');
    assert(t.subrange(k + 4, k + 6) == s);
    assert forall|i: int| 0 <= i < k + 6 && i != k && i != k + 3 implies '0' <= #[trigger] t[i]
        && t[i] <= '9' by {
        if i < k {
            assert(t[i] == h[i]);
        } else if i < k + 3 {
            assert(t[i] == m[i - k - 1]);
        } else {
            assert(t[i] == s[i - k - 4]);
        }
    }
    if left > 0 {
        assert(t.subrange(k + 7, k + 10) == f);
        assert(t[k + 6] == ',');
        assert forall|i: int| k + 7 <= i < k + 10 implies '0' <= #[trigger] t[i] && t[i] <= '9' by {
            assert(t[i] == f[i - k - 7]);
        }
        if rounded >= 1000 {
            assert(rounded * u >= 1000 * u) by (nonlinear_arith)
                requires
                    rounded >= 1000,
            ;
        }
    }
}

} // verus!
