//! What a recorded file says of itself: when it was recorded, how long it is, and how far its
//! sound starts behind its picture.

use crate::double;
use crate::double::Double;
use crate::number;
use crate::rounding;
use crate::span;
use crate::span::Span;
use crate::text;
use vstd::arithmetic::div_mod;
use vstd::arithmetic::power2;
use vstd::prelude::*;

verus! {

/// A moment: the seconds since 1970 began, and the nanoseconds since the last of them. In a leap
/// second there are more than a second's worth of nanoseconds.
#[derive(Clone, Copy, Debug, PartialEq, Eq, Structural)]
pub struct Moment {
    pub secs: i64,
    pub nanos: u32,
}

impl Moment {
    /// The day, counted from the first of January 1970.
    pub open spec fn day(self) -> int {
        self.secs as int / 86_400
    }

    /// The day, counted from the first of January 1970.
    pub fn day_number(&self) -> (r: i64)
        ensures
            r == self.day(),
            r * 86_400 <= self.secs < (r + 1) * 86_400,
    {
        if self.secs >= 0 {
            self.secs / 86_400
        } else {
            let back: i64 = -(self.secs + 1);
            let r: i64 = -(back / 86_400) - 1;
            assert(r == self.secs as int / 86_400) by {
                let q = back as int / 86_400;
                let m = back as int % 86_400;
                div_mod::lemma_fundamental_div_mod(back as int, 86_400);
                assert(self.secs == (-q - 1) * 86_400 + (86_399 - m));
                div_mod::lemma_fundamental_div_mod_converse(
                    self.secs as int,
                    86_400,
                    -q - 1,
                    86_399 - m,
                );
            }
            r
        }
    }
}

/// Where a character first stands in a text; the length of the text where it does not.
pub open spec fn first_place(s: Seq<char>, c: char) -> nat
    decreases s.len(),
{
    if s.len() == 0 || s[0] == c {
        0
    } else {
        1 + first_place(s.skip(1), c)
    }
}

/// A file name in two, around its first point.
pub open spec fn name_and_extension(name: Seq<char>) -> Option<(Seq<char>, Seq<char>)> {
    let i = first_place(name, '.') as int;
    if i < name.len() {
        Some((name.take(i), name.skip(i + 1)))
    } else {
        None
    }
}

/// The moment that a text stands for in the relaxed form of RFC 3339 that chrono reads: its seconds
/// and its nanoseconds.
pub uninterp spec fn moment_of(s: Seq<char>) -> Option<(i64, u32)>;

/// The parse of a text as `DateTime<Utc>` of chrono, and `timestamp` and `timestamp_subsec_nanos`
/// of what comes out. That the moment depends on the text alone is all that is claimed; the forms
/// that chrono accepts are not spelled out.
#[verifier::external_body]
fn parse_moment(s: &str) -> (r: Option<(i64, u32)>)
    ensures
        r == moment_of(s@),
{
    match s.parse::<chrono::DateTime<chrono::Utc>>() {
        Ok(t) => Some((t.timestamp(), t.timestamp_subsec_nanos())),
        Err(_) => None,
    }
}

/// Splits a file name around its first point.
pub fn split_name(name: &str) -> (r: Option<(String, String)>)
    ensures
        match (r, name_and_extension(name@)) {
            (Some((stem, extension)), Some((s, e))) => stem@ == s && extension@ == e,
            (None, None) => true,
            _ => false,
        },
        r matches Some((stem, extension)) ==> name@ == stem@.push('.') + extension@
            && !stem@.contains('.'),
        r is None ==> !name@.contains('.'),
{
    proof {
        lemma_first_place(name@, '.');
        let i = first_place(name@, '.') as int;
        if i < name@.len() {
            assert(name@ == name@.take(i).push('.') + name@.skip(i + 1));
            assert(!name@.take(i).contains('.')) by {
                assert forall|k: int| 0 <= k < i implies name@.take(i)[k] != '.' by {
                    assert(name@[k] != '.');
                }
            }
        }
    }
    let chars = text::chars_of(name);
    let mut i: usize = 0;
    assert(chars@.skip(0) == chars@);
    while i < chars.len() && chars[i] != '.'
        invariant
            i <= chars@.len(),
            first_place(chars@, '.') == i + first_place(chars@.skip(i as int), '.'),
        decreases chars@.len() - i,
    {
        assert(chars@.skip(i as int).skip(1) == chars@.skip(i + 1));
        i = i + 1;
    }
    if i == chars.len() {
        return None;
    }
    assert(chars@.subrange(0, i as int) == chars@.take(i as int));
    assert(chars@.subrange(i + 1, chars@.len() as int) == chars@.skip(i + 1));
    Some((text::text_of(&chars, 0, i), text::text_of(&chars, i + 1, chars.len())))
}

/// A moment as chrono gives it, as one of this crate.
pub fn to_moment(stamp: Option<(i64, u32)>) -> (r: Option<Moment>)
    ensures
        r == match stamp {
            Some((secs, nanos)) => Some(Moment { secs, nanos }),
            None => None,
        },
{
    match stamp {
        Some((secs, nanos)) => Some(Moment { secs, nanos }),
        None => None,
    }
}

/// When a file was recorded, by its name up to the first point, and its extension; `None` for a
/// file whose name is not of that form.
pub fn recording_name(name: &str) -> (r: Option<(Moment, String)>)
    ensures
        match name_and_extension(name@) {
            Some((stem, extension)) => match moment_of(stem) {
                Some((secs, nanos)) => r matches Some((m, e)) && m == (Moment { secs, nanos })
                    && e@ == extension,
                None => r is None,
            },
            None => r is None,
        },
        r matches Some((m, e)) ==> exists|stem: Seq<char>|
            name@ == #[trigger] stem.push('.') + e@ && !stem.contains('.') && moment_of(stem)
                == Some((m.secs, m.nanos)),
        r is None ==> forall|stem: Seq<char>, e: Seq<char>|
            name@ == #[trigger] (stem.push('.') + e) && !stem.contains('.') ==> moment_of(
                stem,
            ) is None,
{
    proof {
        let i = first_place(name@, '.') as int;
        lemma_first_place(name@, '.');
        if i < name@.len() {
            let stem = name@.take(i);
            assert(name@ == stem.push('.') + name@.skip(i + 1));
            assert(!stem.contains('.')) by {
                assert forall|k: int| 0 <= k < i implies stem[k] != '.' by {
                    assert(name@[k] != '.');
                }
            }
        }
        assert forall|stem: Seq<char>, e: Seq<char>|
            name@ == #[trigger] (stem.push('.') + e) && !stem.contains('.') implies i < name@.len()
            && stem == name@.take(i) by {
            let l = stem.len() as int;
            assert(name@[l] == '.');
            assert forall|k: int| 0 <= k < l implies name@[k] != '.' by {
                assert(name@[k] == stem[k]);
            }
            assert(i == l);
            assert(stem == name@.take(l));
        }
    }
    let (stem, extension) = match split_name(name) {
        Some(parts) => parts,
        None => {
            return None;
        },
    };
    match to_moment(parse_moment(stem.as_str())) {
        Some(moment) => Some((moment, extension)),
        None => None,
    }
}

/// What a media file says of one of its tracks.
#[derive(Clone, Copy, Debug)]
pub struct Track {
    /// Whether a layout of sound channels is given.
    pub has_channel_layout: bool,
    /// The length of a tick in seconds, as numerator and denominator.
    pub time_base: Option<(u32, u32)>,
    /// The length of the track in ticks.
    pub n_frames: Option<u64>,
}

/// Whether the track at `i` is the first with a channel layout.
pub open spec fn is_sound_track(tracks: Seq<Track>, i: int) -> bool {
    &&& 0 <= i < tracks.len()
    &&& tracks[i].has_channel_layout
    &&& forall|j: int| 0 <= j < i ==> !(#[trigger] tracks[j]).has_channel_layout
}

/// The numerator and denominator of the time base and the number of ticks of the first track with a
/// channel layout; `None` where there is no such track or it does not say.
pub fn sound_track(tracks: &Vec<Track>) -> (r: Option<(u32, u32, u64)>)
    ensures
        (forall|i: int| 0 <= i < tracks@.len() ==> !(#[trigger] tracks@[i]).has_channel_layout)
            ==> r is None,
        forall|i: int| #[trigger]
            is_sound_track(tracks@, i) ==> r == match (
                tracks@[i].time_base,
                tracks@[i].n_frames,
            ) {
                (Some((numer, denom)), Some(frames)) => Some((numer, denom, frames)),
                _ => None,
            },
        forall|i: int|
            0 <= i < tracks@.len() && (#[trigger] tracks@[i]).has_channel_layout && (forall|j: int|
                0 <= j < i ==> !(#[trigger] tracks@[j]).has_channel_layout) ==> r == match (
                tracks@[i].time_base,
                tracks@[i].n_frames,
            ) {
                (Some((numer, denom)), Some(frames)) => Some((numer, denom, frames)),
                _ => None,
            },
{
    let mut i: usize = 0;
    while i < tracks.len()
        invariant
            i <= tracks@.len(),
            forall|j: int| 0 <= j < i ==> !(#[trigger] tracks@[j]).has_channel_layout,
        decreases tracks@.len() - i,
    {
        let track: Track = tracks[i];
        if track.has_channel_layout {
            return match (track.time_base, track.n_frames) {
                (Some((numer, denom)), Some(frames)) => Some((numer, denom, frames)),
                _ => None,
            };
        }
        i = i + 1;
    }
    None
}

/// The whole seconds of a number of ticks, wrapping at 64 bits.
pub open spec fn ticks_seconds(numer: u32, denom: u32, ticks: u64) -> int {
    (ticks * numer / denom as int) % 0x1_0000_0000_0000_0000
}

/// The fraction of a second on top of them, in the units of a double: taken of the rounded quotient
/// where a double can hold what is divided, and rounded by itself otherwise.
pub open spec fn ticks_fraction(numer: u32, denom: u32, ticks: u64) -> nat {
    let dividend = (ticks * numer) as nat;
    if dividend < 0x10_0000_0000_0000 {
        rounding::nearest(dividend * double::unit(), denom as nat) % double::unit()
    } else {
        rounding::nearest(dividend % (denom as nat) * double::unit(), denom as nat)
    }
}

/// `TimeBase::calc_time` of symphonia: the time that a number of ticks takes, as whole seconds and
/// the bit pattern of the fraction, a finite double without a sign.
#[verifier::external_body]
fn calc_time(numer: u32, denom: u32, ticks: u64) -> (r: (u64, u64))
    requires
        numer > 0,
        denom > 0,
    ensures
        r.0 == ticks_seconds(numer, denom, ticks),
        (Double { bits: r.1 }).finite(),
        !(Double { bits: r.1 }).negative(),
        (Double { bits: r.1 }).magnitude() == ticks_fraction(numer, denom, ticks),
{
    let time = symphonia::core::units::TimeBase::new(numer, denom).calc_time(ticks);
    (time.seconds, time.frac.to_bits())
}

/// What is less than a second is less than a second still where it is rounded.
proof fn lemma_fraction_is_small(rest: nat, denom: nat)
    requires
        rest < denom <= u32::MAX,
    ensures
        rounding::nearest(rest * double::unit(), denom) < double::unit(),
{
    let u = double::unit();
    let c: nat = 0x1_0000_0000;
    let m: nat = 0xffff_ffff;
    let w = power2::pow2(1042);
    power2::lemma2_to64();
    power2::lemma_pow2_adds(32, 1042);
    power2::lemma_pow2_pos(1042);
    assert(u == c * w);
    // the fraction, and the largest one that is no more than `m / c`, over the same denominator
    rounding::lemma_nearest_scale(rest * u, denom, c);
    rounding::lemma_nearest_scale(m * w, 1, c * denom);
    rounding::lemma_nearest_exact(m, 1042);
    assert(1 * (c * denom) == denom * c) by (nonlinear_arith);
    assert(rest * u * c <= (m * w) * (c * denom)) by (nonlinear_arith)
        requires
            u == c * w,
            rest + 1 <= denom <= m,
            c == m + 1,
            w > 0,
    ;
    rounding::lemma_nearest_monotone(rest * u * c, (m * w) * (c * denom), denom * c);
    assert(m * w < c * w) by (nonlinear_arith)
        requires
            m < c,
            w > 0,
    ;
}

/// The span of whole seconds and a fraction of one, where there is one.
pub open spec fn joined(seconds: u64, fraction: Double) -> Option<nat> {
    let total = seconds as nat * 1_000_000_000 + span::nearest_nanos(fraction);
    if span::is_span(fraction) && total < span::too_long() {
        Some(total)
    } else {
        None
    }
}

/// The span of whole seconds and a fraction of one; `None` where there is none.
pub fn join(seconds: u64, fraction: Double) -> (r: Option<Span>)
    ensures
        match r {
            Some(s) => s.wf() && joined(seconds, fraction) == Some(s.total()),
            None => joined(seconds, fraction) is None,
        },
        !fraction.finite() || fraction.value() < 0 ==> r is None,
        fraction.finite() && fraction.value() >= 0 && fraction.magnitude() < double::unit()
            && seconds < 0xffff_ffff_ffff_ffff ==> r is Some,
        r matches Some(s) ==> {
            let passed = s.total() - seconds * 1_000_000_000;
            &&& 2 * (passed * double::unit()) <= 2 * (fraction.magnitude() * 1_000_000_000)
                + double::unit()
            &&& 2 * (fraction.magnitude() * 1_000_000_000) <= 2 * (passed * double::unit())
                + double::unit()
        },
{
    proof {
        double::lemma_unit();
    }
    match Span::from_double(fraction) {
        Some(f) => {
            proof {
                let (u, m, t) = (double::unit(), fraction.magnitude(), f.total());
                if m < u {
                    assert(t <= 1_000_000_000) by (nonlinear_arith)
                        requires
                            2 * (t * u) <= 2 * (m * 1_000_000_000) + u,
                            m < u,
                    ;
                }
            }
            Span::from_secs(seconds).checked_add(&f)
        },
        None => None,
    }
}

/// How long so many ticks are, in nanoseconds: the fraction is rounded, a half to the even number.
pub open spec fn ticks_total(numer: u32, denom: u32, ticks: u64) -> int {
    ticks_seconds(numer, denom, ticks) * 1_000_000_000 + rounding::half_even(
        ticks_fraction(numer, denom, ticks) * 1_000_000_000,
        double::unit(),
    )
}

/// How long so many ticks of a time base are; `None` where that is too long for a span, which only
/// the very last second can be.
pub fn media_length(numer: u32, denom: u32, ticks: u64) -> (r: Option<Span>)
    requires
        numer > 0,
        denom > 0,
    ensures
        r is Some <==> ticks_total(numer, denom, ticks) < span::too_long(),
        r matches Some(s) ==> s.wf() && s.total() == ticks_total(numer, denom, ticks),
        ticks * numer / denom as int <= u64::MAX - 1 ==> {
            &&& r matches Some(s)
            &&& ticks * numer / denom as int * 1_000_000_000 <= s.total()
            &&& s.total() <= (ticks * numer / denom as int + 1) * 1_000_000_000
        },
        ticks * numer / denom as int <= u64::MAX - 1 ==> {
            let exact = ticks * numer * 1_000_000_000;
            let got = r->0.total() * denom;
            let slack = if ticks * numer < 0x10_0000_0000_0000 {
                ticks * numer
            } else {
                denom as int
            };
            &&& 2 * (got - exact) * 0x20_0000_0000_0000 <= denom * 0x20_0000_0000_0000 + 2 * slack
                * 1_000_000_000
            &&& 2 * (exact - got) * 0x20_0000_0000_0000 <= denom * 0x20_0000_0000_0000 + 2 * slack
                * 1_000_000_000
        },
{
    proof {
        if ticks * numer / denom as int <= u64::MAX - 1 {
            lemma_ticks_are_close(numer, denom, ticks);
        }
    }
    let (seconds, bits) = calc_time(numer, denom, ticks);
    let fraction = Double::from_bits(bits);
    proof {
        power2::lemma_pow2_pos(1074);
        let u = double::unit();
        let mag = fraction.magnitude();
        let dividend = (ticks * numer) as nat;
        lemma_fraction_is_small(dividend % (denom as nat), denom as nat);
        assert(mag < u);
        rounding::lemma_half_even_bound(mag * 1_000_000_000, u, 1_000_000_000);
        let exact = ticks * numer / denom as int;
        assert(exact >= 0) by {
            assert(ticks * numer >= 0) by (nonlinear_arith)
                requires
                    ticks >= 0,
                    numer >= 0,
            ;
            div_mod::lemma_div_pos_is_pos(ticks * numer, denom as int);
        }
        if exact <= u64::MAX - 1 {
            div_mod::lemma_small_mod(exact as nat, 0x1_0000_0000_0000_0000);
            assert(seconds == exact);
        }
    }
    join(seconds, fraction)
}

/// Why the start of the sound cannot be used.
#[derive(Clone, Copy, Debug, PartialEq, Eq, Structural)]
pub enum DelayError {
    /// There is no text.
    Missing,
    /// The text is not that of a number.
    NotANumber,
    /// The sound starts more than a little before the picture.
    VeryNegative(Double),
}

/// What the start of the sound stands for, in nanoseconds: up to a twentieth of a second before the
/// picture counts as no delay. `None` where the start is not a span of time.
pub open spec fn delay_of(output: Seq<char>) -> Option<Result<nat, DelayError>> {
    match number::parsed(text::trimmed(output)) {
        None => Some(
            Err(
                if text::trimmed(output).len() == 0 {
                    DelayError::Missing
                } else {
                    DelayError::NotANumber
                },
            ),
        ),
        Some(d) => if d.negative() {
            if double::smaller(double::absolute(d), double::fraction(5, 100)) {
                Some(Ok(0))
            } else {
                Some(Err(DelayError::VeryNegative(d)))
            }
        } else if span::is_span(d) {
            Some(Ok(span::nearest_nanos(d)))
        } else {
            None
        },
    }
}

/// Reads when the sound starts, in seconds behind the picture, as a probe prints it; `None` where
/// that is not a span of time.
pub fn read_delay(output: &str) -> (r: Option<Result<Span, DelayError>>)
    ensures
        match (r, delay_of(output@)) {
            (Some(Ok(s)), Some(Ok(total))) => s.wf() && s.total() == total,
            (Some(Err(e)), Some(Err(f))) => e == f,
            (None, None) => true,
            _ => false,
        },
        match number::parsed(text::trimmed(output@)) {
            None => r == Some(
                Err::<Span, DelayError>(
                    if text::trimmed(output@).len() == 0 {
                        DelayError::Missing
                    } else {
                        DelayError::NotANumber
                    },
                ),
            ),
            Some(d) => {
                &&& d.negative() && !d.is_nan() && 20 * d.magnitude() <= double::unit() ==> r
                    == Some(Ok::<Span, DelayError>(Span { secs: 0, nanos: 0 }))
                &&& d.negative() && (d.is_nan() || 20 * d.magnitude() * 0x20_0000_0000_0000
                    > double::unit() * 0x20_0000_0000_0001) ==> r == Some(
                    Err::<Span, DelayError>(DelayError::VeryNegative(d)),
                )
                &&& !d.negative() && !d.finite() ==> r is None
                &&& !d.negative() && d.magnitude() >= 0x1_0000_0000_0000_0000 * double::unit()
                    ==> r is None
                &&& !d.negative() && d.finite() && d.magnitude() <= 0xffff_ffff_ffff_ffff
                    * double::unit() ==> {
                    &&& r matches Some(Ok(s))
                    &&& 2 * (s.total() * double::unit()) <= 2 * (d.magnitude() * 1_000_000_000)
                        + double::unit()
                    &&& 2 * (d.magnitude() * 1_000_000_000) <= 2 * (s.total() * double::unit())
                        + double::unit()
                }
            },
        },
{
    proof {
        lemma_twentieth();
    }
    let trimmed = text::trim(output);
    let d = match number::parse_double(trimmed.as_str()) {
        Some(d) => d,
        None => {
            return Some(
                Err(
                    if trimmed.as_str().unicode_len() == 0 {
                        DelayError::Missing
                    } else {
                        DelayError::NotANumber
                    },
                ),
            );
        },
    };
    if d.is_sign_negative() {
        if d.abs().less(Double::from_fraction(5, 100)) {
            Some(Ok(Span { secs: 0, nanos: 0 }))
        } else {
            Some(Err(DelayError::VeryNegative(d)))
        }
    } else {
        match Span::from_double(d) {
            Some(s) => Some(Ok(s)),
            None => None,
        }
    }
}

/// A place is the first of a character.
proof fn lemma_first_place(s: Seq<char>, c: char)
    ensures
        first_place(s, c) <= s.len(),
        first_place(s, c) < s.len() ==> s[first_place(s, c) as int] == c,
        forall|i: int| 0 <= i < first_place(s, c) ==> #[trigger] s[i] != c,
    decreases s.len(),
{
    if s.len() > 0 && s[0] != c {
        lemma_first_place(s.skip(1), c);
        assert forall|i: int| 0 <= i < first_place(s, c) implies #[trigger] s[i] != c by {
            if i > 0 {
                assert(s.skip(1)[i - 1] == s[i]);
            }
        }
    }
}

/// The double of a twentieth is a little more than a twentieth, at most by its rounding.
proof fn lemma_twentieth()
    ensures
        ({
            let d = double::fraction(5, 100);
            &&& d.finite()
            &&& !d.negative()
            &&& double::unit() < 20 * d.magnitude()
            &&& 20 * d.magnitude() * 0x20_0000_0000_0000 <= double::unit() * 0x20_0000_0000_0001
        }),
{
    let u = double::unit();
    double::lemma_unit();
    double::lemma_finite(false, 5 * u, 100);
    rounding::lemma_nearest_scale(u, 20, 5);
    assert(u * 5 == 5 * u);
    rounding::lemma_nearest_is_close(u, 20);
    let m = rounding::nearest(u, 20);
    assert(double::fraction(5, 100).magnitude() == m);
    // in steps of `2^1017` a twentieth is not a whole number, and rounds up
    let w = power2::pow2(1017);
    power2::lemma_pow2_adds(1017, 57);
    power2::lemma2_to64();
    power2::lemma2_to64_rest();
    assert(u == 0x200_0000_0000_0000 * w);
    power2::lemma_pow2_pos(1017);
    rounding::lemma_binade_is(u, 20, 1017);
    let step = 20 * w;
    let q: nat = 7_205_759_403_792_793;
    assert(u == q * step + 12 * w) by (nonlinear_arith)
        requires
            u == 0x200_0000_0000_0000 * w,
            step == 20 * w,
            q == 7_205_759_403_792_793,
    ;
    div_mod::lemma_fundamental_div_mod_converse(u as int, step as int, q as int, (12 * w) as int);
    assert(rounding::half_even(u, step) == q + 1);
    assert(20 * ((q + 1) * w) == u + 8 * w) by (nonlinear_arith)
        requires
            u == 0x200_0000_0000_0000 * w,
            q == 7_205_759_403_792_793,
    ;
}

/// So many ticks are as long as they are, up to half a nanosecond and the rounding of doubles.
pub proof fn lemma_ticks_are_close(numer: u32, denom: u32, ticks: u64)
    requires
        numer > 0,
        denom > 0,
        ticks * numer / denom as int <= u64::MAX,
    ensures
        ({
            let exact = ticks * numer * 1_000_000_000;
            let got = ticks_total(numer, denom, ticks) * denom;
            let slack = if ticks * numer < 0x10_0000_0000_0000 {
                ticks * numer
            } else {
                denom as int
            };
            &&& 2 * (got - exact) * 0x20_0000_0000_0000 <= denom * 0x20_0000_0000_0000 + 2 * slack
                * 1_000_000_000
            &&& 2 * (exact - got) * 0x20_0000_0000_0000 <= denom * 0x20_0000_0000_0000 + 2 * slack
                * 1_000_000_000
        }),
{
    let u = double::unit() as int;
    double::lemma_unit();
    let a = ticks * numer;
    let b = denom as int;
    assert(a >= 0) by (nonlinear_arith)
        requires
            a == ticks * numer,
    ;
    let n = a / b;
    let rest = a % b;
    div_mod::lemma_fundamental_div_mod(a, b);
    div_mod::lemma_mod_bound(a, b);
    div_mod::lemma_div_pos_is_pos(a, b);
    div_mod::lemma_small_mod(n as nat, 0x1_0000_0000_0000_0000);
    assert(ticks_seconds(numer, denom, ticks) == n);
    let f = ticks_fraction(numer, denom, ticks) as int;
    let part = if a < 0x10_0000_0000_0000 {
        a
    } else {
        rest
    };
    // the fraction times `b` is what is left of `a` in units, up to the rounding of `part`
    let c = 0x20_0000_0000_0000int;
    lemma_ticks_fraction(numer, denom, ticks, n, rest);
    assert(-(part * u) <= (f * b - rest * u) * c <= part * u);
    let h = rounding::half_even((f * 1_000_000_000) as nat, u as nat) as int;
    rounding::lemma_half_even_is_nearest((f * 1_000_000_000) as nat, u as nat);
    let total = ticks_total(numer, denom, ticks);
    assert(total == n * 1_000_000_000 + h);
    let off = total * b - a * 1_000_000_000;
    assert(off == h * b - rest * 1_000_000_000) by (nonlinear_arith)
        requires
            off == total * b - a * 1_000_000_000,
            total == n * 1_000_000_000 + h,
            a == b * n + rest,
    ;
    // 2 |h u - f g| <= u
    let g = 1_000_000_000int;
    let hu = h * u;
    let fg = f * g;
    let e = f * b - rest * u;
    let x = hu - fg;
    assert(off * u == x * b + g * e) by (nonlinear_arith)
        requires
            x == hu - fg,
            off == h * b - rest * g,
            hu == h * u,
            fg == f * g,
            e == f * b - rest * u,
    ;
    assert(-u <= 2 * x <= u);
    assert(2 * (x * b) <= u * b && -(u * b) <= 2 * (x * b)) by (nonlinear_arith)
        requires
            -u <= 2 * x <= u,
            b > 0,
    ;
    let (ou, xb, ub, pu) = (off * u, x * b, u * b, part * u);
    assert(-pu <= e * c <= pu);
    assert(2 * ou * c <= ub * c + 2 * g * pu && -(2 * ou * c) <= ub * c + 2 * g * pu)
        by (nonlinear_arith)
        requires
            ou == xb + g * e,
            -pu <= e * c <= pu,
            -ub <= 2 * xb <= ub,
            c > 0,
            g > 0,
    ;
    assert(2 * off * c <= b * c + 2 * part * g) by (nonlinear_arith)
        requires
            2 * (off * u) * c <= (u * b) * c + 2 * g * (part * u),
            u > 0,
    ;
    assert(-(2 * off * c) <= b * c + 2 * part * g) by (nonlinear_arith)
        requires
            -(2 * (off * u) * c) <= (u * b) * c + 2 * g * (part * u),
            u > 0,
    ;
}

proof fn lemma_ticks_fraction(numer: u32, denom: u32, ticks: u64, n: int, rest: int)
    requires
        denom > 0,
        ticks * numer == denom * n + rest,
        0 <= rest < denom,
        n >= 0,
        rest == (ticks * numer) % (denom as int),
    ensures
        ({
            let u = double::unit() as int;
            let f = ticks_fraction(numer, denom, ticks) as int;
            let part = if ticks * numer < 0x10_0000_0000_0000 {
                ticks * numer
            } else {
                rest
            };
            -(part * u) <= (f * denom - rest * u) * 0x20_0000_0000_0000 <= part * u
        }),
{
    let u = double::unit() as int;
    double::lemma_unit();
    let a = ticks * numer;
    let b = denom as int;
    let c = 0x20_0000_0000_0000int;
    let part = if a < 0x10_0000_0000_0000 {
        a
    } else {
        rest
    };
    let pu = (part * u) as nat;
    let q = rounding::nearest(pu, denom as nat) as int;
    rounding::lemma_nearest_is_close(pu, denom as nat);
    assert(b * c <= u);
    if part > 0 {
        assert(pu >= u) by (nonlinear_arith)
            requires
                pu == part * u,
                part >= 1,
                u > 0,
        ;
    } else {
        assert(pu == 0) by (nonlinear_arith)
            requires
                pu == part * u,
                part == 0,
        ;
        rounding::lemma_nearest_bounds(0, denom as nat);
        assert(q == 0) by (nonlinear_arith)
            requires
                q * b <= 0,
                b > 0,
                q >= 0,
        ;
        assert(q * b == 0);
    }
    assert(-pu <= (q * b - pu) * c <= pu);
    if a < 0x10_0000_0000_0000 {
        // the whole seconds of the rounded quotient are those of the exact one
        let whole = n * u;
        assert(n <= a) by (nonlinear_arith)
            requires
                a == b * n + rest,
                b >= 1,
                rest >= 0,
                n >= 0,
        ;
        assert(whole * b <= pu) by (nonlinear_arith)
            requires
                whole == n * u,
                pu == a * u,
                a == b * n + rest,
                rest >= 0,
                u > 0,
        ;
        rounding::lemma_nearest_scale(whole as nat, 1, denom as nat);
        assert(whole * b >= 0) by (nonlinear_arith)
            requires
                whole == n * u,
                n >= 0,
                u > 0,
                b > 0,
        ;
        rounding::lemma_nearest_monotone((whole * b) as nat, pu, denom as nat);
        rounding::lemma_nearest_exact(n as nat, 1074);
        assert(1 * b == b);
        assert(q >= whole);
        assert(q * b < (n + 1) * b * u) by {
            assert((n + 1) * b <= a + b) by (nonlinear_arith)
                requires
                    a == b * n + rest,
                    rest >= 0,
            ;
            assert(a + 1 <= (n + 1) * b) by (nonlinear_arith)
                requires
                    a == b * n + rest,
                    rest < b,
            ;
            let top = (n + 1) * b;
            assert(q * b * c <= a * u * (c + 1)) by (nonlinear_arith)
                requires
                    (q * b - pu) * c <= pu,
                    pu == a * u,
            ;
            assert(a * (c + 1) < top * c) by (nonlinear_arith)
                requires
                    a + 1 <= top,
                    top <= c,
                    c > 0,
                    a >= 0,
                    a < c,
            ;
            assert(q * b * c < top * u * c) by (nonlinear_arith)
                requires
                    q * b * c <= a * u * (c + 1),
                    a * (c + 1) < top * c,
                    u > 0,
            ;
            assert(q * b < top * u) by (nonlinear_arith)
                requires
                    q * b * c < top * u * c,
                    c > 0,
            ;
        }
        assert(q < (n + 1) * u) by (nonlinear_arith)
            requires
                q * b < (n + 1) * b * u,
                b > 0,
        ;
        let f = q - whole;
        assert(q == n * u + f && 0 <= f < u) by (nonlinear_arith)
            requires
                q < (n + 1) * u,
                q >= whole,
                whole == n * u,
                f == q - whole,
        ;
        div_mod::lemma_fundamental_div_mod_converse(q, u, n, f);
        assert(ticks_fraction(numer, denom, ticks) == f);
        assert(f * b - rest * u == q * b - pu) by (nonlinear_arith)
            requires
                f == q - n * u,
                pu == a * u,
                a == b * n + rest,
        ;
    }
}

} // verus!
