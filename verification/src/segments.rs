//! The transcription of a recording, segment by segment.
//!
//! A service transcribes only so much at a time. A recording is therefore sent in segments, and
//! each but the last is cut at a gap between two captions.

use crate::captions;
use crate::captions::Cut;
use crate::captions::Prediction;
use crate::double;
use crate::double::Double;
use crate::rounding;
use crate::span;
use crate::span::Span;
use vstd::arithmetic::div_mod;
use vstd::prelude::*;

verus! {

/// How long a segment may be, in seconds.
pub const MAX_SEGMENT_LENGTH: u64 = 3300;

/// How many segments a recording is sent in.
pub open spec fn segment_count(length: Span) -> nat {
    double::at_most_u64(
        rounding::ceiling(
            double::quotient(length.seconds(), double::whole(MAX_SEGMENT_LENGTH as nat)).magnitude(),
            double::unit(),
        ),
    )
}

/// How long the segments but the last are to be, in whole seconds.
pub open spec fn segment_seconds(length: Span) -> int {
    length.secs as int / segment_count(length) as int
}

proof fn lemma_segments(length: Span)
    requires
        length.wf(),
    ensures
        double::quotient(
            length.seconds(),
            double::whole(MAX_SEGMENT_LENGTH as nat),
        ).finite(),
        double::quotient(length.seconds(), double::whole(MAX_SEGMENT_LENGTH as nat)).magnitude()
            == rounding::nearest(length.seconds().magnitude(), 3300),
{
    span::lemma_seconds(length);
    double::lemma_over_whole(length.seconds(), 3300);
}

/// A recording is sent in at least one segment, exactly if it is not empty.
pub proof fn lemma_some_segment(length: Span)
    requires
        length.wf(),
    ensures
        segment_count(length) > 0 <==> length.total() > 0,
{
    let u = double::unit();
    double::lemma_unit();
    span::lemma_seconds(length);
    lemma_segments(length);
    let mag = length.seconds().magnitude();
    let q = rounding::nearest(mag, 3300);
    rounding::lemma_nearest_bounds(mag, 3300);
    rounding::lemma_ceiling(q, u);
    div_mod::lemma_fundamental_div_mod(q as int, u as int);
    div_mod::lemma_mod_bound(q as int, u as int);
    let n = q as int / u as int;
    let r = q as int % u as int;
    if length.total() == 0 {
        assert(q == 0);
        assert(n == 0 && r == 0) by (nonlinear_arith)
            requires
                0 == u * n + r,
                0 <= r < u,
        ;
    } else {
        assert(q > 0);
        assert(n > 0 || r > 0) by (nonlinear_arith)
            requires
                q == u * n + r,
                q > 0,
                0 <= r < u,
        ;
    }
}

/// No segment is planned to be longer than a segment may be.
pub proof fn lemma_segments_are_short(length: Span)
    requires
        length.wf(),
        length.total() > 0,
    ensures
        0 <= segment_seconds(length) <= MAX_SEGMENT_LENGTH,
{
    let u = double::unit() as int;
    double::lemma_unit();
    span::lemma_seconds(length);
    lemma_segments(length);
    lemma_some_segment(length);
    let mag = length.seconds().magnitude() as int;
    let q = rounding::nearest(mag as nat, 3300) as int;
    let c = 0x20_0000_0000_0000int;
    let d = 0x1f_ffff_ffff_ffffint;
    let secs = length.secs as int;
    let n = segment_count(length) as int;
    rounding::lemma_ceiling(q as nat, u as nat);
    let up = rounding::ceiling(q as nat, u as nat) as int;
    div_mod::lemma_fundamental_div_mod(q, u);
    div_mod::lemma_mod_bound(q, u);
    assert(up * u >= q) by (nonlinear_arith)
        requires
            q == u * (q / u) + q % u,
            0 <= q % u < u,
            up == q / u + (if q % u > 0 {
                1int
            } else {
                0int
            }),
    ;
    if up > u64::MAX {
        // more segments than seconds
        assert(n == u64::MAX);
        assert(secs / n <= 1) by (nonlinear_arith)
            requires
                0 <= secs <= n,
                n > 0,
        ;
    } else if mag >= 3300 * c {
        rounding::lemma_nearest_loss(mag as nat, 3300);
        // up * 3300 * u * c^3 >= secs * u * d^3
        assert((q * 3300) * c >= mag * d);
        let c2 = c * c;
        let d2 = d * d;
        assert(mag * c2 >= (secs * u) * d2) by (nonlinear_arith)
            requires
                mag * c * c >= secs * u * d * d,
                c2 == c * c,
                d2 == d * d,
        ;
        assert((q * 3300) * c * c2 >= (secs * u) * d2 * d) by (nonlinear_arith)
            requires
                (q * 3300) * c >= mag * d,
                mag * c2 >= (secs * u) * d2,
                c2 > 0,
                d > 0,
        ;
        let c3 = c * c2;
        let d3 = d2 * d;
        assert((up * 3300 * u) * c3 >= (secs * u) * d3) by (nonlinear_arith)
            requires
                up * u >= q,
                (q * 3300) * c * c2 >= (secs * u) * d2 * d,
                c3 == c * c2,
                d3 == d2 * d,
                c3 > 0,
        ;
        assert((up * 3300) * c3 >= secs * d3) by (nonlinear_arith)
            requires
                (up * 3300 * u) * c3 >= (secs * u) * d3,
                u > 0,
        ;
        assert(c3 * 3300 < d3 * 3301);
        assert(secs < 3301 * up) by (nonlinear_arith)
            requires
                (up * 3300) * c3 >= secs * d3,
                c3 * 3300 < d3 * 3301,
                up > 0,
                d3 > 0,
        ;
        assert(secs / up < 3301) by (nonlinear_arith)
            requires
                0 <= secs < 3301 * up,
                up > 0,
        ;
        assert(secs / up >= 0) by (nonlinear_arith)
            requires
                0 <= secs,
                up > 0,
        ;
    } else {
        // far less than a second
        assert(secs == 0) by (nonlinear_arith)
            requires
                mag < 3300 * c,
                mag * c * c >= secs * u * d * d,
                u > 3300 * 0x1000 * c,
                c == 0x20_0000_0000_0000,
                d == 0x1f_ffff_ffff_ffff,
                secs >= 0,
        ;
        assert(0int / n == 0) by (nonlinear_arith)
            requires
                n > 0,
        ;
    }
}

/// Finds how many segments a recording is sent in.
pub fn count_segments(length: &Span) -> (r: u64)
    requires
        length.wf(),
    ensures
        r == segment_count(*length),
        length.nanos == 0 && length.secs < 0x4_0000_0000_0000 ==> r == (length.secs + 3299) / 3300,
{
    let parts = length.as_double().over(Double::from_u64(MAX_SEGMENT_LENGTH));
    proof {
        lemma_segments(*length);
        lemma_whole_seconds_count(*length);
    }
    parts.round_up()
}

/// A segment that is to be transcribed.
#[derive(Debug)]
pub struct Segment {
    /// Where it starts in the recording.
    pub start: Span,
    /// Where it ends, by plan.
    pub end: Span,
    /// How many seconds are taken; the last segment has all that is left.
    pub seconds: Option<u64>,
    pub first: bool,
}

/// What became of the transcription of a segment.
#[derive(Clone, Copy, Debug, PartialEq, Eq, Structural)]
pub enum Taken {
    /// All captions of the last segment were taken.
    All,
    /// The captions up to a cut were taken.
    UpTo(Cut),
    /// There was no caption, or no place to cut: nothing was taken.
    Nothing,
}

/// Captions that begin and end later.
pub open spec fn later(captions: Seq<Prediction>, by: Double) -> Seq<Prediction> {
    captions.map_values(
        |p: Prediction|
            Prediction {
                time_begin: double::sum(p.time_begin, by),
                time_end: double::sum(p.time_end, by),
                transcription: p.transcription,
            },
    )
}

/// Whether a recording can be sent in segments: it is not empty, and where there are several
/// segments, the sound starts within the first.
pub open spec fn can_start(length: Span, delay: Span) -> bool {
    length.total() > 0 && (segment_count(length) == 1 || delay.secs <= segment_seconds(length))
}

/// The transcription of a recording: what was done so far.
#[derive(Debug)]
pub struct Transcription {
    /// How long the recording is.
    pub length: Span,
    /// How long after the start of the recording its sound starts.
    pub delay: Span,
    /// How many segments there are.
    pub count: u64,
    /// How long the segments but the last are, in seconds.
    pub seconds: u64,
    /// How many segments are transcribed.
    pub done: u64,
    /// Where the next segment starts.
    pub start: Span,
    /// The captions of the segments that are transcribed.
    pub captions: Vec<Prediction>,
}

impl Transcription {
    pub open spec fn wf(self) -> bool {
        &&& self.length.wf()
        &&& self.delay.wf()
        &&& self.start.wf()
        &&& can_start(self.length, self.delay)
        &&& self.count == segment_count(self.length)
        &&& self.seconds == segment_seconds(self.length)
        &&& self.done <= self.count
    }

    /// How many seconds the next segment takes; `None` for the last.
    pub open spec fn planned(self) -> Option<int> {
        if self.done + 1 >= self.count {
            None
        } else if self.done == 0 {
            Some(self.seconds - self.delay.secs)
        } else {
            Some(self.seconds as int)
        }
    }

    /// Where the next segment ends, in nanoseconds.
    pub open spec fn planned_end(self) -> int {
        match self.planned() {
            Some(n) => self.start.total() + n * 1_000_000_000,
            None => self.length.total() as int,
        }
    }

    /// Starts the transcription of a recording; `None` where it cannot be sent in segments.
    pub fn new(length: Span, delay: Span) -> (r: Option<Self>)
        requires
            length.wf(),
            delay.wf(),
        ensures
            r is Some <==> can_start(length, delay),
            r is Some <==> length.total() > 0 && (segment_count(length) == 1 || delay.secs
                <= length.secs as int / segment_count(length) as int),
            r matches Some(t) ==> t.count == segment_count(length) && t.seconds == length.secs
                / t.count,
            r matches Some(t) ==> {
                &&& t.wf()
                &&& t.length == length
                &&& t.delay == delay
                &&& t.done == 0
                &&& t.start == (Span { secs: 0, nanos: 0 })
                &&& t.captions@ == Seq::<Prediction>::empty()
            },
    {
        let count: u64 = count_segments(&length);
        proof {
            lemma_some_segment(length);
        }
        if count == 0 {
            return None;
        }
        let seconds: u64 = length.secs / count;
        if count > 1 && delay.secs > seconds {
            return None;
        }
        Some(
            Transcription {
                length,
                delay,
                count,
                seconds,
                done: 0,
                start: Span::from_secs(0),
                captions: Vec::new(),
            },
        )
    }

    /// The next segment; `None` where its end is too far away.
    pub fn segment(&self) -> (r: Option<Segment>)
        requires
            self.wf(),
            self.done < self.count,
        ensures
            r is Some <==> self.planned_end() < span::too_long(),
            r matches Some(s) ==> {
                &&& s.seconds is None <==> self.done == self.count - 1
                &&& 0 < self.done < self.count - 1 ==> s.seconds == Some(
                    self.length.secs / self.count,
                )
                &&& self.done == 0 && self.count > 1 ==> s.seconds == Some(
                    (self.length.secs / self.count - self.delay.secs) as u64,
                )
                &&& s.end.total() == match s.seconds {
                    Some(n) => self.start.total() + n * 1_000_000_000,
                    None => self.length.total() as int,
                }
            },
            self.start.secs < 0x8000_0000_0000_0000 && self.length.secs < 0x8000_0000_0000_0000
                ==> r is Some,
            r matches Some(s) ==> {
                &&& s.start == self.start
                &&& s.first == (self.done == 0)
                &&& s.end.wf()
                &&& s.end.total() == self.planned_end()
                &&& match s.seconds {
                    Some(n) => self.planned() == Some(n as int),
                    None => self.planned() is None,
                }
            },
    {
        let first: bool = self.done == 0;
        if self.done == self.count - 1 {
            return Some(Segment { start: self.start, end: self.length, seconds: None, first });
        }
        proof {
            let (whole, count) = (self.length.secs as int, self.count as int);
            assert(whole / count <= whole) by (nonlinear_arith)
                requires
                    whole >= 0,
                    count >= 1,
            ;
        }
        let n: u64 = if first {
            self.seconds - self.delay.secs
        } else {
            self.seconds
        };
        match self.start.checked_add(&Span::from_secs(n)) {
            Some(end) => Some(Segment { start: self.start, end, seconds: Some(n), first }),
            None => None,
        }
    }

    /// Takes the captions of the next segment.
    ///
    /// Of the last segment all are taken. Of another, those up to the best gap are, and the next
    /// segment starts in the middle of that gap. Captions count from the start of the recording
    /// once they are taken.
    pub fn take_reply(&mut self, reply: Vec<Prediction>) -> (r: Taken)
        requires
            old(self).wf(),
            old(self).done < old(self).count,
            captions::all_wf(reply@),
        ensures
            final(self).wf(),
            final(self).length == old(self).length,
            final(self).delay == old(self).delay,
            final(self).start.total() >= old(self).start.total(),
            r is All <==> old(self).planned() is None,
            r is All <==> old(self).done == old(self).count - 1,
            final(self).count == old(self).count,
            final(self).seconds == old(self).seconds,
            old(self).done < old(self).count - 1 && reply@.len() == 0 ==> r is Nothing,
            r is Nothing ==> *final(self) == *old(self),
            !(r is Nothing) ==> {
                let before = old(self).captions@.len() as int;
                let taken = match r {
                    Taken::UpTo(cut) => cut.keep as int,
                    _ => reply@.len() as int,
                };
                &&& final(self).done == old(self).done + 1
                &&& final(self).captions@.len() == before + taken
                &&& forall|i: int|
                    0 <= i < before ==> #[trigger] final(self).captions@[i] == old(self).captions@[i]
                &&& forall|i: int|
                    before <= i < before + taken ==> {
                        let p = reply@[i - before];
                        &&& (#[trigger] final(self).captions@[i]).transcription == p.transcription
                        &&& final(self).captions@[i].time_begin == double::sum(
                            p.time_begin,
                            old(self).start.seconds(),
                        )
                        &&& final(self).captions@[i].time_end == double::sum(
                            p.time_end,
                            old(self).start.seconds(),
                        )
                    }
            },
            r is Nothing <==> {
                &&& old(self).planned() is Some
                &&& reply@.len() == 0 || exists|i: int| #[trigger]
                    captions::is_best(reply@, i) && captions::cut_total(
                        reply@,
                        i,
                        old(self).start,
                    ) is None
            },
            match r {
                Taken::All => {
                    &&& final(self).done == old(self).done + 1
                    &&& final(self).start == old(self).start
                    &&& final(self).captions@ == old(self).captions@ + later(
                        reply@,
                        old(self).start.seconds(),
                    )
                },
                Taken::UpTo(cut) => {
                    &&& final(self).done == old(self).done + 1
                    &&& final(self).start == cut.at
                    &&& 0 < cut.keep <= reply@.len()
                    &&& captions::is_best(reply@, cut.keep - 1)
                    &&& cut.gap == captions::gap_after(reply@, cut.keep - 1)
                    &&& captions::cut_total(reply@, cut.keep - 1, old(self).start) == Some(
                        cut.at.total(),
                    )
                    &&& final(self).captions@ == old(self).captions@ + later(
                        reply@.take(cut.keep as int),
                        old(self).start.seconds(),
                    )
                },
                Taken::Nothing => *final(self) == *old(self),
            },
    {
        let mut kept = reply;
        let by = self.start.as_double();
        if self.done == self.count - 1 {
            move_later(&mut kept, by);
            self.captions.append(&mut kept);
            self.done = self.done + 1;
            return Taken::All;
        }
        if kept.len() == 0 {
            return Taken::Nothing;
        }
        match captions::find_cut(&kept, &self.start) {
            Some(cut) => {
                proof {
                    let i = choose|i: int| captions::is_best(reply@, i);
                    assert(captions::is_best(reply@, i));
                    assert forall|j: int| captions::is_best(reply@, j) implies j == i by {
                        captions::lemma_best_unique(reply@, i, j);
                    }
                }
                kept.truncate(cut.keep);
                assert(kept@ == reply@.take(cut.keep as int));
                move_later(&mut kept, by);
                self.captions.append(&mut kept);
                self.start = cut.at;
                self.done = self.done + 1;
                Taken::UpTo(cut)
            },
            None => {
                proof {
                    let i = choose|i: int| captions::is_best(reply@, i);
                    assert(captions::is_best(reply@, i));
                }
                Taken::Nothing
            },
        }
    }
}

/// Lets captions begin and end later.
fn move_later(captions: &mut Vec<Prediction>, by: Double)
    ensures
        final(captions)@ == later(old(captions)@, by),
{
    let ghost before = captions@;
    let n: usize = captions.len();
    let mut i: usize = 0;
    while i < n
        invariant
            i <= n,
            n == before.len(),
            captions@ == later(before.take(i as int), by) + before.skip(i as int),
        decreases n - i,
    {
        let begin = captions[i].time_begin.plus(by);
        let end = captions[i].time_end.plus(by);
        captions[i].time_begin = begin;
        captions[i].time_end = end;
        proof {
            assert(captions@ =~= later(before.take(i + 1), by) + before.skip(i + 1));
        }
        i = i + 1;
    }
    assert(before.take(n as int) == before);
}

/// There are as many segments as it takes for each to be no longer than a segment may be, and no
/// more: all but the last of so many fit into the recording. Both hold up to the rounding of the
/// length to a double, which a recording is not off by for more than the `2^51`th part.
pub proof fn lemma_count_is_least(length: Span)
    requires
        length.wf(),
        length.total() > 0,
        segment_count(length) < 0xffff_ffff_ffff_ffff,
    ensures
        segment_count(length) * 3_300_000_000_000 * 0x8_0000_0000_0000 >= length.total()
            * 0x7_ffff_ffff_ffff,
        (segment_count(length) - 1) * 3_300_000_000_000 * 0x8_0000_0000_0000 < length.total()
            * 0x8_0000_0000_0001,
{
    let u = double::unit() as int;
    double::lemma_unit();
    span::lemma_seconds(length);
    span::lemma_seconds_are_close(length);
    lemma_segments(length);
    let mag = length.seconds().magnitude() as int;
    let q = rounding::nearest(mag as nat, 3300) as int;
    let up = rounding::ceiling(q as nat, u as nat) as int;
    rounding::lemma_ceiling_is_least(q as nat, u as nat);
    let c = 0x20_0000_0000_0000int;
    let t = length.total() as int;
    let tu = t * u;
    assert(tu >= u) by (nonlinear_arith)
        requires
            tu == t * u,
            t >= 1,
            u > 0,
    ;
    let (lo, hi) = (c - 1, c + 1);
    let mb = mag * 1_000_000_000;
    assert(tu * lo * lo <= mb * c * c && mb * c * c <= tu * hi * hi);
    assert(mag >= 3300 * c) by {
        assert(mb * 4 >= tu) by (nonlinear_arith)
            requires
                tu * lo * lo <= mb * c * c,
                c == 0x20_0000_0000_0000,
                lo == c - 1,
                tu >= 0,
        ;
    }
    rounding::lemma_nearest_is_close(mag as nat, 3300);
    let qb = q * 3300;
    assert(qb * c <= mag * hi && mag * lo <= qb * c);
    let (c2, l2, h2) = (c * c, lo * lo, hi * hi);
    assert(tu * l2 <= mb * c2 && mb * c2 <= tu * h2) by (nonlinear_arith)
        requires
            tu * lo * lo <= mb * c * c,
            mb * c * c <= tu * hi * hi,
            c2 == c * c,
            l2 == lo * lo,
            h2 == hi * hi,
    ;
    let (c3, l3, h3) = (c2 * c, l2 * lo, h2 * hi);
    let qbb = qb * 1_000_000_000;
    assert(qbb * c <= mb * hi && mb * lo <= qbb * c);
    assert(tu * l3 <= qbb * c3) by (nonlinear_arith)
        requires
            tu * l2 <= mb * c2,
            mb * lo <= qbb * c,
            l3 == l2 * lo,
            c3 == c2 * c,
            lo > 0,
            c2 > 0,
    ;
    assert(qbb * c3 <= tu * h3) by (nonlinear_arith)
        requires
            mb * c2 <= tu * h2,
            qbb * c <= mb * hi,
            h3 == h2 * hi,
            c3 == c2 * c,
            hi > 0,
            c2 > 0,
    ;
    let k = 3_300_000_000_000int;
    assert(qbb == q * k);
    let e = 0x8_0000_0000_0000int;
    assert(c3 * (e - 1) <= l3 * e);
    assert(h3 * e <= c3 * (e + 1));
    // from below
    assert(up * k * e >= t * (e - 1)) by {
        assert((up * k) * u >= qbb) by (nonlinear_arith)
            requires
                up * u >= q,
                qbb == q * k,
                k > 0,
        ;
        assert((up * k) * c3 >= t * l3) by (nonlinear_arith)
            requires
                (up * k) * u >= qbb,
                tu * l3 <= qbb * c3,
                tu == t * u,
                u > 0,
                c3 > 0,
        ;
        assert(up * k * e >= t * (e - 1)) by (nonlinear_arith)
            requires
                (up * k) * c3 >= t * l3,
                c3 * (e - 1) <= l3 * e,
                t > 0,
                e > 0,
                c3 > 0,
        ;
    }
    // and from above
    assert((up - 1) * k * e < t * (e + 1)) by {
        assert(((up - 1) * k) * u < qbb) by (nonlinear_arith)
            requires
                up * u < q + u,
                qbb == q * k,
                k > 0,
        ;
        assert(((up - 1) * k) * c3 < t * h3) by (nonlinear_arith)
            requires
                ((up - 1) * k) * u < qbb,
                qbb * c3 <= tu * h3,
                tu == t * u,
                u > 0,
                c3 > 0,
        ;
        assert((up - 1) * k * e < t * (e + 1)) by (nonlinear_arith)
            requires
                ((up - 1) * k) * c3 < t * h3,
                h3 * e <= c3 * (e + 1),
                t > 0,
                e > 0,
                c3 > 0,
        ;
    }
}

/// A whole number of seconds is sent in the least number of segments that are long enough.
pub proof fn lemma_whole_seconds_count(length: Span)
    requires
        length.wf(),
    ensures
        length.nanos == 0 && length.secs < 0x4_0000_0000_0000 ==> segment_count(length) == (
        length.secs + 3299) / 3300,
{
    if length.nanos == 0 && length.secs < 0x4_0000_0000_0000 {
        let u = double::unit() as int;
        double::lemma_unit();
        let secs = length.secs as int;
        lemma_some_segment(length);
        lemma_segments(length);
        span::lemma_seconds_are_close(length);
        let mag = length.seconds().magnitude() as int;
        let q = rounding::nearest(mag as nat, 3300) as int;
        let up = rounding::ceiling(q as nat, u as nat) as int;
        rounding::lemma_ceiling_is_least(q as nat, u as nat);
        assert(mag == secs * u);
        if secs > 0 {
            assert(mag >= u) by (nonlinear_arith)
                requires
                    mag == secs * u,
                    secs >= 1,
                    u > 0,
            ;
            rounding::lemma_nearest_is_close(mag as nat, 3300);
            let c = 0x20_0000_0000_0000int;
            let qb = q * 3300;
            assert(qb * c <= mag * (c + 1) && mag * (c - 1) <= qb * c);
            assert((up * 3300) * c >= secs * (c - 1)) by (nonlinear_arith)
                requires
                    up * u >= q,
                    qb == q * 3300,
                    mag * (c - 1) <= qb * c,
                    mag == secs * u,
                    u > 0,
                    c > 0,
            ;
            assert(((up - 1) * 3300) * c < secs * (c + 1)) by (nonlinear_arith)
                requires
                    up * u < q + u,
                    qb == q * 3300,
                    qb * c <= mag * (c + 1),
                    mag == secs * u,
                    u > 0,
                    c > 0,
            ;
            assert(up * 3300 >= secs);
            assert((up - 1) * 3300 <= secs);
            if (up - 1) * 3300 == secs {
                // without a rest the quotient is exact
                let k = up - 1;
                assert(mag == (k * u) * 3300) by (nonlinear_arith)
                    requires
                        mag == secs * u,
                        secs == k * 3300,
                ;
                rounding::lemma_nearest_scale((k * u) as nat, 1, 3300);
                rounding::lemma_nearest_exact(k as nat, 1074);
                assert(q == k * u);
                assert(up * u == k * u + u) by (nonlinear_arith)
                    requires
                        up == k + 1,
                ;
            }
        } else {
            assert(segment_count(length) == 0);
        }
    }
}

} // verus!
