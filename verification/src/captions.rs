//! Captions, and where the transcription of a segment of a recording is cut.
//!
//! A segment may end in the middle of a caption. It is therefore cut at a gap between two captions
//! near its end: what follows the gap is dropped, and the next segment starts in the middle of the
//! gap.

use crate::double;
use crate::double::Double;
use crate::rounding;
use crate::span;
use crate::span::Span;
use crate::text;
use vstd::arithmetic::power2;
use vstd::prelude::*;

verus! {

/// How many captions from the end of a segment a gap is looked for.
pub const GAP_WINDOW: usize = 20;

/// A caption, and when it begins and ends, in seconds.
#[derive(Debug)]
pub struct Prediction {
    pub time_begin: Double,
    pub time_end: Double,
    pub transcription: String,
}

pub open spec fn ends_with(s: Seq<char>, ending: Seq<char>) -> bool {
    s.len() >= ending.len() && s.skip(s.len() - ending.len()) == ending
}

/// Whether a caption pauses: its text ends with a comma or an ellipsis.
pub open spec fn pauses(s: Seq<char>) -> bool {
    ends_with(s, seq!['.', '.', '.']) || ends_with(s, seq![','])
}

/// Whether a caption ends a sentence.
pub open spec fn ends_sentence(s: Seq<char>) -> bool {
    s.len() > 0 && (s.last() == '.' || s.last() == '?' || s.last() == '!' || s.last() == ':')
}

/// How good a place a gap after a caption is to cut: its length, counted more where the caption
/// pauses, and twice where it ends a sentence.
pub open spec fn gap_score(s: Seq<char>, gap: Double) -> Double {
    if pauses(s) {
        double::product(double::fraction(13, 10), gap)
    } else if ends_sentence(s) {
        double::product(double::whole(2), gap)
    } else {
        gap
    }
}

/// How long after a caption the next begins; nothing follows the last.
pub open spec fn gap_after(captions: Seq<Prediction>, i: int) -> Double {
    if i == captions.len() - 1 {
        double::difference(captions[i].time_end, captions[i].time_end)
    } else {
        double::difference(captions[i + 1].time_begin, captions[i].time_end)
    }
}

pub open spec fn score_after(captions: Seq<Prediction>, i: int) -> Double {
    gap_score(captions[i].transcription@, gap_after(captions, i))
}

/// Whether a caption is near enough to the end for a cut after it.
pub open spec fn in_window(captions: Seq<Prediction>, i: int) -> bool {
    0 <= i < captions.len() && i >= captions.len() - GAP_WINDOW
}

/// Whether a caption is the one to cut after: no gap in the window has a better score, and of those
/// with the same score it is the last.
pub open spec fn is_best(captions: Seq<Prediction>, i: int) -> bool {
    &&& in_window(captions, i)
    &&& forall|j: int| #[trigger]
        in_window(captions, j) ==> !double::smaller(
            score_after(captions, i),
            score_after(captions, j),
        )
    &&& forall|j: int| #[trigger]
        in_window(captions, j) && j > i ==> double::smaller(
            score_after(captions, j),
            score_after(captions, i),
        )
}

impl Prediction {
    /// The times are finite numbers.
    pub open spec fn wf(self) -> bool {
        self.time_begin.finite() && self.time_end.finite()
    }
}

pub open spec fn all_wf(captions: Seq<Prediction>) -> bool {
    forall|i: int| 0 <= i < captions.len() ==> (#[trigger] captions[i]).wf()
}

/// The difference of two finite numbers is not a NaN, and has the sign of the exact difference.
proof fn lemma_difference(a: Double, b: Double)
    requires
        a.finite(),
        b.finite(),
    ensures
        !double::difference(a, b).is_nan(),
        double::difference(a, b).value() < 0 <==> a.value() < b.value(),
        a.value() >= b.value() ==> double::difference(a, b).magnitude() == double::saturated(
            rounding::nearest((a.value() - b.value()) as nat, 1),
        ),
{
    let nb = double::negated(b);
    assert(nb.biased() == b.biased() && nb.fraction() == b.fraction());
    let exact = a.value() - b.value();
    assert(a.value() + nb.value() == exact);
    double::lemma_unit();
    if exact > 0 {
        double::lemma_rounded(false, exact as nat, 1);
    } else if exact < 0 {
        double::lemma_rounded(true, (-exact) as nat, 1);
        rounding::lemma_nearest_bounds((-exact) as nat, 1);
    } else {
        double::lemma_rounded(a.negative() && nb.negative(), 0, 1);
        rounding::lemma_nearest_bounds(0, 1);
    }
}

/// A factor of one or more keeps a number from being a NaN, and keeps its sign.
proof fn lemma_factor(f: Double, d: Double)
    requires
        f.finite(),
        !f.negative(),
        f.magnitude() >= double::unit(),
        !d.is_nan(),
    ensures
        !double::product(f, d).is_nan(),
        double::product(f, d).value() < 0 <==> d.value() < 0,
{
    let u = double::unit();
    double::lemma_unit();
    let r = double::product(f, d);
    if d.infinite() {
        double::lemma_infinity(true);
        double::lemma_infinity(false);
        assert(d.magnitude() == double::infinity(false).magnitude());
    } else {
        let num = f.magnitude() * d.magnitude();
        double::lemma_rounded(d.negative(), num, u);
        rounding::lemma_nearest_bounds(num, u);
        let n = rounding::nearest(num, u);
        if d.magnitude() > 0 {
            assert(num >= u) by (nonlinear_arith)
                requires
                    num == f.magnitude() * d.magnitude(),
                    f.magnitude() >= u,
                    d.magnitude() >= 1,
            ;
        } else {
            assert(num == 0) by (nonlinear_arith)
                requires
                    num == f.magnitude() * d.magnitude(),
                    d.magnitude() == 0,
            ;
            assert(n == 0) by (nonlinear_arith)
                requires
                    n * u <= 2 * num,
                    num == 0,
                    u > 0,
            ;
        }
    }
}

/// The numbers that gaps are counted with.
proof fn lemma_weights()
    ensures
        double::whole(2).finite(),
        !double::whole(2).negative(),
        double::whole(2).magnitude() >= double::unit(),
        double::fraction(13, 10).finite(),
        !double::fraction(13, 10).negative(),
        double::fraction(13, 10).magnitude() >= double::unit(),
{
    let u = double::unit();
    double::lemma_unit();
    double::lemma_whole(2);
    double::lemma_finite(false, 13 * u, 10);
    rounding::lemma_nearest_monotone(10 * u, 13 * u, 10);
    rounding::lemma_nearest_scale(u, 1, 10);
    rounding::lemma_nearest_exact(1, 1074);
    assert(1 * u == u) by (nonlinear_arith);
}

/// A score is not a NaN, and has the sign of the gap.
proof fn lemma_score(captions: Seq<Prediction>, i: int)
    requires
        all_wf(captions),
        0 <= i < captions.len(),
    ensures
        !gap_after(captions, i).is_nan(),
        !score_after(captions, i).is_nan(),
        score_after(captions, i).value() < 0 <==> gap_after(captions, i).value() < 0,
{
    assert(captions[i].wf());
    if i == captions.len() - 1 {
        lemma_difference(captions[i].time_end, captions[i].time_end);
    } else {
        assert(captions[i + 1].wf());
        lemma_difference(captions[i + 1].time_begin, captions[i].time_end);
    }
    lemma_weights();
    lemma_factor(double::whole(2), gap_after(captions, i));
    lemma_factor(double::fraction(13, 10), gap_after(captions, i));
}

fn score(transcription: &str, gap: Double) -> (r: Double)
    ensures
        r == gap_score(transcription@, gap),
{
    let s = text::chars_of(transcription);
    let n: usize = s.len();
    if n == 0 {
        return gap;
    }
    let last: char = s[n - 1];
    let ellipsis: bool = n >= 3 && last == '.' && s[n - 2] == '.' && s[n - 3] == '.';
    proof {
        let t = transcription@;
        if ellipsis {
            assert(t.skip(n - 3) == seq!['.', '.', '.']);
        } else if ends_with(t, seq!['.', '.', '.']) {
            let e = t.skip(n - 3);
            assert(e[0] == t[n - 3] && e[1] == t[n - 2] && e[2] == t[n - 1]);
        }
        if last == ',' {
            assert(t.skip(n - 1) == seq![',']);
        } else if ends_with(t, seq![',']) {
            assert(t.skip(n - 1)[0] == t[n - 1]);
        }
    }
    if ellipsis || last == ',' {
        Double::from_fraction(13, 10).times(gap)
    } else if last == '.' || last == '?' || last == '!' || last == ':' {
        Double::from_u64(2).times(gap)
    } else {
        gap
    }
}

/// Finds the caption to cut after, and the gap behind it.
pub fn best_gap(captions: &Vec<Prediction>) -> (r: (usize, Double))
    requires
        captions@.len() > 0,
        all_wf(captions@),
    ensures
        is_best(captions@, r.0 as int),
        r.1 == gap_after(captions@, r.0 as int),
        r.0 < captions@.len() <= r.0 + 20,
        forall|j: int|
            0 <= j < captions@.len() <= j + 20 ==> !double::smaller(
                score_after(captions@, r.0 as int),
                #[trigger] score_after(captions@, j),
            ),
        forall|j: int|
            r.0 < j < captions@.len() ==> double::smaller(
                #[trigger] score_after(captions@, j),
                score_after(captions@, r.0 as int),
            ),
        r.1 == if r.0 == captions@.len() - 1 {
            double::difference(captions@[r.0 as int].time_end, captions@[r.0 as int].time_end)
        } else {
            double::difference(captions@[r.0 + 1].time_begin, captions@[r.0 as int].time_end)
        },
{
    let ghost all = captions@;
    let n: usize = captions.len();
    let window: usize = if n < GAP_WINDOW {
        n
    } else {
        GAP_WINDOW
    };
    let mut best: usize = n - 1;
    let mut best_gap = captions[n - 1].time_end.minus(captions[n - 1].time_end);
    let mut best_score = score(captions[n - 1].transcription.as_str(), best_gap);
    proof {
        lemma_score(all, n - 1);
    }
    let mut k: usize = 1;
    while k < window
        invariant
            all == captions@,
            n == all.len(),
            all_wf(all),
            1 <= k <= window <= n,
            window <= GAP_WINDOW,
            n - k <= best < n,
            best_gap == gap_after(all, best as int),
            best_score == score_after(all, best as int),
            !best_score.is_nan(),
            forall|j: int|
                n - k <= j < n ==> !double::smaller(best_score, #[trigger] score_after(all, j)),
            forall|j: int|
                best < j < n ==> double::smaller(#[trigger] score_after(all, j), best_score),
        decreases window - k,
    {
        let i: usize = n - 1 - k;
        let gap = captions[i + 1].time_begin.minus(captions[i].time_end);
        let this = score(captions[i].transcription.as_str(), gap);
        proof {
            lemma_score(all, i as int);
            assert forall|j: int| n - k <= j < n implies !(#[trigger] score_after(all, j)).is_nan()
                by {
                lemma_score(all, j);
            }
        }
        if best_score.less(this) {
            best = i;
            best_gap = gap;
            best_score = this;
        }
        k = k + 1;
    }
    proof {
        assert forall|j: int| 0 <= j < n && n <= j + 20 implies !double::smaller(
            best_score,
            #[trigger] score_after(all, j),
        ) by {
            assert(n - k <= j < n);
        }
    }
    (best, best_gap)
}

/// Where a segment is cut.
#[derive(Clone, Copy, Debug, PartialEq, Eq, Structural)]
pub struct Cut {
    /// How many captions are kept.
    pub keep: usize,
    /// The gap after the last of them.
    pub gap: Double,
    /// Where the next segment starts in the recording.
    pub at: Span,
}

/// The middle of the gap after a caption, in seconds of the segment.
pub open spec fn middle(captions: Seq<Prediction>, i: int) -> Double {
    double::sum(
        captions[i].time_end,
        double::quotient(gap_after(captions, i), double::whole(2)),
    )
}

/// Where a cut after a caption is in the recording, in nanoseconds; `None` where the gap or its
/// middle is not a span of time, or the middle is too far behind.
pub open spec fn cut_total(captions: Seq<Prediction>, i: int, start: Span) -> Option<nat> {
    let total = start.total() + span::nearest_nanos(middle(captions, i));
    if span::is_span(gap_after(captions, i)) && span::is_span(middle(captions, i)) && total
        < span::too_long() {
        Some(total)
    } else {
        None
    }
}

/// Finds where to cut a segment that started at `start`; `None` where the times that came back are
/// not those of a recording.
pub fn find_cut(captions: &Vec<Prediction>, start: &Span) -> (r: Option<Cut>)
    requires
        captions@.len() > 0,
        all_wf(captions@),
        start.wf(),
    ensures
        r matches Some(cut) ==> 1 <= cut.keep <= captions@.len() <= cut.keep + 19,
        r matches Some(cut) ==> {
            let end = captions@[cut.keep - 1].time_end;
            let place = double::sum(end, double::quotient(cut.gap, double::whole(2)));
            let passed = cut.at.total() - start.total();
            &&& cut.gap == double::difference(
                if cut.keep == captions@.len() {
                    end
                } else {
                    captions@[cut.keep as int].time_begin
                },
                end,
            )
            &&& place.finite() && place.value() >= 0
            &&& passed >= 0
            &&& 2 * (passed * double::unit()) <= 2 * (place.magnitude() * 1_000_000_000)
                + double::unit()
            &&& 2 * (place.magnitude() * 1_000_000_000) <= 2 * (passed * double::unit())
                + double::unit()
        },
        exists|i: int| is_best(captions@, i),
        forall|i: int| #[trigger]
            is_best(captions@, i) ==> match r {
                Some(cut) => {
                    &&& cut.keep == i + 1
                    &&& cut.gap == gap_after(captions@, i)
                    &&& cut.at.wf()
                    &&& cut_total(captions@, i, *start) == Some(cut.at.total())
                },
                None => cut_total(captions@, i, *start) is None,
            },
{
    let n: usize = captions.len();
    let (best, gap) = best_gap(captions);
    proof {
        assert forall|i: int| #[trigger] is_best(captions@, i) implies i == best by {
            lemma_best_unique(captions@, i, best as int);
        }
    }
    let seconds = captions[best].time_end.plus(gap.over(Double::from_u64(2)));
    match (Span::from_double(gap), Span::from_double(seconds)) {
        (Some(_), Some(offset)) => match start.checked_add(&offset) {
            Some(at) => Some(Cut { keep: best + 1, gap, at }),
            None => None,
        },
        _ => None,
    }
}

/// There is only one caption to cut after.
pub proof fn lemma_best_unique(captions: Seq<Prediction>, i: int, j: int)
    requires
        is_best(captions, i),
        is_best(captions, j),
    ensures
        i == j,
{
    assert(in_window(captions, i) && in_window(captions, j));
}

/// A larger factor makes no smaller product.
proof fn lemma_larger_factor(f: Double, g: Double, d: Double)
    requires
        f.finite(),
        g.finite(),
        !f.negative(),
        !g.negative(),
        double::unit() <= f.magnitude() <= g.magnitude(),
        !d.is_nan(),
        d.value() >= 0,
    ensures
        !double::smaller(double::product(f, d), d),
        !double::smaller(double::product(g, d), double::product(f, d)),
{
    let u = double::unit();
    double::lemma_unit();
    if d.infinite() {
        double::lemma_infinity(true);
        double::lemma_infinity(false);
        assert(d.magnitude() == double::infinity(false).magnitude());
    } else {
        let m = d.magnitude();
        let fm = f.magnitude() * m;
        let gm = g.magnitude() * m;
        double::lemma_rounded(d.negative(), fm, u);
        double::lemma_rounded(d.negative(), gm, u);
        assert(u * m <= fm && fm <= gm) by (nonlinear_arith)
            requires
                u <= f.magnitude() <= g.magnitude(),
                fm == f.magnitude() * m,
                gm == g.magnitude() * m,
        ;
        rounding::lemma_nearest_monotone(m * u, fm, u);
        rounding::lemma_nearest_monotone(fm, gm, u);
        rounding::lemma_nearest_scale(m, 1, u);
        double::lemma_double_exact(d);
        double::lemma_double_bound(d);
        assert(1 * u == u && m * u == u * m) by (nonlinear_arith);
        if d.negative() {
            assert(m == 0);
            assert(fm == 0 && gm == 0) by (nonlinear_arith)
                requires
                    m == 0,
                    fm == f.magnitude() * m,
                    gm == g.magnitude() * m,
            ;
            lemma_factor(f, d);
            lemma_factor(g, d);
        }
    }
}

/// Of two gaps of the same length, one after a sentence scores no less than one after a pause, and
/// that no less than any other.
pub proof fn lemma_sentences_are_preferred(s: Seq<char>, t: Seq<char>, gap: Double)
    requires
        !gap.is_nan(),
        gap.value() >= 0,
        pauses(s) || ends_sentence(s),
        pauses(s) ==> !ends_sentence(t) || pauses(t),
    ensures
        !double::smaller(gap_score(s, gap), gap_score(t, gap)),
{
    lemma_weights();
    double::lemma_whole(2);
    let u = double::unit();
    double::lemma_unit();
    rounding::lemma_nearest_monotone(13 * u, 20 * u, 10);
    rounding::lemma_nearest_scale(2 * u, 1, 10);
    rounding::lemma_nearest_exact(2, 1074);
    double::lemma_finite(false, 13 * u, 10);
    assert((2 * u) * 10 == 20 * u) by (nonlinear_arith);
    let f = double::fraction(13, 10);
    let g = double::whole(2);
    assert(f.magnitude() <= g.magnitude());
    lemma_larger_factor(f, g, gap);
    lemma_larger_factor(g, g, gap);
    lemma_larger_factor(f, f, gap);
}

/// Half of a rounded whole number of units is no more than the number.
proof fn lemma_half_of_rounded(x: nat)
    ensures
        rounding::nearest(rounding::nearest(x, 1), 2) <= x,
{
    let g = rounding::nearest(x, 1);
    let h = rounding::nearest(g, 2);
    rounding::lemma_nearest_error(x, 1);
    rounding::lemma_nearest_error(g, 2);
    rounding::lemma_binade_bounds(x, 1);
    rounding::lemma_binade_bounds(g, 2);
    rounding::lemma_nearest_bounds(x, 1);
    rounding::lemma_nearest_bounds(g, 2);
    power2::lemma2_to64();
    let kx = rounding::binade(x, 1);
    let kg = rounding::binade(g, 2);
    let wx = power2::pow2(kx);
    let wg = power2::pow2(kg);
    assert(2 * g * 1 == 2 * g) by (nonlinear_arith);
    assert(2 * h * 2 == 4 * h) by (nonlinear_arith);
    assert(1 * wx == wx) by (nonlinear_arith);
    if kx == 0 {
        // a number below `2^53` is exact
        rounding::lemma_nearest_exact(x, 0);
        assert(x * power2::pow2(0) == x) by (nonlinear_arith)
            requires
                power2::pow2(0) == 1,
        ;
    } else {
        assert(1 * 0x10_0000_0000_0000 * wx == 0x10_0000_0000_0000 * wx) by (nonlinear_arith);
    }
    if kg > 0 {
        assert(2 * 0x10_0000_0000_0000 * wg == 0x20_0000_0000_0000 * wg) by (nonlinear_arith);
    }
    if x == 0 {
        assert(h == 0);
    }
}

/// Half of the way from a number to a larger one is no longer than the whole.
proof fn lemma_half_way(end: Double, next: Double)
    requires
        end.finite(),
        next.finite(),
        end.value() <= next.value(),
        double::difference(next, end).finite(),
    ensures
        double::quotient(double::difference(next, end), double::whole(2)).finite(),
        0 <= double::quotient(double::difference(next, end), double::whole(2)).value()
            <= next.value() - end.value(),
{
    let gap = double::difference(next, end);
    lemma_difference(next, end);
    let x = (next.value() - end.value()) as nat;
    double::lemma_double_bound(gap);
    lemma_half_of_rounded(x);
    double::lemma_half(gap);
    if gap.negative() {
        rounding::lemma_nearest_bounds(gap.magnitude(), 2);
    }
}

/// The sum of a number and something that does not lead beyond a larger one is between the two.
proof fn lemma_sum_between(end: Double, part: Double, next: Double)
    requires
        end.finite(),
        part.finite(),
        next.finite(),
        0 <= part.value() <= next.value() - end.value(),
    ensures
        double::sum(end, part).finite(),
        end.value() <= double::sum(end, part).value() <= next.value(),
{
    let exact = end.value() + part.value();
    let m = double::sum(end, part);
    double::lemma_double_exact(next);
    double::lemma_double_exact(end);
    double::lemma_double_bound(next);
    double::lemma_double_bound(end);
    if exact > 0 {
        double::lemma_rounded(false, exact as nat, 1);
        rounding::lemma_nearest_monotone(exact as nat, next.magnitude(), 1);
        if end.value() >= 0 {
            rounding::lemma_nearest_monotone(end.magnitude(), exact as nat, 1);
        }
    } else if exact < 0 {
        double::lemma_rounded(true, (-exact) as nat, 1);
        rounding::lemma_nearest_monotone((-exact) as nat, end.magnitude(), 1);
        if next.value() < 0 {
            rounding::lemma_nearest_monotone(next.magnitude(), (-exact) as nat, 1);
        }
    } else {
        double::lemma_rounded(end.negative() && part.negative(), 0, 1);
        rounding::lemma_nearest_bounds(0, 1);
        double::lemma_unit();
    }
    double::lemma_finite_by_magnitude(m);
}

/// Later moments are no fewer nanoseconds.
proof fn lemma_nanos_keep_order(a: Double, b: Double)
    requires
        0 <= a.value() <= b.value(),
    ensures
        span::nearest_nanos(a) <= span::nearest_nanos(b),
{
    double::lemma_unit();
    rounding::lemma_half_even_monotone(
        a.magnitude() * 1_000_000_000,
        b.magnitude() * 1_000_000_000,
        double::unit(),
    );
}

/// The best gap is not negative: the one after the last caption is empty, and no better one is.
proof fn lemma_best_gap_is_one(captions: Seq<Prediction>, i: int)
    requires
        all_wf(captions),
        is_best(captions, i),
    ensures
        gap_after(captions, i).value() >= 0,
{
    let n = captions.len() - 1;
    lemma_score(captions, i);
    lemma_score(captions, n);
    assert(captions[n].wf());
    lemma_difference(captions[n].time_end, captions[n].time_end);
    assert(in_window(captions, n));
}

/// The next segment starts within the gap: not before the last caption that is kept ends, and not
/// after the first that is dropped begins.
pub proof fn lemma_cut_within_gap(captions: Seq<Prediction>, i: int)
    requires
        all_wf(captions),
        is_best(captions, i),
        gap_after(captions, i).finite(),
    ensures
        middle(captions, i).finite(),
        captions[i].time_end.value() <= middle(captions, i).value(),
        i == captions.len() - 1 ==> middle(captions, i).value() == captions[i].time_end.value(),
        i < captions.len() - 1 ==> middle(captions, i).value() <= captions[i
            + 1].time_begin.value(),
        captions[i].time_end.value() >= 0 ==> {
            &&& span::nearest_nanos(captions[i].time_end) <= span::nearest_nanos(
                middle(captions, i),
            )
            &&& i < captions.len() - 1 ==> span::nearest_nanos(middle(captions, i))
                <= span::nearest_nanos(captions[i + 1].time_begin)
        },
{
    let n = captions.len() - 1;
    let end = captions[i].time_end;
    assert(captions[i].wf());
    lemma_best_gap_is_one(captions, i);
    let next = if i == n {
        end
    } else {
        assert(captions[i + 1].wf());
        captions[i + 1].time_begin
    };
    lemma_difference(next, end);
    lemma_half_way(end, next);
    lemma_sum_between(
        end,
        double::quotient(double::difference(next, end), double::whole(2)),
        next,
    );
    if end.value() >= 0 {
        lemma_nanos_keep_order(end, middle(captions, i));
        lemma_nanos_keep_order(middle(captions, i), next);
    }
}

/// The caption to cut after is one of the last twenty, and the gap behind it has the best score of
/// those behind the last twenty, the last of them where several have. A gap is the time from the end
/// of a caption to the beginning of the next, none behind the last caption. It is counted as it is,
/// 1.3 times behind a comma or an ellipsis, and twice behind a full stop, a question mark, an
/// exclamation mark or a colon.
pub proof fn lemma_best_gap_of_twenty(captions: Seq<Prediction>, i: int, j: int)
    requires
        is_best(captions, i),
        0 <= j < captions.len() <= j + 20,
    ensures
        0 <= i < captions.len() <= i + 20,
        ({
            let n = captions.len() as int;
            let gap = |k: int|
                double::difference(
                    if k == n - 1 {
                        captions[k].time_end
                    } else {
                        captions[k + 1].time_begin
                    },
                    captions[k].time_end,
                );
            let score = |k: int|
                {
                    let t = captions[k].transcription@;
                    let l = t.len() as int;
                    if l >= 1 && t[l - 1] == ',' || l >= 3 && t[l - 1] == '.' && t[l - 2] == '.'
                        && t[l - 3] == '.' {
                        double::product(double::fraction(13, 10), gap(k))
                    } else if l >= 1 && (t[l - 1] == '.' || t[l - 1] == '?' || t[l - 1] == '!'
                        || t[l - 1] == ':') {
                        double::product(double::whole(2), gap(k))
                    } else {
                        gap(k)
                    }
                };
            &&& !double::smaller(score(i), score(j))
            &&& j > i ==> double::smaller(score(j), score(i))
        }),
{
    assert(in_window(captions, i));
    assert(in_window(captions, j));
    lemma_ending(captions[i].transcription@);
    lemma_ending(captions[j].transcription@);
}

/// How the ends of texts are told apart.
proof fn lemma_ending(t: Seq<char>)
    ensures
        pauses(t) <==> {
            let l = t.len() as int;
            l >= 1 && t[l - 1] == ',' || l >= 3 && t[l - 1] == '.' && t[l - 2] == '.' && t[l - 3]
                == '.'
        },
{
    let l = t.len() as int;
    if l >= 1 {
        assert(t.skip(l - 1)[0] == t[l - 1]);
        if t[l - 1] == ',' {
            assert(t.skip(l - 1) == seq![',']);
        }
    }
    if l >= 3 {
        let e = t.skip(l - 3);
        assert(e[0] == t[l - 3] && e[1] == t[l - 2] && e[2] == t[l - 1]);
        if t[l - 1] == '.' && t[l - 2] == '.' && t[l - 3] == '.' {
            assert(e == seq!['.', '.', '.']);
        }
    }
}

/// The score of a gap: behind the end of a sentence it is exactly twice the gap, behind a comma or
/// an ellipsis 1.3 times the gap up to rounding, and otherwise the gap itself.
pub proof fn lemma_score_of_gap(t: Seq<char>, gap: Double)
    requires
        gap.finite(),
        4 * gap.magnitude() < double::infinite_magnitude(),
    ensures
        gap_score(t, gap).finite(),
        gap.value() >= 0 ==> gap_score(t, gap).value() >= 0,
        ({
            let l = t.len() as int;
            let s = gap_score(t, gap).value();
            let g = gap.value();
            let pause = l >= 1 && t[l - 1] == ',' || l >= 3 && t[l - 1] == '.' && t[l - 2] == '.'
                && t[l - 3] == '.';
            let stop = l >= 1 && (t[l - 1] == '.' || t[l - 1] == '?' || t[l - 1] == '!' || t[l - 1]
                == ':');
            &&& !pause && stop ==> s == 2 * g
            &&& !pause && !stop ==> s == g
            &&& pause && g >= 0 ==> 10 * s * 0x8_0000_0000_0000 <= 13 * g * 0x8_0000_0000_0001 + 10
                * 0x8_0000_0000_0000
            &&& pause && g >= 0 ==> 13 * g * 0x7_ffff_ffff_ffff <= 10 * s * 0x8_0000_0000_0000 + 10
                * 0x8_0000_0000_0000
        }),
{
    let u = double::unit();
    double::lemma_unit();
    lemma_ending(t);
    lemma_weights();
    let m = gap.magnitude();
    let inf = double::infinite_magnitude();
    // twice a double is a double
    double::lemma_whole(2);
    assert((2 * u) * m == (2 * m) * u) by (nonlinear_arith);
    rounding::lemma_nearest_scale(2 * m, 1, u);
    assert(1 * u == u) by (nonlinear_arith);
    lemma_twice_is_exact(gap);
    double::lemma_rounded(gap.negative(), (2 * u) * m, u);
    double::lemma_finite_by_magnitude(double::product(double::whole(2), gap));
    // 1.3 times
    let f = double::fraction(13, 10);
    double::lemma_finite(false, 13 * u, 10);
    rounding::lemma_nearest_is_close(13 * u, 10);
    let fm = f.magnitude();
    let c: nat = 0x20_0000_0000_0000;
    assert(fm * 10 * c <= 13 * u * (c + 1) && 13 * u * (c - 1) <= fm * 10 * c);
    let p = fm * m;
    double::lemma_rounded(gap.negative(), p, u);
    rounding::lemma_nearest_is_close(p, u);
    rounding::lemma_nearest_bounds(p, u);
    let n = rounding::nearest(p, u);
    assert(fm <= 2 * u);
    assert(2 * p < u * inf) by (nonlinear_arith)
        requires
            p == fm * m,
            fm <= 2 * u,
            4 * m < inf,
            u > 0,
    ;
    double::lemma_finite(gap.negative(), p, u);
    assert(10 * p * c <= 13 * (m * u) * (c + 1)) by (nonlinear_arith)
        requires
            p == fm * m,
            fm * 10 * c <= 13 * u * (c + 1),
    ;
    assert(13 * (m * u) * (c - 1) <= 10 * p * c) by (nonlinear_arith)
        requires
            p == fm * m,
            13 * u * (c - 1) <= fm * 10 * c,
    ;
    lemma_two_roundings(n, m, p, u);
    lemma_factor(f, gap);
    lemma_factor(double::whole(2), gap);
}

proof fn lemma_twice_is_exact(d: Double)
    ensures
        rounding::nearest(2 * d.magnitude(), 1) == 2 * d.magnitude(),
{
    let (m, e) = (d.significand(), d.exponent());
    rounding::lemma_nearest_exact(m, e + 1);
    power2::lemma_pow2_unfold(e + 1);
    let w = power2::pow2(e);
    assert(m * (2 * w) == 2 * (m * w)) by (nonlinear_arith);
}

/// What is off by two roundings, in units.
proof fn lemma_two_roundings(n: nat, m: nat, p: nat, u: nat)
    requires
        u > 0,
        ({
            let c: nat = 0x20_0000_0000_0000;
            &&& 10 * p * c <= 13 * (m * u) * (c + 1)
            &&& 13 * (m * u) * (c - 1) <= 10 * p * c
            &&& n * u * c <= p * (c + 1) + u * 0x10_0000_0000_0000
            &&& p * (c - 1) <= n * u * c + u * 0x10_0000_0000_0000
        }),
    ensures
        10 * n * 0x8_0000_0000_0000 <= 13 * m * 0x8_0000_0000_0001 + 10 * 0x8_0000_0000_0000,
        13 * m * 0x7_ffff_ffff_ffff <= 10 * n * 0x8_0000_0000_0000 + 10 * 0x8_0000_0000_0000,
{
    let c = 0x20_0000_0000_0000int;
    let h = 0x10_0000_0000_0000int;
    let e = 0x8_0000_0000_0000int;
    let (nu, mu) = ((n * u) as int, (m * u) as int);
    let (l, k) = (c - 1, c + 1);
    // in multiples of the unit: 10 n c^2 <= 13 m (c+1)^2 + 10 h c
    assert(10 * nu * (c * c) <= 13 * mu * (k * k) + 10 * u * (h * c)) by (nonlinear_arith)
        requires
            nu * c <= p * k + u * h,
            10 * p * c <= 13 * mu * k,
            c > 0,
            k > 0,
    ;
    assert(13 * mu * (l * l) <= 10 * nu * (c * c) + 10 * u * (h * c)) by (nonlinear_arith)
        requires
            p * l <= nu * c + u * h,
            13 * mu * l <= 10 * p * c,
            c > 0,
            l > 0,
    ;
    assert(10 * n * (c * c) <= 13 * m * (k * k) + 10 * (h * c)) by (nonlinear_arith)
        requires
            10 * nu * (c * c) <= 13 * mu * (k * k) + 10 * u * (h * c),
            nu == n * u,
            mu == m * u,
            u > 0,
    ;
    assert(13 * m * (l * l) <= 10 * n * (c * c) + 10 * (h * c)) by (nonlinear_arith)
        requires
            13 * mu * (l * l) <= 10 * nu * (c * c) + 10 * u * (h * c),
            nu == n * u,
            mu == m * u,
            u > 0,
    ;
    let (c2, k2, l2) = (c * c, k * k, l * l);
    assert(k2 * e <= c2 * (e + 1));
    assert(c2 * (e - 1) <= l2 * e);
    assert(h * c * 2 == c2);
    assert(10 * n * e <= 13 * m * (e + 1) + 10 * e) by (nonlinear_arith)
        requires
            10 * n * c2 <= 13 * m * k2 + 10 * (h * c),
            k2 * e <= c2 * (e + 1),
            h * c * 2 == c2,
            c2 > 0,
            e > 0,
            m >= 0,
    ;
    assert(13 * m * (e - 1) <= 10 * n * e + 10 * e) by (nonlinear_arith)
        requires
            13 * m * l2 <= 10 * n * c2 + 10 * (h * c),
            c2 * (e - 1) <= l2 * e,
            h * c * 2 == c2,
            c2 > 0,
            e > 0,
            m >= 0,
    ;
}

/// Of two gaps behind the same kind of ending the longer one never scores less.
pub proof fn lemma_longer_gaps_score_more(t: Seq<char>, a: Double, b: Double)
    requires
        a.finite(),
        b.finite(),
        0 <= a.value() <= b.value(),
    ensures
        !double::smaller(gap_score(t, b), gap_score(t, a)),
{
    let u = double::unit();
    double::lemma_unit();
    lemma_weights();
    let (f, g) = (double::fraction(13, 10), double::whole(2));
    lemma_longer_product(f, a, b);
    lemma_longer_product(g, a, b);
}

proof fn lemma_longer_product(f: Double, a: Double, b: Double)
    requires
        f.finite(),
        !f.negative(),
        f.magnitude() >= double::unit(),
        a.finite(),
        b.finite(),
        0 <= a.value() <= b.value(),
    ensures
        !double::smaller(double::product(f, b), double::product(f, a)),
{
    let u = double::unit();
    double::lemma_unit();
    let (x, y) = (f.magnitude() * a.magnitude(), f.magnitude() * b.magnitude());
    assert(x <= y) by (nonlinear_arith)
        requires
            x == f.magnitude() * a.magnitude(),
            y == f.magnitude() * b.magnitude(),
            a.magnitude() <= b.magnitude(),
    ;
    double::lemma_rounded(a.negative(), x, u);
    double::lemma_rounded(b.negative(), y, u);
    rounding::lemma_nearest_monotone(x, y, u);
    lemma_factor(f, a);
    lemma_factor(f, b);
}

/// The next segment starts in the middle of the gap: as far behind the caption that is kept as
/// before the one that is dropped, up to rounding.
pub proof fn lemma_cut_in_the_middle(captions: Seq<Prediction>, i: int)
    requires
        all_wf(captions),
        is_best(captions, i),
        gap_after(captions, i).finite(),
        i < captions.len() - 1,
    ensures
        ({
            let end = captions[i].time_end;
            let next = captions[i + 1].time_begin;
            let off = 2 * middle(captions, i).value() - (end.value() + next.value());
            let size = end.magnitude() + next.magnitude();
            -(size + 0x20_0000_0000_0000) <= off * 0x4_0000_0000_0000 <= size
                + 0x20_0000_0000_0000
        }),
{
    let end = captions[i].time_end;
    let next = captions[i + 1].time_begin;
    assert(captions[i].wf());
    assert(captions[i + 1].wf());
    lemma_best_gap_is_one(captions, i);
    lemma_difference(next, end);
    lemma_half_way(end, next);
    let gap = double::difference(next, end);
    let half = double::quotient(gap, double::whole(2));
    lemma_sum_between(end, half, next);
    let g = (next.value() - end.value()) as nat;
    double::lemma_double_bound(gap);
    double::lemma_half(gap);
    let (gm, hm) = (gap.magnitude(), half.magnitude());
    rounding::lemma_nearest_is_close(g, 1);
    rounding::lemma_nearest_is_close(gm, 2);
    double::lemma_sum_is_nearest(end, half);
    let c: nat = 0x20_0000_0000_0000;
    assert(gm * 1 * c == gm * c) by (nonlinear_arith);
    if gap.negative() {
        rounding::lemma_nearest_bounds(gm, 2);
        assert(gm == 0);
    }
    assert(half.value() == hm);
}

/// A cut is found wherever the caption that is kept ends within a recording and the next begins
/// before time runs out.
pub proof fn lemma_cut_is_found(captions: Seq<Prediction>, i: int, start: Span)
    requires
        all_wf(captions),
        is_best(captions, i),
        captions[i].time_end.value() >= 0,
        ({
            let next = if i == captions.len() - 1 {
                captions[i].time_end
            } else {
                captions[i + 1].time_begin
            };
            start.secs * double::unit() + next.value() < 0xffff_ffff_ffff_fffe * double::unit()
        }),
        start.wf(),
    ensures
        cut_total(captions, i, start) is Some,
{
    let u = double::unit();
    double::lemma_unit();
    let end = captions[i].time_end;
    assert(captions[i].wf());
    let n = captions.len() - 1;
    let next = if i == n {
        end
    } else {
        assert(captions[i + 1].wf());
        captions[i + 1].time_begin
    };
    lemma_best_gap_is_one(captions, i);
    lemma_difference(next, end);
    let gap = gap_after(captions, i);
    let g = (next.value() - end.value()) as nat;
    double::lemma_double_exact(next);
    double::lemma_double_bound(next);
    rounding::lemma_nearest_monotone(g, next.magnitude(), 1);
    assert(gap.magnitude() <= next.magnitude());
    double::lemma_finite_by_magnitude(gap);
    lemma_cut_within_gap(captions, i);
    let m = middle(captions, i);
    assert(0 <= m.value() <= next.value());
    let scaled = next.magnitude() * 1_000_000_000;
    lemma_nanos_keep_order(m, next);
    lemma_nanos_keep_order(gap, next);
    // the whole of it in nanoseconds
    assert(start.secs < 0xffff_ffff_ffff_fffe) by (nonlinear_arith)
        requires
            start.secs * u + next.magnitude() < 0xffff_ffff_ffff_fffe * u,
            u > 0,
            next.magnitude() >= 0,
    ;
    let most = (0xffff_ffff_ffff_fffe - start.secs) as nat;
    assert(next.magnitude() <= most * u) by (nonlinear_arith)
        requires
            start.secs * u + next.magnitude() < 0xffff_ffff_ffff_fffe * u,
            most == 0xffff_ffff_ffff_fffe - start.secs,
    ;
    assert(scaled <= (most * 1_000_000_000) * u) by (nonlinear_arith)
        requires
            scaled == next.magnitude() * 1_000_000_000,
            next.magnitude() <= most * u,
    ;
    rounding::lemma_half_even_bound(scaled, u, most * 1_000_000_000);
}

} // verus!
