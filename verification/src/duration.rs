//! Durations as ISO 8601 writes them, such as `PT1H30M`.
//!
//! A month counts as 30 days and a year as 365. Fractions are rounded to whole units, except that
//! those of a month or a year are rounded to whole days.

use crate::double;
use crate::double::Double;
use crate::number;
use crate::rounding;
use crate::text;
use vstd::arithmetic::div_mod;
use vstd::prelude::*;

verus! {

/// Why a text is not a duration.
#[derive(Debug)]
pub enum DurationError {
    /// It does not start with `P`.
    MissingPrefix,
    /// It ends with a number that has no unit.
    MissingUnit,
    /// There is no number before a unit. The text that follows the unit is shown, as far as the
    /// bad number was long.
    BadNumber(String),
    /// A unit behind the `T` is unknown.
    BadTimeUnit(char),
    /// A unit before the `T` is unknown.
    BadDateUnit(char),
}

/// [`DurationError`] over mathematical text.
pub enum DurationErrorView {
    MissingPrefix,
    MissingUnit,
    BadNumber(Seq<char>),
    BadTimeUnit(char),
    BadDateUnit(char),
}

impl View for DurationError {
    type V = DurationErrorView;

    open spec fn view(&self) -> DurationErrorView {
        match *self {
            DurationError::MissingPrefix => DurationErrorView::MissingPrefix,
            DurationError::MissingUnit => DurationErrorView::MissingUnit,
            DurationError::BadNumber(shown) => DurationErrorView::BadNumber(shown@),
            DurationError::BadTimeUnit(c) => DurationErrorView::BadTimeUnit(c),
            DurationError::BadDateUnit(c) => DurationErrorView::BadDateUnit(c),
        }
    }
}

/// The longest duration, in seconds.
pub const LONGEST: i64 = 9_223_372_036_854_775;

/// A number of seconds, where it is one of a duration.
pub open spec fn in_range(seconds: int) -> Option<i64> {
    if -LONGEST <= seconds <= LONGEST {
        Some(seconds as i64)
    } else {
        None
    }
}

pub open spec fn in_number(c: char) -> bool {
    number::is_digit(c) || c == '.' || c == ','
}

/// How many characters of a number a text starts with.
pub open spec fn number_length(s: Seq<char>) -> nat
    decreases s.len(),
{
    if s.len() > 0 && in_number(s[0]) {
        1 + number_length(s.skip(1))
    } else {
        0
    }
}

/// The nearest whole number, halves going up, at most `i64::MAX`.
pub open spec fn whole_units(n: Double) -> int {
    let r = rounding::half_up(n.magnitude(), double::unit()) as int;
    if r <= i64::MAX {
        r
    } else {
        i64::MAX as int
    }
}

/// The seconds of `n` of a unit, or that the unit is unknown.
pub open spec fn unit_seconds(unit: char, saw_t: bool, n: Double) -> Result<int, DurationErrorView> {
    if unit == 'H' {
        Ok(whole_units(n) * 3600)
    } else if unit == 'M' && saw_t {
        Ok(whole_units(n) * 60)
    } else if unit == 'M' {
        Ok(whole_units(double::product(double::whole(30), n)) * 86_400)
    } else if unit == 'S' {
        Ok(whole_units(n))
    } else if unit == 'D' {
        Ok(whole_units(n) * 86_400)
    } else if unit == 'W' {
        Ok(whole_units(n) * 604_800)
    } else if unit == 'Y' {
        Ok(whole_units(double::product(double::whole(365), n)) * 86_400)
    } else if saw_t {
        Err(DurationErrorView::BadTimeUnit(unit))
    } else {
        Err(DurationErrorView::BadDateUnit(unit))
    }
}

/// What the rest of a duration stands for, on top of the seconds read so far: its seconds, or an
/// error; `None` where the seconds are too many, or where the text that would show a bad number
/// does not end with a character.
pub open spec fn reading(rest: Seq<char>, saw_t: bool, so_far: int) -> Option<
    Result<int, DurationErrorView>,
>
    decreases rest.len(),
{
    proof {
        lemma_number_length(rest);
    }
    let n = number_length(rest) as int;
    if rest.len() == 0 {
        Some(Ok(so_far))
    } else if n == rest.len() {
        Some(Err(DurationErrorView::MissingUnit))
    } else {
        let unit = rest[n];
        let after = rest.skip(n + 1);
        if unit == 'T' {
            reading(after, true, so_far)
        } else {
            match number::parsed(rest.take(n)) {
                None => match text::first_bytes(after, n as nat) {
                    Some(shown) => Some(Err(DurationErrorView::BadNumber(shown))),
                    None => None,
                },
                Some(number) => match unit_seconds(unit, saw_t, number) {
                    Err(e) => Some(Err(e)),
                    Ok(seconds) => if so_far + seconds <= LONGEST {
                        reading(after, saw_t, so_far + seconds)
                    } else {
                        None
                    },
                },
            }
        }
    }
}

/// What a text stands for as a duration; `None` as in [`reading`].
pub open spec fn duration_of(s: Seq<char>) -> Option<Result<int, DurationErrorView>> {
    if s.len() > 0 && s[0] == 'P' {
        reading(s.skip(1), false, 0)
    } else {
        Some(Err(DurationErrorView::MissingPrefix))
    }
}

/// `TimeDelta::try_weeks` of chrono: the duration of that many weeks, in seconds, where it is in
/// range.
#[verifier::external_body]
fn weeks(n: i64) -> (r: Option<i64>)
    ensures
        r == in_range(n * 604_800),
{
    match chrono::TimeDelta::try_weeks(n) {
        Some(d) => Some(d.num_seconds()),
        None => None,
    }
}

/// `TimeDelta::try_days` of chrono: the duration of that many days, in seconds, where it is in
/// range.
#[verifier::external_body]
fn days(n: i64) -> (r: Option<i64>)
    ensures
        r == in_range(n * 86_400),
{
    match chrono::TimeDelta::try_days(n) {
        Some(d) => Some(d.num_seconds()),
        None => None,
    }
}

/// `TimeDelta::try_hours` of chrono: the duration of that many hours, in seconds, where it is in
/// range.
#[verifier::external_body]
fn hours(n: i64) -> (r: Option<i64>)
    ensures
        r == in_range(n * 3600),
{
    match chrono::TimeDelta::try_hours(n) {
        Some(d) => Some(d.num_seconds()),
        None => None,
    }
}

/// `TimeDelta::try_minutes` of chrono: the duration of that many minutes, in seconds, where it is
/// in range.
#[verifier::external_body]
fn minutes(n: i64) -> (r: Option<i64>)
    ensures
        r == in_range(n * 60),
{
    match chrono::TimeDelta::try_minutes(n) {
        Some(d) => Some(d.num_seconds()),
        None => None,
    }
}

/// `TimeDelta::try_seconds` of chrono: the duration of that many seconds, where it is in range.
#[verifier::external_body]
fn seconds(n: i64) -> (r: Option<i64>)
    ensures
        r == in_range(n as int),
{
    match chrono::TimeDelta::try_seconds(n) {
        Some(d) => Some(d.num_seconds()),
        None => None,
    }
}

/// `TimeDelta::checked_add` of chrono, on durations of whole seconds: their sum, where it is in
/// range. Numbers of seconds that are in range themselves are turned into durations without loss.
#[verifier::external_body]
fn add_durations(a: i64, b: i64) -> (r: Option<i64>)
    requires
        in_range(a as int) is Some,
        in_range(b as int) is Some,
    ensures
        r == in_range(a + b),
{
    match chrono::TimeDelta::seconds(a).checked_add(&chrono::TimeDelta::seconds(b)) {
        Some(d) => Some(d.num_seconds()),
        None => None,
    }
}

pub proof fn lemma_number_length(s: Seq<char>)
    ensures
        number_length(s) <= s.len(),
        forall|i: int| 0 <= i < number_length(s) ==> in_number(#[trigger] s[i]),
    decreases s.len(),
{
    if s.len() > 0 && in_number(s[0]) {
        lemma_number_length(s.skip(1));
        assert forall|i: int| 0 <= i < number_length(s) implies in_number(#[trigger] s[i]) by {
            if i > 0 {
                assert(s.skip(1)[i - 1] == s[i]);
            }
        }
    }
}

fn number_run(chars: &Vec<char>, from: usize) -> (r: usize)
    requires
        from <= chars@.len(),
    ensures
        r == number_length(chars@.skip(from as int)),
        from + r <= chars@.len(),
{
    let mut i: usize = from;
    while i < chars.len() && (('0' <= chars[i] && chars[i] <= '9') || chars[i] == '.' || chars[i]
        == ',')
        invariant
            from <= i <= chars@.len(),
            i - from + number_length(chars@.skip(i as int)) == number_length(
                chars@.skip(from as int),
            ),
        decreases chars@.len() - i,
    {
        assert(chars@.skip(i as int).skip(1) == chars@.skip(i + 1));
        i = i + 1;
    }
    i - from
}

/// A number that starts with a digit or a point is neither negative nor a NaN.
proof fn lemma_number_is_plain(s: Seq<char>)
    requires
        number::parsed(s) is Some,
        forall|i: int| 0 <= i < s.len() ==> in_number(#[trigger] s[i]),
    ensures
        !(number::parsed(s)->0).is_nan(),
        !(number::parsed(s)->0).negative(),
{
    if s.len() > 0 {
        assert(in_number(s[0]));
    }
    reveal_strlit("inf");
    reveal_strlit("infinity");
    reveal_strlit("nan");
    let low = s.map_values(|c: char| number::lower(c));
    if low.len() > 0 {
        assert(low[0] == s[0]);
    }
    match number::scientific(s) {
        Some((m, e)) => {
            number::lemma_decimal_double(false, m, e);
        },
        None => {},
    }
}

fn round_units(n: Double) -> (r: i64)
    requires
        !n.is_nan(),
    ensures
        r == whole_units(n),
        r >= 0,
{
    let r: u64 = n.round_half_up();
    if r <= 0x7fff_ffff_ffff_ffff {
        r as i64
    } else {
        0x7fff_ffff_ffff_ffff
    }
}

/// [`unit_seconds`] where it is in range, or that it is not.
fn seconds_of(unit: char, saw_t: bool, n: Double) -> (r: Result<Option<i64>, DurationError>)
    requires
        !n.is_nan(),
        !n.negative(),
    ensures
        match (r, unit_seconds(unit, saw_t, n)) {
            (Ok(got), Ok(want)) => got == in_range(want) && want >= 0,
            (Err(got), Err(want)) => got@ == want,
            _ => false,
        },
{
    match unit {
        'H' => Ok(hours(round_units(n))),
        'M' if saw_t => Ok(minutes(round_units(n))),
        'M' => {
            let factor = Double::from_u64(30);
            let scaled = factor.times(n);
            proof {
                double::lemma_small_factor(30, n);
            }
            Ok(days(round_units(scaled)))
        },
        'S' => Ok(seconds(round_units(n))),
        'D' => Ok(days(round_units(n))),
        'W' => Ok(weeks(round_units(n))),
        'Y' => {
            let factor = Double::from_u64(365);
            let scaled = factor.times(n);
            proof {
                double::lemma_small_factor(365, n);
            }
            Ok(days(round_units(scaled)))
        },
        c => if saw_t {
            Err(DurationError::BadTimeUnit(c))
        } else {
            Err(DurationError::BadDateUnit(c))
        },
    }
}

/// Reads a duration, in seconds; `None` where the seconds are too many, or where the text that
/// would show a bad number does not end with a character.
pub fn read_duration(source: &str) -> (r: Option<Result<i64, DurationError>>)
    ensures
        match (r, duration_of(source@)) {
            (Some(Ok(got)), Some(Ok(want))) => got == want && got >= 0,
            (Some(Err(got)), Some(Err(want))) => got@ == want,
            (None, None) => true,
            _ => false,
        },
{
    let chars = text::chars_of(source);
    if chars.len() == 0 || chars[0] != 'P' {
        return Some(Err(DurationError::MissingPrefix));
    }
    let mut i: usize = 1;
    let mut saw_t: bool = false;
    let mut total: i64 = 0;
    let ghost goal = duration_of(source@);
    while i < chars.len()
        invariant
            1 <= i <= chars@.len(),
            0 <= total <= LONGEST,
            goal == duration_of(source@),
            reading(chars@.skip(i as int), saw_t, total as int) == goal,
        decreases chars@.len() - i,
    {
        let ghost rest = chars@.skip(i as int);
        let n: usize = number_run(&chars, i);
        proof {
            lemma_number_length(rest);
        }
        if i + n == chars.len() {
            return Some(Err(DurationError::MissingUnit));
        }
        let unit: char = chars[i + n];
        let ghost after = rest.skip(n + 1);
        assert(rest[n as int] == unit);
        assert(after == chars@.skip(i + n + 1));
        if unit == 'T' {
            saw_t = true;
            i = i + n + 1;
            continue;
        }
        let value = text::text_of(&chars, i, i + n);
        assert(value@ == rest.take(n as int));
        let number = match number::parse_double(value.as_str()) {
            Some(number) => number,
            None => {
                return match text::byte_prefix(&chars, i + n + 1, n) {
                    Some(shown) => Some(Err(DurationError::BadNumber(shown))),
                    None => None,
                };
            },
        };
        proof {
            lemma_number_is_plain(value@);
        }
        match seconds_of(unit, saw_t, number) {
            Err(e) => {
                return Some(Err(e));
            },
            Ok(None) => {
                return None;
            },
            Ok(Some(s)) => match add_durations(total, s) {
                Some(sum) => {
                    total = sum;
                },
                None => {
                    return None;
                },
            },
        }
        i = i + n + 1;
    }
    Some(Ok(total))
}

/// Reads a duration, in seconds.
pub fn iso8601dur(source: &str) -> (r: Result<i64, DurationError>)
    requires
        duration_of(source@) is Some,
    ensures
        match (r, duration_of(source@)->0) {
            (Ok(got), Ok(want)) => got == want && got >= 0,
            (Err(got), Err(want)) => got@ == want,
            _ => false,
        },
{
    read_duration(source).unwrap()
}

/// A number that ends within a text ends at the same place where more text follows.
proof fn lemma_number_ends(s: Seq<char>, more: Seq<char>)
    requires
        number_length(s) < s.len(),
    ensures
        number_length(s + more) == number_length(s),
    decreases s.len(),
{
    assert((s + more)[0] == s[0]);
    if in_number(s[0]) {
        assert((s + more).skip(1) == s.skip(1) + more);
        lemma_number_ends(s.skip(1), more);
    }
}

/// Whether the units behind a text are those of a time.
pub open spec fn in_time(s: Seq<char>, saw_t: bool) -> bool {
    saw_t || s.contains('T')
}

/// The parts of a duration add up: what follows a part that can be read is read on top of it.
pub proof fn lemma_parts_add_up(s: Seq<char>, more: Seq<char>, saw_t: bool, so_far: int)
    requires
        reading(s, saw_t, so_far) matches Some(Ok(_)),
    ensures
        reading(s + more, saw_t, so_far) == reading(
            more,
            in_time(s, saw_t),
            reading(s, saw_t, so_far)->0->Ok_0,
        ),
    decreases s.len(),
{
    if s.len() == 0 {
        assert(s + more == more);
    } else {
        lemma_number_length(s);
        lemma_number_ends(s, more);
        let n = number_length(s) as int;
        let after = s.skip(n + 1);
        assert((s + more)[n] == s[n]);
        assert((s + more).skip(n + 1) == after + more);
        assert((s + more).take(n) == s.take(n));
        if s[n] == 'T' {
            lemma_parts_add_up(after, more, true, so_far);
        } else {
            let number = number::parsed(s.take(n))->0;
            let seconds = unit_seconds(s[n], saw_t, number)->Ok_0;
            lemma_parts_add_up(after, more, saw_t, so_far + seconds);
            // no `T` is passed over
            assert(s.contains('T') == after.contains('T')) by {
                if s.contains('T') {
                    let k = choose|k: int| 0 <= k < s.len() && s[k] == 'T';
                    assert(k > n);
                    assert(after[k - n - 1] == 'T');
                }
                if after.contains('T') {
                    let k = choose|k: int| 0 <= k < after.len() && after[k] == 'T';
                    assert(s[k + n + 1] == 'T');
                }
            }
        }
    }
}

/// Reading on never makes a duration shorter, nor longer than the longest.
pub proof fn lemma_reading_grows(s: Seq<char>, saw_t: bool, so_far: int)
    requires
        reading(s, saw_t, so_far) matches Some(Ok(_)),
        so_far <= LONGEST,
    ensures
        so_far <= reading(s, saw_t, so_far)->0->Ok_0 <= LONGEST,
    decreases s.len(),
{
    if s.len() > 0 {
        lemma_number_length(s);
        let n = number_length(s) as int;
        let after = s.skip(n + 1);
        if s[n] == 'T' {
            lemma_reading_grows(after, true, so_far);
        } else {
            let number = number::parsed(s.take(n))->0;
            let seconds = unit_seconds(s[n], saw_t, number)->Ok_0;
            lemma_reading_grows(after, saw_t, so_far + seconds);
        }
    }
}

/// A whole number of up to 53 bits is counted as it is.
proof fn lemma_whole_is_counted(n: nat)
    requires
        n < 0x20_0000_0000_0000,
    ensures
        whole_units(double::whole(n)) == n,
{
    let u = double::unit();
    double::lemma_unit();
    double::lemma_whole(n);
    rounding::lemma_half_up_is_nearest(n * u, u);
    let r = rounding::half_up(n * u, u);
    assert(r == n) by (nonlinear_arith)
        requires
            2 * (r * u) <= 2 * (n * u) + u,
            2 * (n * u) < 2 * (r * u) + u,
            u > 0,
    ;
}

/// Whole numbers multiply as they are, as long as the product has up to 53 bits.
proof fn lemma_whole_product(a: nat, b: nat)
    requires
        0 < a < 0x20_0000_0000_0000,
        b < 0x20_0000_0000_0000,
        a * b < 0x20_0000_0000_0000,
    ensures
        double::product(double::whole(a), double::whole(b)) == double::whole(a * b),
{
    let u = double::unit();
    double::lemma_unit();
    double::lemma_whole(a);
    double::lemma_whole(b);
    double::lemma_whole(a * b);
    let n = a * b;
    assert((a * u) * (b * u) == (n * u) * u) by (nonlinear_arith)
        requires
            n == a * b,
    ;
    rounding::lemma_nearest_scale(n * u, 1, u);
    assert(1 * u == u) by (nonlinear_arith);
    double::lemma_rounded(false, (n * u) * u, u);
    double::lemma_rounded(false, n * u, 1);
    double::lemma_unique(
        double::product(double::whole(a), double::whole(b)),
        double::whole(n),
    );
}

/// The run of a number ends before its unit.
proof fn lemma_number_then_unit(digits: Seq<char>, unit: char, more: Seq<char>)
    requires
        forall|i: int| 0 <= i < digits.len() ==> in_number(#[trigger] digits[i]),
        !in_number(unit),
    ensures
        number_length(digits.push(unit) + more) == digits.len(),
    decreases digits.len(),
{
    let s = digits.push(unit) + more;
    if digits.len() == 0 {
        assert(s[0] == unit);
    } else {
        assert(s[0] == digits[0]);
        assert(s.skip(1) == digits.skip(1).push(unit) + more);
        assert forall|i: int| 0 <= i < digits.skip(1).len() implies in_number(
            #[trigger] digits.skip(1)[i],
        ) by {
            assert(digits.skip(1)[i] == digits[i + 1]);
        }
        lemma_number_then_unit(digits.skip(1), unit, more);
    }
}

/// A whole number of a unit adds exactly that many of it, whatever follows: a week has 604800
/// seconds, a day 86400, an hour 3600, a minute 60; a month counts as 30 days and a year as 365. An
/// `M` is a minute behind the `T` and a month before it.
pub proof fn lemma_part_adds(n: nat, unit: char, more: Seq<char>, saw_t: bool, so_far: int)
    requires
        unit == 'H' || unit == 'M' || unit == 'S' || unit == 'D' || unit == 'W' || unit == 'Y',
        n * 365 < 0x20_0000_0000_0000,
    ensures
        ({
            let each = if unit == 'S' {
                1int
            } else if unit == 'M' && saw_t {
                60
            } else if unit == 'H' {
                3600
            } else if unit == 'D' {
                86_400
            } else if unit == 'W' {
                604_800
            } else if unit == 'M' {
                2_592_000
            } else {
                31_536_000
            };
            reading(text::decimal(n).push(unit) + more, saw_t, so_far) == if so_far + n * each
                <= 9_223_372_036_854_775 {
                reading(more, saw_t, so_far + n * each)
            } else {
                None
            }
        }),
{
    let digits = text::decimal(n);
    number::lemma_decimal_reads_back(n);
    number::lemma_decimal_is_read(n);
    assert forall|i: int| 0 <= i < digits.len() implies in_number(#[trigger] digits[i]) by {
        assert(number::is_digit(digits[i]));
    }
    lemma_number_then_unit(digits, unit, more);
    let s = digits.push(unit) + more;
    let k = digits.len() as int;
    assert(s.take(k) == digits);
    assert(s[k] == unit);
    assert(s.skip(k + 1) == more);
    lemma_whole_is_counted(n);
    lemma_whole_is_counted(30 * n);
    lemma_whole_is_counted(365 * n);
    lemma_whole_product(30, n);
    lemma_whole_product(365, n);
    let w = double::whole(n);
    if unit == 'M' && !saw_t {
        assert(unit_seconds(unit, saw_t, w) == Ok::<int, DurationErrorView>(30int * n * 86_400));
    } else if unit == 'Y' {
        assert(unit_seconds(unit, saw_t, w) == Ok::<int, DurationErrorView>(365int * n * 86_400));
    }
    assert(number::parsed(s.take(k)) == Some(w));
}

/// A `T` adds nothing; what follows is a time.
pub proof fn lemma_t_adds_nothing(more: Seq<char>, saw_t: bool, so_far: int)
    ensures
        reading(seq!['T'] + more, saw_t, so_far) == reading(more, true, so_far),
{
    let s = seq!['T'] + more;
    assert(s[0] == 'T');
    assert(s.skip(1) == more);
}

/// Hours, minutes and seconds are read as what they are together.
pub proof fn lemma_hours_minutes_seconds(h: nat, m: nat, s: nat)
    requires
        h < 0x10_0000_0000,
        m < 0x100_0000_0000,
        s < 0x1000_0000_0000,
    ensures
        duration_of(
            "PT"@ + text::decimal(h) + "H"@ + text::decimal(m) + "M"@ + text::decimal(s) + "S"@,
        ) == Some(Ok::<int, DurationErrorView>(3600int * h + 60 * m + s)),
{
    reveal_strlit("PT");
    reveal_strlit("H");
    reveal_strlit("M");
    reveal_strlit("S");
    let text = "PT"@ + text::decimal(h) + "H"@ + text::decimal(m) + "M"@ + text::decimal(s) + "S"@;
    let third = text::decimal(s).push('S') + Seq::<char>::empty();
    let second = text::decimal(m).push('M') + third;
    let first = text::decimal(h).push('H') + second;
    assert(text.skip(1) == seq!['T'] + first);
    assert(text[0] == 'P');
    lemma_t_adds_nothing(first, false, 0);
    lemma_part_adds(h, 'H', second, true, 0);
    lemma_part_adds(m, 'M', third, true, 3600int * h);
    lemma_part_adds(s, 'S', Seq::empty(), true, 3600int * h + 60 * m);
}

/// Parts of a duration, written one behind the other.
pub open spec fn written(parts: Seq<(nat, char)>) -> Seq<char>
    decreases parts.len(),
{
    if parts.len() == 0 {
        Seq::empty()
    } else {
        text::decimal(parts[0].0).push(parts[0].1) + written(parts.skip(1))
    }
}

/// How many seconds parts have, each counted by its unit.
pub open spec fn lasting(parts: Seq<(nat, char)>, minute: int) -> int
    decreases parts.len(),
{
    if parts.len() == 0 {
        0
    } else {
        let (n, unit) = parts[0];
        n * (if unit == 'S' {
            1int
        } else if unit == 'M' {
            minute
        } else if unit == 'H' {
            3600
        } else if unit == 'D' {
            86_400
        } else if unit == 'W' {
            604_800
        } else {
            31_536_000
        }) + lasting(parts.skip(1), minute)
    }
}

/// Whether parts have known units and numbers that are exact.
pub open spec fn plain(parts: Seq<(nat, char)>) -> bool {
    forall|i: int|
        0 <= i < parts.len() ==> (#[trigger] parts[i]).0 < 0x1000_0000_0000 && (parts[i].1 == 'H'
            || parts[i].1 == 'M' || parts[i].1 == 'S' || parts[i].1 == 'D' || parts[i].1 == 'W'
            || parts[i].1 == 'Y')
}

proof fn lemma_parts_are_read(
    parts: Seq<(nat, char)>,
    more: Seq<char>,
    saw_t: bool,
    so_far: int,
    minute: int,
)
    requires
        plain(parts),
        minute == if saw_t {
            60int
        } else {
            2_592_000
        },
        so_far + lasting(parts, minute) <= 9_223_372_036_854_775,
    ensures
        reading(written(parts) + more, saw_t, so_far) == reading(
            more,
            saw_t,
            so_far + lasting(parts, minute),
        ),
        lasting(parts, minute) >= 0,
    decreases parts.len(),
{
    if parts.len() == 0 {
        assert(written(parts) + more == more);
    } else {
        let (n, unit) = parts[0];
        let tail = parts.skip(1);
        assert(plain(tail)) by {
            assert forall|i: int| 0 <= i < tail.len() implies (#[trigger] tail[i]).0
                < 0x1000_0000_0000 && (tail[i].1 == 'H' || tail[i].1 == 'M' || tail[i].1 == 'S'
                || tail[i].1 == 'D' || tail[i].1 == 'W' || tail[i].1 == 'Y') by {
                assert(tail[i] == parts[i + 1]);
            }
        }
        lemma_lasting(tail, minute);
        lemma_part_adds(n, unit, written(tail) + more, saw_t, so_far);
        assert(written(parts) + more == text::decimal(n).push(unit) + (written(tail) + more));
        let each = if unit == 'S' {
            1int
        } else if unit == 'M' {
            minute
        } else if unit == 'H' {
            3600
        } else if unit == 'D' {
            86_400
        } else if unit == 'W' {
            604_800
        } else {
            31_536_000
        };
        let added = n * each;
        assert(lasting(parts, minute) == added + lasting(tail, minute));
        assert(added >= 0) by (nonlinear_arith)
            requires
                added == n * each,
                each > 0,
        ;
        lemma_parts_are_read(tail, more, saw_t, so_far + added, minute);
    }
}

proof fn lemma_lasting(parts: Seq<(nat, char)>, minute: int)
    requires
        minute > 0,
    ensures
        lasting(parts, minute) >= 0,
    decreases parts.len(),
{
    if parts.len() > 0 {
        lemma_lasting(parts.skip(1), minute);
        let n = parts[0].0;
        assert(n * minute >= 0) by (nonlinear_arith)
            requires
                minute > 0,
        ;
    }
}

/// However many parts a duration has, it lasts as long as they do together: those before the `T`
/// with months, those behind it with minutes.
pub proof fn lemma_duration_is_sum(date: Seq<(nat, char)>, time: Seq<(nat, char)>)
    requires
        plain(date),
        plain(time),
        lasting(date, 2_592_000) + lasting(time, 60) <= 9_223_372_036_854_775,
    ensures
        duration_of(seq!['P'] + written(date) + seq!['T'] + written(time)) == Some(
            Ok::<int, DurationErrorView>(lasting(date, 2_592_000) + lasting(time, 60)),
        ),
{
    let text = seq!['P'] + written(date) + seq!['T'] + written(time);
    let behind = written(time) + Seq::<char>::empty();
    assert(text[0] == 'P');
    assert(text.skip(1) == written(date) + (seq!['T'] + behind));
    lemma_lasting(time, 60);
    lemma_parts_are_read(date, seq!['T'] + behind, false, 0, 2_592_000);
    lemma_t_adds_nothing(behind, false, lasting(date, 2_592_000));
    lemma_parts_are_read(time, Seq::empty(), true, lasting(date, 2_592_000), 60);
}

/// What does not start with a `P` is no duration.
pub proof fn lemma_prefix_is_needed(s: Seq<char>)
    requires
        s.len() == 0 || s[0] != 'P',
    ensures
        duration_of(s) == Some(Err::<int, DurationErrorView>(DurationErrorView::MissingPrefix)),
{
}

/// A number at the end needs a unit.
pub proof fn lemma_unit_is_needed(digits: Seq<char>, saw_t: bool, so_far: int)
    requires
        digits.len() > 0,
        forall|i: int|
            0 <= i < digits.len() ==> ('0' <= #[trigger] digits[i] && digits[i] <= '9')
                || digits[i] == '.' || digits[i] == ',',
    ensures
        reading(digits, saw_t, so_far) == Some(
            Err::<int, DurationErrorView>(DurationErrorView::MissingUnit),
        ),
{
    lemma_all_in_number(digits);
}

proof fn lemma_all_in_number(s: Seq<char>)
    requires
        forall|i: int| 0 <= i < s.len() ==> in_number(#[trigger] s[i]),
    ensures
        number_length(s) == s.len(),
    decreases s.len(),
{
    if s.len() > 0 {
        let t = s.skip(1);
        assert(in_number(s[0]));
        assert forall|i: int| 0 <= i < t.len() implies in_number(#[trigger] t[i]) by {
            assert(t[i] == s[i + 1]);
        }
        lemma_all_in_number(t);
    }
}

/// A unit needs a number, and has to be a known one: before the `T` one error tells, behind it
/// another.
pub proof fn lemma_bad_parts(n: nat, unit: char, more: Seq<char>, saw_t: bool, so_far: int)
    requires
        !('0' <= unit && unit <= '9') && unit != '.' && unit != ',',
        unit != 'T',
    ensures
        reading(seq![unit] + more, saw_t, so_far) == Some(
            Err::<int, DurationErrorView>(DurationErrorView::BadNumber(Seq::empty())),
        ),
        unit != 'H' && unit != 'M' && unit != 'S' && unit != 'D' && unit != 'W' && unit != 'Y'
            ==> reading(text::decimal(n).push(unit) + more, saw_t, so_far) == Some(
            Err::<int, DurationErrorView>(
                if saw_t {
                    DurationErrorView::BadTimeUnit(unit)
                } else {
                    DurationErrorView::BadDateUnit(unit)
                },
            ),
        ),
{
    let digits = text::decimal(n);
    number::lemma_decimal_reads_back(n);
    number::lemma_decimal_is_read(n);
    assert forall|i: int| 0 <= i < digits.len() implies in_number(#[trigger] digits[i]) by {
        assert(number::is_digit(digits[i]));
    }
    lemma_number_then_unit(digits, unit, more);
    let s = digits.push(unit) + more;
    let k = digits.len() as int;
    assert(s.take(k) == digits);
    assert(s[k] == unit);
    // without digits
    let none = Seq::<char>::empty();
    let t = seq![unit] + more;
    assert(t[0] == unit);
    assert(t.take(0) == none);
    assert(t.skip(1) == more);
    if number::parsed(none) is Some {
        number::lemma_number_form(none);
    }
    text::lemma_ascii_bytes(more, 0);
    assert(more.take(0) == none);
}

/// A number with a comma, with two points or without a digit is bad: the text behind the unit is
/// shown, as far as the number was long, and there is no answer where that text is too short.
pub proof fn lemma_bad_numbers(
    digits: Seq<char>,
    unit: char,
    more: Seq<char>,
    saw_t: bool,
    so_far: int,
)
    requires
        digits.contains(',') || (forall|i: int| 0 <= i < digits.len() ==> #[trigger] digits[i] == '.')
            || (exists|i: int, j: int|
            0 <= i < j < digits.len() && #[trigger] digits[i] == '.' && #[trigger] digits[j] == '.'),
        forall|i: int|
            0 <= i < digits.len() ==> ('0' <= #[trigger] digits[i] && digits[i] <= '9')
                || digits[i] == '.' || digits[i] == ',',
        !('0' <= unit && unit <= '9') && unit != '.' && unit != ',',
        unit != 'T',
        forall|i: int|
            0 <= i < more.len() && i < digits.len() ==> (#[trigger] more[i]) as u32 <= 0x7f,
    ensures
        reading(digits.push(unit) + more, saw_t, so_far) == if digits.len() <= more.len() {
            Some(
                Err::<int, DurationErrorView>(
                    DurationErrorView::BadNumber(more.take(digits.len() as int)),
                ),
            )
        } else {
            None
        },
{
    assert forall|i: int| 0 <= i < digits.len() implies in_number(#[trigger] digits[i]) by {}
    lemma_number_then_unit(digits, unit, more);
    let s = digits.push(unit) + more;
    let k = digits.len() as int;
    assert(s.take(k) == digits);
    assert(s[k] == unit);
    assert(s.skip(k + 1) == more);
    if number::parsed(digits) is Some {
        number::lemma_number_form(digits);
    }
    if digits.len() <= more.len() {
        text::lemma_ascii_bytes(more, digits.len());
    } else {
        text::lemma_too_few_bytes(more, digits.len());
    }
}

/// Numbers that are not whole count as the nearest whole number of the unit, a half as the next; of
/// months and years as the nearest whole number of days, up to the rounding of the product.
pub proof fn lemma_units_are_rounded(unit: char, saw_t: bool, n: Double)
    requires
        unit == 'H' || unit == 'M' || unit == 'S' || unit == 'D' || unit == 'W' || unit == 'Y',
        n.finite(),
        !n.negative(),
        n.magnitude() <= 0x28_0000_0000_0000 * double::unit(),
    ensures
        ({
            let u = double::unit();
            let by_days = unit == 'Y' || unit == 'M' && !saw_t;
            let each = if unit == 'S' {
                1int
            } else if unit == 'M' && saw_t {
                60
            } else if unit == 'H' {
                3600
            } else if unit == 'W' {
                604_800
            } else {
                86_400
            };
            let factor = if unit == 'Y' {
                365int
            } else {
                30
            };
            &&& unit_seconds(unit, saw_t, n) matches Ok(seconds)
            &&& seconds % each == 0
            &&& !by_days ==> {
                &&& 2 * (seconds / each * u) <= 2 * n.magnitude() + u
                &&& 2 * n.magnitude() < 2 * (seconds / each * u) + u
            }
            &&& by_days ==> {
                &&& 2 * (seconds / each * u) * 0x20_0000_0000_0000 <= 2 * (factor * n.magnitude())
                    * 0x20_0000_0000_0001 + u * 0x20_0000_0000_0001
                &&& 2 * (factor * n.magnitude()) * 0x1f_ffff_ffff_ffff <= 2 * (seconds / each * u)
                    * 0x20_0000_0000_0000 + u * 0x20_0000_0000_0001
            }
        }),
{
    let u = double::unit();
    double::lemma_unit();
    lemma_rounded_units(n, n.magnitude());
    let factor: nat = if unit == 'Y' {
        365
    } else {
        30
    };
    let p = double::product(double::whole(factor), n);
    double::lemma_whole(factor);
    let exact = (factor * u) * n.magnitude();
    assert(exact == (factor * n.magnitude()) * u) by (nonlinear_arith)
        requires
            exact == (factor * u) * n.magnitude(),
    ;
    rounding::lemma_nearest_scale(factor * n.magnitude(), 1, u);
    assert(1 * u == u) by (nonlinear_arith);
    let fm = factor * n.magnitude();
    assert(fm <= 365 * n.magnitude()) by (nonlinear_arith)
        requires
            fm == factor * n.magnitude(),
            factor <= 365,
    ;
    rounding::lemma_nearest_is_close(fm, 1);
    rounding::lemma_nearest_bounds(fm, 1);
    let r = rounding::nearest(fm, 1);
    assert(r * 1 == r) by (nonlinear_arith);
    let inf = double::infinite_magnitude();
    double::lemma_rounded(false, exact, u);
    assert(p.magnitude() == r);
    lemma_rounded_units(p, r);
    let (k, days) = (whole_units(n), whole_units(p));
    div_mod::lemma_div_multiples_vanish(k, 3600);
    div_mod::lemma_mod_multiples_basic(k, 3600);
    div_mod::lemma_mod_multiples_basic(k, 60);
    div_mod::lemma_mod_multiples_basic(k, 604_800);
    div_mod::lemma_mod_multiples_basic(k, 86_400);
    div_mod::lemma_mod_multiples_basic(days, 86_400);
}

proof fn lemma_rounded_units(n: Double, magnitude: nat)
    requires
        n.magnitude() == magnitude,
        magnitude <= 0x4000_0000_0000_0000 * double::unit(),
    ensures
        2 * (whole_units(n) * double::unit()) <= 2 * magnitude + double::unit(),
        2 * magnitude < 2 * (whole_units(n) * double::unit()) + double::unit(),
{
    let u = double::unit();
    double::lemma_unit();
    rounding::lemma_half_up_is_nearest(magnitude, u);
    let r = rounding::half_up(magnitude, u);
    assert(r <= 0x4000_0000_0000_0000) by (nonlinear_arith)
        requires
            2 * (r * u) <= 2 * magnitude + u,
            magnitude <= 0x4000_0000_0000_0000 * u,
            u > 0,
    ;
}

/// A part of any number and any unit: where the number can be read, the part counts with what that
/// number of the unit lasts; else the error shows as many bytes behind the unit as the number has
/// characters.
pub proof fn lemma_any_part(
    digits: Seq<char>,
    unit: char,
    more: Seq<char>,
    saw_t: bool,
    so_far: int,
)
    requires
        forall|i: int|
            0 <= i < digits.len() ==> ('0' <= #[trigger] digits[i] && digits[i] <= '9')
                || digits[i] == '.' || digits[i] == ',',
        !('0' <= unit && unit <= '9') && unit != '.' && unit != ',',
        unit != 'T',
    ensures
        reading(digits.push(unit) + more, saw_t, so_far) == match number::parsed(digits) {
            Some(n) => match unit_seconds(unit, saw_t, n) {
                Ok(seconds) => if so_far + seconds <= 9_223_372_036_854_775 {
                    reading(more, saw_t, so_far + seconds)
                } else {
                    None
                },
                Err(e) => Some(Err::<int, DurationErrorView>(e)),
            },
            None => match text::first_bytes(more, digits.len()) {
                Some(shown) => Some(
                    Err::<int, DurationErrorView>(DurationErrorView::BadNumber(shown)),
                ),
                None => None,
            },
        },
{
    let s = digits.push(unit) + more;
    lemma_number_then_unit(digits, unit, more);
    assert(s.take(digits.len() as int) == digits);
    assert(s.skip(digits.len() + 1int) == more);
    assert(s[digits.len() as int] == unit);
}

/// A number before the `T` adds nothing, whether it can be read or not.
pub proof fn lemma_number_before_t(digits: Seq<char>, more: Seq<char>, saw_t: bool, so_far: int)
    requires
        forall|i: int|
            0 <= i < digits.len() ==> ('0' <= #[trigger] digits[i] && digits[i] <= '9')
                || digits[i] == '.' || digits[i] == ',',
    ensures
        reading(digits.push('T') + more, saw_t, so_far) == reading(more, true, so_far),
{
    let s = digits.push('T') + more;
    lemma_number_then_unit(digits, 'T', more);
    assert(s.skip(digits.len() + 1int) == more);
    assert(s[digits.len() as int] == 'T');
}

proof fn lemma_many_units(n: Double)
    requires
        n.magnitude() >= 0x21_0000_0000_0000 * double::unit(),
    ensures
        whole_units(n) > 9_223_372_036_854_775,
{
    let u = double::unit();
    double::lemma_unit();
    let m = n.magnitude();
    rounding::lemma_half_up_is_nearest(m, u);
    let r = rounding::half_up(m, u);
    assert(r >= 0x21_0000_0000_0000) by (nonlinear_arith)
        requires
            2 * m < 2 * (r * u) + u,
            m >= 0x21_0000_0000_0000 * u,
            u > 0,
    ;
}

/// More of a unit than a duration can last is out of range, never cut short.
pub proof fn lemma_too_many_units(unit: char, saw_t: bool, n: Double)
    requires
        unit == 'H' || unit == 'M' || unit == 'S' || unit == 'D' || unit == 'W' || unit == 'Y',
        !n.is_nan(),
        !n.negative(),
        n.magnitude() > 0x28_0000_0000_0000 * double::unit(),
    ensures
        unit_seconds(unit, saw_t, n) matches Ok(seconds) && seconds > 9_223_372_036_854_775,
{
    let u = double::unit();
    double::lemma_unit();
    lemma_many_units(n);
    let factor: nat = if unit == 'Y' {
        365
    } else {
        30
    };
    let p = double::product(double::whole(factor), n);
    double::lemma_whole(factor);
    double::lemma_small_factor(factor, n);
    if !p.finite() {
        if p.magnitude() < double::infinite_magnitude() {
            double::lemma_finite_by_magnitude(p);
        }
    } else {
        if !n.finite() {
            double::lemma_special_values(n, double::whole(factor));
        }
        double::lemma_product_is_nearest(double::whole(factor), n);
        let (m, q) = (n.magnitude(), p.magnitude());
        assert(q >= 0x21_0000_0000_0000 * u) by (nonlinear_arith)
            requires
                ((factor * u) * m) * 0x1f_ffff_ffff_ffff <= (q * u) * 0x20_0000_0000_0000 + u
                    * 0x10_0000_0000_0000,
                m > 0x28_0000_0000_0000 * u,
                factor >= 30,
                u > 0,
        ;
    }
    lemma_many_units(p);
}

} // verus!
