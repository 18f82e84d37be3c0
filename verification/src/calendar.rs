//! Dates of the Gregorian calendar, also before it was in use.

use crate::number;
use crate::text;
use vstd::arithmetic::div_mod;
use vstd::prelude::*;

verus! {

/// The years that have dates.
pub const FIRST_YEAR: i64 = -262_143;

pub const LAST_YEAR: i64 = 262_142;

pub open spec fn leap(year: int) -> bool {
    year % 4 == 0 && (year % 100 != 0 || year % 400 == 0)
}

pub open spec fn month_length(year: int, month: int) -> int {
    if month == 2 {
        if leap(year) {
            29
        } else {
            28
        }
    } else if month == 4 || month == 6 || month == 9 || month == 11 {
        30
    } else {
        31
    }
}

pub open spec fn is_date(year: int, month: int, day: int) -> bool {
    1 <= month <= 12 && 1 <= day <= month_length(year, month)
}

/// The days from the first of January of the year 1 to that of another.
pub open spec fn days_before_year(year: int) -> int {
    let years = year - 1;
    365 * years + years / 4 - years / 100 + years / 400
}

/// The days of a year before one of its months.
pub open spec fn days_before_month(year: int, month: int) -> int
    decreases month,
{
    if month <= 1 {
        0
    } else {
        days_before_month(year, month - 1) + month_length(year, month - 1)
    }
}

/// The days from the first of January 1970 to a date.
pub open spec fn days_before(year: int, month: int, day: int) -> int {
    days_before_year(year) + days_before_month(year, month) + day - 1 - 719_162
}

/// Whether a date is that of a day, counted from the first of January 1970.
pub open spec fn is_day(year: int, month: int, day: int, number: int) -> bool {
    is_date(year, month, day) && days_before(year, month, day) == number
}

/// A number in decimal, with leading zeros up to four digits.
pub open spec fn four_digits(n: nat) -> Seq<char> {
    if n < 1000 {
        text::three_digits(n).insert(0, '0')
    } else {
        text::decimal(n)
    }
}

/// A date as ISO 8601 writes it, year first. Years of more than four digits, and those before the
/// year 0, have a sign.
pub open spec fn date_text(year: int, month: int, day: int) -> Seq<char> {
    let shown_year = if year > 9999 {
        four_digits(year as nat).insert(0, '+')
    } else if year < 0 {
        four_digits((-year) as nat).insert(0, '-')
    } else {
        four_digits(year as nat)
    };
    (shown_year.push('-') + text::two_digits(month as nat)).push('-') + text::two_digits(day as nat)
}

/// `DateTime::from_timestamp` of chrono, and the `Display` of its `date_naive`: the text of the date
/// on which a moment is, in seconds since 1970 began; `None` where the year has no dates.
#[verifier::external_body]
pub(crate) fn date_of_moment(secs: i64) -> (r: Option<String>)
    ensures
        match r {
            Some(text) => exists|year: int, month: int, day: int| #[trigger]
                is_day(year, month, day, secs as int / 86_400) && FIRST_YEAR <= year <= LAST_YEAR
                    && text@ == date_text(year, month, day),
            None => forall|year: int, month: int, day: int| #[trigger]
                is_day(year, month, day, secs as int / 86_400) ==> !(FIRST_YEAR <= year
                    <= LAST_YEAR),
        },
{
    match chrono::DateTime::from_timestamp(secs, 0) {
        Some(t) => Some(t.date_naive().to_string()),
        None => None,
    }
}

/// One more is divided one more time only where it is divided without a rest.
proof fn lemma_next_quotient(n: int, k: int)
    requires
        k > 1,
    ensures
        n / k == (n - 1) / k + if n % k == 0 {
            1int
        } else {
            0int
        },
{
    let q = n / k;
    let r = n % k;
    div_mod::lemma_fundamental_div_mod(n, k);
    div_mod::lemma_mod_bound(n, k);
    if r == 0 {
        assert(n - 1 == (q - 1) * k + (k - 1)) by (nonlinear_arith)
            requires
                n == k * q,
        ;
        div_mod::lemma_fundamental_div_mod_converse(n - 1, k, q - 1, k - 1);
    } else {
        assert(n - 1 == q * k + (r - 1)) by (nonlinear_arith)
            requires
                n == k * q + r,
        ;
        div_mod::lemma_fundamental_div_mod_converse(n - 1, k, q, r - 1);
    }
}

proof fn lemma_year_length(year: int)
    ensures
        days_before_year(year + 1) == days_before_year(year) + if leap(year) {
            366int
        } else {
            365int
        },
{
    lemma_next_quotient(year, 4);
    lemma_next_quotient(year, 100);
    lemma_next_quotient(year, 400);
    assert(year % 400 == 0 ==> year % 100 == 0);
    assert(year % 100 == 0 ==> year % 4 == 0);
}

/// A year begins when the year before is over.
proof fn lemma_years(a: int, b: int)
    requires
        a < b,
    ensures
        days_before_year(a) + (if leap(a) {
            366int
        } else {
            365int
        }) <= days_before_year(b),
    decreases b - a,
{
    lemma_year_length(a);
    if a + 1 < b {
        lemma_years(a + 1, b);
    }
}

/// A month begins when the month before is over, and the year is over with the last.
proof fn lemma_months(year: int, a: int, b: int)
    requires
        1 <= a <= b <= 12,
    ensures
        0 <= days_before_month(year, a),
        a < b ==> days_before_month(year, a) + month_length(year, a) <= days_before_month(year, b),
        days_before_month(year, b) + month_length(year, b) <= if leap(year) {
            366int
        } else {
            365int
        },
{
    reveal_with_fuel(days_before_month, 13);
}

/// A day has one date only.
pub proof fn lemma_dates_are_unique(
    y: int,
    m: int,
    d: int,
    year: int,
    month: int,
    day: int,
    number: int,
)
    requires
        is_day(y, m, d, number),
        is_day(year, month, day, number),
    ensures
        y == year,
        m == month,
        d == day,
{
    lemma_months(y, m, m);
    lemma_months(year, month, month);
    if y < year {
        lemma_years(y, year);
    } else if year < y {
        lemma_years(year, y);
    } else if m < month {
        lemma_months(y, m, month);
    } else if month < m {
        lemma_months(y, month, m);
    }
}

/// How many days of a year are over when a month begins. A year of 366 days is one that four
/// divides, but of the years that a hundred divides only one that four hundred divides.
pub proof fn lemma_month_begins(year: int, month: int)
    requires
        1 <= month <= 12,
    ensures
        days_before_month(year, month) == (367 * month - 362) / 12 - if month <= 2 {
            0int
        } else if (year % 4 == 0 && year % 100 != 0) || year % 400 == 0 {
            1
        } else {
            2
        },
{
    assert(year % 400 == 0 ==> year % 100 == 0);
    assert(year % 100 == 0 ==> year % 4 == 0);
    reveal_with_fuel(days_before_month, 13);
}

/// Days are counted from 1970 on. The day after a date is the next of its month, the first of the
/// next month or the first of the next year. The calendar comes round after 146097 days, which are
/// 400 years.
pub proof fn lemma_days_follow(year: int, month: int, day: int)
    requires
        is_date(year, month, day),
    ensures
        is_day(1970, 1, 1, 0),
        ({
            let next = days_before(year, month, day) + 1;
            ||| is_day(year, month, day + 1, next)
            ||| month < 12 && is_day(year, month + 1, 1, next)
            ||| month == 12 && day == 31 && is_day(year + 1, 1, 1, next)
        }),
        is_day(year + 400, month, day, days_before(year, month, day) + 146_097),
{
    reveal_with_fuel(days_before_month, 13);
    lemma_year_length(year);
    lemma_same_months(year, month);
    let y = year - 1;
    assert((y + 400) / 4 == y / 4 + 100);
    assert((y + 400) / 100 == y / 100 + 4);
    assert((y + 400) / 400 == y / 400 + 1);
}

/// Months have the same days again after 400 years.
proof fn lemma_same_months(year: int, month: int)
    ensures
        leap(year + 400) == leap(year),
        month_length(year + 400, month) == month_length(year, month),
        days_before_month(year + 400, month) == days_before_month(year, month),
    decreases month,
{
    assert((year + 400) % 4 == year % 4);
    assert((year + 400) % 100 == year % 100);
    assert((year + 400) % 400 == year % 400);
    if month > 1 {
        lemma_same_months(year, month - 1);
    }
}

/// Four or more digits read back as the number.
proof fn lemma_four_digits_read_back(n: nat)
    ensures
        number::digits_value(four_digits(n)) == n,
        four_digits(n).len() >= 4,
        n <= 9999 ==> four_digits(n).len() == 4,
{
    if n < 1000 {
        let (s, t) = (four_digits(n), text::three_digits(n));
        number::lemma_three_digits_read_back(n);
        reveal_with_fuel(number::digits_value, 5);
        assert(s == seq!['0', t[0], t[1], t[2]]);
        assert(s.drop_last() == seq!['0', t[0], t[1]]);
        assert(s.drop_last().drop_last() == seq!['0', t[0]]);
        assert(s.drop_last().drop_last().drop_last() == seq!['0']);
        assert(t.drop_last() == seq![t[0], t[1]]);
        assert(t.drop_last().drop_last() == seq![t[0]]);
    } else {
        number::lemma_decimal_reads_back(n);
        reveal_with_fuel(text::decimal, 5);
        text::lemma_decimal_digits(n / 10000);
    }
}

/// The text of a date reads back as its year, month and day: two digits for the day and for the
/// month, four or more for the year, which has a sign only where four digits are not enough or it
/// is before the year 0.
pub proof fn lemma_date_reads_back(year: int, month: int, day: int)
    requires
        is_date(year, month, day),
    ensures
        ({
            let s = date_text(year, month, day);
            let end = s.len() - 6;
            let digits = if 0 <= year <= 9999 {
                s.take(end)
            } else {
                s.subrange(1, end)
            };
            &&& end >= 4
            &&& number::digits_value(s.skip(end + 4)) == day
            &&& s[end + 3] == '-'
            &&& number::digits_value(s.subrange(end + 1, end + 3)) == month
            &&& s[end] == '-'
            &&& 0 <= year <= 9999 ==> end == 4
            &&& year > 9999 ==> s[0] == '+'
            &&& year < 0 ==> s[0] == '-'
            &&& digits.len() >= 4
            &&& number::digits_value(digits) == if year < 0 {
                -year
            } else {
                year
            }
        }),
{
    let s = date_text(year, month, day);
    let n = (if year < 0 {
        -year
    } else {
        year
    }) as nat;
    let (y, m, d) = (
        four_digits(n),
        text::two_digits(month as nat),
        text::two_digits(day as nat),
    );
    lemma_four_digits_read_back(n);
    number::lemma_two_digits_read_back(month as nat);
    number::lemma_two_digits_read_back(day as nat);
    let end = s.len() - 6;
    assert(s.skip(end + 4) =~= d);
    assert(s.subrange(end + 1, end + 3) =~= m);
    if 0 <= year <= 9999 {
        assert(s.take(end) =~= y);
    } else {
        assert(s.subrange(1, end) =~= y);
    }
}

} // verus!
