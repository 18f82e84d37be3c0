//! Decimal numbers as text, read as the nearest double.
//!
//! The grammar is that of Rust's own conversion from text to `f64`: an optional sign, then `inf`,
//! `infinity` or `nan` in any case, or digits with an optional point among or around them and an
//! optional exponent.

use crate::double;
use crate::double::Double;
use crate::natural::Natural;
use crate::rounding;
use crate::text;
use vstd::arithmetic::div_mod;
use vstd::arithmetic::power;
use vstd::arithmetic::power::pow;
use vstd::arithmetic::power2;
use vstd::prelude::*;

verus! {

pub open spec fn pow10(n: nat) -> nat
    decreases n,
{
    if n == 0 {
        1
    } else {
        10 * pow10((n - 1) as nat)
    }
}

pub open spec fn is_digit(c: char) -> bool {
    '0' <= c && c <= '9'
}

/// How many digits a text starts with.
pub open spec fn leading_digits(s: Seq<char>) -> nat
    decreases s.len(),
{
    if s.len() > 0 && is_digit(s[0]) {
        1 + leading_digits(s.skip(1))
    } else {
        0
    }
}

/// The number that digits stand for.
pub open spec fn digits_value(s: Seq<char>) -> nat
    decreases s.len(),
{
    if s.len() == 0 {
        0
    } else {
        digits_value(s.drop_last()) * 10 + (s.last() as nat - '0' as nat) as nat
    }
}

/// Whether a text starts with a sign, and whether it is a minus.
pub open spec fn signed(s: Seq<char>) -> (bool, bool) {
    (s.len() > 0 && (s[0] == '+' || s[0] == '-'), s.len() > 0 && s[0] == '-')
}

/// A text without its sign, if it starts with one.
pub open spec fn unsigned(s: Seq<char>) -> Seq<char> {
    if signed(s).0 {
        s.skip(1)
    } else {
        s
    }
}

/// The exponent that an ending stands for: none at all, or an `e` with an optional sign and at
/// least one digit.
pub open spec fn exponent(s: Seq<char>) -> Option<int> {
    if s.len() == 0 {
        Some(0)
    } else {
        let digits = unsigned(s.skip(1));
        if (s[0] == 'e' || s[0] == 'E') && digits.len() > 0 && leading_digits(digits)
            == digits.len() {
            let n = digits_value(digits) as int;
            Some(
                if signed(s.skip(1)).1 {
                    -n
                } else {
                    n
                },
            )
        } else {
            None
        }
    }
}

/// Whether a text starts with digits, perhaps none, and a point.
pub open spec fn has_point(s: Seq<char>) -> bool {
    leading_digits(s) < s.len() && s[leading_digits(s) as int] == '.'
}

/// How many digits stand behind the point.
pub open spec fn fraction_digits(s: Seq<char>) -> nat {
    if has_point(s) {
        leading_digits(s.skip(leading_digits(s) + 1int))
    } else {
        0
    }
}

/// Where the digits and the point at the start of a text end.
pub open spec fn mantissa_end(s: Seq<char>) -> nat {
    if has_point(s) {
        leading_digits(s) + 1 + fraction_digits(s)
    } else {
        leading_digits(s)
    }
}

/// The digits at the start of a text, without the point.
pub open spec fn mantissa(s: Seq<char>) -> Seq<char> {
    let i = leading_digits(s) as int;
    if has_point(s) {
        s.take(i) + s.subrange(i + 1, i + 1 + fraction_digits(s))
    } else {
        s.take(i)
    }
}

/// A text without a sign as a whole number and the power of ten it is to be multiplied with.
pub open spec fn scientific(s: Seq<char>) -> Option<(nat, int)> {
    if mantissa(s).len() == 0 {
        None
    } else {
        match exponent(s.skip(mantissa_end(s) as int)) {
            Some(e) => Some((digits_value(mantissa(s)), e - fraction_digits(s))),
            None => None,
        }
    }
}

/// The double of that sign nearest to `m * 10^e`.
pub open spec fn decimal_double(negative: bool, m: nat, e: int) -> Double {
    if e >= 0 {
        double::rounded(negative, m * pow10(e as nat) * double::unit(), 1)
    } else {
        double::rounded(negative, m * double::unit(), pow10((-e) as nat))
    }
}

pub open spec fn lower(c: char) -> char {
    if 'A' <= c && c <= 'Z' {
        ((c as u8) + 32) as char
    } else {
        c
    }
}

/// Whether a text is a word, the case of ASCII letters aside.
pub open spec fn same_word(s: Seq<char>, word: Seq<char>) -> bool {
    s.map_values(|c: char| lower(c)) == word
}

/// The double that a text stands for, where it stands for one.
pub open spec fn parsed(s: Seq<char>) -> Option<Double> {
    let negative = signed(s).1;
    let rest = unsigned(s);
    if same_word(rest, "inf"@) || same_word(rest, "infinity"@) {
        Some(double::infinity(negative))
    } else if same_word(rest, "nan"@) {
        Some(
            if negative {
                double::negated(double::nan())
            } else {
                double::nan()
            },
        )
    } else {
        match scientific(rest) {
            Some((m, e)) => Some(decimal_double(negative, m, e)),
            None => None,
        }
    }
}

pub proof fn lemma_pow10_adds(a: nat, b: nat)
    ensures
        pow10(a + b) == pow10(a) * pow10(b),
    decreases a,
{
    if a == 0 {
        assert(1 * pow10(b) == pow10(b)) by (nonlinear_arith);
    } else {
        lemma_pow10_adds((a - 1) as nat, b);
        let x = pow10((a - 1) as nat);
        let y = pow10(b);
        assert(10 * (x * y) == (10 * x) * y) by (nonlinear_arith);
    }
}

/// Each power of ten is at least the same power of eight.
proof fn lemma_pow10_large(n: nat)
    ensures
        pow10(n) >= power2::pow2(3 * n),
        pow10(n) > 0,
    decreases n,
{
    power2::lemma2_to64();
    if n > 0 {
        lemma_pow10_large((n - 1) as nat);
        power2::lemma_pow2_adds(3, (3 * (n - 1)) as nat);
    }
}

/// A decimal number is never read as a NaN, and has its sign.
pub proof fn lemma_decimal_double(negative: bool, m: nat, e: int)
    ensures
        !decimal_double(negative, m, e).is_nan(),
        decimal_double(negative, m, e).negative() == negative,
{
    if e >= 0 {
        double::lemma_rounded(negative, m * pow10(e as nat) * double::unit(), 1);
    } else {
        lemma_pow10_large((-e) as nat);
        double::lemma_rounded(negative, m * double::unit(), pow10((-e) as nat));
    }
}

proof fn lemma_digits_value_bound(s: Seq<char>)
    requires
        forall|i: int| 0 <= i < s.len() ==> is_digit(#[trigger] s[i]),
    ensures
        digits_value(s) < pow10(s.len()),
    decreases s.len(),
{
    if s.len() > 0 {
        lemma_digits_value_bound(s.drop_last());
        assert(is_digit(s.last()));
    }
}

proof fn lemma_leading_digits(s: Seq<char>)
    ensures
        leading_digits(s) <= s.len(),
        forall|i: int| 0 <= i < leading_digits(s) ==> is_digit(#[trigger] s[i]),
        leading_digits(s) < s.len() ==> !is_digit(s[leading_digits(s) as int]),
    decreases s.len(),
{
    if s.len() > 0 && is_digit(s[0]) {
        lemma_leading_digits(s.skip(1));
        assert forall|i: int| 0 <= i < leading_digits(s) implies is_digit(#[trigger] s[i]) by {
            if i > 0 {
                assert(s.skip(1)[i - 1] == s[i]);
            }
        }
    }
}

fn digit_run(chars: &Vec<char>, from: usize) -> (r: usize)
    requires
        from <= chars@.len(),
    ensures
        r == leading_digits(chars@.skip(from as int)),
        from + r <= chars@.len(),
{
    let mut i: usize = from;
    while i < chars.len() && '0' <= chars[i] && chars[i] <= '9'
        invariant
            from <= i <= chars@.len(),
            i - from + leading_digits(chars@.skip(i as int)) == leading_digits(
                chars@.skip(from as int),
            ),
        decreases chars@.len() - i,
    {
        assert(chars@.skip(i as int).skip(1) == chars@.skip(i + 1));
        i = i + 1;
    }
    i - from
}

fn push_digits(acc: &mut Natural, chars: &Vec<char>, from: usize, to: usize, Ghost(before): Ghost<
    Seq<char>,
>)
    requires
        from <= to <= chars@.len(),
        old(acc)@ == digits_value(before),
        forall|i: int| from <= i < to ==> is_digit(#[trigger] chars@[i]),
    ensures
        final(acc)@ == digits_value(before + chars@.subrange(from as int, to as int)),
{
    let mut i: usize = from;
    assert(before + chars@.subrange(from as int, from as int) == before);
    while i < to
        invariant
            from <= i <= to <= chars@.len(),
            acc@ == digits_value(before + chars@.subrange(from as int, i as int)),
            forall|i: int| from <= i < to ==> is_digit(#[trigger] chars@[i]),
        decreases to - i,
    {
        let c: char = chars[i];
        assert(is_digit(chars@[i as int]));
        acc.mul_add(10, c as u32 - 48);
        proof {
            let longer = before + chars@.subrange(from as int, i + 1);
            assert(longer.drop_last() == before + chars@.subrange(from as int, i as int));
            assert(longer.last() == c);
        }
        i = i + 1;
    }
}

/// More than any exponent that makes a difference.
const LARGE: u128 = 0x10_0000_0000_0000_0000_0000_0000;

/// The value of digits, or some number no smaller than [`LARGE`] where that is no smaller.
fn small_value(chars: &Vec<char>, from: usize) -> (r: u128)
    requires
        from <= chars@.len(),
        forall|i: int| from <= i < chars@.len() ==> is_digit(#[trigger] chars@[i]),
    ensures
        r <= LARGE,
        r == digits_value(chars@.skip(from as int)) || (r == LARGE && digits_value(
            chars@.skip(from as int),
        ) >= LARGE),
{
    let mut acc: u128 = 0;
    let mut i: usize = from;
    assert(chars@.subrange(from as int, from as int) == Seq::<char>::empty());
    while i < chars.len()
        invariant
            from <= i <= chars@.len(),
            acc <= LARGE,
            acc == digits_value(chars@.subrange(from as int, i as int)) || (acc == LARGE
                && digits_value(chars@.subrange(from as int, i as int)) >= LARGE),
            forall|i: int| from <= i < chars@.len() ==> is_digit(#[trigger] chars@[i]),
        decreases chars@.len() - i,
    {
        let c: char = chars[i];
        assert(is_digit(chars@[i as int]));
        proof {
            let longer = chars@.subrange(from as int, i + 1);
            assert(longer.drop_last() == chars@.subrange(from as int, i as int));
            assert(longer.last() == c);
        }
        acc = acc * 10 + (c as u32 - 48) as u128;
        if acc > LARGE {
            acc = LARGE;
        }
        i = i + 1;
    }
    assert(chars@.subrange(from as int, i as int) == chars@.skip(from as int));
    acc
}

/// The exponent that the characters from `from` on stand for: its sign and its size, the size as
/// in [`small_value`].
fn exponent_at(chars: &Vec<char>, from: usize) -> (r: Option<(bool, u128)>)
    requires
        from <= chars@.len(),
    ensures
        r is Some <==> exponent(chars@.skip(from as int)) is Some,
        r matches Some((negative, n)) ==> {
            let e = exponent(chars@.skip(from as int))->0;
            &&& n <= LARGE
            &&& negative ==> e == -n || (n == LARGE && e <= -n)
            &&& !negative ==> e == n || (n == LARGE && e >= n)
        },
{
    let ghost s = chars@.skip(from as int);
    if from == chars.len() {
        return Some((false, 0));
    }
    if chars[from] != 'e' && chars[from] != 'E' {
        return None;
    }
    assert(s.skip(1) == chars@.skip(from + 1));
    let mut i: usize = from + 1;
    let mut negative: bool = false;
    if i < chars.len() && (chars[i] == '+' || chars[i] == '-') {
        negative = chars[i] == '-';
        assert(s.skip(1).skip(1) == chars@.skip(i + 1));
        i = i + 1;
    }
    let ghost digits = chars@.skip(i as int);
    assert(digits == unsigned(s.skip(1)));
    if i == chars.len() || digit_run(chars, i) != chars.len() - i {
        return None;
    }
    proof {
        lemma_leading_digits(digits);
        assert forall|k: int| i <= k < chars@.len() implies is_digit(#[trigger] chars@[k]) by {
            assert(digits[k - i] == chars@[k]);
        }
    }
    let n: u128 = small_value(chars, i);
    Some((negative, n))
}

/// A number that rounds to infinity.
proof fn lemma_huge(m: nat, e: nat)
    requires
        m > 0,
        e > 400,
    ensures
        double::saturated(rounding::nearest(m * pow10(e) * double::unit(), 1))
            == double::infinite_magnitude(),
{
    lemma_pow10_large(e);
    power2::lemma_pow2_strictly_increases(1200, 3 * e);
    power2::lemma_pow2_adds(1200, 1074);
    power2::lemma_pow2_adds(53, 2046);
    power2::lemma_pow2_strictly_increases(2099, 2274);
    power2::lemma2_to64_rest();
    power2::lemma_pow2_pos(1074);
    let p = pow10(e);
    let u = double::unit();
    let low = power2::pow2(1200);
    assert(m * p * u >= low * u) by (nonlinear_arith)
        requires
            m >= 1,
            p >= low,
    ;
    let c: nat = 0x20_0000_0000_0000;
    assert(1 * c * power2::pow2(2046) == c * power2::pow2(2046)) by (nonlinear_arith);
    double::lemma_overflow(m * p * u, 1, 2046);
}

/// A number that rounds to zero.
proof fn lemma_tiny(m: nat, digits: nat, e: nat)
    requires
        m < pow10(digits),
        e > digits + 400,
    ensures
        rounding::nearest(m * double::unit(), pow10(e)) == 0,
{
    let rest = (e - digits) as nat;
    lemma_pow10_adds(digits, rest);
    lemma_pow10_large(rest);
    lemma_pow10_large(e);
    power2::lemma_pow2_strictly_increases(1075, 3 * rest);
    power2::lemma_pow2_unfold(1075);
    power2::lemma_pow2_pos(1074);
    power2::lemma2_to64();
    let u = double::unit();
    let p = pow10(digits);
    let q = pow10(rest);
    assert(2 * (m * u) < p * q) by (nonlinear_arith)
        requires
            m + 1 <= p,
            2 * u < q,
            u > 0,
    ;
    let num = m * u;
    let den = pow10(e);
    let c: nat = 0x20_0000_0000_0000;
    assert(num < den * c);
    div_mod::lemma_small_mod(num, den * power2::pow2(0));
    div_mod::lemma_basic_div(num as int, (den * power2::pow2(0)) as int);
    assert(0 * power2::pow2(0) == 0) by (nonlinear_arith);
}

/// The double of that sign nearest to `m * 10^e`, where `m` has no more than `digits` digits.
fn scale(negative: bool, m: Natural, digits: usize, e: i128, Ghost(exact): Ghost<int>) -> (r:
    Double)
    requires
        m@ < pow10(digits as nat),
        -(LARGE as int) - 0x1_0000_0000_0000_0000 <= e <= LARGE,
        exact == e || (e > 0x1_0000_0000_0000_0000 && exact >= e) || (e
            < -2 * 0x1_0000_0000_0000_0000 && exact <= e),
    ensures
        r == decimal_double(negative, m@, exact),
{
    let ghost u = double::unit();
    proof {
        power2::lemma_pow2_pos(1074);
    }
    if m.is_zero() {
        let r = Double::signed_ratio(negative, Natural::from_u128(0), Natural::from_u128(1));
        proof {
            assert(0 * u == 0) by (nonlinear_arith);
            assert(0 * pow10(exact as nat) * u == 0) by (nonlinear_arith);
            if exact < 0 {
                lemma_pow10_large((-exact) as nat);
                let den = pow10((-exact) as nat);
                lemma_zero(1);
                lemma_zero(den);
                double::lemma_rounded(negative, 0, 1);
                double::lemma_rounded(negative, 0, den);
                double::lemma_unique(
                    double::rounded(negative, 0, 1),
                    double::rounded(negative, 0, den),
                );
            }
        }
        return r;
    }
    if e > 400 {
        proof {
            lemma_huge(m@, exact as nat);
            double::lemma_rounded(negative, m@ * pow10(exact as nat) * u, 1);
            double::lemma_infinity(negative);
            double::lemma_unique(
                double::infinity(negative),
                double::rounded(negative, m@ * pow10(exact as nat) * u, 1),
            );
        }
        return Double::infinity_of(negative);
    }
    if e >= 0 {
        let ghost m0 = m@;
        let mut num = m.copy();
        let mut i: i128 = 0;
        assert(m0 * pow10(0) == m0) by (nonlinear_arith)
            requires
                pow10(0) == 1,
        ;
        while i < e
            invariant
                0 <= i <= e,
                num@ == m0 * pow10(i as nat),
            decreases e - i,
        {
            num.mul_add(10, 0);
            proof {
                let p = pow10(i as nat);
                assert(m0 * p * 10 + 0 == m0 * (10 * p)) by (nonlinear_arith);
            }
            i = i + 1;
        }
        return Double::signed_ratio(negative, num, Natural::from_u128(1));
    }
    let k: u128 = (-e) as u128;
    if k > digits as u128 + 400 {
        let r = Double::signed_ratio(negative, Natural::from_u128(0), Natural::from_u128(1));
        proof {
            assert(0 * u == 0) by (nonlinear_arith);
            let d = pow10((-exact) as nat);
            lemma_tiny(m@, digits as nat, (-exact) as nat);
            lemma_pow10_large((-exact) as nat);
            lemma_zero(1);
            double::lemma_rounded(negative, 0, 1);
            double::lemma_rounded(negative, m@ * u, d);
            double::lemma_unique(
                double::rounded(negative, 0, 1),
                double::rounded(negative, m@ * u, d),
            );
        }
        return r;
    }
    let mut den = Natural::from_u128(1);
    let mut i: u128 = 0;
    while i < k
        invariant
            i <= k,
            den@ == pow10(i as nat),
        decreases k - i,
    {
        den.mul_add(10, 0);
        i = i + 1;
    }
    proof {
        lemma_pow10_large(k as nat);
    }
    Double::signed_ratio(negative, m, den)
}

proof fn lemma_zero(den: nat)
    requires
        den > 0,
    ensures
        rounding::nearest(0, den) == 0,
{
    power2::lemma2_to64();
    let w = den * power2::pow2(0);
    assert(w > 0) by (nonlinear_arith)
        requires
            w == den * power2::pow2(0),
            den > 0,
            power2::pow2(0) == 1,
    ;
    assert(0 < den * 0x20_0000_0000_0000);
    div_mod::lemma_small_mod(0, w);
    div_mod::lemma_basic_div(0, w as int);
    assert(0 * power2::pow2(0) == 0) by (nonlinear_arith);
}

fn is_word(chars: &Vec<char>, from: usize, word: &str) -> (r: bool)
    requires
        from <= chars@.len(),
    ensures
        r == same_word(chars@.skip(from as int), word@),
{
    let letters = text::chars_of(word);
    let ghost s = chars@.skip(from as int);
    let ghost low = s.map_values(|c: char| lower(c));
    if chars.len() - from != letters.len() {
        assert(low.len() != word@.len());
        return false;
    }
    let total: usize = chars.len();
    let mut i: usize = 0;
    while i < letters.len()
        invariant
            i <= letters@.len(),
            from + letters@.len() == total == chars@.len(),
            letters@ == word@,
            s == chars@.skip(from as int),
            low == s.map_values(|c: char| lower(c)),
            forall|k: int| 0 <= k < i ==> low[k] == word@[k],
        decreases letters@.len() - i,
    {
        let c: char = chars[from + i];
        let l: char = if 'A' <= c && c <= 'Z' {
            ((c as u8) + 32) as char
        } else {
            c
        };
        assert(low[i as int] == l);
        if l != letters[i] {
            return false;
        }
        i = i + 1;
    }
    assert(low == word@);
    true
}

/// The value of the digits from `from` on, how many they are, how many of them stand behind the
/// point, and where they end.
fn mantissa_at(chars: &Vec<char>, from: usize) -> (r: (Natural, usize, usize, usize))
    requires
        from <= chars@.len(),
    ensures
        r.0@ == digits_value(mantissa(chars@.skip(from as int))),
        r.0@ < pow10(r.1 as nat),
        r.1 == mantissa(chars@.skip(from as int)).len(),
        r.2 == fraction_digits(chars@.skip(from as int)),
        r.3 == from + mantissa_end(chars@.skip(from as int)),
        r.3 <= chars@.len(),
{
    let ghost s = chars@.skip(from as int);
    let total: usize = chars.len();
    let whole: usize = digit_run(chars, from);
    let mid: usize = from + whole;
    let mut m = Natural::from_u128(0);
    proof {
        lemma_leading_digits(s);
        assert forall|k: int| from <= k < mid implies is_digit(#[trigger] chars@[k]) by {
            assert(s[k - from] == chars@[k]);
        }
        assert(Seq::<char>::empty() + chars@.subrange(from as int, mid as int) == s.take(
            whole as int,
        ));
    }
    push_digits(&mut m, chars, from, mid, Ghost(Seq::empty()));
    if mid < chars.len() && chars[mid] == '.' {
        let ghost t = chars@.skip(mid + 1);
        assert(s.skip(whole + 1) == t);
        assert(s[whole as int] == '.');
        let behind: usize = digit_run(chars, mid + 1);
        let end: usize = mid + 1 + behind;
        proof {
            lemma_leading_digits(t);
            assert forall|k: int| mid + 1 <= k < end implies is_digit(#[trigger] chars@[k]) by {
                assert(t[k - mid - 1] == chars@[k]);
            }
            assert(chars@.subrange(mid + 1, end as int) == s.subrange(
                whole + 1,
                whole + 1 + behind,
            ));
        }
        push_digits(&mut m, chars, mid + 1, end, Ghost(s.take(whole as int)));
        proof {
            let run = mantissa(s);
            assert forall|k: int| 0 <= k < run.len() implies is_digit(#[trigger] run[k]) by {
                if k < whole {
                    assert(run[k] == s[k]);
                } else {
                    assert(run[k] == t[k - whole]);
                }
            }
            lemma_digits_value_bound(run);
        }
        (m, whole + behind, behind, end)
    } else {
        assert(!(whole < s.len() && s[whole as int] == '.'));
        proof {
            lemma_digits_value_bound(s.take(whole as int));
        }
        (m, whole, 0, mid)
    }
}

/// The double of that sign that the characters from `from` on stand for.
fn number_at(chars: &Vec<char>, from: usize, negative: bool) -> (r: Option<Double>)
    requires
        from <= chars@.len(),
    ensures
        r == match scientific(chars@.skip(from as int)) {
            Some((m, e)) => Some(decimal_double(negative, m, e)),
            None => None,
        },
{
    let ghost s = chars@.skip(from as int);
    let (m, digits, behind, end) = mantissa_at(chars, from);
    if digits == 0 {
        return None;
    }
    assert(s.skip(mantissa_end(s) as int) == chars@.skip(end as int));
    match exponent_at(chars, end) {
        None => None,
        Some((down, n)) => {
            let e: i128 = if down {
                -(n as i128) - behind as i128
            } else {
                n as i128 - behind as i128
            };
            let ghost exact = exponent(chars@.skip(end as int))->0 - behind;
            Some(scale(negative, m, digits, e, Ghost(exact)))
        },
    }
}

/// Reads a text as the nearest double; `None` where it is not the text of a number.
pub fn parse_double(source: &str) -> (r: Option<Double>)
    ensures
        r == parsed(source@),
{
    let chars = text::chars_of(source);
    let ghost all = source@;
    let mut i: usize = 0;
    let mut negative: bool = false;
    assert(all.skip(0) == all);
    if chars.len() > 0 && (chars[0] == '+' || chars[0] == '-') {
        negative = chars[0] == '-';
        i = 1;
    }
    let ghost s = all.skip(i as int);
    assert(s == unsigned(all));
    if is_word(&chars, i, "inf") || is_word(&chars, i, "infinity") {
        return Some(Double::infinity_of(negative));
    }
    if is_word(&chars, i, "nan") {
        let nan = Double::from_bits(0x7ff8_0000_0000_0000);
        return Some(
            if negative {
                nan.neg()
            } else {
                nan
            },
        );
    }
    number_at(&chars, i, negative)
}

/// Digits are read to their end.
proof fn lemma_only_digits(s: Seq<char>, more: Seq<char>)
    requires
        forall|i: int| 0 <= i < s.len() ==> is_digit(#[trigger] s[i]),
        more.len() > 0 ==> !is_digit(more[0]),
    ensures
        leading_digits(s + more) == s.len(),
    decreases s.len(),
{
    if s.len() > 0 {
        assert((s + more)[0] == s[0]);
        assert((s + more).skip(1) == s.skip(1) + more);
        assert forall|i: int| 0 <= i < s.skip(1).len() implies is_digit(#[trigger] s.skip(1)[i]) by {
            assert(s.skip(1)[i] == s[i + 1]);
        }
        lemma_only_digits(s.skip(1), more);
    } else {
        assert(s + more == more);
    }
}

/// A number in decimal reads back as the number, and has no zero in front.
pub proof fn lemma_decimal_reads_back(n: nat)
    ensures
        digits_value(text::decimal(n)) == n,
        n > 0 ==> text::decimal(n)[0] != '0',
        text::decimal(n).len() > 0,
        forall|i: int|
            0 <= i < text::decimal(n).len() ==> is_digit(#[trigger] text::decimal(n)[i]),
    decreases n,
{
    text::lemma_decimal_digits(n);
    let s = text::decimal(n);
    if n >= 10 {
        lemma_decimal_reads_back(n / 10);
        let front = text::decimal(n / 10);
        assert(s.drop_last() == front);
        assert(s[0] == front[0]);
    } else {
        assert(s.drop_last() == Seq::<char>::empty());
        reveal_with_fuel(digits_value, 2);
    }
}

/// Two or more digits read back as the number.
pub proof fn lemma_two_digits_read_back(n: nat)
    ensures
        digits_value(text::two_digits(n)) == n,
        text::two_digits(n).len() >= 2,
        n < 100 ==> text::two_digits(n).len() == 2,
        forall|i: int|
            0 <= i < text::two_digits(n).len() ==> is_digit(#[trigger] text::two_digits(n)[i]),
{
    lemma_decimal_reads_back(n);
    let s = text::two_digits(n);
    reveal_with_fuel(digits_value, 3);
    if n < 10 {
        assert(s.drop_last() == seq!['0']);
        assert(s.drop_last().drop_last() == Seq::<char>::empty());
    } else {
        lemma_decimal_reads_back(n / 10);
        reveal_with_fuel(text::decimal, 2);
    }
}

/// Three digits read back as the number below a thousand.
pub proof fn lemma_three_digits_read_back(n: nat)
    requires
        n < 1000,
    ensures
        digits_value(text::three_digits(n)) == n,
        text::three_digits(n).len() == 3,
        forall|i: int|
            0 <= i < text::three_digits(n).len() ==> is_digit(#[trigger] text::three_digits(n)[i]),
{
    let s = text::three_digits(n);
    reveal_with_fuel(digits_value, 4);
    assert(s.drop_last() == seq![text::digit(n / 100 % 10), text::digit(n / 10 % 10)]);
    assert(s.drop_last().drop_last() == seq![text::digit(n / 100 % 10)]);
    assert(s.drop_last().drop_last().drop_last() == Seq::<char>::empty());
}

/// A text that starts with a digit or a point is no word.
proof fn lemma_no_word(s: Seq<char>)
    requires
        s.len() > 0,
        is_digit(s[0]) || s[0] == '.',
    ensures
        !same_word(s, "inf"@),
        !same_word(s, "infinity"@),
        !same_word(s, "nan"@),
{
    reveal_strlit("inf");
    reveal_strlit("infinity");
    reveal_strlit("nan");
    let low = s.map_values(|c: char| lower(c));
    assert(low[0] == s[0]);
}

/// Digits are read as the whole number that they stand for.
pub proof fn lemma_digits_are_read(s: Seq<char>)
    requires
        s.len() > 0,
        forall|i: int| 0 <= i < s.len() ==> is_digit(#[trigger] s[i]),
    ensures
        parsed(s) == Some(double::whole(digits_value(s))),
{
    assert(is_digit(s[0]));
    lemma_no_word(s);
    lemma_only_digits(s, Seq::empty());
    assert(s + Seq::<char>::empty() == s);
    assert(mantissa(s) == s);
    assert(s.skip(s.len() as int) == Seq::<char>::empty());
    let n = digits_value(s);
    assert(n * pow10(0) == n) by (nonlinear_arith)
        requires
            pow10(0) == 1,
    ;
}

/// A number in decimal is read as the number.
pub proof fn lemma_decimal_is_read(n: nat)
    ensures
        parsed(text::decimal(n)) == Some(double::whole(n)),
{
    lemma_decimal_reads_back(n);
    lemma_digits_are_read(text::decimal(n));
}

/// Digits with a point among them are read as the double nearest to the decimal fraction.
pub proof fn lemma_fraction_is_read(a: Seq<char>, b: Seq<char>)
    requires
        a.len() + b.len() > 0,
        forall|i: int| 0 <= i < a.len() ==> is_digit(#[trigger] a[i]),
        forall|i: int| 0 <= i < b.len() ==> is_digit(#[trigger] b[i]),
    ensures
        parsed(a.push('.') + b) == Some(
            double::fraction(digits_value(a + b), pow(10, b.len()) as nat),
        ),
        pow(10, b.len()) > 0,
{
    let s = a.push('.') + b;
    let after = seq!['.'] + b;
    assert(s == a + after);
    assert(s[0] == if a.len() > 0 {
        a[0]
    } else {
        '.'
    });
    if a.len() > 0 {
        assert(is_digit(a[0]));
    }
    lemma_no_word(s);
    lemma_only_digits(a, after);
    assert(s.skip(a.len() as int + 1) == b + Seq::<char>::empty());
    lemma_only_digits(b, Seq::empty());
    assert(has_point(s));
    assert(fraction_digits(s) == b.len());
    assert(s.take(a.len() as int) == a);
    assert(s.subrange(a.len() as int + 1, a.len() as int + 1 + b.len()) == b);
    assert(s.skip(mantissa_end(s) as int) == Seq::<char>::empty());
    lemma_pow10_is_power(b.len());
    let n = digits_value(a + b);
    if b.len() == 0 {
        assert(n * pow10(0) == n) by (nonlinear_arith)
            requires
                pow10(0) == 1,
        ;
    }
}

proof fn lemma_pow10_is_power(n: nat)
    ensures
        pow10(n) == pow(10, n),
        pow10(n) > 0,
    decreases n,
{
    if n == 0 {
        power::lemma_pow0(10);
    } else {
        lemma_pow10_is_power((n - 1) as nat);
        power::lemma_pow1(10);
        power::lemma_pow_adds(10, 1, (n - 1) as nat);
    }
}

/// A sign turns a number around, or leaves it as it is.
pub proof fn lemma_sign_is_read(s: Seq<char>)
    requires
        s.len() > 0,
        s[0] != '-',
        s[0] != '+',
    ensures
        parsed(seq!['+'] + s) == parsed(s),
        parsed(seq!['-'] + s) is Some <==> parsed(s) is Some,
        parsed(s) is Some ==> {
            let (d, e) = (parsed(s)->0, parsed(seq!['-'] + s)->0);
            &&& !d.negative()
            &&& e.negative()
            &&& e.is_nan() == d.is_nan()
            &&& e.magnitude() == d.magnitude()
        },
{
    let (p, m) = (seq!['+'] + s, seq!['-'] + s);
    assert(p.skip(1) == s && m.skip(1) == s);
    double::lemma_infinity(true);
    double::lemma_infinity(false);
    match scientific(s) {
        Some((n, e)) => {
            lemma_pow10_is_power(if e >= 0 {
                e as nat
            } else {
                (-e) as nat
            });
            lemma_decimal_double(false, n, e);
            lemma_decimal_double(true, n, e);
            if e >= 0 {
                double::lemma_rounded(false, n * pow10(e as nat) * double::unit(), 1);
                double::lemma_rounded(true, n * pow10(e as nat) * double::unit(), 1);
            } else {
                double::lemma_rounded(false, n * double::unit(), pow10((-e) as nat));
                double::lemma_rounded(true, n * double::unit(), pow10((-e) as nat));
            }
        },
        None => {},
    }
}

/// Of digits, points and commas only digits with at most one point among them are a number.
pub proof fn lemma_number_form(s: Seq<char>)
    requires
        parsed(s) is Some,
        forall|i: int|
            0 <= i < s.len() ==> is_digit(#[trigger] s[i]) || s[i] == '.' || s[i] == ',',
    ensures
        s.len() > 0,
        !s.contains(','),
        forall|i: int, j: int|
            0 <= i < s.len() && 0 <= j < s.len() && #[trigger] s[i] == '.' && #[trigger] s[j] == '.'
                ==> i == j,
        exists|i: int| 0 <= i < s.len() && is_digit(#[trigger] s[i]),
{
    reveal_strlit("inf");
    reveal_strlit("infinity");
    reveal_strlit("nan");
    let low = s.map_values(|c: char| lower(c));
    if s.len() > 0 {
        assert(is_digit(s[0]) || s[0] == '.' || s[0] == ',');
        assert(low[0] == s[0]);
    }
    assert(low.len() == s.len());
    assert(!same_word(s, "inf"@) && !same_word(s, "infinity"@) && !same_word(s, "nan"@));
    assert(scientific(s) is Some);
    let i = leading_digits(s) as int;
    lemma_leading_digits(s);
    lemma_leading_digits(s.skip(i + 1));
    let end = mantissa_end(s) as int;
    let rest = s.skip(end);
    if rest.len() > 0 {
        assert(rest[0] == s[end]);
    }
    assert(end == s.len());
    assert forall|k: int| 0 <= k < s.len() implies is_digit(#[trigger] s[k]) || (k == i && s[k]
        == '.') by {
        if k > i {
            assert(s.skip(i + 1)[k - i - 1] == s[k]);
        }
    }
    let m = mantissa(s);
    assert(m.len() > 0);
    if i > 0 {
        assert(is_digit(s[0]));
    } else {
        assert(s.skip(1)[0] == s[1]);
        assert(is_digit(s[1]));
    }
}

/// An exponent multiplies by a power of ten, or divides by one.
pub proof fn lemma_exponent_is_read(a: Seq<char>, k: nat)
    requires
        a.len() > 0,
        forall|i: int| 0 <= i < a.len() ==> is_digit(#[trigger] a[i]),
    ensures
        pow(10, k) > 0,
        parsed(a + seq!['e'] + text::decimal(k)) == Some(
            double::whole(digits_value(a) * pow(10, k) as nat),
        ),
        k > 0 ==> parsed(a + seq!['e', '-'] + text::decimal(k)) == Some(
            double::fraction(digits_value(a), pow(10, k) as nat),
        ),
{
    let d = text::decimal(k);
    lemma_decimal_reads_back(k);
    lemma_pow10_is_power(k);
    assert(is_digit(a[0]));
    let (up, down) = (seq!['e'] + d, seq!['e', '-'] + d);
    let (s, t) = (a + seq!['e'] + d, a + seq!['e', '-'] + d);
    assert(s == a + up && t == a + down);
    lemma_only_digits(a, up);
    lemma_only_digits(a, down);
    lemma_only_digits(d, Seq::empty());
    assert(d + Seq::<char>::empty() == d);
    lemma_no_word(s);
    lemma_no_word(t);
    assert(s[a.len() as int] == 'e' && t[a.len() as int] == 'e');
    assert(s.take(a.len() as int) == a && t.take(a.len() as int) == a);
    assert(s.skip(a.len() as int) == up && t.skip(a.len() as int) == down);
    assert(up.skip(1) == d);
    assert(down.skip(1) == seq!['-'] + d);
    assert(down.skip(1).skip(1) == d);
    assert(is_digit(d[0]));
}

/// Whether a character is a small letter or its capital.
pub open spec fn is_letter(c: char, small: char, capital: char) -> bool {
    c == small || c == capital
}

/// Whether a text spells out infinity or the value that is no number, in letters of either case.
pub open spec fn is_spelled_out(s: Seq<char>) -> (bool, bool) {
    let inf = s.len() >= 3 && is_letter(s[0], 'i', 'I') && is_letter(s[1], 'n', 'N') && is_letter(
        s[2],
        'f',
        'F',
    );
    let rest = s.len() == 8 && is_letter(s[3], 'i', 'I') && is_letter(s[4], 'n', 'N') && is_letter(
        s[5],
        'i',
        'I',
    ) && is_letter(s[6], 't', 'T') && is_letter(s[7], 'y', 'Y');
    let nan = s.len() == 3 && is_letter(s[0], 'n', 'N') && is_letter(s[1], 'a', 'A') && is_letter(
        s[2],
        'n',
        'N',
    );
    (inf && (s.len() == 3 || rest), nan)
}

/// A letter is a small letter of a word where it is that letter or its capital.
proof fn lemma_lower(c: char)
    ensures
        lower(c) == 'i' <==> is_letter(c, 'i', 'I'),
        lower(c) == 'n' <==> is_letter(c, 'n', 'N'),
        lower(c) == 'f' <==> is_letter(c, 'f', 'F'),
        lower(c) == 't' <==> is_letter(c, 't', 'T'),
        lower(c) == 'y' <==> is_letter(c, 'y', 'Y'),
        lower(c) == 'a' <==> is_letter(c, 'a', 'A'),
{
}

/// The words are told from other texts letter by letter.
proof fn lemma_spelled_out(s: Seq<char>)
    ensures
        (same_word(s, "inf"@) || same_word(s, "infinity"@)) == is_spelled_out(s).0,
        same_word(s, "nan"@) == is_spelled_out(s).1,
{
    reveal_strlit("inf");
    reveal_strlit("infinity");
    reveal_strlit("nan");
    let low = s.map_values(|c: char| lower(c));
    assert forall|i: int| 0 <= i < s.len() implies #[trigger] low[i] == lower(s[i]) by {}
    assert(low.len() == s.len());
    assert("inf"@.len() == 3 && "infinity"@.len() == 8 && "nan"@.len() == 3);
    if s.len() == 3 {
        lemma_lower(s[0]);
        lemma_lower(s[1]);
        lemma_lower(s[2]);
        if is_spelled_out(s).0 {
            assert(low =~= "inf"@);
        }
        if is_spelled_out(s).1 {
            assert(low =~= "nan"@);
        }
        assert(low[0] == lower(s[0]) && low[1] == lower(s[1]) && low[2] == lower(s[2]));
        assert("inf"@[0] == 'i' && "inf"@[1] == 'n' && "inf"@[2] == 'f');
        assert("nan"@[0] == 'n' && "nan"@[1] == 'a' && "nan"@[2] == 'n');
    } else if s.len() == 8 {
        lemma_lower(s[0]);
        lemma_lower(s[1]);
        lemma_lower(s[2]);
        lemma_lower(s[3]);
        lemma_lower(s[4]);
        lemma_lower(s[5]);
        lemma_lower(s[6]);
        lemma_lower(s[7]);
        let w = "infinity"@;
        assert(w[0] == 'i' && w[1] == 'n' && w[2] == 'f' && w[3] == 'i' && w[4] == 'n' && w[5]
            == 'i' && w[6] == 't' && w[7] == 'y');
        assert(low[0] == lower(s[0]) && low[1] == lower(s[1]) && low[2] == lower(s[2]) && low[3]
            == lower(s[3]) && low[4] == lower(s[4]) && low[5] == lower(s[5]) && low[6] == lower(
            s[6],
        ) && low[7] == lower(s[7]));
        if is_spelled_out(s).0 {
            assert(low =~= w);
        }
    }
}

/// A word is read as what it spells out, with the sign before it.
pub proof fn lemma_words_are_read(s: Seq<char>)
    requires
        is_spelled_out(s).0 || is_spelled_out(s).1,
    ensures
        parsed(s) matches Some(d) && d.is_nan() == is_spelled_out(s).1 && d.infinite()
            == is_spelled_out(s).0 && !d.negative(),
        parsed(seq!['+'] + s) == parsed(s),
        parsed(seq!['-'] + s) matches Some(d) && d.is_nan() == is_spelled_out(s).1 && d.infinite()
            == is_spelled_out(s).0 && d.negative(),
{
    lemma_spelled_out(s);
    assert((seq!['-'] + s).skip(1) == s);
    assert((seq!['+'] + s).skip(1) == s);
    assert(double::infinity(true).infinite() && double::infinity(false).infinite());
    assert(double::nan().is_nan());
    double::lemma_negated(double::nan());
}

/// What is read and does not spell a word out holds a digit, and besides digits only signs, points
/// and the letter of the exponent. It is a number of that sign, not one that is no number.
pub proof fn lemma_characters_of_numbers(s: Seq<char>)
    requires
        parsed(s) is Some,
        ({
            let rest = if s.len() > 0 && (s[0] == '+' || s[0] == '-') {
                s.skip(1)
            } else {
                s
            };
            !is_spelled_out(rest).0 && !is_spelled_out(rest).1
        }),
    ensures
        s.len() > 0,
        exists|i: int| 0 <= i < s.len() && is_digit(#[trigger] s[i]),
        forall|i: int|
            0 <= i < s.len() ==> is_digit(#[trigger] s[i]) || s[i] == '.' || s[i] == 'e' || s[i]
                == 'E' || s[i] == '+' || s[i] == '-',
        !(parsed(s)->0).is_nan(),
        (parsed(s)->0).negative() == (s[0] == '-'),
{
    let rest = unsigned(s);
    let from = s.len() - rest.len();
    lemma_spelled_out(rest);
    let n = leading_digits(rest) as int;
    lemma_leading_digits(rest);
    let end = mantissa_end(rest) as int;
    if has_point(rest) {
        lemma_leading_digits(rest.skip(n + 1));
    }
    let after = rest.skip(end);
    assert forall|i: int| 0 <= i < rest.len() implies rest[i] == #[trigger] s[i + from] by {}
    assert forall|i: int| 0 <= i < end implies is_digit(#[trigger] rest[i]) || rest[i] == '.' by {
        if i > n {
            assert(rest.skip(n + 1)[i - n - 1] == rest[i]);
        }
    }
    if after.len() > 0 {
        let digits = unsigned(after.skip(1));
        lemma_leading_digits(digits);
        let gone = after.len() - digits.len();
        assert forall|i: int| end <= i < rest.len() implies is_digit(#[trigger] rest[i]) || rest[i]
            == 'e' || rest[i] == 'E' || rest[i] == '+' || rest[i] == '-' by {
            assert(after[i - end] == rest[i]);
            if i - end >= gone {
                assert(digits[i - end - gone] == after[i - end]);
            } else if i - end == 1 {
                assert(after.skip(1)[0] == after[1]);
            }
        }
    }
    assert forall|i: int| 0 <= i < s.len() implies is_digit(#[trigger] s[i]) || s[i] == '.' || s[i]
        == 'e' || s[i] == 'E' || s[i] == '+' || s[i] == '-' by {
        if i >= from {
            assert(rest[i - from] == s[i]);
        }
    }
    if n > 0 {
        assert(is_digit(rest[0]) && rest[0] == s[0 + from]);
    } else {
        assert(has_point(rest) && fraction_digits(rest) > 0);
        assert(rest.skip(n + 1)[0] == rest[n + 1]);
        assert(is_digit(s[n + 1 + from]));
    }
    let (m, e) = scientific(rest)->0;
    lemma_decimal_double(signed(s).1, m, e);
}

} // verus!
