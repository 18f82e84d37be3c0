//! Text: numbers in decimal, and what the rest of the crate asks of strings.

use vstd::prelude::*;

verus! {

/// `String::push` of std appends one character.
pub assume_specification[ String::push ](s: &mut String, c: char)
    ensures
        final(s)@ == old(s)@.push(c),
;

/// The character of a decimal digit.
pub open spec fn digit(d: nat) -> char {
    ('0' as u8 + d) as char
}

/// A number in decimal, without leading zeros.
pub open spec fn decimal(n: nat) -> Seq<char>
    decreases n,
{
    if n < 10 {
        seq![digit(n)]
    } else {
        decimal(n / 10).push(digit(n % 10))
    }
}

/// A number in decimal, with a leading zero where it has one digit only.
pub open spec fn two_digits(n: nat) -> Seq<char> {
    if n < 10 {
        seq!['0', digit(n)]
    } else {
        decimal(n)
    }
}

/// The last three decimal digits of a number.
pub open spec fn three_digits(n: nat) -> Seq<char> {
    seq![digit(n / 100 % 10), digit(n / 10 % 10), digit(n % 10)]
}

/// A number in decimal holds digits only.
pub proof fn lemma_decimal_digits(n: nat)
    ensures
        decimal(n).len() > 0,
        forall|i: int|
            0 <= i < decimal(n).len() ==> '0' <= #[trigger] decimal(n)[i] && decimal(n)[i] <= '9',
    decreases n,
{
    if n >= 10 {
        lemma_decimal_digits(n / 10);
    }
}

/// Whether a text sorts before another: it has the smaller character at the first place where they
/// differ, or ends there.
pub open spec fn sorts_before(a: Seq<char>, b: Seq<char>) -> bool {
    exists|k: int| #[trigger] first_smaller(a, b, k)
}

/// Whether two texts are the same up to a place, and the first ends or is smaller there.
pub open spec fn first_smaller(a: Seq<char>, b: Seq<char>, k: int) -> bool {
    0 <= k <= a.len() && k < b.len() && a.take(k) == b.take(k) && (k == a.len() || a[k] < b[k])
}

/// A text with every `/` turned into `-`.
pub open spec fn without_slashes(text: Seq<char>) -> Seq<char> {
    text.map_values(
        |c: char|
            if c == '/' {
                '-'
            } else {
                c
            },
    )
}

/// How many bytes a character takes in UTF-8.
pub open spec fn byte_width(c: char) -> nat {
    if c as u32 <= 0x7f {
        1
    } else if c as u32 <= 0x7ff {
        2
    } else if c as u32 <= 0xffff {
        3
    } else {
        4
    }
}

/// How many bytes a text takes in UTF-8.
pub open spec fn byte_length(s: Seq<char>) -> nat
    decreases s.len(),
{
    if s.len() == 0 {
        0
    } else {
        byte_length(s.drop_last()) + byte_width(s.last())
    }
}

/// Whether the first `k` characters take `n` bytes.
pub open spec fn bytes_end_at(s: Seq<char>, n: nat, k: int) -> bool {
    0 <= k <= s.len() && byte_length(s.take(k)) == n
}

/// The first `n` bytes of a text, where they end at the end of a character.
pub open spec fn first_bytes(s: Seq<char>, n: nat) -> Option<Seq<char>> {
    if exists|k: int| bytes_end_at(s, n, k) {
        Some(s.take(choose|k: int| bytes_end_at(s, n, k)))
    } else {
        None
    }
}

/// White space, as Unicode has it.
pub open spec fn is_blank(c: char) -> bool {
    let u = c as u32;
    ||| 0x9 <= u <= 0xd
    ||| u == 0x20
    ||| u == 0x85
    ||| u == 0xa0
    ||| u == 0x1680
    ||| 0x2000 <= u <= 0x200a
    ||| u == 0x2028
    ||| u == 0x2029
    ||| u == 0x202f
    ||| u == 0x205f
    ||| u == 0x3000
}

/// A text without the white space around it.
pub open spec fn trimmed(s: Seq<char>) -> Seq<char>
    decreases s.len(),
{
    if s.len() > 0 && is_blank(s.first()) {
        trimmed(s.drop_first())
    } else if s.len() > 0 && is_blank(s.last()) {
        trimmed(s.drop_last())
    } else {
        s
    }
}

/// The characters of a text.
pub fn chars_of(text: &str) -> (r: Vec<char>)
    ensures
        r@ == text@,
{
    let mut out: Vec<char> = Vec::new();
    for c in it: text.chars()
        invariant
            out@ == it.seq().take(it.index()),
            it.seq() == text@,
    {
        out.push(c);
    }
    assert(text@.take(text@.len() as int) == text@);
    out
}

/// The text made of some of the characters.
pub fn text_of(chars: &Vec<char>, from: usize, to: usize) -> (r: String)
    requires
        from <= to <= chars@.len(),
    ensures
        r@ == chars@.subrange(from as int, to as int),
{
    let mut out = String::new();
    let mut i: usize = from;
    while i < to
        invariant
            from <= i <= to <= chars@.len(),
            out@ == chars@.subrange(from as int, i as int),
        decreases to - i,
    {
        out.push(chars[i]);
        proof {
            assert(chars@.subrange(from as int, i + 1) == chars@.subrange(from as int, i as int).push(
                chars@[i as int],
            ));
        }
        i = i + 1;
    }
    out
}

fn push_digit(out: &mut String, d: u8)
    requires
        d < 10,
    ensures
        final(out)@ == old(out)@.push(digit(d as nat)),
{
    out.push((48u8 + d) as char);
}

/// Appends a number in decimal.
pub fn push_decimal(out: &mut String, n: u128)
    ensures
        final(out)@ == old(out)@ + decimal(n as nat),
    decreases n,
{
    if n < 10 {
        push_digit(out, n as u8);
    } else {
        push_decimal(out, n / 10);
        push_digit(out, (n % 10) as u8);
    }
}

/// Appends a number in decimal, with at least two digits.
pub fn push_two_digits(out: &mut String, n: u64)
    ensures
        final(out)@ == old(out)@ + two_digits(n as nat),
{
    if n < 10 {
        out.push('0');
        push_digit(out, n as u8);
    } else {
        push_decimal(out, n as u128);
    }
}

/// Appends the last three decimal digits of a number.
pub fn push_three_digits(out: &mut String, n: u64)
    ensures
        final(out)@ == old(out)@ + three_digits(n as nat),
{
    push_digit(out, (n / 100 % 10) as u8);
    push_digit(out, (n / 10 % 10) as u8);
    push_digit(out, (n % 10) as u8);
}

/// Turns every `/` into `-`.
pub fn replace_slashes(text: &str) -> (r: String)
    ensures
        r@ == without_slashes(text@),
        r@.len() == text@.len(),
        forall|i: int|
            0 <= i < r@.len() ==> #[trigger] r@[i] == if text@[i] == '/' {
                '-'
            } else {
                text@[i]
            },
{
    let chars = chars_of(text);
    let mut out = String::new();
    let mut i: usize = 0;
    while i < chars.len()
        invariant
            i <= chars@.len(),
            chars@ == text@,
            out@ == without_slashes(text@).take(i as int),
        decreases chars@.len() - i,
    {
        let c: char = chars[i];
        if c == '/' {
            out.push('-');
        } else {
            out.push(c);
        }
        assert(without_slashes(text@).take(i + 1) == without_slashes(text@).take(i as int).push(
            without_slashes(text@)[i as int],
        ));
        i = i + 1;
    }
    assert(without_slashes(text@).take(i as int) == without_slashes(text@));
    out
}

fn blank(c: char) -> (r: bool)
    ensures
        r == is_blank(c),
{
    let u: u32 = c as u32;
    (0x9 <= u && u <= 0xd) || u == 0x20 || u == 0x85 || u == 0xa0 || u == 0x1680 || (0x2000 <= u
        && u <= 0x200a) || u == 0x2028 || u == 0x2029 || u == 0x202f || u == 0x205f || u == 0x3000
}

/// Takes the white space around a text away.
pub fn trim(text: &str) -> (r: String)
    ensures
        r@ == trimmed(text@),
        exists|i: int, j: int| #[trigger] trims_to(text@, r@, i, j),
{
    proof {
        lemma_trimmed(text@);
    }
    let chars = chars_of(text);
    let mut from: usize = 0;
    let mut to: usize = chars.len();
    assert(chars@.subrange(0, to as int) == text@);
    while from < to && blank(chars[from])
        invariant
            from <= to == chars@.len(),
            trimmed(chars@.subrange(from as int, to as int)) == trimmed(text@),
        decreases to - from,
    {
        assert(chars@.subrange(from as int, to as int).drop_first() == chars@.subrange(
            from + 1,
            to as int,
        ));
        from = from + 1;
    }
    while from < to && blank(chars[to - 1])
        invariant
            from <= to <= chars@.len(),
            trimmed(chars@.subrange(from as int, to as int)) == trimmed(text@),
            from < to ==> !is_blank(chars@[from as int]),
        decreases to - from,
    {
        assert(chars@.subrange(from as int, to as int).drop_last() == chars@.subrange(
            from as int,
            to - 1,
        ));
        to = to - 1;
    }
    text_of(&chars, from, to)
}

proof fn lemma_byte_length_grows(s: Seq<char>, k: int, m: int)
    requires
        0 <= k < m <= s.len(),
    ensures
        byte_length(s.take(k)) < byte_length(s.take(m)),
    decreases m - k,
{
    assert(s.take(m).drop_last() == s.take(m - 1));
    if k < m - 1 {
        lemma_byte_length_grows(s, k, m - 1);
    }
}

/// The first `n` bytes of the characters from `from` on; `None` where there are fewer, or where
/// they end within a character.
pub fn byte_prefix(chars: &Vec<char>, from: usize, n: usize) -> (r: Option<String>)
    requires
        from <= chars@.len(),
    ensures
        r is Some <==> first_bytes(chars@.skip(from as int), n as nat) is Some,
        r matches Some(p) ==> first_bytes(chars@.skip(from as int), n as nat) == Some(p@),
{
    let ghost s = chars@.skip(from as int);
    let mut bytes: usize = 0;
    let mut to: usize = from;
    assert(s.take(0) == Seq::<char>::empty());
    while bytes < n && to < chars.len()
        invariant
            from <= to <= chars@.len(),
            s == chars@.skip(from as int),
            bytes == byte_length(s.take(to - from)),
            bytes <= n,
        decreases chars@.len() - to,
    {
        let u: u32 = chars[to] as u32;
        let width: usize = if u <= 0x7f {
            1
        } else if u <= 0x7ff {
            2
        } else if u <= 0xffff {
            3
        } else {
            4
        };
        assert(s.take(to - from + 1).drop_last() == s.take(to - from));
        assert(s.take(to - from + 1).last() == chars@[to as int]);
        if width > n - bytes {
            proof {
                assert forall|k: int| !bytes_end_at(s, n as nat, k) by {
                    if 0 <= k < to - from {
                        lemma_byte_length_grows(s, k, to - from);
                    } else if to - from + 1 < k <= s.len() {
                        lemma_byte_length_grows(s, to - from + 1, k);
                    }
                }
            }
            return None;
        }
        bytes = bytes + width;
        to = to + 1;
    }
    if bytes < n {
        proof {
            assert forall|k: int| !bytes_end_at(s, n as nat, k) by {
                if 0 <= k < to - from {
                    lemma_byte_length_grows(s, k, to - from);
                }
            }
        }
        return None;
    }
    proof {
        assert(bytes_end_at(s, n as nat, to - from));
        lemma_byte_prefix_unique(
            s,
            n as nat,
            to - from,
            choose|k: int| bytes_end_at(s, n as nat, k),
        );
    }
    assert(chars@.subrange(from as int, to as int) == s.take(to - from));
    Some(text_of(chars, from, to))
}

/// No two prefixes of a text take the same number of bytes.
proof fn lemma_byte_prefix_unique(s: Seq<char>, n: nat, k: int, m: int)
    requires
        bytes_end_at(s, n, k),
        bytes_end_at(s, n, m),
    ensures
        k == m,
{
    if k < m {
        lemma_byte_length_grows(s, k, m);
    } else if m < k {
        lemma_byte_length_grows(s, m, k);
    }
}

/// Characters of one byte each are not enough for more bytes than they are.
pub proof fn lemma_too_few_bytes(s: Seq<char>, n: nat)
    requires
        n > s.len(),
        forall|i: int| 0 <= i < s.len() ==> (#[trigger] s[i]) as u32 <= 0x7f,
    ensures
        first_bytes(s, n) is None,
{
    assert forall|k: int| !bytes_end_at(s, n, k) by {
        if 0 <= k <= s.len() {
            lemma_ascii_length(s, k as nat);
        }
    }
}

/// As many bytes of characters of one byte each are as many characters.
pub proof fn lemma_ascii_bytes(s: Seq<char>, n: nat)
    requires
        n <= s.len(),
        forall|i: int| 0 <= i < n ==> (#[trigger] s[i]) as u32 <= 0x7f,
    ensures
        first_bytes(s, n) == Some(s.take(n as int)),
{
    lemma_ascii_length(s, n);
    assert(bytes_end_at(s, n, n as int));
    let k = choose|k: int| bytes_end_at(s, n, k);
    lemma_byte_prefix_unique(s, n, k, n as int);
}

proof fn lemma_ascii_length(s: Seq<char>, n: nat)
    requires
        n <= s.len(),
        forall|i: int| 0 <= i < n ==> (#[trigger] s[i]) as u32 <= 0x7f,
    ensures
        byte_length(s.take(n as int)) == n,
    decreases n,
{
    if n > 0 {
        lemma_ascii_length(s, (n - 1) as nat);
        assert(s.take(n as int).drop_last() == s.take(n - 1));
        assert(s.take(n as int).last() == s[n - 1]);
    }
}

/// Whether a text without white space around it stands between two places of another that has
/// nothing but white space before and behind them.
pub open spec fn trims_to(s: Seq<char>, t: Seq<char>, i: int, j: int) -> bool {
    &&& 0 <= i <= j <= s.len()
    &&& t == s.subrange(i, j)
    &&& forall|k: int| 0 <= k < i ==> is_blank(#[trigger] s[k])
    &&& forall|k: int| j <= k < s.len() ==> is_blank(#[trigger] s[k])
    &&& i < j ==> !is_blank(s[i]) && !is_blank(s[j - 1])
}

proof fn lemma_trim_front(s: Seq<char>, r: Seq<char>, i: int, j: int)
    requires
        s.len() > 0,
        is_blank(s[0]),
        trims_to(s.drop_first(), r, i, j),
    ensures
        trims_to(s, r, i + 1, j + 1),
{
    let t = s.drop_first();
    assert(t.subrange(i, j) == s.subrange(i + 1, j + 1));
    assert forall|k: int| 0 <= k < i + 1 implies is_blank(#[trigger] s[k]) by {
        if k > 0 {
            assert(t[k - 1] == s[k]);
        }
    }
    assert forall|k: int| j + 1 <= k < s.len() implies is_blank(#[trigger] s[k]) by {
        assert(t[k - 1] == s[k]);
    }
    if i < j {
        assert(t[i] == s[i + 1] && t[j - 1] == s[j]);
    }
}

proof fn lemma_trim_back(s: Seq<char>, r: Seq<char>, i: int, j: int)
    requires
        s.len() > 0,
        is_blank(s[s.len() - 1]),
        trims_to(s.drop_last(), r, i, j),
    ensures
        trims_to(s, r, i, j),
{
    let t = s.drop_last();
    assert(t.subrange(i, j) == s.subrange(i, j));
    assert forall|k: int| 0 <= k < i implies is_blank(#[trigger] s[k]) by {
        assert(t[k] == s[k]);
    }
    assert forall|k: int| j <= k < s.len() implies is_blank(#[trigger] s[k]) by {
        if k < s.len() - 1 {
            assert(t[k] == s[k]);
        }
    }
    if i < j {
        assert(t[i] == s[i] && t[j - 1] == s[j - 1]);
    }
}

/// White space is taken away from both ends, and nothing else is.
pub proof fn lemma_trimmed(s: Seq<char>)
    ensures
        exists|i: int, j: int| #[trigger] trims_to(s, trimmed(s), i, j),
    decreases s.len(),
{
    if s.len() > 0 && is_blank(s.first()) {
        let t = s.drop_first();
        lemma_trimmed(t);
        let (i, j) = choose|i: int, j: int| #[trigger] trims_to(t, trimmed(t), i, j);
        lemma_trim_front(s, trimmed(t), i, j);
        assert(trims_to(s, trimmed(s), i + 1, j + 1));
    } else if s.len() > 0 && is_blank(s.last()) {
        let t = s.drop_last();
        lemma_trimmed(t);
        let (i, j) = choose|i: int, j: int| #[trigger] trims_to(t, trimmed(t), i, j);
        lemma_trim_back(s, trimmed(t), i, j);
        assert(trims_to(s, trimmed(s), i, j));
    } else {
        assert(s.subrange(0, s.len() as int) == s);
        assert(trimmed(s) == s);
        assert(trims_to(s, trimmed(s), 0, s.len() as int));
    }
}

/// The bytes of a character and of texts behind one another, and what a start of so many bytes is.
pub proof fn lemma_bytes(c: char, s: Seq<char>, n: nat)
    ensures
        byte_length(s.push(c)) == byte_length(s) + if c <= '\u{7f}' {
            1nat
        } else if c <= '\u{7ff}' {
            2
        } else if c <= '\u{ffff}' {
            3
        } else {
            4
        },
        byte_length(Seq::empty()) == 0,
        first_bytes(s, n) matches Some(p) ==> p.len() <= s.len() && p == s.take(p.len() as int)
            && byte_length(p) == n,
        first_bytes(s, n) is None ==> forall|k: int|
            0 <= k <= s.len() ==> byte_length(#[trigger] s.take(k)) != n,
{
    assert(s.push(c).drop_last() == s);
    if exists|k: int| bytes_end_at(s, n, k) {
        let k = choose|k: int| bytes_end_at(s, n, k);
        assert(s.take(k).len() == k);
    } else {
        assert forall|k: int| 0 <= k <= s.len() implies byte_length(#[trigger] s.take(k)) != n by {
            assert(!bytes_end_at(s, n, k));
        }
    }
}

/// The white space is the blank, the control characters from tab to carriage return, the next line,
/// and the spaces and separators of Unicode: twenty-five characters in all, no others.
pub proof fn lemma_white_space(c: char)
    ensures
        is_blank(c) <==> seq![
            '\t', '\n', '\u{b}', '\u{c}', '\r', ' ', '\u{85}', '\u{a0}', '\u{1680}',
            '\u{2000}', '\u{2001}', '\u{2002}', '\u{2003}', '\u{2004}', '\u{2005}',
            '\u{2006}', '\u{2007}', '\u{2008}', '\u{2009}', '\u{200a}', '\u{2028}',
            '\u{2029}', '\u{202f}', '\u{205f}', '\u{3000}',
        ].contains(c),
{
    let all = seq![
        '\t', '\n', '\u{b}', '\u{c}', '\r', ' ', '\u{85}', '\u{a0}', '\u{1680}',
        '\u{2000}', '\u{2001}', '\u{2002}', '\u{2003}', '\u{2004}', '\u{2005}',
        '\u{2006}', '\u{2007}', '\u{2008}', '\u{2009}', '\u{200a}', '\u{2028}',
        '\u{2029}', '\u{202f}', '\u{205f}', '\u{3000}',
    ];
    let at = |u: int|
        if 0x9 <= u <= 0xd {
            u - 0x9
        } else if u == 0x20 {
            5
        } else if u == 0x85 {
            6
        } else if u == 0xa0 {
            7
        } else if u == 0x1680 {
            8
        } else if 0x2000 <= u <= 0x200a {
            u - 0x2000 + 9
        } else if u == 0x2028 {
            20
        } else if u == 0x2029 {
            21
        } else if u == 0x202f {
            22
        } else if u == 0x205f {
            23
        } else {
            24
        };
    if is_blank(c) {
        assert(all[at(c as u32 as int)] == c);
    }
    if all.contains(c) {
        let i = choose|i: int| 0 <= i < all.len() && all[i] == c;
        assert(all[i] == c);
    }
}

} // verus!
