//! Decimal numbers: how a count is written, and how a date key is read.

use vstd::prelude::*;

verus! {

/// The character that stands for the digit `d`.
pub open spec fn digit_char(d: nat) -> char {
    if d == 0 {
        '0'
    } else if d == 1 {
        '1'
    } else if d == 2 {
        '2'
    } else if d == 3 {
        '3'
    } else if d == 4 {
        '4'
    } else if d == 5 {
        '5'
    } else if d == 6 {
        '6'
    } else if d == 7 {
        '7'
    } else if d == 8 {
        '8'
    } else {
        '9'
    }
}

/// `n` written in decimal, without leading zeros.
pub open spec fn decimal(n: nat) -> Seq<char>
    decreases n,
{
    if n < 10 {
        seq![digit_char(n)]
    } else {
        decimal(n / 10).push(digit_char(n % 10))
    }
}

/// Whether `c` is one of the ten decimal digits.
pub open spec fn is_digit(c: char) -> bool {
    '0' <= c && c <= '9'
}

/// The digit that `c` stands for.
pub open spec fn digit_value(c: char) -> nat {
    (c as nat - '0' as nat) as nat
}

/// Whether `s` holds decimal digits only.
pub open spec fn all_digits(s: Seq<char>) -> bool {
    forall|i: int| 0 <= i < s.len() ==> is_digit(#[trigger] s[i])
}

/// The number that a sequence of decimal digits stands for.
pub open spec fn digits_value(s: Seq<char>) -> nat
    decreases s.len(),
{
    if s.len() == 0 {
        0
    } else {
        digits_value(s.drop_last()) * 10 + digit_value(s.last())
    }
}

/// `s` without a leading plus sign.
pub open spec fn unsigned_part(s: Seq<char>) -> Seq<char> {
    if s.len() > 0 && s[0] == '+' {
        s.drop_first()
    } else {
        s
    }
}

/// The number that `s` stands for: an optional plus sign, then one or more
/// decimal digits and nothing else, with a value that `usize` can hold.
pub open spec fn parsed(s: Seq<char>) -> Option<nat> {
    let digits = unsigned_part(s);
    if digits.len() > 0 && all_digits(digits) && digits_value(digits) <= usize::MAX {
        Some(digits_value(digits))
    } else {
        None
    }
}

fn digit(d: usize) -> (c: char)
    requires
        d < 10,
    ensures
        c == digit_char(d as nat),
{
    if d == 0 {
        '0'
    } else if d == 1 {
        '1'
    } else if d == 2 {
        '2'
    } else if d == 3 {
        '3'
    } else if d == 4 {
        '4'
    } else if d == 5 {
        '5'
    } else if d == 6 {
        '6'
    } else if d == 7 {
        '7'
    } else if d == 8 {
        '8'
    } else {
        '9'
    }
}

fn digit_of(c: char) -> (d: usize)
    requires
        is_digit(c),
    ensures
        d == digit_value(c),
        d < 10,
{
    if c == '0' {
        0
    } else if c == '1' {
        1
    } else if c == '2' {
        2
    } else if c == '3' {
        3
    } else if c == '4' {
        4
    } else if c == '5' {
        5
    } else if c == '6' {
        6
    } else if c == '7' {
        7
    } else if c == '8' {
        8
    } else {
        9
    }
}

/// Appends `n`, written in decimal, to `out`.
pub fn push_decimal(out: &mut String, n: usize)
    ensures
        final(out)@ == old(out)@ + decimal(n as nat),
    decreases n,
{
    if n < 10 {
        out.push(digit(n));
        assert(out@ =~= old(out)@ + decimal(n as nat));
    } else {
        push_decimal(out, n / 10);
        out.push(digit(n % 10));
        assert(out@ =~= old(out)@ + decimal(n as nat));
    }
}

/// `n` written in decimal.
pub fn to_decimal(n: usize) -> (s: String)
    ensures
        s@ == decimal(n as nat),
{
    let mut s = String::new();
    push_decimal(&mut s, n);
    assert(s@ =~= decimal(n as nat));
    s
}

/// With one more digit the value does not shrink.
proof fn lemma_digits_value_grows(s: Seq<char>, k: int)
    requires
        0 <= k <= s.len(),
    ensures
        digits_value(s.take(k)) <= digits_value(s),
    decreases s.len() - k,
{
    if k < s.len() {
        lemma_digits_value_grows(s, k + 1);
        assert(s.take(k + 1).drop_last() =~= s.take(k));
    } else {
        assert(s.take(k) =~= s);
    }
}

/// The number that `chars` stands for, if it stands for one.
pub fn parse_chars(chars: &Vec<char>) -> (r: Option<usize>)
    ensures
        r is Some <==> parsed(chars@) is Some,
        r matches Some(n) ==> parsed(chars@) == Some(n as nat),
{
    let n = chars.len();
    let start: usize = if n > 0 && chars[0] == '+' {
        1
    } else {
        0
    };
    let ghost digits = unsigned_part(chars@);
    assert(digits =~= chars@.subrange(start as int, n as int));
    if start == n {
        return None;
    }
    let mut value: usize = 0;
    let mut i: usize = start;
    while i < n
        invariant
            start <= i <= n == chars.len(),
            digits == chars@.subrange(start as int, n as int),
            digits == unsigned_part(chars@),
            all_digits(digits.take(i - start)),
            value == digits_value(digits.take(i - start)),
        decreases n - i,
    {
        let c = chars[i];
        let ghost k = i - start;
        assert(digits[k] == c);
        if !('0' <= c && c <= '9') {
            assert(!is_digit(digits[k]));
            return None;
        }
        let d = digit_of(c);
        proof {
            assert(digits.take(k + 1).drop_last() =~= digits.take(k));
            assert(digits.take(k + 1).last() == c);
            assert forall|j: int| 0 <= j < k + 1 implies is_digit(
                #[trigger] digits.take(k + 1)[j],
            ) by {
                if j < k {
                    assert(digits.take(k)[j] == digits.take(k + 1)[j]);
                }
            }
            lemma_digits_value_grows(digits, k + 1);
        }
        assert(digits_value(digits.take(k + 1)) == value * 10 + d);
        if value > (usize::MAX - d) / 10 {
            return None;
        }
        value = value * 10 + d;
        i += 1;
    }
    assert(digits.take(n - start) =~= digits);
    Some(value)
}

} // verus!
