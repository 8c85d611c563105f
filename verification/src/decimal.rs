//! Decimal text of unsigned integers, written and read as the standard
//! library writes (`to_string`) and reads (`parse`) them.

use vstd::prelude::*;
use crate::text::chars_of;

verus! {

/// The character of the decimal digit `d`.
pub open spec fn digit_char(d: nat) -> char {
    (48 + d) as char
}

/// A character `'0'` to `'9'`.
pub open spec fn is_digit(c: char) -> bool {
    '0' <= c && c <= '9'
}

/// The value of a decimal digit character.
pub open spec fn digit_value(c: char) -> nat {
    (c as u32 - 48) as nat
}

/// The decimal text of `n`: no sign and no leading zero (`"0"` for zero).
pub open spec fn decimal(n: nat) -> Seq<char>
    decreases n,
{
    if n < 10 {
        seq![digit_char(n)]
    } else {
        decimal(n / 10).push(digit_char(n % 10))
    }
}

/// The value of a sequence of decimal digits (zero for the empty sequence).
pub open spec fn digits_value(s: Seq<char>) -> nat
    decreases s.len(),
{
    if s.len() == 0 {
        0
    } else {
        digits_value(s.drop_last()) * 10 + digit_value(s.last())
    }
}

/// Every character of `s` is a decimal digit.
pub open spec fn all_digits(s: Seq<char>) -> bool {
    forall|i: int| 0 <= i < s.len() ==> is_digit(#[trigger] s[i])
}

/// The digits of an unsigned number's text: the text without one leading `'+'`.
pub open spec fn unsigned_digits(s: Seq<char>) -> Seq<char> {
    if s.len() > 0 && s[0] == '+' {
        s.drop_first()
    } else {
        s
    }
}

/// What the standard library's `parse` gives for an unsigned integer type
/// whose largest value is `max`: an optional `'+'`, then at least one decimal
/// digit and nothing else, of a value no more than `max`.
pub open spec fn parsed_unsigned(s: Seq<char>, max: nat) -> Option<nat> {
    let d = unsigned_digits(s);
    if d.len() > 0 && all_digits(d) && digits_value(d) <= max {
        Some(digits_value(d))
    } else {
        None
    }
}

/// Appends the decimal text of `n` to `out`.
pub fn push_decimal(out: &mut String, n: u64)
    ensures
        final(out)@ == old(out)@ + decimal(n as nat),
    decreases n,
{
    if n >= 10 {
        push_decimal(out, n / 10);
    }
    let d: u8 = (n % 10) as u8;
    let c: char = (48u8 + d) as char;
    out.push(c);
}

/// The decimal text of `n`, as `n.to_string()` writes it.
pub fn decimal_string(n: u64) -> (out: String)
    ensures
        out@ == decimal(n as nat),
{
    let mut out = String::new();
    push_decimal(&mut out, n);
    assert(out@ =~= decimal(n as nat));
    out
}

proof fn lemma_digits_value_grows(s: Seq<char>, c: char)
    requires
        is_digit(c),
    ensures
        digits_value(s.push(c)) == digits_value(s) * 10 + digit_value(c),
        digits_value(s.push(c)) >= digits_value(s),
{
    assert(s.push(c).drop_last() == s);
}

proof fn lemma_digits_value_prefix(s: Seq<char>, i: int)
    requires
        0 <= i <= s.len(),
        all_digits(s),
    ensures
        digits_value(s.take(i)) <= digits_value(s),
    decreases s.len() - i,
{
    if i < s.len() {
        assert(s.take(i + 1) == s.take(i).push(s[i]));
        lemma_digits_value_grows(s.take(i), s[i]);
        lemma_digits_value_prefix(s, i + 1);
    } else {
        assert(s.take(i) == s);
    }
}

/// Reads the decimal digits `d` (at least one, all digits) as a value no more
/// than `max`, or `None` when the value is greater.
fn digits_to_u64(d: &Vec<char>, start: usize, max: u64) -> (out: Option<u64>)
    requires
        start < d@.len(),
        all_digits(d@.skip(start as int)),
    ensures
        out == (if digits_value(d@.skip(start as int)) <= max {
            Some(digits_value(d@.skip(start as int)) as u64)
        } else {
            None::<u64>
        }),
{
    let ghost s = d@.skip(start as int);
    let n = d.len();
    let mut acc: u64 = 0;
    let mut i = start;
    while i < n
        invariant
            start <= i <= n,
            n == d@.len(),
            s == d@.skip(start as int),
            all_digits(s),
            acc as nat == digits_value(s.take(i - start)),
            acc <= max,
        decreases n - i,
    {
        let c = d[i];
        assert(c == s[i - start]);
        let v: u64 = (c as u32 - 48) as u64;
        assert(s.take(i - start + 1) == s.take(i - start).push(c));
        proof {
            lemma_digits_value_grows(s.take(i - start), c);
        }
        if v > max || acc > (max - v) / 10 {
            proof {
                assert(acc * 10 + v > max) by (nonlinear_arith)
                    requires
                        v > max || acc > (max - v) / 10,
                        v <= max ==> acc > (max - v) / 10,
                ;
                lemma_digits_value_prefix(s, i - start + 1);
            }
            return None;
        }
        proof {
            assert(acc * 10 + v <= max) by (nonlinear_arith)
                requires
                    acc <= (max - v) / 10,
                    v <= max,
            ;
        }
        acc = acc * 10 + v;
        i = i + 1;
    }
    assert(s.take(n - start) == s);
    Some(acc)
}

/// Parses the characters `chars` as the standard library parses an unsigned
/// integer type whose largest value is `max`.
pub fn parse_chars(chars: &Vec<char>, max: u64) -> (out: Option<u64>)
    ensures
        out == (match parsed_unsigned(chars@, max as nat) {
            Some(v) => Some(v as u64),
            None => None::<u64>,
        }),
{
    let n = chars.len();
    let start: usize = if n > 0 && chars[0] == '+' { 1 } else { 0 };
    assert(unsigned_digits(chars@) == chars@.skip(start as int));
    if start >= n {
        return None;
    }
    let mut i = start;
    while i < n
        invariant
            start <= i <= n,
            n == chars@.len(),
            unsigned_digits(chars@) == chars@.skip(start as int),
            forall|k: int| start <= k < i ==> is_digit(#[trigger] chars@[k]),
        decreases n - i,
    {
        if !(chars[i] >= '0' && chars[i] <= '9') {
            assert(!is_digit(chars@.skip(start as int)[i - start]));
            return None;
        }
        i = i + 1;
    }
    assert(all_digits(chars@.skip(start as int)));
    digits_to_u64(chars, start, max)
}

/// Parses `s` as the standard library parses an unsigned integer type whose
/// largest value is `max`.
fn parse_bounded(s: &str, max: u64) -> (out: Option<u64>)
    ensures
        out == (match parsed_unsigned(s@, max as nat) {
            Some(v) => Some(v as u64),
            None => None::<u64>,
        }),
{
    let chars = chars_of(s);
    parse_chars(&chars, max)
}

/// Parses `s` as `s.parse::<u64>()` does; `None` where that is an error.
pub fn parse_u64(s: &str) -> (out: Option<u64>)
    ensures
        out == (match parsed_unsigned(s@, u64::MAX as nat) {
            Some(v) => Some(v as u64),
            None => None::<u64>,
        }),
{
    parse_bounded(s, u64::MAX)
}

/// Parses `s` as `s.parse::<usize>()` does; `None` where that is an error.
pub fn parse_usize(s: &str) -> (out: Option<usize>)
    ensures
        out == (match parsed_unsigned(s@, usize::MAX as nat) {
            Some(v) => Some(v as usize),
            None => None::<usize>,
        }),
{
    match parse_bounded(s, usize::MAX as u64) {
        Some(v) => Some(v as usize),
        None => None,
    }
}

/// The decimal text of a number consists of digits, and reading it back
/// gives the number.
pub proof fn decimal_reads_back(n: nat)
    ensures
        decimal(n).len() > 0,
        all_digits(decimal(n)),
        digits_value(decimal(n)) == n,
        decimal(n)[0] != '+',
    decreases n,
{
    if n < 10 {
        assert(decimal(n).drop_last() =~= Seq::<char>::empty());
        assert(digit_value(digit_char(n)) == n);
        assert(digits_value(decimal(n)) == digits_value(Seq::<char>::empty()) * 10 + digit_value(digit_char(n)));
    } else {
        decimal_reads_back(n / 10);
        let p = decimal(n / 10);
        lemma_digits_value_grows(p, digit_char(n % 10));
        assert(decimal(n).drop_last() == p);
        assert forall|i: int| 0 <= i < decimal(n).len() implies is_digit(#[trigger] decimal(n)[i]) by {
            if i < p.len() {
                assert(decimal(n)[i] == p[i]);
            }
        }
        assert(n == (n / 10) * 10 + n % 10) by (nonlinear_arith);
        assert(digit_value(digit_char(n % 10)) == n % 10);
        assert(decimal(n) == p.push(digit_char(n % 10)));
    }
}

/// Parsing the decimal text of a value that fits gives back the value.
pub proof fn parse_reads_decimal(n: nat, max: nat)
    requires
        n <= max,
    ensures
        parsed_unsigned(decimal(n), max) == Some(n),
{
    decimal_reads_back(n);
}

} // verus!
