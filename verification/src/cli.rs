//! Command-line values.

use vstd::prelude::*;
use vstd::string::*;

use crate::text::{decimal_digits, digit_char, push_decimal};

verus! {

/// The value of a digit in radix 10 or 16.
pub open spec fn digit_value(c: char, radix: int) -> Option<int> {
    let v = c as int;
    if 48 <= v <= 57 {
        Some(v - 48)
    } else if radix == 16 && 97 <= v <= 102 {
        Some(v - 97 + 10)
    } else if radix == 16 && 65 <= v <= 70 {
        Some(v - 65 + 10)
    } else {
        None
    }
}

/// The value of a sequence of digits.
pub open spec fn digits_value(s: Seq<char>, radix: int) -> int
    decreases s.len(),
{
    if s.len() == 0 {
        0
    } else {
        digits_value(s.drop_last(), radix) * radix + digit_value(s.last(), radix)->0
    }
}

/// Length of the longest prefix that consists of digits.
pub open spec fn digit_run(s: Seq<char>, radix: int) -> int
    decreases s.len(),
{
    if s.len() == 0 {
        0
    } else if digit_run(s.drop_last(), radix) == s.len() - 1 && digit_value(s.last(), radix) is Some {
        s.len() as int
    } else {
        digit_run(s.drop_last(), radix)
    }
}

/// Why a text is no number.
#[derive(Clone, Copy, Debug, PartialEq, Eq, Structural)]
pub enum NumberError {
    Empty,
    InvalidDigit,
    TooLarge,
}

/// The message for the user.
pub open spec fn error_text(e: NumberError) -> Seq<char> {
    match e {
        NumberError::Empty => "cannot parse integer from empty string"@,
        NumberError::InvalidDigit => "invalid digit found in string"@,
        NumberError::TooLarge => "number too large to fit in target type"@,
    }
}

/// A text without its plus sign; a sign alone stays.
pub open spec fn unsigned(s: Seq<char>) -> Seq<char> {
    if s.len() > 1 && s[0] == '+' {
        s.skip(1)
    } else {
        s
    }
}

/// The number that a text denotes: an optional plus sign, then digits. Digits
/// that exceed 64 bits are reported before a wrong character after them.
pub open spec fn number(s: Seq<char>, radix: int) -> Result<u64, NumberError> {
    let body = unsigned(s);
    let run = digit_run(body, radix);
    if s.len() == 0 {
        Err(NumberError::Empty)
    } else if digits_value(body.take(run), radix) > u64::MAX {
        Err(NumberError::TooLarge)
    } else if run < body.len() {
        Err(NumberError::InvalidDigit)
    } else {
        Ok(digits_value(body, radix) as u64)
    }
}

/// Whether a text announces a hexadecimal number.
pub open spec fn hex_prefixed(s: Seq<char>) -> bool {
    s.len() >= 2 && s[0] == '0' && (s[1] == 'x' || s[1] == 'X')
}

/// The number that a command-line value denotes: hexadecimal after `0x`, else
/// decimal.
pub open spec fn hex_or_dec(s: Seq<char>) -> Result<u64, NumberError> {
    if hex_prefixed(s) {
        number(s.skip(2), 16)
    } else {
        number(s, 10)
    }
}

proof fn lemma_digit_run_bounded(s: Seq<char>, radix: int)
    ensures
        0 <= digit_run(s, radix) <= s.len(),
    decreases s.len(),
{
    if s.len() > 0 {
        lemma_digit_run_bounded(s.drop_last(), radix);
    }
}

proof fn lemma_digit_run_prefix(s: Seq<char>, radix: int, k: int)
    requires
        0 <= k <= s.len(),
        digit_run(s.take(k), radix) < k,
    ensures
        digit_run(s, radix) == digit_run(s.take(k), radix),
    decreases s.len(),
{
    if k < s.len() {
        let t = s.drop_last();
        assert(t.take(k) =~= s.take(k));
        lemma_digit_run_prefix(t, radix, k);
    } else {
        assert(s.take(k) =~= s);
    }
}

proof fn lemma_digit_run_at_least(s: Seq<char>, radix: int, k: int)
    requires
        0 <= k <= s.len(),
        digit_run(s.take(k), radix) == k,
    ensures
        digit_run(s, radix) >= k,
    decreases s.len(),
{
    if k < s.len() {
        let t = s.drop_last();
        assert(t.take(k) =~= s.take(k));
        lemma_digit_run_at_least(t, radix, k);
    } else {
        assert(s.take(k) =~= s);
    }
}

proof fn lemma_digits_value_grows(s: Seq<char>, radix: int, k: int, n: int)
    requires
        radix == 10 || radix == 16,
        0 <= k <= n <= s.len(),
        forall|i: int| 0 <= i < n ==> digit_value(#[trigger] s[i], radix) is Some,
    ensures
        0 <= digits_value(s.take(k), radix) <= digits_value(s.take(n), radix),
    decreases n,
{
    if k < n {
        lemma_digits_value_grows(s, radix, k, n - 1);
        assert(s.take(n).drop_last() =~= s.take(n - 1));
        assert(digit_value(s[n - 1], radix) is Some);
    } else if n > 0 {
        lemma_digits_value_grows(s, radix, n - 1, n - 1);
        assert(s.take(n).drop_last() =~= s.take(n - 1));
        assert(digit_value(s[n - 1], radix) is Some);
    }
}

proof fn lemma_digit_run_digits(s: Seq<char>, radix: int, i: int)
    requires
        0 <= i < digit_run(s, radix),
    ensures
        i < s.len(),
        digit_value(s[i], radix) is Some,
    decreases s.len(),
{
    if s.len() > 0 {
        let t = s.drop_last();
        lemma_digit_run_bounded(t, radix);
        if i < digit_run(t, radix) {
            lemma_digit_run_digits(t, radix, i);
            assert(t[i] == s[i]);
        }
    }
}

fn read_digit(c: char, radix: u32) -> (r: Option<u32>)
    requires
        radix == 10 || radix == 16,
    ensures
        r is Some <==> digit_value(c, radix as int) is Some,
        r matches Some(d) ==> d == digit_value(c, radix as int)->0 && d < radix,
{
    let v: u32 = c as u32;
    if 48 <= v && v <= 57 {
        Some(v - 48)
    } else if radix == 16 && 97 <= v && v <= 102 {
        Some(v - 97 + 10)
    } else if radix == 16 && 65 <= v && v <= 70 {
        Some(v - 65 + 10)
    } else {
        None
    }
}

/// Reads the number in `s` from position `from` on.
fn parse_number(s: &str, from: usize, radix: u32) -> (r: Result<u64, NumberError>)
    requires
        radix == 10 || radix == 16,
        from <= s@.len(),
    ensures
        r == number(s@.skip(from as int), radix as int),
{
    let len: usize = s.unicode_len();
    let ghost text = s@.skip(from as int);
    let ghost body = unsigned(text);
    if from == len {
        return Err(NumberError::Empty);
    }
    let start: usize = if len - from > 1 && s.get_char(from) == '+' { from + 1 } else { from };
    assert(body =~= s@.skip(start as int));
    let mut value: u64 = 0;
    let mut i: usize = start;
    proof {
        assert(body.take(0) =~= Seq::<char>::empty());
    }
    while i < len
        invariant
            start <= i <= len,
            len == s@.len(),
            radix == 10 || radix == 16,
            from < len,
            text == s@.skip(from as int),
            body == unsigned(text),
            body == s@.skip(start as int),
            digit_run(body.take(i - start), radix as int) == i - start,
            value == digits_value(body.take(i - start), radix as int),
        decreases len - i,
    {
        let ghost k = i - start;
        let c: char = s.get_char(i);
        proof {
            assert(body[k] == c);
            assert(body.take(k + 1).drop_last() =~= body.take(k));
            lemma_digit_run_bounded(body, radix as int);
        }
        match read_digit(c, radix) {
            Some(d) => {
                assert(0 <= value * radix <= 16 * u64::MAX) by (nonlinear_arith)
                    requires
                        0 <= value <= u64::MAX,
                        0 <= radix <= 16,
                ;
                let next: u128 = value as u128 * radix as u128 + d as u128;
                proof {
                    assert(digit_run(body.take(k + 1), radix as int) == k + 1);
                    assert(next == digits_value(body.take(k + 1), radix as int));
                }
                if next > u64::MAX as u128 {
                    proof {
                        lemma_digit_run_at_least(body, radix as int, k + 1);
                        let run = digit_run(body, radix as int);
                        assert forall|j: int| 0 <= j < run implies digit_value(
                            #[trigger] body[j],
                            radix as int,
                        ) is Some by {
                            lemma_digit_run_digits(body, radix as int, j);
                        }
                        lemma_digits_value_grows(body, radix as int, k + 1, run);
                    }
                    return Err(NumberError::TooLarge);
                }
                value = next as u64;
            },
            None => {
                proof {
                    assert(digit_run(body.take(k + 1), radix as int) == k);
                    lemma_digit_run_prefix(body, radix as int, k + 1);
                }
                return Err(NumberError::InvalidDigit);
            },
        }
        i += 1;
    }
    assert(body.take(len - start) =~= body);
    Ok(value)
}

/// Parses a hexadecimal number after `0x` or `0X`, else a decimal one.
pub fn parse_hex_or_dec(s: &str) -> (r: Result<u64, String>)
    ensures
        match hex_or_dec(s@) {
            Ok(v) => r == Ok::<u64, String>(v),
            Err(e) => r matches Err(m) && m@ == error_text(e),
        },
{
    let hex: bool = s.unicode_len() >= 2 && s.get_char(0) == '0' && (s.get_char(1) == 'x'
        || s.get_char(1) == 'X');
    assert(s@.skip(0) =~= s@);
    let parsed = if hex { parse_number(s, 2, 16) } else { parse_number(s, 0, 10) };
    match parsed {
        Ok(v) => Ok(v),
        Err(NumberError::Empty) => Err("cannot parse integer from empty string".to_owned()),
        Err(NumberError::InvalidDigit) => Err("invalid digit found in string".to_owned()),
        Err(NumberError::TooLarge) => Err("number too large to fit in target type".to_owned()),
    }
}

/// The hexadecimal digit of `d`, which is below sixteen.
pub open spec fn hex_char(d: int, upper: bool) -> char {
    if d < 10 {
        (48 + d) as char
    } else if upper {
        (65 + d - 10) as char
    } else {
        (97 + d - 10) as char
    }
}

/// The hexadecimal digits of `n`, without leading zeros, in upper or lower case.
pub open spec fn hex_digits(n: nat, upper: bool) -> Seq<char>
    decreases n,
{
    if n < 16 {
        seq![hex_char(n as int, upper)]
    } else {
        hex_digits(n / 16, upper).push(hex_char((n % 16) as int, upper))
    }
}

/// The two ways to announce hexadecimal digits.
pub open spec fn hex_prefix(upper: bool) -> Seq<char> {
    if upper {
        seq!['0', 'X']
    } else {
        seq!['0', 'x']
    }
}

/// The hexadecimal digits of a number, upper or lower case, behind `0x` or `0X`,
/// are read back as that number.
pub proof fn law_hex_round_trip(n: u64, upper_prefix: bool, upper_digits: bool)
    ensures
        hex_or_dec(hex_prefix(upper_prefix) + hex_digits(n as nat, upper_digits)) == Ok::<
            u64,
            NumberError,
        >(n),
{
    let d = hex_digits(n as nat, upper_digits);
    let s = hex_prefix(upper_prefix) + d;
    lemma_hex_digits(n as nat, upper_digits);
    assert(s.skip(2) =~= d);
    assert(d.take(d.len() as int) =~= d);
    lemma_digit_run_digits(d, 16, 0);
    assert(unsigned(d) == d);
}

proof fn lemma_hex_digits(n: nat, upper: bool)
    ensures
        hex_digits(n, upper).len() > 0,
        digit_run(hex_digits(n, upper), 16) == hex_digits(n, upper).len(),
        digits_value(hex_digits(n, upper), 16) == n,
    decreases n,
{
    let s = hex_digits(n, upper);
    let d = (n % 16) as int;
    assert(digit_value(hex_char(d, upper), 16) == Some(d));
    if n >= 16 {
        lemma_hex_digits(n / 16, upper);
        assert(s.drop_last() =~= hex_digits(n / 16, upper));
    } else {
        assert(s.drop_last() =~= Seq::<char>::empty());
        reveal_with_fuel(digit_run, 2);
        reveal_with_fuel(digits_value, 2);
    }
}

/// The decimal digits of a number are read back as that number.
pub proof fn law_decimal_round_trip(n: u64)
    ensures
        hex_or_dec(decimal_digits(n as nat)) == Ok::<u64, NumberError>(n),
{
    let s = decimal_digits(n as nat);
    lemma_decimal_digits(n as nat);
    assert(s.take(s.len() as int) =~= s);
    lemma_digit_run_digits(s, 10, 0);
    if s.len() >= 2 {
        lemma_digit_run_digits(s, 10, 1);
    }
}

proof fn lemma_decimal_digits(n: nat)
    ensures
        decimal_digits(n).len() > 0,
        digit_run(decimal_digits(n), 10) == decimal_digits(n).len(),
        digits_value(decimal_digits(n), 10) == n,
    decreases n,
{
    let s = decimal_digits(n);
    let d = (n % 10) as int;
    assert(digit_value(digit_char(d), 10) == Some(d));
    if n >= 10 {
        lemma_decimal_digits(n / 10);
        assert(s.drop_last() =~= decimal_digits(n / 10));
    } else {
        assert(s.drop_last() =~= Seq::<char>::empty());
        reveal_with_fuel(digit_run, 2);
        reveal_with_fuel(digits_value, 2);
    }
}

/// Whether a character is a digit that counts `d`, in radix ten or sixteen.
pub open spec fn counts(c: char, radix: int, d: int) -> bool {
    ||| '0' <= c && c <= '9' && d == c as int - '0' as int
    ||| radix == 16 && 'a' <= c && c <= 'f' && d == 10 + (c as int - 'a' as int)
    ||| radix == 16 && 'A' <= c && c <= 'F' && d == 10 + (c as int - 'A' as int)
}

/// A call of `parse_hex_or_dec` on one more digit multiplies the number by the radix
/// and adds the digit, or reports that the number is too large; the radix is sixteen
/// behind `0x` or `0X` and ten otherwise.
pub proof fn law_calls_append_digit(
    s: &str,
    t: &str,
    c: char,
    d: int,
    radix: int,
    v: u64,
    r: Result<u64, String>,
    q: Result<u64, String>,
)
    requires
        call_ensures(parse_hex_or_dec, (s,), r),
        call_ensures(parse_hex_or_dec, (t,), q),
        r == Ok::<u64, String>(v),
        t@ == s@.push(c),
        radix == (if s@.len() >= 2 && s@[0] == '0' && (s@[1] == 'x' || s@[1] == 'X') {
            16int
        } else {
            10
        }),
        counts(c, radix, d),
    ensures
        v * radix + d <= u64::MAX ==> q == Ok::<u64, String>((v * radix + d) as u64),
        v * radix + d > u64::MAX ==> (q matches Err(m) && m@
            == "number too large to fit in target type"@),
{
    let from = if radix == 16 {
        2int
    } else {
        0
    };
    let (a, b) = (s@.skip(from), t@.skip(from));
    assert(s@.skip(0) =~= s@ && t@.skip(0) =~= t@);
    assert(b =~= a.push(c));
    let (x, y) = (unsigned(a), unsigned(b));
    assert(number(a, radix) == Ok::<u64, NumberError>(v));
    lemma_digit_run_bounded(x, radix);
    assert(x.take(x.len() as int) =~= x);
    if a.len() == 1 {
        lemma_digit_run_digits(x, radix, 0);
    }
    assert forall|k: int| 0 <= k < x.len() implies digit_value(#[trigger] x[k], radix) is Some by {
        lemma_digit_run_digits(x, radix, k);
    }
    lemma_digits_value_grows(x, radix, 0, x.len() as int);
    assert(digits_value(x, radix) == v);
    assert(y =~= x.push(c));
    assert(y.drop_last() =~= x);
    assert(digit_run(y, radix) == y.len());
    assert(y.take(y.len() as int) =~= y);
    assert(digits_value(y, radix) == v * radix + d);
}

/// A call of `parse_hex_or_dec` on a single digit returns that digit.
pub proof fn law_call_single_digit(s: &str, d: int, r: Result<u64, String>)
    requires
        call_ensures(parse_hex_or_dec, (s,), r),
        s@.len() == 1,
        counts(s@[0], 10, d),
    ensures
        r == Ok::<u64, String>(d as u64),
{
    let x = s@;
    assert(x.drop_last() =~= Seq::<char>::empty());
    assert(x.take(1) =~= x);
    reveal_with_fuel(digit_run, 2);
    reveal_with_fuel(digits_value, 2);
}

/// A call of `parse_hex_or_dec` on a text with a character that is no digit fails:
/// anywhere but at the front, where a sign may stand, and behind the two that announce
/// hexadecimal digits.
pub proof fn law_call_rejects(s: &str, i: int, radix: int, from: int, r: Result<u64, String>)
    requires
        call_ensures(parse_hex_or_dec, (s,), r),
        from == (if s@.len() >= 2 && s@[0] == '0' && (s@[1] == 'x' || s@[1] == 'X') {
            2int
        } else {
            0
        }),
        radix == (if from == 2 {
            16int
        } else {
            10
        }),
        from <= i < s@.len(),
        i > from || s@[i] != '+' || s@.len() == from + 1,
        forall|d: int| !#[trigger] counts(s@[i], radix, d),
    ensures
        r is Err,
{
    let a = s@.skip(from);
    assert(s@.skip(0) =~= s@);
    let x = unsigned(a);
    let c = s@[i];
    if r is Ok {
        let k = if a.len() > 1 && a[0] == '+' {
            i - from - 1
        } else {
            i - from
        };
        assert(x[k] == c);
        lemma_digit_run_bounded(x, radix);
        lemma_digit_run_digits(x, radix, k);
        let d = digit_value(c, radix)->0;
        assert(counts(c, radix, d));
    }
}

/// A call of `parse_hex_or_dec` on a text in front of which a plus sign was put returns
/// the same number.
pub proof fn law_calls_ignore_plus(
    s: &str,
    t: &str,
    v: u64,
    r: Result<u64, String>,
    q: Result<u64, String>,
)
    requires
        call_ensures(parse_hex_or_dec, (s,), r),
        call_ensures(parse_hex_or_dec, (t,), q),
        s@.len() > 0,
        s@[0] != '+',
        !(s@.len() >= 2 && s@[0] == '0' && (s@[1] == 'x' || s@[1] == 'X')),
        t@ == seq!['+'] + s@,
        r == Ok::<u64, String>(v),
    ensures
        q == Ok::<u64, String>(v),
{
    assert(t@.skip(1) =~= s@);
    assert(unsigned(t@) == s@);
    assert(unsigned(s@) == s@);
}

/// A call of `parse_hex_or_dec` on an empty text, or on an announcement with no digit
/// behind it, says so.
pub proof fn law_call_empty(s: &str, r: Result<u64, String>)
    requires
        call_ensures(parse_hex_or_dec, (s,), r),
        s@ == Seq::<char>::empty() || s@ == seq!['0', 'x'] || s@ == seq!['0', 'X'],
    ensures
        r matches Err(m) && m@ == "cannot parse integer from empty string"@,
{
}

/// What a call of `push_decimal` writes behind a text leaves that text, and is read back
/// as the same number.
pub proof fn law_calls_read_back(
    out: &mut String,
    n: u64,
    s: &str,
    r: Result<u64, String>,
)
    requires
        call_ensures(push_decimal, (out, n), ()),
        old(out)@ + s@ == final(out)@,
        call_ensures(parse_hex_or_dec, (s,), r),
    ensures
        r == Ok::<u64, String>(n),
{
    let d = decimal_digits(n as nat);
    let k = old(out)@.len() as int;
    assert((old(out)@ + s@).skip(k) =~= s@);
    assert((old(out)@ + d).skip(k) =~= d);
    law_decimal_round_trip(n);
}

} // verus!
