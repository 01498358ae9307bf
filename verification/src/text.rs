//! Decimal and hexadecimal text, and comparison of texts.

use vstd::prelude::*;
use vstd::string::*;

verus! {

/// Equality of two string slices, `<str as PartialEq>::eq` of the standard library: they are
/// equal exactly when they hold the same characters in the same order.
pub assume_specification[ <str as PartialEq>::eq ](a: &str, b: &str) -> (r: bool)
    ensures
        r == (a@ == b@),
;

/// Whether two texts are the same.
pub fn same_text(a: &str, b: &str) -> (r: bool)
    ensures
        r == (a@ == b@),
{
    *a == *b
}

/// The character of a hexadecimal digit, in lower case. Below ten it is the decimal digit.
pub open spec fn digit_char(d: int) -> char {
    if d < 10 {
        (48 + d) as char
    } else {
        (87 + d) as char
    }
}

/// The decimal notation of `n`, without leading zeros.
pub open spec fn decimal(n: nat) -> Seq<char>
    decreases n,
{
    if n < 10 {
        seq![digit_char(n as int)]
    } else {
        decimal(n / 10).push(digit_char((n % 10) as int))
    }
}

/// The `width` lowest hexadecimal digits of `n`, the highest first.
pub open spec fn hexadecimal(n: nat, width: nat) -> Seq<char>
    decreases width,
{
    if width == 0 {
        Seq::empty()
    } else {
        hexadecimal(n / 16, (width - 1) as nat).push(digit_char((n % 16) as int))
    }
}

pub open spec fn is_decimal_digit(c: char) -> bool {
    '0' <= c <= '9'
}

/// The number that a row of decimal digits stands for.
pub open spec fn decimal_value(s: Seq<char>) -> nat
    decreases s.len(),
{
    if s.len() == 0 {
        0
    } else {
        (decimal_value(s.drop_last()) * 10 + (s.last() as int - 48)) as nat
    }
}

/// A text without its leading plus sign, where it has one.
pub open spec fn without_plus(s: Seq<char>) -> Seq<char> {
    if s.len() > 0 && s[0] == '+' {
        s.drop_first()
    } else {
        s
    }
}

pub open spec fn all_decimal_digits(s: Seq<char>) -> bool {
    forall|i: int| 0 <= i < s.len() ==> is_decimal_digit(#[trigger] s[i])
}

/// Why a text is not a number of the expected size
#[derive(Clone, Copy, Debug, PartialEq, Eq, Structural)]
pub enum NumberError {
    /// The text is empty
    Empty,
    /// A digit is missing, or something else stands in its place
    InvalidDigit,
    /// The number is too large
    PosOverflow,
}

/// Whether the digits at the beginning of a text stand for a number above `max`.
pub open spec fn overflows(s: Seq<char>, max: nat) -> bool {
    exists|i: int|
        0 <= i <= s.len() && all_decimal_digits(#[trigger] s.take(i)) && decimal_value(s.take(i))
            > max
}

/// The number not above `max` that a text stands for: an optional plus sign, then one or more
/// decimal digits and nothing else. Where the digits at the beginning are too large already, what
/// comes behind them does not matter.
#[verifier::opaque]
pub open spec fn parse_decimal(s: Seq<char>, max: nat) -> Result<nat, NumberError> {
    let digits = without_plus(s);
    if s.len() == 0 {
        Err(NumberError::Empty)
    } else if overflows(digits, max) {
        Err(NumberError::PosOverflow)
    } else if digits.len() == 0 || !all_decimal_digits(digits) {
        Err(NumberError::InvalidDigit)
    } else {
        Ok(decimal_value(digits))
    }
}

/// The value of a hexadecimal digit of either case.
pub open spec fn hex_digit_value(c: char) -> Option<int> {
    if '0' <= c <= '9' {
        Some(c as int - 48)
    } else if 'a' <= c <= 'f' {
        Some(c as int - 87)
    } else if 'A' <= c <= 'F' {
        Some(c as int - 55)
    } else {
        None
    }
}

/// The number that a row of hexadecimal digits stands for.
pub open spec fn hex_value(s: Seq<char>) -> Option<nat>
    decreases s.len(),
{
    if s.len() == 0 {
        Some(0)
    } else {
        match (hex_value(s.drop_last()), hex_digit_value(s.last())) {
            (Some(high), Some(low)) => Some((high * 16 + low) as nat),
            _ => None,
        }
    }
}

/// One digit as text.
fn digit_text(d: u64) -> (r: &'static str)
    requires
        d < 16,
    ensures
        r@ == seq![digit_char(d as int)],
{
    proof {
        reveal_strlit("0");
        reveal_strlit("1");
        reveal_strlit("2");
        reveal_strlit("3");
        reveal_strlit("4");
        reveal_strlit("5");
        reveal_strlit("6");
        reveal_strlit("7");
        reveal_strlit("8");
        reveal_strlit("9");
        reveal_strlit("a");
        reveal_strlit("b");
        reveal_strlit("c");
        reveal_strlit("d");
        reveal_strlit("e");
        reveal_strlit("f");
    }
    match d {
        0 => "0",
        1 => "1",
        2 => "2",
        3 => "3",
        4 => "4",
        5 => "5",
        6 => "6",
        7 => "7",
        8 => "8",
        9 => "9",
        10 => "a",
        11 => "b",
        12 => "c",
        13 => "d",
        14 => "e",
        _ => "f",
    }
}

/// The decimal notation of a number.
pub fn decimal_text(n: u64) -> (r: String)
    ensures
        r@ == decimal(n as nat),
    decreases n,
{
    if n < 10 {
        digit_text(n).to_owned()
    } else {
        let mut s = decimal_text(n / 10);
        s.append(digit_text(n % 10));
        s
    }
}

/// The `width` lowest hexadecimal digits of a number.
pub fn hexadecimal_text(n: u64, width: usize) -> (r: String)
    ensures
        r@ == hexadecimal(n as nat, width as nat),
    decreases width,
{
    if width == 0 {
        String::new()
    } else {
        let mut s = hexadecimal_text(n / 16, width - 1);
        s.append(digit_text(n % 16));
        s
    }
}

/// Dropping digits at the end never makes a number larger.
proof fn lemma_prefix_not_larger(s: Seq<char>, i: int)
    requires
        0 <= i <= s.len(),
        all_decimal_digits(s),
    ensures
        decimal_value(s.take(i)) <= decimal_value(s),
    decreases s.len() - i,
{
    if i < s.len() {
        lemma_prefix_not_larger(s, i + 1);
        assert(s.take(i + 1).drop_last() =~= s.take(i));
        assert(is_decimal_digit(s[i]));
    } else {
        assert(s.take(i) =~= s);
    }
}

/// Digits at the beginning that are not too large, with no digit behind them, are not too large.
pub(crate) proof fn lemma_no_overflow(s: Seq<char>, j: int, max: nat)
    requires
        0 <= j <= s.len(),
        all_decimal_digits(s.take(j)),
        decimal_value(s.take(j)) <= max,
        j < s.len() ==> !is_decimal_digit(s[j]),
    ensures
        !overflows(s, max),
{
    assert forall|i: int|
        0 <= i <= s.len() && all_decimal_digits(#[trigger] s.take(i)) implies decimal_value(
        s.take(i),
    ) <= max by {
        if i <= j {
            lemma_prefix_not_larger(s.take(j), i);
            assert(s.take(j).take(i) =~= s.take(i));
        } else {
            assert(is_decimal_digit(s.take(i)[j]));
        }
    }
}

/// Reads a number not above `max`: an optional plus sign, then one or more decimal digits.
pub fn parse_number(s: &str, max: u64) -> (r: Result<u64, NumberError>)
    ensures
        match r {
            Ok(n) => parse_decimal(s@, max as nat) == Ok::<nat, NumberError>(n as nat),
            Err(e) => parse_decimal(s@, max as nat) == Err::<nat, NumberError>(e),
        },
{
    let mut value: u64 = 0;
    let mut at_start: bool = true;
    let mut any_digit: bool = false;
    let ghost body = without_plus(s@);
    let ghost shift = s@.len() - body.len();
    for c in it: s.chars()
        invariant
            it.seq() == s@,
            body == without_plus(s@),
            shift == s@.len() - body.len(),
            at_start <==> it.index() == 0,
            any_digit <==> it.index() > shift,
            value <= max,
            it.index() >= shift ==> value == decimal_value(body.take(it.index() - shift)),
            it.index() == 0 ==> value == 0,
            forall|k: int| 0 <= k < it.index() - shift ==> is_decimal_digit(#[trigger] body[k]),
    {
        let ghost i = it.index();
        assert(c == s@[i]);
        if at_start && c == '+' {
            assert(body.take(0) =~= Seq::empty());
        } else {
            let ghost j = i - shift;
            assert(body[j] == c);
            if !('0' <= c && c <= '9') {
                proof {
                    reveal(parse_decimal);
                    lemma_no_overflow(body, j, max as nat);
                    assert(!is_decimal_digit(body[j]));
                }
                return Err(NumberError::InvalidDigit);
            }
            assert(body.take(j + 1).drop_last() =~= body.take(j));
            let next: u128 = (value as u128) * 10 + (c as u32 - 48) as u128;
            assert(next == decimal_value(body.take(j + 1)));
            if next > max as u128 {
                proof {
                    reveal(parse_decimal);
                    assert(all_decimal_digits(body.take(j + 1)));
                }
                return Err(NumberError::PosOverflow);
            }
            value = next as u64;
            any_digit = true;
        }
        at_start = false;
    }
    proof {
        reveal(parse_decimal);
        assert(body.take(body.len() as int) =~= body);
    }
    if at_start {
        Err(NumberError::Empty)
    } else {
        proof {
            lemma_no_overflow(body, body.len() as int, max as nat);
        }
        if any_digit {
            Ok(value)
        } else {
            Err(NumberError::InvalidDigit)
        }
    }
}

/// What `width` hexadecimal digits can hold: the numbers below this one.
pub open spec fn hex_limit(width: nat) -> nat
    decreases width,
{
    if width == 0 {
        1
    } else {
        16 * hex_limit((width - 1) as nat)
    }
}

proof fn lemma_hex_limit(a: nat, b: nat)
    requires
        a <= b,
    ensures
        hex_limit(a) <= hex_limit(b),
        hex_limit(15) == 0x1000_0000_0000_0000,
        hex_limit(16) == 0x1_0000_0000_0000_0000,
    decreases b,
{
    reveal_with_fuel(hex_limit, 17);
    if a < b {
        lemma_hex_limit(a, (b - 1) as nat);
    }
}

proof fn lemma_hex_value_bound(s: Seq<char>)
    ensures
        hex_value(s) matches Some(v) ==> v < hex_limit(s.len()),
    decreases s.len(),
{
    if s.len() > 0 {
        lemma_hex_value_bound(s.drop_last());
    }
}

/// A row with a character that is no hexadecimal digit stands for no number.
proof fn lemma_hex_prefix(s: Seq<char>, i: int)
    requires
        0 <= i <= s.len(),
        hex_value(s.take(i)) is None,
    ensures
        hex_value(s) is None,
    decreases s.len() - i,
{
    if i < s.len() {
        assert(s.take(i + 1).drop_last() =~= s.take(i));
        lemma_hex_prefix(s, i + 1);
    } else {
        assert(s.take(i) =~= s);
    }
}

/// Reads a number of at most sixteen hexadecimal digits, of either case.
pub fn parse_hex(s: &str) -> (r: Option<u64>)
    requires
        s@.len() <= 16,
    ensures
        r is Some <==> hex_value(s@) is Some,
        r matches Some(n) ==> hex_value(s@) == Some(n as nat),
{
    let mut value: u64 = 0;
    for c in it: s.chars()
        invariant
            it.seq() == s@,
            s@.len() <= 16,
            hex_value(s@.take(it.index())) == Some(value as nat),
    {
        let ghost i = it.index();
        assert(s@.take(i + 1).drop_last() =~= s@.take(i));
        let digit: u64 = if '0' <= c && c <= '9' {
            c as u64 - 48
        } else if 'a' <= c && c <= 'f' {
            c as u64 - 87
        } else if 'A' <= c && c <= 'F' {
            c as u64 - 55
        } else {
            proof {
                lemma_hex_prefix(s@, i + 1);
            }
            return None;
        };
        proof {
            lemma_hex_value_bound(s@.take(i));
            lemma_hex_limit(i as nat, 15);
        }
        value = value * 16 + digit;
    }
    assert(s@.take(s@.len() as int) =~= s@);
    Some(value)
}

/// A leading zero adds nothing.
proof fn lemma_hex_leading_zero(s: Seq<char>)
    requires
        s.len() > 0,
        s[0] == '0',
    ensures
        hex_value(s) == hex_value(s.drop_first()),
    decreases s.len(),
{
    if s.len() > 1 {
        lemma_hex_leading_zero(s.drop_last());
        assert(s.drop_last().drop_first() =~= s.drop_first().drop_last());
    } else {
        assert(s.drop_last() =~= Seq::empty());
        assert(s.drop_first() =~= Seq::empty());
        assert(hex_value(Seq::<char>::empty()) == Some(0nat));
    }
}

/// Sixteen digits of which the first two are zero stand for a number of seven bytes.
pub proof fn lemma_hex_seven_bytes(s: Seq<char>)
    requires
        s.len() == 16,
        s[0] == '0',
        s[1] == '0',
    ensures
        hex_value(s) matches Some(v) ==> v < 0x100_0000_0000_0000,
{
    lemma_hex_leading_zero(s);
    lemma_hex_leading_zero(s.drop_first());
    lemma_hex_value_bound(s.drop_first().drop_first());
    reveal_with_fuel(hex_limit, 15);
}

/// The sixteen digits of a number of seven bytes begin with two zeros.
pub proof fn lemma_seven_bytes_hex(n: nat)
    requires
        n < 0x100_0000_0000_0000,
    ensures
        hexadecimal(n, 16).len() == 16,
        hexadecimal(n, 16)[0] == '0',
        hexadecimal(n, 16)[1] == '0',
        hex_value(hexadecimal(n, 16)) == Some(n),
{
    reveal_with_fuel(hex_limit, 17);
    law_hexadecimal_round_trip(n, 16);
    reveal_with_fuel(hexadecimal, 17);
}

/// The decimal notation of a number is a row of digits that stands for that number.
proof fn lemma_decimal(n: nat)
    ensures
        decimal(n).len() > 0,
        all_decimal_digits(decimal(n)),
        decimal_value(decimal(n)) == n,
    decreases n,
{
    if n < 10 {
        assert(decimal(n).drop_last() =~= Seq::empty());
        assert(decimal_value(Seq::<char>::empty()) == 0);
    } else {
        lemma_decimal(n / 10);
        assert(decimal(n).drop_last() =~= decimal(n / 10));
    }
}

/// Reading the decimal notation of a number gives that number back.
pub proof fn law_decimal_round_trip(n: nat, max: nat)
    requires
        n <= max,
    ensures
        parse_decimal(decimal(n), max) == Ok::<nat, NumberError>(n),
{
    reveal(parse_decimal);
    lemma_decimal(n);
    assert(decimal(n).take(decimal(n).len() as int) =~= decimal(n));
    lemma_no_overflow(decimal(n), decimal(n).len() as int, max);
    assert(is_decimal_digit(decimal(n)[0]));
    assert(without_plus(decimal(n)) == decimal(n));
}

/// A number that is read is not above the limit.
pub proof fn law_number_is_within_limit(s: Seq<char>, max: nat)
    ensures
        parse_decimal(s, max) matches Ok(n) ==> n <= max,
{
    reveal(parse_decimal);
    let digits = without_plus(s);
    assert(digits.take(digits.len() as int) =~= digits);
}

/// Reading the hexadecimal notation of a number gives that number back, where the notation is
/// wide enough to hold it.
pub proof fn law_hexadecimal_round_trip(n: nat, width: nat)
    requires
        n < hex_limit(width),
    ensures
        hexadecimal(n, width).len() == width,
        hex_value(hexadecimal(n, width)) == Some(n),
    decreases width,
{
    if width > 0 {
        law_hexadecimal_round_trip(n / 16, (width - 1) as nat);
        assert(hexadecimal(n, width).drop_last() =~= hexadecimal(n / 16, (width - 1) as nat));
    }
}

} // verus!
