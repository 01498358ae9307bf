//! Numbers, names and ids as text.

use vstd::prelude::*;

use crate::error::{Fault, Nut00Error, Nut02Error, Nut04Error};
use crate::nuts::{id_of_text, CurrencyUnit, MintQuoteState};
use crate::text::{
    all_decimal_digits, decimal, decimal_value, hex_value, is_decimal_digit, lemma_no_overflow,
    overflows, parse_decimal, without_plus, NumberError,
};

verus! {

/// A digit stands for itself. A number with one more digit behind it is ten times as large, and
/// that digit more. It can be read exactly as long as it is not above the limit.
pub proof fn law_number_grows_by_digits(s: Seq<char>, digit: char, max: nat)
    requires
        '0' <= digit <= '9',
    ensures
        parse_decimal(seq![digit], max) == (if digit as int - '0' as int <= max {
            Ok::<nat, NumberError>((digit as int - '0' as int) as nat)
        } else {
            Err(NumberError::PosOverflow)
        }),
        parse_decimal(s, max) matches Ok(n) ==> parse_decimal(s.push(digit), max) == (if n * 10
            + (digit as int - '0' as int) <= max {
            Ok::<nat, NumberError>((n * 10 + (digit as int - '0' as int)) as nat)
        } else {
            Err(NumberError::PosOverflow)
        }),
        parse_decimal(s, max) == Err::<nat, NumberError>(NumberError::PosOverflow)
            ==> parse_decimal(s.push(digit), max) == Err::<nat, NumberError>(
            NumberError::PosOverflow,
        ),
{
    reveal(parse_decimal);
    let one = seq![digit];
    assert(without_plus(one) == one);
    assert(one.drop_last() =~= Seq::empty());
    assert(decimal_value(one) == digit as int - '0' as int) by {
        assert(decimal_value(Seq::<char>::empty()) == 0);
    }
    lemma_all_digits(one, max);
    let digits = without_plus(s);
    if s.len() > 0 {
        assert(without_plus(s.push(digit)) =~= digits.push(digit));
    }
    assert(digits.push(digit).drop_last() =~= digits);
    if parse_decimal(s, max) is Ok {
        lemma_all_digits(digits.push(digit), max);
    }
    if overflows(digits, max) {
        let i = choose|i: int|
            0 <= i <= digits.len() && all_decimal_digits(#[trigger] digits.take(i))
                && decimal_value(digits.take(i)) > max;
        assert(digits.push(digit).take(i) =~= digits.take(i));
        assert(all_decimal_digits(digits.push(digit).take(i)));
        assert(overflows(digits.push(digit), max));
    }
}

/// Digits and nothing else are too large exactly when the number that they stand for is.
proof fn lemma_all_digits(s: Seq<char>, max: nat)
    requires
        all_decimal_digits(s),
    ensures
        overflows(s, max) <==> decimal_value(s) > max,
{
    assert(s.take(s.len() as int) =~= s);
    if decimal_value(s) > max {
        assert(all_decimal_digits(s.take(s.len() as int)));
        assert(overflows(s, max));
    } else {
        lemma_no_overflow(s, s.len() as int, max);
    }
}

/// A plus sign in front of a number changes nothing.
pub proof fn law_plus_sign_changes_nothing(s: Seq<char>, max: nat)
    requires
        s.len() > 0,
        s[0] != '+',
    ensures
        parse_decimal(seq!['+'] + s, max) == parse_decimal(s, max),
{
    reveal(parse_decimal);
    assert((seq!['+'] + s).drop_first() =~= s);
}

/// A text is a number only if it is made of digits, at least one, with or without a plus sign in
/// front.
pub proof fn law_number_is_made_of_digits(s: Seq<char>, max: nat, i: int)
    ensures
        parse_decimal(Seq::empty(), max) == Err::<nat, NumberError>(NumberError::Empty),
        parse_decimal(seq!['+'], max) == Err::<nat, NumberError>(NumberError::InvalidDigit),
        parse_decimal(s, max) is Ok && 0 <= i < s.len() ==> '0' <= s[i] <= '9' || (i == 0 && s[i]
            == '+' && s.len() > 1),
{
    reveal(parse_decimal);
    let plus = seq!['+'];
    assert(without_plus(plus) =~= Seq::empty());
    lemma_no_overflow_of_nothing(max);
    if parse_decimal(s, max) is Ok && 0 <= i < s.len() {
        let digits = without_plus(s);
        if s[0] == '+' {
            if i > 0 {
                assert(is_decimal_digit(digits[i - 1]));
            }
        } else {
            assert(is_decimal_digit(digits[i]));
        }
    }
}

proof fn lemma_no_overflow_of_nothing(max: nat)
    ensures
        !overflows(Seq::<char>::empty(), max),
{
    let s = Seq::<char>::empty();
    assert(decimal_value(s) == 0);
    lemma_all_digits(s, max);
}

/// A number is written without leading zeros, its last digit behind those of a tenth of it.
pub proof fn law_number_is_written_in_digits(n: nat)
    ensures
        n < 10 ==> decimal(n).len() == 1 && decimal(n)[0] as int == '0' as int + n,
        n >= 10 ==> decimal(n).drop_last() == decimal(n / 10) && decimal(n).last() as int
            == '0' as int + n % 10,
        n > 0 ==> decimal(n)[0] != '0',
    decreases n,
{
    if n >= 10 {
        assert(decimal(n).drop_last() =~= decimal(n / 10));
        law_number_is_written_in_digits(n / 10);
        assert(decimal(n / 10).len() > 0) by {
            if n / 10 >= 10 {
                assert(decimal(n / 10).len() == decimal(n / 100).len() + 1);
            }
        }
        assert(decimal(n)[0] == decimal(n / 10)[0]);
    }
}

/// The units and their names, and nothing else is the name of a unit.
pub proof fn law_names_of_units(name: Seq<char>)
    ensures
        name == "sat"@ ==> CurrencyUnit::named(name) == Ok::<CurrencyUnit, Fault>(
            CurrencyUnit::Sat,
        ),
        name == "msat"@ ==> CurrencyUnit::named(name) == Ok::<CurrencyUnit, Fault>(
            CurrencyUnit::Msat,
        ),
        name == "usd"@ ==> CurrencyUnit::named(name) == Ok::<CurrencyUnit, Fault>(
            CurrencyUnit::Usd,
        ),
        name == "eur"@ ==> CurrencyUnit::named(name) == Ok::<CurrencyUnit, Fault>(
            CurrencyUnit::Eur,
        ),
        name != "sat"@ && name != "msat"@ && name != "usd"@ && name != "eur"@
            ==> CurrencyUnit::named(name) == Err::<CurrencyUnit, Fault>(
            Fault::Nut00(Nut00Error::UnsupportedUnit),
        ),
{
    CurrencyUnit::Sat.law_name_round_trip();
    CurrencyUnit::Msat.law_name_round_trip();
    CurrencyUnit::Usd.law_name_round_trip();
    CurrencyUnit::Eur.law_name_round_trip();
}

/// The states of a mint quote and their names, and nothing else is the name of a state.
pub proof fn law_names_of_states(name: Seq<char>)
    ensures
        name == "UNPAID"@ ==> MintQuoteState::named(name) == Ok::<MintQuoteState, Fault>(
            MintQuoteState::Unpaid,
        ),
        name == "PAID"@ ==> MintQuoteState::named(name) == Ok::<MintQuoteState, Fault>(
            MintQuoteState::Paid,
        ),
        name == "PENDING"@ ==> MintQuoteState::named(name) == Ok::<MintQuoteState, Fault>(
            MintQuoteState::Pending,
        ),
        name == "ISSUED"@ ==> MintQuoteState::named(name) == Ok::<MintQuoteState, Fault>(
            MintQuoteState::Issued,
        ),
        name != "UNPAID"@ && name != "PAID"@ && name != "PENDING"@ && name != "ISSUED"@
            ==> MintQuoteState::named(name) == Err::<MintQuoteState, Fault>(
            Fault::Nut04(Nut04Error::UnknownState),
        ),
{
    reveal_strlit("UNPAID");
    reveal_strlit("PAID");
    reveal_strlit("PENDING");
    reveal_strlit("ISSUED");
    assert("UNPAID"@[0] == 'U' && "PAID"@.len() == 4 && "PENDING"@.len() == 7);
    assert("ISSUED"@[0] == 'I' && "UNPAID"@.len() == 6 && "ISSUED"@.len() == 6);
}

/// Whether a character is a hexadecimal digit of either case.
pub open spec fn is_hex_digit(c: char) -> bool {
    '0' <= c <= '9' || 'a' <= c <= 'f' || 'A' <= c <= 'F'
}

/// A text is a keyset id exactly when it is made of sixteen hexadecimal digits of which the first
/// two are zero.
pub proof fn law_id_is_sixteen_digits(s: Seq<char>)
    ensures
        id_of_text(s) is Ok <==> s.len() == 16 && s[0] == '0' && s[1] == '0' && forall|i: int|
            0 <= i < 16 ==> is_hex_digit(#[trigger] s[i]),
        s.len() != 16 ==> id_of_text(s) == Err::<u64, Fault>(Fault::Nut02(Nut02Error::Length)),
{
    if s.len() == 16 {
        lemma_hex_digits(s);
    }
}

proof fn lemma_hex_digits(s: Seq<char>)
    ensures
        hex_value(s) is Some <==> forall|i: int|
            0 <= i < s.len() ==> is_hex_digit(#[trigger] s[i]),
    decreases s.len(),
{
    if s.len() > 0 {
        let rest = s.drop_last();
        lemma_hex_digits(rest);
        let last = s.len() - 1;
        if forall|i: int| 0 <= i < s.len() ==> is_hex_digit(#[trigger] s[i]) {
            assert forall|i: int| 0 <= i < rest.len() implies is_hex_digit(#[trigger] rest[i]) by {
                assert(is_hex_digit(s[i]));
            }
            assert(is_hex_digit(s[last]));
        }
        if hex_value(s) is Some {
            assert forall|i: int| 0 <= i < s.len() implies is_hex_digit(#[trigger] s[i]) by {
                if i < last {
                    assert(is_hex_digit(rest[i]));
                }
            }
        }
    }
}

/// A hexadecimal number with one more digit behind it is sixteen times as large, and that digit
/// more.
pub proof fn law_hexadecimal_grows_by_digits(s: Seq<char>, digit: char)
    requires
        is_hex_digit(digit),
        hex_value(s) is Some,
    ensures
        hex_value(s.push(digit)) == Some(
            (hex_value(s)->0 * 16 + (if '0' <= digit <= '9' {
                digit as int - '0' as int
            } else if 'a' <= digit <= 'f' {
                digit as int - 'a' as int + 10
            } else {
                digit as int - 'A' as int + 10
            })) as nat,
        ),
        hex_value(Seq::empty()) == Some(0nat),
{
    assert(s.push(digit).drop_last() =~= s);
}

} // verus!
