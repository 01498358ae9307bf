use std::num::IntErrorKind;

use wallet_nostr::error::{Error, Nut00Error, Nut02Error, Nut04Error};
use wallet_nostr::nuts::{
    Amount, CurrencyUnit, Id, MintQuoteState, Proof, ProofInfo, PublicKey, SpendingConditions,
    State, UncheckedUrl,
};
use wallet_nostr::text::{
    decimal_text, hexadecimal_text, parse_hex, parse_number, same_text, NumberError,
};

fn cash(y: Option<&str>, condition: Option<&str>) -> Proof {
    Proof {
        amount: Amount { value: 8 },
        keyset_id: Id::from_str("00ad268c4d1f5826").unwrap(),
        secret: "secret".to_string(),
        c: PublicKey { text: "02aa".to_string() },
        witness: None,
        dleq: None,
        y: y.map(|text| PublicKey { text: text.to_string() }),
        spending_condition: condition.map(|text| SpendingConditions { text: text.to_string() }),
    }
}

fn url(text: &str) -> UncheckedUrl {
    UncheckedUrl::from_str(text)
}

#[test]
fn id_text_is_read_back() {
    for text in ["00ad268c4d1f5826", "0000000000000000", "00ffffffffffffff"] {
        assert_eq!(Id::from_str(text).unwrap().to_string(), text);
    }
    assert_eq!(Id::from_str("00AD268C4D1F5826").unwrap().to_string(), "00ad268c4d1f5826");
}

#[test]
fn id_of_another_shape_is_refused() {
    for (text, expected) in [
        ("", Nut02Error::Length),
        ("00ad268c4d1f582", Nut02Error::Length),
        ("00ad268c4d1f58266", Nut02Error::Length),
        ("01ad268c4d1f5826", Nut02Error::UnknownVersion),
        ("10ad268c4d1f5826", Nut02Error::UnknownVersion),
        ("00ad268c4d1f582g", Nut02Error::Hex),
        ("00ad268c4d1f582é", Nut02Error::Hex),
    ] {
        let cause = match Id::from_str(text) {
            Err(Error::Nut02(cause)) => cause,
            other => panic!("{}: {:?}", text, other),
        };
        assert_eq!(cause, expected, "{}", text);
    }
}

#[test]
fn unit_names_are_read_back() {
    for (unit, name) in [
        (CurrencyUnit::Sat, "sat"),
        (CurrencyUnit::Msat, "msat"),
        (CurrencyUnit::Usd, "usd"),
        (CurrencyUnit::Eur, "eur"),
    ] {
        assert_eq!(unit.to_string(), name);
        assert_eq!(CurrencyUnit::from_str(name).unwrap(), unit);
    }
    assert!(matches!(CurrencyUnit::from_str("SAT"), Err(Error::Nut00(Nut00Error::UnsupportedUnit))));
    assert!(matches!(CurrencyUnit::from_str(""), Err(Error::Nut00(Nut00Error::UnsupportedUnit))));
}

#[test]
fn mint_quote_states_have_names() {
    for (state, name) in [
        (MintQuoteState::Unpaid, "UNPAID"),
        (MintQuoteState::Paid, "PAID"),
        (MintQuoteState::Pending, "PENDING"),
        (MintQuoteState::Issued, "ISSUED"),
    ] {
        assert_eq!(MintQuoteState::from_str(name).unwrap(), state);
    }
    assert!(matches!(MintQuoteState::from_str("paid"), Err(Error::Nut04(Nut04Error::UnknownState))));
}

#[test]
fn numbers_are_written_in_decimal() {
    assert_eq!(decimal_text(0), "0");
    assert_eq!(decimal_text(37375), "37375");
    assert_eq!(decimal_text(u64::MAX), "18446744073709551615");
    for n in [0, 1, 9, 10, 4_294_967_295, u64::MAX] {
        assert_eq!(parse_number(&decimal_text(n), u64::MAX), Ok(n));
    }
}

#[test]
fn numbers_are_read_as_the_standard_library_reads_them() {
    for text in [
        "0", "007", "+5", "+", "-", "-1", "", " 1", "1 ", "12x", "1_000", "4294967295",
        "4294967296", "18446744073709551615", "18446744073709551616", "++1", "+-1", "٣",
        "99999999999999999999x", "x99999999999999999999", "4294967296x", "+4294967296",
        "000000000000000000000000001",
    ] {
        let kind = |e: std::num::ParseIntError| match e.kind() {
            IntErrorKind::Empty => NumberError::Empty,
            IntErrorKind::PosOverflow => NumberError::PosOverflow,
            _ => NumberError::InvalidDigit,
        };
        assert_eq!(
            parse_number(text, u64::MAX),
            text.parse::<u64>().map_err(kind),
            "{}",
            text
        );
        assert_eq!(
            parse_number(text, u32::MAX as u64),
            text.parse::<u32>().map(|n| n as u64).map_err(kind),
            "{}",
            text
        );
    }
}

#[test]
fn numbers_are_written_in_hexadecimal() {
    assert_eq!(hexadecimal_text(0xad268c4d1f5826, 16), "00ad268c4d1f5826");
    assert_eq!(hexadecimal_text(255, 2), "ff");
    assert_eq!(parse_hex("00ad268c4d1f5826"), Some(0xad268c4d1f5826));
    assert_eq!(parse_hex("0g"), None);
}

#[test]
fn texts_are_compared_as_a_whole() {
    assert!(same_text("mint", "mint"));
    assert!(!same_text("mint", "mints"));
    assert!(!same_text("mint", "Mint"));
    assert!(same_text("", ""));
}

#[test]
fn proof_without_a_point_is_refused() {
    let refused = ProofInfo::new(
        cash(None, None),
        url("https://mint.one"),
        State::Unspent,
        CurrencyUnit::Sat,
    );
    assert!(matches!(refused, Err(Error::Nut00(Nut00Error::NoPoint))));
    let info = ProofInfo::new(
        cash(Some("02bb"), Some("p2pk")),
        url("https://mint.one"),
        State::Pending,
        CurrencyUnit::Eur,
    )
    .unwrap();
    assert_eq!(info.y.text, "02bb");
    assert_eq!(info.cash, cash(Some("02bb"), Some("p2pk")));
    assert_eq!(info.mint_url.text, "https://mint.one");
    assert_eq!(info.state, State::Pending);
    assert_eq!(info.unit, CurrencyUnit::Eur);
    assert_eq!(info.spending_condition.unwrap().text, "p2pk");
}

#[test]
fn every_given_condition_must_match() {
    let info = ProofInfo::new(
        cash(Some("02bb"), Some("p2pk")),
        url("https://mint.one"),
        State::Unspent,
        CurrencyUnit::Sat,
    )
    .unwrap();
    let condition = |text: &str| SpendingConditions { text: text.to_string() };
    assert!(info.matches_conditions(&None, &None, &None, &None));
    assert!(info.matches_conditions(
        &Some(url("https://mint.one")),
        &Some(CurrencyUnit::Sat),
        &Some(vec![State::Spent, State::Unspent]),
        &Some(vec![condition("htlc"), condition("p2pk")]),
    ));
    assert!(!info.matches_conditions(&Some(url("https://mint.two")), &None, &None, &None));
    assert!(!info.matches_conditions(&None, &Some(CurrencyUnit::Msat), &None, &None));
    assert!(!info.matches_conditions(&None, &None, &Some(vec![State::Spent]), &None));
    assert!(!info.matches_conditions(&None, &None, &Some(vec![]), &None));
    assert!(!info.matches_conditions(&None, &None, &None, &Some(vec![condition("htlc")])));
    let bare = ProofInfo::new(
        cash(Some("02bb"), None),
        url("https://mint.one"),
        State::Unspent,
        CurrencyUnit::Sat,
    )
    .unwrap();
    assert!(!bare.matches_conditions(&None, &None, &None, &Some(vec![condition("p2pk")])));
    assert!(!bare.matches_conditions(&None, &None, &None, &Some(vec![])));
}
