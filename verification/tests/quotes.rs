use nostr_sdk::nips::nip44;
use wallet_nostr::error::{Error, Nut00Error, Nut04Error};
use wallet_nostr::event::{Event, EventId, QUOTE_KIND};
use wallet_nostr::melt_quote::{
    find_melt_quote, melt_quote_deletions, melt_quote_from_event, melt_quote_from_tags,
    melt_quote_to_event, melt_quotes_from_events, MeltQuote,
};
use wallet_nostr::mint_quote::{
    find_mint_quote, mint_quote_deletions, mint_quote_from_event, mint_quote_from_tags,
    mint_quote_to_event, mint_quotes_from_events, MintQuote,
};
use wallet_nostr::nuts::{Amount, CurrencyUnit, MeltQuoteState, MintQuoteState, UncheckedUrl};
use wallet_nostr::sealing::WalletKeys;
use wallet_nostr::tag::Tag;
use wallet_nostr::text::NumberError;

const SECRET: &str = "5c0c523f52a5b6fad39ed2403092df8cebc36318b39383bca6c00808626fab3a";

fn nostr_keys() -> nostr_sdk::Keys {
    nostr_sdk::Keys::parse(SECRET).unwrap()
}

fn keys() -> WalletKeys {
    WalletKeys {
        public_key: nostr_keys().public_key().to_hex(),
        secret_key: Some(SECRET.to_string()),
    }
}

fn sealed(text: &str) -> String {
    let keys = nostr_keys();
    nip44::encrypt(keys.secret_key(), &keys.public_key(), text, nip44::Version::V2).unwrap()
}

fn opened(payload: &str) -> String {
    let keys = nostr_keys();
    nip44::decrypt(keys.secret_key(), &keys.public_key(), payload).unwrap()
}

fn tag(fields: &[&str]) -> Tag {
    Tag::parse(fields.iter().map(|field| field.to_string()).collect()).unwrap()
}

fn event(id: &str, tags: Vec<Tag>, content: String) -> Event {
    Event {
        id: EventId { text: id.to_string() },
        pubkey: String::new(),
        created_at: 0,
        kind: QUOTE_KIND,
        tags,
        content,
        sig: String::new(),
    }
}

fn mint_tags() -> Vec<Tag> {
    vec![
        tag(&["quote_id", "q"]),
        tag(&["mint", "https://mint.one"]),
        tag(&["amount", "21"]),
        tag(&["unit", "sat"]),
        tag(&["request", "lnbc"]),
        tag(&["state", "PAID"]),
        tag(&["expiration", "1700000000"]),
    ]
}

fn melt_tags() -> Vec<Tag> {
    vec![
        tag(&["quote_id", "q"]),
        tag(&["amount", "21"]),
        tag(&["unit", "sat"]),
        tag(&["request", "lnbc"]),
        tag(&["fee_reserve", "2"]),
        tag(&["expiration", "1700000000"]),
    ]
}

fn mint_quote() -> MintQuote {
    MintQuote {
        id: "q".to_string(),
        mint_url: UncheckedUrl::from_str("https://mint.one"),
        amount: Amount { value: 21 },
        unit: CurrencyUnit::Sat,
        request: "lnbc".to_string(),
        state: MintQuoteState::Unpaid,
        expiry: 1_700_000_000,
    }
}

fn melt_quote() -> MeltQuote {
    MeltQuote {
        id: "q".to_string(),
        amount: Amount { value: 21 },
        unit: CurrencyUnit::Sat,
        request: "lnbc".to_string(),
        fee_reserve: Amount { value: 2 },
        state: MeltQuoteState::Pending,
        expiry: 1_700_000_000,
        payment_preimage: None,
    }
}

fn mint_event(id: &str, quote_id: &str) -> Event {
    let text = format!(
        "[[\"quote_id\",\"{}\"],[\"mint\",\"https://mint.one\"],[\"amount\",\"21\"],\
         [\"unit\",\"sat\"],[\"request\",\"{}\"],[\"state\",\"PAID\"]]",
        quote_id, id
    );
    event(id, vec![tag(&["expiration", "5"])], sealed(&text))
}

fn melt_event(id: &str, quote_id: &str) -> Event {
    let text = format!(
        "[[\"quote_id\",\"{}\"],[\"amount\",\"21\"],[\"unit\",\"sat\"],\
         [\"request\",\"{}\"],[\"fee_reserve\",\"1\"]]",
        quote_id, id
    );
    event(id, vec![tag(&["expiration", "5"])], sealed(&text))
}

#[test]
fn mint_quote_is_read_from_its_tags() {
    let quote = mint_quote_from_tags(&mint_tags(), &vec![]).unwrap();
    assert_eq!(quote.id, "q");
    assert_eq!(quote.mint_url.text, "https://mint.one");
    assert_eq!(quote.amount, Amount { value: 21 });
    assert_eq!(quote.unit, CurrencyUnit::Sat);
    assert_eq!(quote.request, "lnbc");
    assert_eq!(quote.state, MintQuoteState::Paid);
    assert_eq!(quote.expiry, 1_700_000_000);
}

#[test]
fn mint_quote_lacks_the_first_missing_tag() {
    let names = ["quote_id", "mint", "amount", "unit", "request", "state", "expiration"];
    for (i, name) in names.iter().enumerate() {
        let mut tags = mint_tags();
        tags.remove(i);
        let r = mint_quote_from_tags(&vec![], &tags);
        assert!(matches!(r, Err(Error::MissingTag(n)) if n == *name), "{}", name);
    }
    let r = mint_quote_from_tags(&vec![], &vec![]);
    assert!(matches!(r, Err(Error::MissingTag(n)) if n == "quote_id"));
}

#[test]
fn mint_quote_tags_must_be_readable() {
    let read = |fields: &[&str]| {
        let mut tags = mint_tags();
        tags.push(tag(fields));
        mint_quote_from_tags(&tags, &vec![]).map(|_| ())
    };
    for name in ["quote_id", "mint", "amount", "unit", "request", "state", "expiration"] {
        assert!(matches!(read(&[name]), Err(Error::EmptyTag(n)) if n == name));
    }
    assert!(matches!(read(&["amount", "x"]), Err(Error::ParseInt(NumberError::InvalidDigit))));
    assert!(matches!(read(&["expiration", ""]), Err(Error::ParseInt(NumberError::Empty))));
    assert!(matches!(read(&["unit", "x"]), Err(Error::Nut00(Nut00Error::UnsupportedUnit))));
    assert!(matches!(read(&["state", "x"]), Err(Error::Nut04(Nut04Error::UnknownState))));
    assert!(read(&["fee_reserve"]).is_ok());
    assert!(read(&["unknown"]).is_ok());
}

#[test]
fn melt_quote_is_read_from_its_tags() {
    let quote = melt_quote_from_tags(&melt_tags(), &vec![tag(&["preimage", "00"])]).unwrap();
    assert_eq!(quote.id, "q");
    assert_eq!(quote.amount, Amount { value: 21 });
    assert_eq!(quote.unit, CurrencyUnit::Sat);
    assert_eq!(quote.request, "lnbc");
    assert_eq!(quote.fee_reserve, Amount { value: 2 });
    assert_eq!(quote.state, MeltQuoteState::Pending);
    assert_eq!(quote.expiry, 1_700_000_000);
    assert_eq!(quote.payment_preimage.as_deref(), Some("00"));
    let without = melt_quote_from_tags(&melt_tags(), &vec![]).unwrap();
    assert_eq!(without.payment_preimage, None);
}

#[test]
fn melt_quote_lacks_the_first_missing_tag() {
    let names = ["quote_id", "amount", "unit", "request", "fee_reserve", "expiration"];
    for (i, name) in names.iter().enumerate() {
        let mut tags = melt_tags();
        tags.remove(i);
        let r = melt_quote_from_tags(&tags, &vec![]);
        assert!(matches!(r, Err(Error::MissingTag(n)) if n == *name), "{}", name);
    }
}

#[test]
fn melt_quote_tags_must_be_readable() {
    let read = |fields: &[&str]| {
        let mut tags = melt_tags();
        tags.push(tag(fields));
        melt_quote_from_tags(&tags, &vec![]).map(|_| ())
    };
    for name in
        ["quote_id", "amount", "unit", "request", "fee_reserve", "preimage", "expiration"]
    {
        assert!(matches!(read(&[name]), Err(Error::EmptyTag(n)) if n == name));
    }
    assert!(matches!(read(&["fee_reserve", "-2"]), Err(Error::ParseInt(NumberError::InvalidDigit))));
    assert!(read(&["state", "whatever"]).is_ok());
    assert!(read(&["mint"]).is_ok());
}

#[test]
fn written_mint_quote_lacks_its_state() {
    let event = mint_quote_to_event("wallet", &mint_quote(), &keys()).unwrap();
    assert_eq!(event.kind, 7376);
    assert_eq!(event.tags.len(), 2);
    assert_eq!(
        event.tags[0].as_vec(),
        &["a".to_string(), format!("37375:{}:wallet", keys().public_key)]
    );
    assert_eq!(event.tags[1].as_vec(), &["expiration", "1700000000"]);
    assert_eq!(
        opened(&event.content),
        "[[\"quote_id\",\"q\"],[\"mint\",\"https://mint.one\"],[\"amount\",\"21\"],\
         [\"unit\",\"sat\"],[\"request\",\"lnbc\"]]"
    );
    let read = mint_quote_from_event(&event, &keys());
    assert!(matches!(read, Err(Error::MissingTag(n)) if n == "state"));
    let read = melt_quote_from_event(&event, &keys());
    assert!(matches!(read, Err(Error::MissingTag(n)) if n == "fee_reserve"));
}

#[test]
fn written_melt_quote_lacks_its_fee_reserve() {
    let event = melt_quote_to_event("wallet", &melt_quote(), &keys()).unwrap();
    assert_eq!(event.kind, 7376);
    assert_eq!(event.tags[1].as_vec(), &["expiration", "1700000000"]);
    assert_eq!(
        opened(&event.content),
        "[[\"quote_id\",\"q\"],[\"amount\",\"21\"],[\"unit\",\"sat\"],[\"request\",\"lnbc\"]]"
    );
    let read = melt_quote_from_event(&event, &keys());
    assert!(matches!(read, Err(Error::MissingTag(n)) if n == "fee_reserve"));
    let read = mint_quote_from_event(&event, &keys());
    assert!(matches!(read, Err(Error::MissingTag(n)) if n == "mint"));
}

fn verifies(event: &Event) -> bool {
    nostr_sdk::Event::new(
        nostr_sdk::EventId::from_hex(&event.id.text).unwrap(),
        nostr_sdk::PublicKey::from_hex(&event.pubkey).unwrap(),
        nostr_sdk::Timestamp::from(event.created_at),
        nostr_sdk::Kind::from(event.kind),
        event.tags.iter().map(|t| nostr_sdk::Tag::parse(t.as_vec().clone()).unwrap()),
        event.content.clone(),
        event.sig.parse().unwrap(),
    )
    .verify()
    .is_ok()
}

#[test]
fn written_quotes_are_signed() {
    let mut event = mint_quote_to_event("wallet", &mint_quote(), &keys()).unwrap();
    assert!(verifies(&event));
    assert_eq!(event.pubkey, keys().public_key);
    event.created_at += 1;
    assert!(!verifies(&event));
    let event = melt_quote_to_event("wallet", &melt_quote(), &keys()).unwrap();
    assert!(verifies(&event));
    assert_eq!(event.pubkey, keys().public_key);
}

#[test]
fn quotes_that_cannot_be_encrypted_are_refused() {
    let no_secret = WalletKeys { secret_key: None, ..keys() };
    assert!(matches!(
        mint_quote_to_event("wallet", &mint_quote(), &no_secret),
        Err(Error::Key(_))
    ));
    let mut quote = melt_quote();
    quote.request = "x".repeat(70_000);
    assert!(matches!(melt_quote_to_event("wallet", &quote, &keys()), Err(Error::Encrypt(_))));
}

#[test]
fn mint_quotes_are_listed_in_order() {
    let events = vec![mint_event("e1", "q1"), mint_event("e2", "q2"), mint_event("e3", "q1")];
    let quotes = mint_quotes_from_events(&events, &keys()).unwrap();
    let ids: Vec<&str> = quotes.iter().map(|q| q.id.as_str()).collect();
    assert_eq!(ids, ["q1", "q2", "q1"]);
    assert_eq!(find_mint_quote(quotes.clone(), "q1").unwrap().request, "e1");
    assert!(find_mint_quote(quotes, "q3").is_none());
}

#[test]
fn one_unreadable_event_spoils_the_list() {
    let events = vec![
        mint_event("e1", "q1"),
        melt_event("e2", "q1"),
        event("e3", vec![], "not sealed".to_string()),
    ];
    let r = mint_quotes_from_events(&events, &keys());
    assert!(matches!(r, Err(Error::MissingTag(n)) if n == "mint"));
}

#[test]
fn mint_quotes_to_delete_stop_at_an_unreadable_event() {
    let events = vec![mint_event("e1", "q1"), mint_event("e2", "q2"), mint_event("e3", "q1")];
    let (ids, r) = mint_quote_deletions(&events, "q1", &keys());
    assert!(r.is_ok());
    let ids: Vec<String> = ids.into_iter().map(|id| id.text).collect();
    assert_eq!(ids, ["e1", "e3"]);
    let events = vec![
        mint_event("e1", "q1"),
        event("e2", vec![], "not sealed".to_string()),
        mint_event("e3", "q1"),
    ];
    let (ids, r) = mint_quote_deletions(&events, "q1", &keys());
    assert!(matches!(r, Err(Error::Encrypt(_))));
    let ids: Vec<String> = ids.into_iter().map(|id| id.text).collect();
    assert_eq!(ids, ["e1"]);
}

#[test]
fn melt_quotes_are_listed_found_and_deleted() {
    let events = vec![melt_event("e1", "q1"), melt_event("e2", "q2"), melt_event("e3", "q2")];
    let quotes = melt_quotes_from_events(&events, &keys()).unwrap();
    assert_eq!(find_melt_quote(quotes.clone(), "q2").unwrap().request, "e2");
    assert!(find_melt_quote(quotes, "q").is_none());
    let (ids, r) = melt_quote_deletions(&events, "q2", &keys());
    assert!(r.is_ok());
    let ids: Vec<String> = ids.into_iter().map(|id| id.text).collect();
    assert_eq!(ids, ["e2", "e3"]);
    let mixed = vec![melt_event("e1", "q1"), mint_event("e2", "q1")];
    assert!(matches!(
        melt_quotes_from_events(&mixed, &keys()),
        Err(Error::MissingTag(n)) if n == "fee_reserve"
    ));
    let (ids, r) = melt_quote_deletions(&mixed, "q1", &keys());
    assert_eq!(ids.len(), 1);
    assert!(matches!(r, Err(Error::MissingTag(n)) if n == "fee_reserve"));
}
