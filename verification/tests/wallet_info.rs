use nostr_sdk::nips::nip44;
use nostr_sdk::ToBech32;
use wallet_nostr::error::{Error, Nut00Error, Nut02Error};
use wallet_nostr::event::{Event, EventId, WALLET_INFO_KIND};
use wallet_nostr::nuts::{Amount, CurrencyUnit, Id, UncheckedUrl};
use wallet_nostr::sealing::{SecretKey, WalletKeys};
use wallet_nostr::tag::Tag;
use wallet_nostr::text::NumberError;
use wallet_nostr::wallet_info::{find_wallet_id, WalletInfo};

const SECRET: &str = "5c0c523f52a5b6fad39ed2403092df8cebc36318b39383bca6c00808626fab3a";
const KEYSET: &str = "00ad268c4d1f5826";

fn nostr_keys() -> nostr_sdk::Keys {
    nostr_sdk::Keys::parse(SECRET).unwrap()
}

fn keys() -> WalletKeys {
    WalletKeys {
        public_key: nostr_keys().public_key().to_hex(),
        secret_key: Some(SECRET.to_string()),
    }
}

fn tag(fields: &[&str]) -> Tag {
    Tag::parse(fields.iter().map(|field| field.to_string()).collect()).unwrap()
}

fn url(text: &str) -> UncheckedUrl {
    UncheckedUrl::from_str(text)
}

fn urls(set: &wallet_nostr::collections::KeySet<UncheckedUrl>) -> Vec<String> {
    (0..set.len()).map(|i| set.get(i).text.clone()).collect()
}

fn sealed(text: &str) -> String {
    let keys = nostr_keys();
    nip44::encrypt(keys.secret_key(), &keys.public_key(), text, nip44::Version::V2).unwrap()
}

fn event(tags: Vec<Tag>, content: String) -> Event {
    Event {
        id: EventId { text: "id".to_string() },
        pubkey: String::new(),
        created_at: 0,
        kind: WALLET_INFO_KIND,
        tags,
        content,
        sig: String::new(),
    }
}

fn full_info() -> WalletInfo {
    let mut info = WalletInfo::named("wallet".to_string());
    info.balance = Some(Amount { value: 1200 });
    info.unit = Some(CurrencyUnit::Sat);
    info.name = Some("my wallet".to_string());
    info.description = Some("for tests".to_string());
    info.mints.insert(url("https://mint.one"));
    info.mints.insert(url("https://mint.two"));
    info.relays.insert(url("wss://relay.one"));
    info.counters.insert(Id::from_str(KEYSET).unwrap(), 7);
    info
}

#[test]
fn written_info_is_read_back() {
    let info = full_info();
    let event = info.to_event(&keys()).unwrap();
    assert_eq!(event.kind, 37375);
    assert_eq!(event.pubkey, keys().public_key);
    assert_eq!(event.tags.len(), 1);
    assert_eq!(event.tags[0].as_vec(), &["d", "wallet"]);
    let read = WalletInfo::from_event(&event, &keys()).unwrap();
    assert_eq!(read.id, "wallet");
    assert_eq!(read.balance, Some(Amount { value: 1200 }));
    assert_eq!(read.unit, Some(CurrencyUnit::Sat));
    assert_eq!(read.name.as_deref(), Some("my wallet"));
    assert_eq!(read.description.as_deref(), Some("for tests"));
    assert_eq!(urls(&read.mints), ["https://mint.one", "https://mint.two"]);
    assert_eq!(urls(&read.relays), ["wss://relay.one"]);
    assert_eq!(read.get_keyset_counter(&Id::from_str(KEYSET).unwrap()), Some(7));
    assert!(read.p2pk_priv_key.is_none());
}

#[test]
fn written_content_is_encrypted_tags() {
    let event = full_info().to_event(&keys()).unwrap();
    let nostr = nostr_keys();
    let text = nip44::decrypt(nostr.secret_key(), &nostr.public_key(), &event.content).unwrap();
    assert_eq!(
        text,
        "[[\"balance\",\"1200\",\"sat\"],[\"unit\",\"sat\"],[\"mint\",\"https://mint.one\"],\
         [\"mint\",\"https://mint.two\"],[\"name\",\"my wallet\"],\
         [\"description\",\"for tests\"],[\"relay\",\"wss://relay.one\"],\
         [\"counter\",\"00ad268c4d1f5826\",\"7\"]]"
    );
}

#[test]
fn written_event_is_signed() {
    let event = full_info().to_event(&keys()).unwrap();
    let signed = nostr_sdk::Event::new(
        nostr_sdk::EventId::from_hex(&event.id.text).unwrap(),
        nostr_sdk::PublicKey::from_hex(&event.pubkey).unwrap(),
        nostr_sdk::Timestamp::from(event.created_at),
        nostr_sdk::Kind::from(event.kind),
        event.tags.iter().map(|t| nostr_sdk::Tag::parse(t.as_vec().clone()).unwrap()),
        event.content.clone(),
        event.sig.parse().unwrap(),
    );
    assert!(signed.verify().is_ok());
}

#[test]
fn secret_key_and_lone_unit_are_not_written() {
    let mut info = full_info();
    info.balance = None;
    info.p2pk_priv_key = Some(SecretKey::from_str(SECRET).unwrap());
    let once = WalletInfo::from_event(&info.to_event(&keys()).unwrap(), &keys()).unwrap();
    assert_eq!(once.unit, None);
    assert_eq!(once.balance, None);
    assert!(once.p2pk_priv_key.is_none());
    let twice = WalletInfo::from_event(&once.to_event(&keys()).unwrap(), &keys()).unwrap();
    assert_eq!(urls(&twice.mints), urls(&once.mints));
    assert_eq!(twice.name, once.name);
}

#[test]
fn balance_without_unit_is_written() {
    let mut info = WalletInfo::named("w".to_string());
    info.balance = Some(Amount { value: 3 });
    let content: Vec<Vec<String>> =
        info.content_tags().iter().map(|t| t.as_vec().clone()).collect();
    assert_eq!(content, [["balance".to_string(), "3".to_string()]]);
}

#[test]
fn outer_tags_come_before_the_content() {
    let tags = vec![
        tag(&["name", "outer"]),
        tag(&["d", "first"]),
        tag(&["d", "second"]),
        tag(&["mint", "https://outer"]),
        tag(&["unknown"]),
    ];
    let content = sealed("[[\"name\",\"inner\"],[\"mint\",\"https://inner\"]]");
    let info = WalletInfo::from_event(&event(tags, content), &keys()).unwrap();
    assert_eq!(info.id, "first");
    assert_eq!(info.name.as_deref(), Some("inner"));
    assert_eq!(urls(&info.mints), ["https://outer", "https://inner"]);
}

#[test]
fn secret_key_is_read_in_both_forms() {
    let nsec = nostr_keys().secret_key().to_bech32().unwrap();
    assert_eq!(SecretKey::from_str(SECRET).unwrap().text, SECRET);
    assert_eq!(SecretKey::from_str(&SECRET.to_uppercase()).unwrap().text, SECRET);
    assert_eq!(SecretKey::from_str(&nsec).unwrap().text, SECRET);
    let info = WalletInfo::from_tags(
        "w".to_string(),
        &vec![tag(&["privkey", SECRET])],
        &vec![],
    )
    .unwrap();
    assert_eq!(info.p2pk_priv_key.unwrap().text, SECRET);
    assert!(matches!(SecretKey::from_str("no key"), Err(Error::Key(_))));
}

#[test]
fn later_tags_replace_earlier_ones() {
    let info = WalletInfo::from_tags(
        "w".to_string(),
        &vec![tag(&["balance", "1"]), tag(&["unit", "sat"]), tag(&["counter", KEYSET, "1"])],
        &vec![
            tag(&["balance", "+2", "sat"]),
            tag(&["unit", "usd"]),
            tag(&["counter", KEYSET, "x", "9"]),
            tag(&["description", "d"]),
        ],
    )
    .unwrap();
    assert_eq!(info.balance, Some(Amount { value: 2 }));
    assert_eq!(info.unit, Some(CurrencyUnit::Usd));
    assert_eq!(info.get_keyset_counter(&Id::from_str(KEYSET).unwrap()), Some(9));
    assert_eq!(info.counters.len(), 1);
    assert_eq!(info.description.as_deref(), Some("d"));
}

#[test]
fn empty_tags_are_refused() {
    for name in
        ["mint", "relay", "unit", "name", "description", "balance", "privkey", "counter"]
    {
        let r = WalletInfo::from_tags("w".to_string(), &vec![tag(&[name])], &vec![]);
        assert!(matches!(r, Err(Error::EmptyTag(n)) if n == name), "{}", name);
    }
}

#[test]
fn unreadable_values_are_refused() {
    let read = |fields: &[&str]| {
        WalletInfo::from_tags("w".to_string(), &vec![], &vec![tag(fields)]).map(|_| ())
    };
    assert!(matches!(read(&["balance", "-1"]), Err(Error::ParseInt(NumberError::InvalidDigit))));
    assert!(matches!(read(&["unit", "btc"]), Err(Error::Nut00(Nut00Error::UnsupportedUnit))));
    assert!(matches!(read(&["privkey", "xyz"]), Err(Error::Key(_))));
    assert!(matches!(read(&["counter", "xyz", "1"]), Err(Error::Nut02(Nut02Error::Length))));
    assert!(matches!(read(&["counter", KEYSET]), Err(Error::ParseInt(NumberError::InvalidDigit))));
    assert!(matches!(read(&["counter", KEYSET, "4294967296"]), Err(Error::ParseInt(NumberError::PosOverflow))));
    assert!(read(&["counter", KEYSET, "4294967295"]).is_ok());
}

#[test]
fn wallet_id_is_that_of_the_first_d_tag() {
    assert!(matches!(
        find_wallet_id(&vec![tag(&["D", "x"])]),
        Err(Error::TagNotFound(name)) if name == "d"
    ));
    assert!(matches!(
        find_wallet_id(&vec![tag(&["d"]), tag(&["d", "x"])]),
        Err(Error::EmptyTag(name)) if name == "d"
    ));
    assert_eq!(find_wallet_id(&vec![tag(&["a", "x"]), tag(&["d", "y"])]).unwrap(), "y");
}

#[test]
fn unreadable_events_are_refused() {
    let tags = || vec![tag(&["d", "w"])];
    let read = |e: &Event, k: &WalletKeys| WalletInfo::from_event(e, k).map(|_| ());
    assert!(matches!(
        read(&event(vec![], sealed("[]")), &keys()),
        Err(Error::TagNotFound(_))
    ));
    assert!(matches!(
        read(&event(tags(), "not sealed".to_string()), &keys()),
        Err(Error::Encrypt(_))
    ));
    assert!(matches!(read(&event(tags(), sealed("{}")), &keys()), Err(Error::Json(_))));
    let no_secret = WalletKeys { secret_key: None, ..keys() };
    assert!(matches!(read(&event(tags(), sealed("[]")), &no_secret), Err(Error::Key(_))));
    let other = nostr_sdk::Keys::generate();
    let other_keys = WalletKeys {
        public_key: other.public_key().to_hex(),
        secret_key: Some(other.secret_key().to_secret_hex()),
    };
    assert!(matches!(read(&event(tags(), sealed("[]")), &other_keys), Err(Error::Encrypt(_))));
}

#[test]
fn info_that_cannot_be_encrypted_is_refused() {
    let no_secret = WalletKeys { secret_key: None, ..keys() };
    assert!(matches!(full_info().to_event(&no_secret), Err(Error::Key(_))));
    for text in ["", "xyz"] {
        let unreadable = WalletKeys { secret_key: Some(text.to_string()), ..keys() };
        assert!(matches!(full_info().to_event(&unreadable), Err(Error::Key(_))));
    }
    let no_key = WalletKeys { public_key: "xyz".to_string(), ..keys() };
    assert!(matches!(full_info().to_event(&no_key), Err(Error::Encrypt(_))));
    let mut info = WalletInfo::named("w".to_string());
    info.name = Some("x".repeat(65_408 - "[[\"name\",\"\"]]".len()));
    assert!(info.to_event(&keys()).is_ok());
    info.name = Some("x".repeat(65_408 - "[[\"name\",\"\"]]".len() + 1));
    assert!(matches!(info.to_event(&keys()), Err(Error::Encrypt(_))));
}

#[test]
fn mints_are_added_removed_and_replaced() {
    let mut info = WalletInfo::named("w".to_string());
    info.add_mint(url("https://one"));
    info.add_mint(url("https://two"));
    info.add_mint(url("https://one"));
    assert_eq!(urls(&info.mints), ["https://one", "https://two"]);
    info.update_mint_url(&url("https://one"), url("https://three"));
    assert_eq!(urls(&info.mints), ["https://two", "https://three"]);
    info.update_mint_url(&url("https://never"), url("https://two"));
    assert_eq!(urls(&info.mints), ["https://two", "https://three"]);
    info.update_mint_url(&url("https://two"), url("https://two"));
    assert_eq!(urls(&info.mints), ["https://three", "https://two"]);
    info.remove_mint(&url("https://three"));
    let mints: Vec<(UncheckedUrl, Option<u8>)> = info.get_mints();
    assert_eq!(mints, [(url("https://two"), None)]);
}

#[test]
fn counters_are_raised() {
    let id = Id::from_str(KEYSET).unwrap();
    let other = Id::from_str("0000000000000001").unwrap();
    let mut info = WalletInfo::named("w".to_string());
    assert_eq!(info.get_keyset_counter(&id), None);
    info.increment_keyset_counter(&id, 0);
    assert_eq!(info.get_keyset_counter(&id), Some(0));
    info.increment_keyset_counter(&id, 3);
    info.increment_keyset_counter(&id, 4);
    assert_eq!(info.get_keyset_counter(&id), Some(7));
    assert_eq!(info.get_keyset_counter(&other), None);
    info.increment_keyset_counter(&id, u32::MAX - 7);
    assert_eq!(info.get_keyset_counter(&id), Some(u32::MAX));
}

#[test]
fn copied_info_is_the_same() {
    let info = full_info();
    let copy = info.clone();
    let fields = |i: &WalletInfo| -> Vec<Vec<String>> {
        i.content_tags().iter().map(|t| t.as_vec().clone()).collect()
    };
    assert_eq!(copy.id, info.id);
    assert_eq!(fields(&copy), fields(&info));
}
