use nostr_sdk::nips::nip44;
use wallet_nostr::database::WalletNostrDatabase;
use wallet_nostr::error::{Error, Nut00Error};
use wallet_nostr::event::{Event, EventId, Filter};
use wallet_nostr::melt_quote::MeltQuote;
use wallet_nostr::mint_quote::MintQuote;
use wallet_nostr::nuts::{
    Amount, CurrencyUnit, Id, KeySetInfo, Keys, MeltQuoteState, MintQuoteState, Proof, ProofInfo,
    PublicKey, SpendingConditions, State, UncheckedUrl,
};
use wallet_nostr::proofs::TxInfo;
use wallet_nostr::sealing::WalletKeys;
use wallet_nostr::tag::Tag;
use wallet_nostr::wallet_info::WalletInfo;

const SECRET: &str = "5c0c523f52a5b6fad39ed2403092df8cebc36318b39383bca6c00808626fab3a";
const KEYSET: &str = "00ad268c4d1f5826";
const OTHER_KEYSET: &str = "0000000000000001";

fn nostr_keys() -> nostr_sdk::Keys {
    nostr_sdk::Keys::parse(SECRET).unwrap()
}

fn keys() -> WalletKeys {
    WalletKeys {
        public_key: nostr_keys().public_key().to_hex(),
        secret_key: Some(SECRET.to_string()),
    }
}

fn database() -> WalletNostrDatabase {
    WalletNostrDatabase::remote("wallet".to_string(), keys())
}

fn url(text: &str) -> UncheckedUrl {
    UncheckedUrl::from_str(text)
}

fn id(text: &str) -> Id {
    Id::from_str(text).unwrap()
}

fn keyset(text: &str, unit: CurrencyUnit, active: bool) -> KeySetInfo {
    KeySetInfo { id: id(text), unit, active, input_fee_ppk: 0 }
}

fn point(text: &str) -> PublicKey {
    PublicKey { text: text.to_string() }
}

fn cash(keyset: &str, secret: &str) -> Proof {
    Proof {
        amount: Amount { value: 1 },
        keyset_id: id(keyset),
        secret: secret.to_string(),
        c: point("02aa"),
        witness: None,
        dleq: None,
        y: Some(point(&format!("y-{}", secret))),
        spending_condition: None,
    }
}

fn info(mint: &str, proof_of: Proof) -> ProofInfo {
    ProofInfo::new(proof_of, url(mint), State::Unspent, CurrencyUnit::Sat).unwrap()
}

fn with_time(mut event: Event, event_id: &str, created_at: u64) -> Event {
    event.id = EventId { text: event_id.to_string() };
    event.created_at = created_at;
    event
}

fn filter_parts(filter: &Filter) -> (u16, Option<Vec<String>>) {
    (filter.kind, filter.tag.as_ref().map(|tag| tag.as_vec().clone()))
}

fn tag_parts(name: &str, value: &str) -> Option<Vec<String>> {
    Some(vec![name.to_string(), value.to_string()])
}

fn mint_count(info: &WalletInfo) -> usize {
    info.mints.len()
}

fn secrets(proofs: &[ProofInfo]) -> Vec<&str> {
    proofs.iter().map(|p| p.cash.secret.as_str()).collect()
}

fn sealed_mint_quote(event_id: &str, quote_id: &str) -> Event {
    let keys = nostr_keys();
    let text = format!(
        "[[\"quote_id\",\"{}\"],[\"mint\",\"m\"],[\"amount\",\"1\"],[\"unit\",\"sat\"],\
         [\"request\",\"{}\"],[\"state\",\"UNPAID\"],[\"fee_reserve\",\"3\"]]",
        quote_id, event_id
    );
    Event {
        id: EventId { text: event_id.to_string() },
        pubkey: String::new(),
        created_at: 0,
        kind: 7376,
        tags: vec![Tag::with_value("expiration", "9")],
        content: nip44::encrypt(
            keys.secret_key(),
            &keys.public_key(),
            text,
            nip44::Version::V2,
        )
        .unwrap(),
        sig: String::new(),
    }
}

#[test]
fn database_is_remote_or_local() {
    assert!(!database().is_local());
    let local = WalletNostrDatabase::local("wallet".to_string(), keys());
    assert!(local.is_local());
    assert_eq!(local.keys().public_key, keys().public_key);
}

#[test]
fn filters_ask_by_kind_and_tag() {
    let db = database();
    assert_eq!(filter_parts(&db.wallet_info_filter()), (37375, tag_parts("d", "wallet")));
    assert_eq!(filter_parts(&db.quote_filter()), (7376, None));
    assert_eq!(filter_parts(&db.proofs_filter()), (7375, tag_parts("a", "wallet")));
    assert_eq!(filter_parts(&db.last_checked_filter()), (7375, tag_parts("d", "wallet")));
}

#[test]
fn transactions_are_not_linked_by_the_bare_id() {
    let db = database();
    let event = db.update_proofs("{}").unwrap();
    let asked = db.proofs_filter().tag.unwrap();
    assert_eq!(event.tags[0].kind(), asked.kind());
    assert_ne!(event.tags[0].content(), asked.content());
}

#[test]
fn missing_info_is_made_anew() {
    let db = database();
    let (info, event) = db.get_wallet_info(vec![]).unwrap();
    assert_eq!(info.id, "wallet");
    assert_eq!(mint_count(&info), 0);
    let event = event.unwrap();
    assert_eq!(event.kind, 37375);
    let (read, saved) = db.get_wallet_info(vec![event]).unwrap();
    assert_eq!(read.id, "wallet");
    assert!(saved.is_none());
    let no_secret = WalletNostrDatabase::remote(
        "wallet".to_string(),
        WalletKeys { secret_key: None, ..keys() },
    );
    assert!(matches!(no_secret.get_wallet_info(vec![]), Err(Error::Key(_))));
}

#[test]
fn info_is_read_from_the_latest_event() {
    let db = database();
    let (mut info, _) = db.get_wallet_info(vec![]).unwrap();
    let first = with_time(db.add_mint(&mut info, url("https://one")).unwrap(), "1", 10);
    let second = with_time(db.add_mint(&mut info, url("https://two")).unwrap(), "2", 20);
    let (read, saved) = db.get_wallet_info(vec![second, first]).unwrap();
    assert_eq!(mint_count(&read), 2);
    assert!(saved.is_none());
    let mut broken = with_time(db.save_wallet_info(&info).unwrap(), "3", 30);
    broken.content = "not sealed".to_string();
    assert!(matches!(db.get_wallet_info(vec![broken]), Err(Error::Encrypt(_))));
}

#[test]
fn changes_to_the_info_are_read_back() {
    let db = database();
    let (mut info, _) = db.get_wallet_info(vec![]).unwrap();
    db.add_mint(&mut info, url("https://one")).unwrap();
    db.add_mint(&mut info, url("https://two")).unwrap();
    db.update_mint_url(&mut info, &url("https://one"), url("https://three")).unwrap();
    db.remove_mint(&mut info, &url("https://two")).unwrap();
    db.increment_keyset_counter(&mut info, &id(KEYSET), 2).unwrap();
    let event = db.increment_keyset_counter(&mut info, &id(KEYSET), 5).unwrap();
    let (read, _) = db.get_wallet_info(vec![event]).unwrap();
    let mints: Vec<(UncheckedUrl, Option<u8>)> = read.get_mints();
    assert_eq!(mints, [(url("https://three"), None)]);
    assert_eq!(read.get_keyset_counter(&id(KEYSET)), Some(7));
    assert_eq!(read.get_keyset_counter(&id(OTHER_KEYSET)), None);
}

#[test]
fn keysets_are_kept_by_mint_and_by_id() {
    let mut db = database();
    assert!(db.get_mint_keysets(&url("https://one")).is_none());
    db.add_mint_keysets(url("https://one"), vec![]);
    assert!(db.get_mint_keysets(&url("https://one")).is_none());
    db.add_mint_keysets(
        url("https://one"),
        vec![
            keyset(KEYSET, CurrencyUnit::Sat, true),
            keyset(OTHER_KEYSET, CurrencyUnit::Usd, true),
            keyset(KEYSET, CurrencyUnit::Sat, false),
        ],
    );
    assert_eq!(
        db.get_mint_keysets(&url("https://one")).unwrap(),
        [keyset(KEYSET, CurrencyUnit::Sat, false), keyset(OTHER_KEYSET, CurrencyUnit::Usd, true)]
    );
    db.add_mint_keysets(url("https://two"), vec![keyset(KEYSET, CurrencyUnit::Eur, true)]);
    assert_eq!(
        db.get_mint_keysets(&url("https://one")).unwrap()[0],
        keyset(KEYSET, CurrencyUnit::Eur, true)
    );
    assert_eq!(db.get_mint_keysets(&url("https://two")).unwrap().len(), 1);
    assert_eq!(db.get_keyset_by_id(&id(KEYSET)), Some(keyset(KEYSET, CurrencyUnit::Eur, true)));
    assert_eq!(db.get_keyset_by_id(&id("0000000000000002")), None);
}

#[test]
fn keys_are_kept_until_removed() {
    let mut db = database();
    let some = Keys { keys: vec![(Amount { value: 1 }, point("02aa"))] };
    let other = Keys { keys: vec![] };
    assert!(db.get_keys(&id(KEYSET)).is_none());
    db.add_keys(id(KEYSET), other.clone());
    db.add_keys(id(KEYSET), some.clone());
    db.add_keys(id(OTHER_KEYSET), other.clone());
    assert_eq!(db.get_keys(&id(KEYSET)), Some(&some));
    db.remove_keys(&id(KEYSET));
    assert!(db.get_keys(&id(KEYSET)).is_none());
    assert_eq!(db.get_keys(&id(OTHER_KEYSET)), Some(&other));
}

#[test]
fn quotes_are_taken_once_per_event() {
    let db = database();
    let events = || {
        vec![
            sealed_mint_quote("e1", "q1"),
            sealed_mint_quote("e1", "q1"),
            sealed_mint_quote("e2", "q2"),
        ]
    };
    let quotes = db.get_mint_quotes(events()).unwrap();
    assert_eq!(quotes.len(), 2);
    assert_eq!(db.get_mint_quote(events(), "q2").unwrap().unwrap().request, "e2");
    assert!(db.get_mint_quote(events(), "q3").unwrap().is_none());
    let melt = db.get_melt_quote(events(), "q1").unwrap().unwrap();
    assert_eq!(melt.fee_reserve, Amount { value: 3 });
    assert!(db.get_melt_quote(events(), "q3").unwrap().is_none());
    let (ids, r) = db.remove_mint_quote(&events(), "q1");
    assert_eq!(ids.len(), 2);
    assert!(r.is_ok());
    let (ids, r) = db.remove_melt_quote(&events(), "q2");
    assert_eq!(ids, [EventId { text: "e2".to_string() }]);
    assert!(r.is_ok());
}

#[test]
fn written_quote_spoils_the_lists() {
    let db = database();
    let mint = db
        .add_mint_quote(&MintQuote {
            id: "q".to_string(),
            mint_url: url("https://one"),
            amount: Amount { value: 1 },
            unit: CurrencyUnit::Sat,
            request: "lnbc".to_string(),
            state: MintQuoteState::Paid,
            expiry: 5,
        })
        .unwrap();
    let melt = db
        .add_melt_quote(&MeltQuote {
            id: "q".to_string(),
            amount: Amount { value: 1 },
            unit: CurrencyUnit::Sat,
            request: "lnbc".to_string(),
            fee_reserve: Amount { value: 1 },
            state: MeltQuoteState::Unpaid,
            expiry: 5,
            payment_preimage: None,
        })
        .unwrap();
    let (ids, r) = db.remove_mint_quote(&vec![sealed_mint_quote("e1", "q")], "q");
    assert_eq!(ids.len(), 1);
    assert!(r.is_ok());
    assert!(matches!(
        db.get_mint_quote(vec![sealed_mint_quote("e1", "q"), mint], "q"),
        Err(Error::MissingTag(n)) if n == "state"
    ));
    assert!(matches!(
        db.get_melt_quote(vec![sealed_mint_quote("e1", "q"), melt], "q"),
        Err(Error::MissingTag(n)) if n == "fee_reserve"
    ));
}

#[test]
fn proofs_of_known_keysets_are_found() {
    let mut db = database();
    db.add_mint_keysets(url("https://one"), vec![keyset(KEYSET, CurrencyUnit::Usd, true)]);
    let txs = || {
        vec![
            TxInfo::new(
                vec![
                    info("https://one", cash(KEYSET, "1")),
                    info("https://two", cash(KEYSET, "2")),
                    info("https://one", cash(OTHER_KEYSET, "3")),
                ],
                vec![],
            ),
            TxInfo::new(
                vec![info("https://one", cash(KEYSET, "4"))],
                vec![info("https://one", cash(KEYSET, "1"))],
            ),
        ]
    };
    let all = db.get_proofs(txs(), &None, &None, &None, &None).unwrap();
    assert_eq!(secrets(&all), ["1", "1", "4", "2"]);
    assert_eq!(all[0].unit, CurrencyUnit::Usd);
    assert_eq!(all[0].state, State::Unspent);
    assert_eq!(all[0].y, point("y-1"));
    assert_eq!(all[3].mint_url, url("https://two"));
    let two = db.get_proofs(txs(), &Some(url("https://two")), &None, &None, &None).unwrap();
    assert_eq!(secrets(&two), ["2"]);
    let sat = db.get_proofs(txs(), &None, &Some(CurrencyUnit::Sat), &None, &None).unwrap();
    assert!(sat.is_empty());
    let conditions = Some(vec![SpendingConditions { text: "p2pk".to_string() }]);
    assert!(db.get_proofs(txs(), &None, &None, &None, &conditions).unwrap().is_empty());
}

#[test]
fn proof_states_are_those_that_were_set() {
    let mut db = database();
    db.add_mint_keysets(url("https://one"), vec![keyset(KEYSET, CurrencyUnit::Sat, true)]);
    db.set_proof_state(point("y-1"), State::Reserved);
    db.set_proof_state(point("y-1"), State::Spent);
    let txs = || {
        vec![TxInfo::new(
            vec![
                info("https://one", cash(KEYSET, "1")),
                info("https://one", cash(KEYSET, "2")),
            ],
            vec![],
        )]
    };
    let spent =
        db.get_proofs(txs(), &None, &None, &Some(vec![State::Spent]), &None).unwrap();
    assert_eq!(secrets(&spent), ["1"]);
    let unspent =
        db.get_proofs(txs(), &None, &None, &Some(vec![State::Unspent]), &None).unwrap();
    assert_eq!(secrets(&unspent), ["2"]);
}

#[test]
fn proof_without_a_point_spoils_the_list() {
    let db = database();
    let mut pointless = info("https://one", cash(OTHER_KEYSET, "1"));
    pointless.cash.y = None;
    let r = db.get_proofs(
        vec![TxInfo::new(vec![pointless], vec![])],
        &Some(url("https://elsewhere")),
        &None,
        &None,
        &None,
    );
    assert!(matches!(r, Err(Error::Nut00(Nut00Error::NoPoint))));
}

#[test]
fn last_check_is_the_time_of_the_latest_event() {
    let db = database();
    assert_eq!(db.get_nostr_last_checked(vec![]), None);
    let event = |created_at: u64| with_time(db.update_proofs("{}").unwrap(), "e", created_at);
    assert_eq!(db.get_nostr_last_checked(vec![event(5), event(9), event(7)]), Some(9));
    assert_eq!(db.get_nostr_last_checked(vec![event(0x1_0000_0003)]), Some(3));
    assert_eq!(db.get_nostr_last_checked(vec![event(0xffff_ffff)]), Some(u32::MAX));
}

#[test]
fn transactions_are_read_up_to_the_first_that_cannot_be() {
    let db = database();
    let event = |text: &str, event_id: &str| {
        with_time(db.update_proofs(text).unwrap(), event_id, 1)
    };
    let (texts, r) =
        db.transaction_texts(vec![event("a", "1"), event("b", "2"), event("c", "1")]);
    assert_eq!(texts, ["a", "b"]);
    assert!(r.is_ok());
    let mut broken = event("b", "2");
    broken.content = "not sealed".to_string();
    let (texts, r) = db.transaction_texts(vec![event("a", "1"), broken, event("c", "3")]);
    assert_eq!(texts, ["a"]);
    assert!(matches!(r, Err(Error::Encrypt(_))));
    let (texts, r) = db.transaction_texts(vec![]);
    assert!(texts.is_empty() && r.is_ok());
}

#[test]
fn transaction_is_written_for_the_wallet() {
    let db = database();
    let event = db.update_proofs("{\"inputs\":[],\"outputs\":[]}").unwrap();
    assert_eq!(event.kind, 7375);
    assert_eq!(
        event.tags[0].as_vec(),
        &["a".to_string(), format!("37375:{}:wallet", keys().public_key)]
    );
    assert_eq!(
        TxInfo::from_event(&event, db.keys()).unwrap(),
        "{\"inputs\":[],\"outputs\":[]}"
    );
}
