use wallet_nostr::error::Error;
use wallet_nostr::nuts::{
    Amount, CurrencyUnit, Id, Proof, ProofInfo, PublicKey, State, UncheckedUrl,
};
use wallet_nostr::proofs::{EventProofs, TxInfo, WalletProofs};
use wallet_nostr::sealing::WalletKeys;

const SECRET: &str = "5c0c523f52a5b6fad39ed2403092df8cebc36318b39383bca6c00808626fab3a";

fn keys() -> WalletKeys {
    WalletKeys {
        public_key: nostr_sdk::Keys::parse(SECRET).unwrap().public_key().to_hex(),
        secret_key: Some(SECRET.to_string()),
    }
}

fn cash(secret: &str) -> Proof {
    Proof {
        amount: Amount { value: 1 },
        keyset_id: Id::from_str("00ad268c4d1f5826").unwrap(),
        secret: secret.to_string(),
        c: PublicKey { text: "02aa".to_string() },
        witness: None,
        dleq: None,
        y: Some(PublicKey { text: format!("y-{}", secret) }),
        spending_condition: None,
    }
}

fn info(mint: &str, secret: &str) -> ProofInfo {
    ProofInfo::new(
        cash(secret),
        UncheckedUrl::from_str(mint),
        State::Unspent,
        CurrencyUnit::Sat,
    )
    .unwrap()
}

fn plain(groups: &[EventProofs]) -> Vec<(String, Vec<String>)> {
    groups
        .iter()
        .map(|g| {
            (g.mint_url.text.clone(), g.proofs.iter().map(|p| p.secret.clone()).collect())
        })
        .collect()
}

fn expected(groups: &[(&str, &[&str])]) -> Vec<(String, Vec<String>)> {
    groups
        .iter()
        .map(|(mint, secrets)| {
            (mint.to_string(), secrets.iter().map(|s| s.to_string()).collect())
        })
        .collect()
}

#[test]
fn neighbours_of_one_mint_are_grouped() {
    let tx = TxInfo::new(
        vec![info("a", "1"), info("a", "2"), info("b", "3"), info("a", "4")],
        vec![info("b", "5")],
    );
    assert_eq!(
        plain(&tx.inputs),
        expected(&[("a", &["1", "2"]), ("b", &["3"]), ("a", &["4"])])
    );
    assert_eq!(plain(&tx.outputs), expected(&[("b", &["5"])]));
    assert_eq!(tx.inputs[0].proofs[1], cash("2"));
    let empty = TxInfo::new(vec![], vec![]);
    assert!(empty.inputs.is_empty() && empty.outputs.is_empty());
}

#[test]
fn both_sides_of_transactions_are_kept() {
    let first = TxInfo::new(vec![info("a", "1"), info("b", "2")], vec![]);
    let second = TxInfo::new(vec![info("a", "3"), info("b", "4"), info("a", "5")], vec![
        info("a", "1"),
    ]);
    let groups = WalletProofs::from(vec![first, second]).into_groups();
    assert_eq!(
        plain(&groups),
        expected(&[("a", &["1", "1", "3", "5"]), ("b", &["2", "4"])])
    );
    assert!(WalletProofs::from(vec![]).into_groups().is_empty());
}

#[test]
fn update_takes_its_first_side_first() {
    let mut proofs = WalletProofs::new();
    let tx = TxInfo::new(vec![info("a", "1")], vec![info("b", "2"), info("a", "3")]);
    proofs.update(tx.inputs, tx.outputs);
    assert_eq!(plain(&proofs.into_groups()), expected(&[("a", &["1", "3"]), ("b", &["2"])]));
}

#[test]
fn transactions_in_two_parts_give_the_same() {
    let txs = || {
        vec![
            TxInfo::new(vec![info("a", "1")], vec![info("b", "2")]),
            TxInfo::new(vec![info("c", "3")], vec![info("a", "1")]),
        ]
    };
    let mut parts = WalletProofs::from(txs().drain(..1).collect());
    for tx in txs().drain(1..) {
        parts.update(tx.outputs, tx.inputs);
    }
    let whole = WalletProofs::from(txs());
    assert_eq!(plain(&parts.into_groups()), plain(&whole.into_groups()));
}

#[test]
fn written_transaction_is_read_back() {
    let json = "{\"inputs\":[],\"outputs\":[]}";
    let event = TxInfo::to_event(json, "wallet", &keys()).unwrap();
    assert_eq!(event.kind, 7375);
    assert_eq!(event.tags.len(), 1);
    assert_eq!(
        event.tags[0].as_vec(),
        &["a".to_string(), format!("37375:{}:wallet", keys().public_key)]
    );
    assert_ne!(event.content, json);
    let signed = nostr_sdk::Event::new(
        nostr_sdk::EventId::from_hex(&event.id.text).unwrap(),
        nostr_sdk::PublicKey::from_hex(&event.pubkey).unwrap(),
        nostr_sdk::Timestamp::from(event.created_at),
        nostr_sdk::Kind::from(event.kind),
        event.tags.iter().map(|t| nostr_sdk::Tag::parse(t.as_vec().clone()).unwrap()),
        event.content.clone(),
        event.sig.parse().unwrap(),
    );
    assert!(signed.verify().is_ok());
    assert_eq!(event.pubkey, keys().public_key);
    assert_eq!(TxInfo::from_event(&event, &keys()).unwrap(), json);
    let no_secret = WalletKeys { secret_key: None, ..keys() };
    assert!(matches!(TxInfo::from_event(&event, &no_secret), Err(Error::Key(_))));
    assert!(matches!(TxInfo::to_event(json, "wallet", &no_secret), Err(Error::Key(_))));
    assert!(matches!(TxInfo::to_event("", "wallet", &keys()), Err(Error::Encrypt(_))));
}
