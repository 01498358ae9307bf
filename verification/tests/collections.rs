use wallet_nostr::collections::{KeySet, Table};
use wallet_nostr::nuts::UncheckedUrl;

fn url(text: &str) -> UncheckedUrl {
    UncheckedUrl::from_str(text)
}

fn listed(set: &KeySet<UncheckedUrl>) -> Vec<String> {
    (0..set.len()).map(|i| set.get(i).text.clone()).collect()
}

#[test]
fn set_keeps_each_key_once_in_order() {
    let mut set = KeySet::new();
    for text in ["b", "a", "b", "c", "a"] {
        set.insert(url(text));
    }
    assert_eq!(listed(&set), ["b", "a", "c"]);
    assert!(set.contains(&url("a")));
    let copy = set.clone();
    set.remove(&url("a"));
    set.remove(&url("never there"));
    assert_eq!(listed(&set), ["b", "c"]);
    assert!(!set.contains(&url("a")));
    set.insert(url("a"));
    assert_eq!(listed(&set), ["b", "c", "a"]);
    assert_eq!(listed(&copy), ["b", "a", "c"]);
}

#[test]
fn table_keeps_the_last_value_of_each_key() {
    let mut table: Table<UncheckedUrl, u32> = Table::new();
    table.insert(url("b"), 1);
    table.insert(url("a"), 2);
    table.insert(url("b"), 3);
    assert_eq!(table.len(), 2);
    assert_eq!(table.get(&url("b")), Some(&3));
    assert_eq!(table.get(&url("c")), None);
    assert_eq!(table.position(&url("a")), Some(1));
    assert_eq!(table.entry(0).1, &3);
    assert_eq!(table.replace(1, 7), 2);
    let copy = table.clone();
    table.remove(&url("b"));
    table.remove(&url("c"));
    assert_eq!(table.get(&url("b")), None);
    let entries: Vec<(String, u32)> =
        table.into_entries().into_iter().map(|(key, value)| (key.text, value)).collect();
    assert_eq!(entries, [("a".to_string(), 7)]);
    assert_eq!(copy.len(), 2);
}
