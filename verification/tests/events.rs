use wallet_nostr::error::Error;
use wallet_nostr::event::{
    latest_event, unique_events, Event, EventCollector, EventId, Notification,
};
use wallet_nostr::nuts::UncheckedUrl;
use wallet_nostr::tag::{tags_from_json, tags_to_json, Tag};

fn event(id: &str, created_at: u64, content: &str) -> Event {
    Event {
        id: EventId { text: id.to_string() },
        pubkey: String::new(),
        created_at,
        kind: 1,
        tags: vec![],
        content: content.to_string(),
        sig: String::new(),
    }
}

fn url(text: &str) -> UncheckedUrl {
    UncheckedUrl::from_str(text)
}

fn of_subscription(subscription_id: &str, event: Event) -> Notification {
    Notification::Event { subscription_id: subscription_id.to_string(), event }
}

fn end(relay: &str) -> Notification {
    Notification::EndOfStoredEvents { relay_url: url(relay) }
}

#[test]
fn latest_event_is_the_first_of_the_newest() {
    assert!(latest_event(vec![]).is_none());
    let events = vec![
        event("a", 3, ""),
        event("b", 9, "first"),
        event("c", 9, "second"),
        event("d", 1, ""),
    ];
    let latest = latest_event(events).unwrap();
    assert_eq!(latest.id.text, "b");
    assert_eq!(latest.content, "first");
    assert_eq!(latest_event(vec![event("only", 0, "")]).unwrap().id.text, "only");
}

#[test]
fn unique_events_keep_the_first_of_each_id() {
    let events = vec![
        event("a", 1, "one"),
        event("b", 2, "two"),
        event("a", 3, "three"),
        event("c", 4, "four"),
        event("b", 5, "five"),
    ];
    let unique: Vec<String> = unique_events(events).into_iter().map(|e| e.content).collect();
    assert_eq!(unique, ["one", "two", "four"]);
}

#[test]
fn collection_ends_when_every_relay_has_ended() {
    let mut collector =
        EventCollector::new("sub".to_string(), vec![url("wss://one"), url("wss://two")]);
    assert!(!collector.handle(of_subscription("sub", event("a", 1, ""))));
    assert!(!collector.handle(of_subscription("other", event("b", 1, ""))));
    assert!(!collector.handle(Notification::Other));
    assert!(!collector.handle(end("wss://one")));
    assert!(!collector.handle(end("wss://one")));
    assert!(!collector.handle(end("wss://three")));
    assert!(!collector.handle(of_subscription("sub", event("c", 1, ""))));
    assert!(collector.handle(end("wss://two")));
    let ids: Vec<String> = collector.into_events().into_iter().map(|e| e.id.text).collect();
    assert_eq!(ids, ["a", "c"]);
}

#[test]
fn collection_without_relays_ends_at_the_first_end() {
    let mut collector = EventCollector::new("sub".to_string(), vec![]);
    assert!(!collector.handle(Notification::Other));
    assert!(collector.handle(end("wss://one")));
    assert!(collector.into_events().is_empty());
}

#[test]
fn tags_need_a_name() {
    assert!(matches!(Tag::parse(vec![]), Err(Error::Tag)));
    let tag = Tag::parse(vec!["mint".to_string()]).unwrap();
    assert_eq!(tag.kind(), "mint");
    assert_eq!(tag.content(), None);
    assert_eq!(tag.last(), "mint");
    assert!(matches!(tag.require_content(), Err(Error::EmptyTag(name)) if name == "mint"));
    let tag = Tag::with_values("counter", "id", "7");
    assert_eq!(tag.content(), Some("id"));
    assert_eq!(tag.last(), "7");
    assert_eq!(tag.as_vec(), &["counter", "id", "7"]);
}

#[test]
fn tags_are_read_back_from_json() {
    let tags = vec![
        Tag::with_value("name", "a \"quoted\" näme\n"),
        Tag::with_values("balance", "5", "sat"),
        Tag::parse(vec!["".to_string()]).unwrap(),
    ];
    let text = tags_to_json(&tags).unwrap();
    assert_eq!(
        text,
        "[[\"name\",\"a \\\"quoted\\\" näme\\n\"],[\"balance\",\"5\",\"sat\"],[\"\"]]"
    );
    let read = tags_from_json(&text).unwrap();
    assert_eq!(read.len(), tags.len());
    for (a, b) in read.iter().zip(tags.iter()) {
        assert_eq!(a.as_vec(), b.as_vec());
    }
    assert_eq!(tags_to_json(&vec![]).unwrap(), "[]");
    assert!(tags_from_json("[]").unwrap().is_empty());
}

#[test]
fn other_json_is_refused() {
    for text in ["", "{}", "[1]", "[[]]", "[[\"name\", 1]]", "[[\"name\"]"] {
        assert!(matches!(tags_from_json(text), Err(Error::Json(_))), "{}", text);
    }
}
