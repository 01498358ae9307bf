//! Events: the signed records in which the wallet is kept.

use vstd::hash_set::StringHashSet;
use vstd::prelude::*;

use crate::collections::KeySet;
use crate::nuts::UncheckedUrl;
use crate::tag::{content_of, Tag, TagView};
use crate::text::same_text;

verus! {

pub const TX_KIND: u16 = 7375;

pub const QUOTE_KIND: u16 = 7376;

pub const WALLET_INFO_KIND: u16 = 37375;

/// The id of an event, as hexadecimal text
#[derive(Debug, PartialEq, Eq, Hash)]
pub struct EventId {
    pub text: String,
}

impl View for EventId {
    type V = Seq<char>;

    open spec fn view(&self) -> Seq<char> {
        self.text@
    }
}

impl Clone for EventId {
    fn clone(&self) -> (r: Self)
        ensures
            r == *self,
    {
        EventId { text: self.text.clone() }
    }
}

/// An event
#[derive(Debug)]
pub struct Event {
    /// Id
    pub id: EventId,
    /// Public key of the author, as hexadecimal text
    pub pubkey: String,
    /// Time at which it was made, in seconds of UNIX time
    pub created_at: u64,
    /// Kind
    pub kind: u16,
    /// Tags
    pub tags: Vec<Tag>,
    /// Content
    pub content: String,
    /// Signature, as hexadecimal text
    pub sig: String,
}

/// Which events to ask for: those of a kind, and where a tag is given, of those only the ones
/// that have it with that value
#[derive(Debug)]
pub struct Filter {
    pub kind: u16,
    pub tag: Option<Tag>,
}

impl Filter {
    /// Whether the filter asks for an event of a kind that has these tags: the kind must be the
    /// one that is asked for, and some tag must have the name and the first value of the tag that
    /// is asked for.
    pub open spec fn selects(self, kind: u16, tags: Seq<TagView>) -> bool {
        &&& kind == self.kind
        &&& self.tag matches Some(tag) ==> exists|i: int|
            0 <= i < tags.len() && (#[trigger] tags[i]).len() > 0 && tags[i][0] == tag@[0]
                && content_of(tags[i]) == content_of(tag@)
    }
}

/// Whether the event at a position is the latest, and the first of those that are.
pub open spec fn is_latest(events: Seq<Event>, i: int) -> bool {
    &&& 0 <= i < events.len()
    &&& forall|j: int|
        0 <= j < events.len() ==> (#[trigger] events[j]).created_at <= events[i].created_at
    &&& forall|j: int| 0 <= j < i ==> (#[trigger] events[j]).created_at < events[i].created_at
}

/// There is one latest event, unless there are no events at all.
pub proof fn law_one_event_is_latest(events: Seq<Event>, i: int, j: int)
    ensures
        is_latest(events, i) && is_latest(events, j) ==> i == j,
        events.len() > 0 <==> exists|k: int| is_latest(events, k),
    decreases events.len(),
{
    if events.len() > 0 {
        let rest = events.drop_last();
        let last = events.len() - 1;
        if rest.len() == 0 {
            assert(is_latest(events, 0));
        } else {
            law_one_event_is_latest(rest, i, j);
            let k = choose|k: int| is_latest(rest, k);
            if rest[k].created_at < events[last].created_at {
                assert forall|m: int| 0 <= m < last implies (#[trigger] events[m]).created_at
                    < events[last].created_at by {
                    assert(rest[m].created_at <= rest[k].created_at);
                }
                assert(is_latest(events, last));
            } else {
                assert forall|m: int| 0 <= m < events.len() implies (
                #[trigger] events[m]).created_at <= events[k].created_at by {
                    if m < last {
                        assert(rest[m].created_at <= rest[k].created_at);
                    }
                }
                assert forall|m: int| 0 <= m < k implies (#[trigger] events[m]).created_at
                    < events[k].created_at by {
                    assert(rest[m].created_at < rest[k].created_at);
                }
                assert(is_latest(events, k));
            }
        }
    }
}

/// An event that was made after all others is the latest, whatever came before.
pub proof fn law_newer_event_is_latest(events: Seq<Event>, event: Event)
    requires
        forall|i: int|
            0 <= i < events.len() ==> (#[trigger] events[i]).created_at < event.created_at,
    ensures
        is_latest(events.push(event), events.len() as int),
{
}

/// The latest event. Of several that were made at the same time it is the first.
pub fn latest_event(events: Vec<Event>) -> (r: Option<Event>)
    ensures
        match r {
            Some(event) => exists|i: int| is_latest(events@, i) && event == events@[i],
            None => events@.len() == 0,
        },
{
    if events.len() == 0 {
        return None;
    }
    let mut latest: usize = 0;
    for i in 1..events.len()
        invariant
            latest < i <= events.len(),
            forall|j: int|
                0 <= j < i ==> (#[trigger] events@[j]).created_at
                    <= events@[latest as int].created_at,
            forall|j: int|
                0 <= j < latest ==> (#[trigger] events@[j]).created_at
                    < events@[latest as int].created_at,
    {
        if events[latest].created_at < events[i].created_at {
            latest = i;
        }
    }
    assert(is_latest(events@, latest as int));
    let mut rest = events;
    Some(rest.swap_remove(latest))
}

/// The ids of a row of events.
pub open spec fn ids(events: Seq<Event>) -> Seq<Seq<char>> {
    events.map_values(|e: Event| e.id@)
}

/// The events without those whose id came up before.
pub open spec fn distinct(events: Seq<Event>) -> Seq<Event>
    decreases events.len(),
{
    if events.len() == 0 {
        events
    } else {
        let before = distinct(events.drop_last());
        if ids(before).contains(events.last().id@) {
            before
        } else {
            before.push(events.last())
        }
    }
}

/// The events without those whose id came up before.
pub fn unique_events(events: Vec<Event>) -> (r: Vec<Event>)
    ensures
        r@ == distinct(events@),
{
    let ghost all = events@;
    let mut unique: Vec<Event> = Vec::new();
    let mut seen = StringHashSet::new();
    for event in it: events
        invariant
            it.seq() == all,
            unique@ == distinct(all.take(it.index())),
            seen@ == ids(unique@).to_set(),
    {
        let ghost i = it.index();
        assert(all.take(i + 1).drop_last() =~= all.take(i));
        if !seen.contains(event.id.text.as_str()) {
            seen.insert(event.id.text.clone());
            let ghost before = ids(unique@);
            unique.push(event);
            proof {
                assert(ids(unique@) =~= before.push(event.id@));
                assert forall|k: Seq<char>| before.push(event.id@).contains(k) <==> (
                before.contains(k) || k == event.id@) by {
                    if before.contains(k) {
                        let j = choose|j: int| 0 <= j < before.len() && before[j] == k;
                        assert(before.push(event.id@)[j] == k);
                    }
                    assert(before.push(event.id@)[before.len() as int] == event.id@);
                }
                assert(seen@ =~= ids(unique@).to_set());
            }
        }
    }
    assert(all.take(all.len() as int) =~= all);
    unique
}

/// Of events that share an id the first stays.
pub proof fn law_first_of_each_id_stays(events: Seq<Event>, i: int)
    requires
        0 <= i < events.len(),
        forall|j: int| 0 <= j < i ==> (#[trigger] events[j]).id@ != events[i].id@,
    ensures
        distinct(events).contains(events[i]),
    decreases events.len(),
{
    let rest = events.drop_last();
    let before = distinct(rest);
    if i < rest.len() {
        assert forall|j: int| 0 <= j < i implies (#[trigger] rest[j]).id@ != rest[i].id@ by {
            assert(events[j].id@ != events[i].id@);
        }
        law_first_of_each_id_stays(rest, i);
        let k = choose|k: int| 0 <= k < before.len() && before[k] == events[i];
        assert(distinct(events)[k] == events[i]);
    } else {
        law_distinct(rest);
        let id = events[i].id@;
        if ids(before).contains(id) {
            assert(ids(before).to_set().contains(id));
            assert(ids(rest).to_set().contains(id));
            let k = choose|k: int| 0 <= k < ids(rest).len() && ids(rest)[k] == id;
            assert(events[k].id@ == id);
        }
        assert(distinct(events)[before.len() as int] == events[i]);
    }
}

/// Taking each event once leaves events without a repeated id as they are.
pub proof fn law_distinct_events_stay(events: Seq<Event>)
    requires
        ids(events).no_duplicates(),
    ensures
        distinct(events) == events,
    decreases events.len(),
{
    if events.len() > 0 {
        let rest = events.drop_last();
        assert(ids(rest) =~= ids(events).drop_last());
        law_distinct_events_stay(rest);
        assert(!ids(rest).contains(events.last().id@)) by {
            if ids(rest).contains(events.last().id@) {
                let k = choose|k: int|
                    0 <= k < ids(rest).len() && ids(rest)[k] == events.last().id@;
                assert(ids(events)[k] == ids(events)[events.len() - 1]);
            }
        }
        assert(rest.push(events.last()) =~= events);
    }
}

/// No id occurs twice among the events that stay, and every event that goes has the id of one that
/// stays.
pub proof fn law_distinct(events: Seq<Event>)
    ensures
        ids(distinct(events)).no_duplicates(),
        ids(distinct(events)).to_set() == ids(events).to_set(),
    decreases events.len(),
{
    if events.len() == 0 {
        assert(ids(distinct(events)) =~= ids(events));
    } else {
        law_distinct(events.drop_last());
        let before = ids(distinct(events.drop_last()));
        let id = events.last().id@;
        let earlier = ids(events.drop_last());
        assert(ids(events) =~= earlier.push(id));
        if !before.contains(id) {
            assert(ids(distinct(events)) =~= before.push(id));
        }
        assert forall|k: Seq<char>| ids(distinct(events)).contains(k) <==> ids(events).contains(
            k,
        ) by {
            assert(before.to_set().contains(k) == earlier.to_set().contains(k));
            lemma_push_contains(before, id, k);
            lemma_push_contains(earlier, id, k);
        }
        assert(ids(distinct(events)).to_set() =~= ids(events).to_set());
    }
}

proof fn lemma_push_contains<A>(s: Seq<A>, a: A, k: A)
    ensures
        s.push(a).contains(k) <==> (s.contains(k) || k == a),
{
    if s.contains(k) {
        let j = choose|j: int| 0 <= j < s.len() && s[j] == k;
        assert(s.push(a)[j] == k);
    }
    assert(s.push(a)[s.len() as int] == a);
}

/// What the relays report while a subscription is open
#[derive(Debug)]
pub enum Notification {
    /// An event of some subscription
    Event { subscription_id: String, event: Event },
    /// A relay has sent all the events that it had stored
    EndOfStoredEvents { relay_url: UncheckedUrl },
    /// Anything else
    Other,
}

/// What has been gathered from the relays, as contracts speak of it: the subscription, the relays
/// that have not sent all yet, and the events so far.
#[verifier::ext_equal]
pub struct Collection {
    pub subscription: Seq<char>,
    pub pending: Set<Seq<char>>,
    pub gathered: Seq<Event>,
}

impl Collection {
    /// Takes a notification in: an event of the subscription is gathered, and a relay that has
    /// sent all is no longer pending.
    pub open spec fn plus(self, notification: Notification) -> Collection {
        match notification {
            Notification::Event { subscription_id, event } => if subscription_id@
                == self.subscription {
                Collection { gathered: self.gathered.push(event), ..self }
            } else {
                self
            },
            Notification::EndOfStoredEvents { relay_url } => Collection {
                pending: self.pending.remove(relay_url@),
                ..self
            },
            Notification::Other => self,
        }
    }

    /// Takes notifications in, one after the other.
    pub open spec fn plus_all(self, notifications: Seq<Notification>) -> Collection
        decreases notifications.len(),
    {
        if notifications.len() == 0 {
            self
        } else {
            self.plus_all(notifications.drop_last()).plus(notifications.last())
        }
    }
}

/// Whether a relay has reported among notifications that it has sent all.
pub open spec fn has_ended(notifications: Seq<Notification>, relay: Seq<char>) -> bool {
    exists|i: int|
        0 <= i < notifications.len() && (#[trigger] notifications[i] matches
            Notification::EndOfStoredEvents { relay_url } && relay_url@ == relay)
}

/// The events of a subscription among notifications, in order.
pub open spec fn events_among(notifications: Seq<Notification>, subscription: Seq<char>) -> Seq<
    Event,
>
    decreases notifications.len(),
{
    if notifications.len() == 0 {
        Seq::empty()
    } else {
        let before = events_among(notifications.drop_last(), subscription);
        match notifications.last() {
            Notification::Event { subscription_id, event } => if subscription_id@ == subscription {
                before.push(event)
            } else {
                before
            },
            _ => before,
        }
    }
}

/// The relays that are still pending are those that have not reported their end. The events that
/// were gathered are exactly those of the subscription, in the order in which they came.
pub proof fn law_collection(start: Collection, notifications: Seq<Notification>, relay: Seq<char>)
    ensures
        start.plus_all(notifications).subscription == start.subscription,
        start.plus_all(notifications).pending.contains(relay) <==> (start.pending.contains(relay)
            && !has_ended(notifications, relay)),
        start.plus_all(notifications).gathered == start.gathered + events_among(
            notifications,
            start.subscription,
        ),
    decreases notifications.len(),
{
    if notifications.len() == 0 {
        assert(start.gathered + events_among(notifications, start.subscription)
            =~= start.gathered);
    } else {
        let rest = notifications.drop_last();
        law_collection(start, rest, relay);
        assert(start.plus_all(notifications).gathered =~= start.gathered + events_among(
            notifications,
            start.subscription,
        ));
        assert(has_ended(notifications, relay) <==> has_ended(rest, relay) || (
        notifications.last() matches Notification::EndOfStoredEvents { relay_url } && relay_url@
            == relay)) by {
            if has_ended(notifications, relay) {
                let i = choose|i: int|
                    0 <= i < notifications.len() && (#[trigger] notifications[i] matches
                        Notification::EndOfStoredEvents { relay_url } && relay_url@ == relay);
                if i < rest.len() {
                    assert(rest[i] == notifications[i]);
                }
            }
            if has_ended(rest, relay) {
                let i = choose|i: int|
                    0 <= i < rest.len() && (#[trigger] rest[i] matches
                        Notification::EndOfStoredEvents { relay_url } && relay_url@ == relay);
                assert(rest[i] == notifications[i]);
            }
            assert(notifications[notifications.len() - 1] == notifications.last());
        }
    }
}

/// Gathers the events of a subscription until every relay has sent what it had stored
#[derive(Debug)]
pub struct EventCollector {
    subscription_id: String,
    relays: KeySet<UncheckedUrl>,
    events: Vec<Event>,
}

impl View for EventCollector {
    type V = Collection;

    closed spec fn view(&self) -> Collection {
        Collection {
            subscription: self.subscription_id@,
            pending: self.relays@,
            gathered: self.events@,
        }
    }
}

impl EventCollector {
    pub fn new(subscription_id: String, relay_urls: Vec<UncheckedUrl>) -> (r: Self)
        ensures
            r@ == (Collection {
                subscription: subscription_id@,
                pending: relay_urls@.map_values(|u: UncheckedUrl| u@).to_set(),
                gathered: Seq::empty(),
            }),
    {
        let ghost urls = relay_urls@.map_values(|u: UncheckedUrl| u@);
        let mut relays: KeySet<UncheckedUrl> = KeySet::new();
        assert(urls.take(0).to_set() =~= Set::empty());
        let ghost all = relay_urls@;
        for url in it: relay_urls
            invariant
                it.seq() == all,
                urls == all.map_values(|u: UncheckedUrl| u@),
                relays@ == urls.take(it.index()).to_set(),
        {
            let ghost i = it.index();
            relays.insert(url);
            proof {
                assert(urls.take(i + 1) =~= urls.take(i).push(url@));
                let earlier = urls.take(i).to_set();
                assert forall|k: Seq<char>|
                    earlier.insert(url@).contains(k) <==> urls.take(i + 1).to_set().contains(k) by {
                    lemma_push_contains(urls.take(i), url@, k);
                }
                assert(earlier.insert(url@) =~= urls.take(i + 1).to_set());
            }
        }
        assert(urls.take(urls.len() as int) =~= urls);
        EventCollector { subscription_id, relays, events: Vec::new() }
    }

    /// Takes a notification in. Tells whether it ended the collection, which only the report
    /// that a relay has sent all can do, and it does so where no other relay is pending.
    pub fn handle(&mut self, notification: Notification) -> (r: bool)
        ensures
            final(self)@ == old(self)@.plus(notification),
            r == (notification is EndOfStoredEvents && final(self)@.pending == Set::<
                Seq<char>,
            >::empty()),
    {
        match notification {
            Notification::Event { subscription_id, event } => {
                if same_text(subscription_id.as_str(), self.subscription_id.as_str()) {
                    self.events.push(event);
                }
                false
            },
            Notification::EndOfStoredEvents { relay_url } => {
                self.relays.remove(&relay_url);
                let done = self.relays.len() == 0;
                proof {
                    if done {
                        assert(self.relays@ =~= Set::empty());
                    } else {
                        assert(self.relays@.contains(self.relays.order()[0]));
                    }
                }
                done
            },
            Notification::Other => false,
        }
    }

    /// The events that were gathered.
    pub fn into_events(self) -> (r: Vec<Event>)
        ensures
            r@ == self@.gathered,
    {
        self.events
    }
}

} // verus!
