//! Events: which is the latest, and which are taken.

use vstd::prelude::*;

use crate::event::{distinct, ids, is_latest, law_distinct, Event};

verus! {

/// An event that is not newer than the latest changes nothing: the latest stays the latest.
pub proof fn law_older_event_changes_nothing(events: Seq<Event>, i: int, event: Event)
    requires
        is_latest(events, i),
        event.created_at <= events[i].created_at,
    ensures
        is_latest(events.push(event), i),
{
    let all = events.push(event);
    assert forall|j: int| 0 <= j < all.len() implies (#[trigger] all[j]).created_at
        <= all[i].created_at by {
        if j < events.len() {
            assert(events[j].created_at <= events[i].created_at);
        }
    }
    assert forall|j: int| 0 <= j < i implies (#[trigger] all[j]).created_at
        < all[i].created_at by {
        assert(events[j].created_at < events[i].created_at);
    }
}

/// The latest event is one of the events, none is newer, and those in front of it are older.
pub proof fn law_latest_is_not_older_than_any(events: Seq<Event>, i: int, j: int)
    requires
        is_latest(events, i),
        0 <= j < events.len(),
    ensures
        0 <= i < events.len(),
        events[j].created_at <= events[i].created_at,
        j < i ==> events[j].created_at < events[i].created_at,
{
}

/// One more event is taken exactly when no event in front of it has its id. It comes last, and
/// those that were taken before stay.
pub proof fn law_event_is_taken_unless_its_id_came_up(events: Seq<Event>, event: Event)
    ensures
        distinct(events.push(event)) == (if exists|j: int|
            0 <= j < events.len() && (#[trigger] events[j]).id.text@ == event.id.text@ {
            distinct(events)
        } else {
            distinct(events).push(event)
        }),
        distinct(Seq::<Event>::empty()) == Seq::<Event>::empty(),
{
    let all = events.push(event);
    assert(all.drop_last() =~= events);
    law_distinct(events);
    let id = event.id@;
    let before = ids(distinct(events));
    assert(before.to_set().contains(id) == ids(events).to_set().contains(id));
    if exists|j: int| 0 <= j < events.len() && (#[trigger] events[j]).id.text@ == id {
        let j = choose|j: int| 0 <= j < events.len() && (#[trigger] events[j]).id.text@ == id;
        assert(ids(events)[j] == id);
        assert(ids(events).contains(id));
    }
    if ids(events).contains(id) {
        let j = choose|j: int| 0 <= j < ids(events).len() && ids(events)[j] == id;
        assert(events[j].id.text@ == id);
    }
    assert(distinct(Seq::<Event>::empty()) =~= Seq::<Event>::empty());
}

} // verus!
