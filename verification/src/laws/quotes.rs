//! What the laws of both sorts of quotes speak of.

use vstd::prelude::*;

use crate::error::Fault;
use crate::event::Event;
use crate::laws::tags::{last_named, none_named};
use crate::nuts::{CurrencyUnit, MintQuoteState};
use crate::quotes::{deletions, first_wanted};
use crate::tag::TagView;

verus! {

/// Whether a unit is the one of a name.
pub open spec fn unit_has_name(unit: CurrencyUnit, name: Seq<char>) -> bool {
    match unit {
        CurrencyUnit::Sat => name == "sat"@,
        CurrencyUnit::Msat => name == "msat"@,
        CurrencyUnit::Usd => name == "usd"@,
        CurrencyUnit::Eur => name == "eur"@,
    }
}

/// Whether the state of a mint quote is the one of a name.
pub open spec fn state_has_name(state: MintQuoteState, name: Seq<char>) -> bool {
    match state {
        MintQuoteState::Unpaid => name == "UNPAID"@,
        MintQuoteState::Paid => name == "PAID"@,
        MintQuoteState::Pending => name == "PENDING"@,
        MintQuoteState::Issued => name == "ISSUED"@,
    }
}

pub(crate) proof fn lemma_last_exists(tags: Seq<TagView>, name: Seq<char>) -> (i: int)
    requires
        !none_named(tags, name),
    ensures
        last_named(tags, name, i),
    decreases tags.len(),
{
    if tags.len() == 0 {
        0
    } else {
        let last = tags.len() - 1;
        if tags[last][0] == name {
            last
        } else {
            let rest = tags.drop_last();
            assert(!none_named(rest, name)) by {
                let j = choose|j: int| 0 <= j < tags.len() && (#[trigger] tags[j])[0] == name;
                assert(rest[j][0] == name);
            }
            let i = lemma_last_exists(rest, name);
            assert forall|j: int| i < j < tags.len() implies (#[trigger] tags[j])[0] != name by {
                if j < rest.len() {
                    assert(rest[j][0] != name);
                }
            }
            i
        }
    }
}

pub(crate) proof fn lemma_first_wanted<Q>(quotes: Seq<Q>, wanted: spec_fn(Q) -> bool)
    ensures
        match first_wanted(quotes, wanted) {
            None => forall|i: int| 0 <= i < quotes.len() ==> !wanted(#[trigger] quotes[i]),
            Some(quote) => exists|i: int|
                0 <= i < quotes.len() && #[trigger] quotes[i] == quote && wanted(quote) && forall|
                    j: int,
                |
                    0 <= j < i ==> !wanted(#[trigger] quotes[j]),
        },
    decreases quotes.len(),
{
    if quotes.len() > 0 && !wanted(quotes[0]) {
        let rest = quotes.drop_first();
        lemma_first_wanted(rest, wanted);
        match first_wanted(rest, wanted) {
            None => {
                assert forall|i: int| 0 <= i < quotes.len() implies !wanted(
                    #[trigger] quotes[i],
                ) by {
                    if i > 0 {
                        assert(!wanted(rest[i - 1]));
                    }
                }
            },
            Some(quote) => {
                let k = choose|i: int|
                    0 <= i < rest.len() && #[trigger] rest[i] == quote && wanted(quote) && forall|
                        j: int,
                    |
                        0 <= j < i ==> !wanted(#[trigger] rest[j]);
                assert(quotes[k + 1] == quote);
                assert forall|j: int| 0 <= j < k + 1 implies !wanted(#[trigger] quotes[j]) by {
                    if j > 0 {
                        assert(!wanted(rest[j - 1]));
                    }
                }
            },
        }
    } else if quotes.len() > 0 {
        assert(quotes[0] == first_wanted(quotes, wanted)->0);
    }
}

pub(crate) proof fn lemma_deletions<Q>(
    events: Seq<Event>,
    read: spec_fn(Event) -> Result<Q, Fault>,
    wanted: spec_fn(Q) -> bool,
    keep: spec_fn(Event) -> bool,
    n: int,
)
    requires
        0 <= n <= events.len(),
        forall|i: int|
            0 <= i < n ==> read(#[trigger] events[i]) is Ok && keep(events[i]) == wanted(
                read(events[i])->Ok_0,
            ),
        n < events.len() ==> read(events[n]) is Err,
    ensures
        deletions(events, read, wanted).0 == events.take(n).filter(keep).map_values(
            |event: Event| event.id@,
        ),
        deletions(events, read, wanted).1 == (if n < events.len() {
            Some(read(events[n])->Err_0)
        } else {
            None
        }),
    decreases events.len(),
{
    reveal(Seq::filter);
    let id = |event: Event| event.id@;
    if events.len() == 0 {
        assert(events.take(n).filter(keep).map_values(id) =~= Seq::empty());
    } else {
        let rest = events.drop_last();
        let last = events.len() - 1;
        assert forall|i: int| 0 <= i < rest.len() implies rest[i] == events[i] by {}
        if n < events.len() {
            assert forall|i: int| 0 <= i < n implies read(#[trigger] rest[i]) is Ok && keep(rest[i])
                == wanted(read(rest[i])->Ok_0) by {
                assert(read(events[i]) is Ok);
            }
            lemma_deletions(rest, read, wanted, keep, n);
            assert(rest.take(n) =~= events.take(n));
            assert(read(events[n]) is Err);
        } else {
            assert forall|i: int| 0 <= i < rest.len() implies read(#[trigger] rest[i]) is Ok
                && keep(rest[i]) == wanted(read(rest[i])->Ok_0) by {
                assert(read(events[i]) is Ok);
            }
            lemma_deletions(rest, read, wanted, keep, last);
            assert(rest.take(last) =~= rest);
            assert(events.take(n) =~= events);
            assert(read(events[last]) is Ok);
            let before = rest.filter(keep);
            if keep(events[last]) {
                assert(events.filter(keep) == before.push(events.last()));
                assert(events.filter(keep).map_values(id) =~= before.map_values(id).push(
                    events.last().id@,
                ));
            } else {
                assert(events.filter(keep) == before);
            }
        }
    }
}

} // verus!
