//! What the quotes for minting and for melting ecash have in common.

use vstd::prelude::*;

use crate::error::{outcome, Error, Fault};
use crate::event::Event;
use crate::nuts::{Amount, CurrencyUnit};
use crate::sealing::{wallet_link, wallet_link_tag, WalletKeys};
use crate::tag::{
    all_named, lemma_tag_names, required_content, tag_views, Tag, TagView, EXPIRATION_TAG,
    ID_LINK_TAG,
};
use crate::text::{decimal, decimal_text, parse_decimal, parse_number};

verus! {

/// The number that the value of a tag stands for.
pub open spec fn number_content(tag: TagView) -> Result<u64, Fault> {
    match required_content(tag) {
        Ok(text) => match parse_decimal(text, u64::MAX as nat) {
            Ok(n) => Ok(n as u64),
            Err(cause) => Err(Fault::ParseInt(cause)),
        },
        Err(fault) => Err(fault),
    }
}

/// The unit that the value of a tag stands for.
pub open spec fn unit_content(tag: TagView) -> Result<CurrencyUnit, Fault> {
    match required_content(tag) {
        Ok(text) => CurrencyUnit::named(text),
        Err(fault) => Err(fault),
    }
}

pub open spec fn text_view(o: Option<String>) -> Option<Seq<char>> {
    match o {
        Some(s) => Some(s@),
        None => None,
    }
}

pub open spec fn amount_view(o: Option<Amount>) -> Option<u64> {
    match o {
        Some(amount) => Some(amount.value),
        None => None,
    }
}

/// The number that the value of a tag stands for.
pub(crate) fn read_number(tag: &Tag) -> (r: Result<u64, Error>)
    ensures
        match r {
            Ok(n) => number_content(tag@) == Ok::<u64, Fault>(n),
            Err(e) => number_content(tag@) == Err::<u64, Fault>(e@),
        },
{
    match tag.require_content() {
        Ok(text) => match parse_number(text, u64::MAX) {
            Ok(n) => Ok(n),
            Err(cause) => Err(Error::ParseInt(cause)),
        },
        Err(e) => Err(e),
    }
}

/// The unit that the value of a tag stands for.
pub(crate) fn read_unit(tag: &Tag) -> (r: Result<CurrencyUnit, Error>)
    ensures
        outcome(r) == unit_content(tag@),
{
    match tag.require_content() {
        Ok(text) => CurrencyUnit::from_str(text),
        Err(e) => Err(e),
    }
}

/// The value of a tag.
pub(crate) fn read_text(tag: &Tag) -> (r: Result<String, Error>)
    ensures
        outcome(r) == required_content(tag@),
{
    match tag.require_content() {
        Ok(text) => Ok(text.to_owned()),
        Err(e) => Err(e),
    }
}

/// The tags of an event that keeps a quote.
pub open spec fn quote_tags(
    wallet_id: Seq<char>,
    public_key: Seq<char>,
    expiry: u64,
) -> Seq<TagView> {
    seq![
        seq![ID_LINK_TAG@, wallet_link(wallet_id, public_key)],
        seq![EXPIRATION_TAG@, decimal(expiry as nat)],
    ]
}

/// The tags of an event that keeps a quote.
pub(crate) fn tags_of_quote(wallet_id: &str, expiry: u64, keys: &WalletKeys) -> (r: Vec<Tag>)
    ensures
        tag_views(r@) == quote_tags(wallet_id@, keys.public_key@, expiry),
{
    let mut tags: Vec<Tag> = Vec::new();
    tags.push(wallet_link_tag(wallet_id, keys));
    tags.push(Tag::with_value(EXPIRATION_TAG, decimal_text(expiry).as_str()));
    assert(tag_views(tags@) =~= quote_tags(wallet_id@, keys.public_key@, expiry));
    tags
}

pub(crate) proof fn lemma_quote_tags(wallet_id: Seq<char>, public_key: Seq<char>, expiry: u64)
    ensures
        all_named(quote_tags(wallet_id, public_key, expiry)),
        forall|i: int|
            0 <= i < 2 ==> (#[trigger] quote_tags(wallet_id, public_key, expiry)[i])[0] != "p"@,
{
    lemma_tag_names();
}

/// What is read from each of a row of events, in order. The first event that cannot be read makes
/// it fail.
pub open spec fn all_read<Q>(
    events: Seq<Event>,
    read: spec_fn(Event) -> Result<Q, Fault>,
) -> Result<Seq<Q>, Fault>
    decreases events.len(),
{
    if events.len() == 0 {
        Ok(Seq::empty())
    } else {
        match all_read(events.drop_last(), read) {
            Ok(before) => match read(events.last()) {
                Ok(quote) => Ok(before.push(quote)),
                Err(fault) => Err(fault),
            },
            Err(fault) => Err(fault),
        }
    }
}

/// The first of a row that is wanted.
pub open spec fn first_wanted<Q>(quotes: Seq<Q>, wanted: spec_fn(Q) -> bool) -> Option<Q>
    decreases quotes.len(),
{
    if quotes.len() == 0 {
        None
    } else if wanted(quotes[0]) {
        Some(quotes[0])
    } else {
        first_wanted(quotes.drop_first(), wanted)
    }
}

/// The first of a row that is wanted, where the row could be read.
pub open spec fn found<Q>(quotes: Result<Seq<Q>, Fault>, wanted: spec_fn(Q) -> bool) -> Result<
    Option<Q>,
    Fault,
> {
    match quotes {
        Ok(row) => Ok(first_wanted(row, wanted)),
        Err(fault) => Err(fault),
    }
}

/// The ids of the events whose quote is to go, up to the first event that cannot be read, and
/// what is wrong with that one, if there is one.
pub open spec fn deletions<Q>(
    events: Seq<Event>,
    read: spec_fn(Event) -> Result<Q, Fault>,
    wanted: spec_fn(Q) -> bool,
) -> (Seq<Seq<char>>, Option<Fault>)
    decreases events.len(),
{
    if events.len() == 0 {
        (Seq::empty(), None)
    } else {
        let before = deletions(events.drop_last(), read, wanted);
        if before.1 is Some {
            before
        } else {
            match read(events.last()) {
                Ok(quote) => if wanted(quote) {
                    (before.0.push(events.last().id@), None)
                } else {
                    before
                },
                Err(fault) => (before.0, Some(fault)),
            }
        }
    }
}

/// Once an event cannot be read, the events behind it change nothing.
pub(crate) proof fn lemma_all_read_fault<Q>(
    events: Seq<Event>,
    read: spec_fn(Event) -> Result<Q, Fault>,
    i: int,
)
    requires
        0 <= i <= events.len(),
        all_read(events.take(i), read) is Err,
    ensures
        all_read(events, read) == all_read(events.take(i), read),
    decreases events.len() - i,
{
    if i < events.len() {
        assert(events.take(i + 1).drop_last() =~= events.take(i));
        lemma_all_read_fault(events, read, i + 1);
    } else {
        assert(events.take(i) =~= events);
    }
}

/// Once an event cannot be read, no event behind it is deleted.
pub(crate) proof fn lemma_deletions_fault<Q>(
    events: Seq<Event>,
    read: spec_fn(Event) -> Result<Q, Fault>,
    wanted: spec_fn(Q) -> bool,
    i: int,
)
    requires
        0 <= i <= events.len(),
        deletions(events.take(i), read, wanted).1 is Some,
    ensures
        deletions(events, read, wanted) == deletions(events.take(i), read, wanted),
    decreases events.len() - i,
{
    if i < events.len() {
        assert(events.take(i + 1).drop_last() =~= events.take(i));
        lemma_deletions_fault(events, read, wanted, i + 1);
    } else {
        assert(events.take(i) =~= events);
    }
}

/// A list of quotes can be had exactly when every event can be read, and then it holds one quote
/// for each event, in order.
pub proof fn law_list_needs_every_event<Q>(
    events: Seq<Event>,
    read: spec_fn(Event) -> Result<Q, Fault>,
)
    ensures
        all_read(events, read) is Ok <==> forall|i: int|
            0 <= i < events.len() ==> read(#[trigger] events[i]) is Ok,
        all_read(events, read) matches Ok(quotes) ==> {
            &&& quotes.len() == events.len()
            &&& forall|i: int|
                0 <= i < events.len() ==> read(#[trigger] events[i]) == Ok::<Q, Fault>(quotes[i])
        },
    decreases events.len(),
{
    if events.len() > 0 {
        let rest = events.drop_last();
        law_list_needs_every_event(rest, read);
        assert forall|i: int| 0 <= i < rest.len() implies rest[i] == events[i] by {}
        if all_read(events, read) is Ok {
            let quotes = all_read(events, read)->Ok_0;
            let before = all_read(rest, read)->Ok_0;
            assert forall|i: int| 0 <= i < events.len() implies read(#[trigger] events[i]) == Ok::<
                Q,
                Fault,
            >(quotes[i]) by {
                if i < rest.len() {
                    assert(read(rest[i]) == Ok::<Q, Fault>(before[i]));
                }
            }
        } else if forall|i: int| 0 <= i < events.len() ==> read(#[trigger] events[i]) is Ok {
            assert forall|i: int| 0 <= i < rest.len() implies read(#[trigger] rest[i]) is Ok by {
                assert(read(events[i]) is Ok);
            }
            assert(read(events[events.len() - 1]) is Ok);
        }
    }
}

/// Where every event can be read, exactly the events whose quote is to go are deleted. Where one
/// cannot, only such events in front of it are.
pub proof fn law_deletions<Q>(
    events: Seq<Event>,
    read: spec_fn(Event) -> Result<Q, Fault>,
    wanted: spec_fn(Q) -> bool,
    id: Seq<char>,
)
    ensures
        deletions(events, read, wanted).1 == (match all_read(events, read) {
            Ok(_) => None,
            Err(fault) => Some(fault),
        }),
        deletions(events, read, wanted).0.contains(id) ==> exists|i: int|
            0 <= i < events.len() && (#[trigger] events[i]).id@ == id && read(events[i]) is Ok
                && wanted(read(events[i])->Ok_0),
        all_read(events, read) is Ok ==> forall|i: int|
            0 <= i < events.len() && (#[trigger] events[i]).id@ == id && wanted(
                read(events[i])->Ok_0,
            ) ==> deletions(events, read, wanted).0.contains(id),
    decreases events.len(),
{
    if events.len() > 0 {
        let rest = events.drop_last();
        law_deletions(rest, read, wanted, id);
        let before = deletions(rest, read, wanted).0;
        let after = deletions(events, read, wanted).0;
        let last = events.last();
        if after.contains(id) {
            if before.contains(id) {
                let i = choose|i: int|
                    0 <= i < rest.len() && (#[trigger] rest[i]).id@ == id && read(rest[i]) is Ok
                        && wanted(read(rest[i])->Ok_0);
                assert(events[i] == rest[i]);
            } else {
                let j = choose|j: int| 0 <= j < after.len() && after[j] == id;
                if j < before.len() {
                    assert(before[j] == id);
                }
                assert(events[events.len() - 1].id@ == id);
            }
        }
        if all_read(events, read) is Ok {
            assert forall|i: int|
                0 <= i < events.len() && (#[trigger] events[i]).id@ == id && wanted(
                    read(events[i])->Ok_0,
                ) implies after.contains(id) by {
                if i < rest.len() {
                    assert(rest[i] == events[i]);
                    let j = choose|j: int| 0 <= j < before.len() && before[j] == id;
                    assert(after[j] == id);
                } else {
                    assert(after[after.len() - 1] == id);
                }
            }
        }
    }
}

} // verus!
