//! Mint quotes: what is read from the events that keep them, which is found and which are
//! deleted.

use vstd::prelude::*;

use crate::error::{Fault, Nut00Error, Nut04Error};
use crate::event::{distinct, Event};
use crate::laws::quotes::{
    lemma_deletions, lemma_first_wanted, lemma_last_exists, state_has_name, unit_has_name,
};
use crate::laws::tags::{
    last_named, lemma_first_unreadable_is_reported, lemma_last_named_counts, none_named,
};
use crate::mint_quote::{
    mint_quote_kept, mint_quote_reader, mint_quote_with, MintQuoteFields, MintQuoteView,
};
use crate::nuts::{CurrencyUnit, MintQuoteState};
use crate::quotes::{all_read, deletions, first_wanted, found, law_list_needs_every_event};
use crate::sealing::{opened_tags, WalletKeys};
use crate::tag::{fold_tags, lemma_tag_names, tag_views, TagView};
use crate::text::{law_number_is_within_limit, parse_decimal, NumberError};

verus! {

/// The names of the tags that a mint quote must have.
pub open spec fn mint_quote_parts() -> Seq<Seq<char>> {
    seq![
        "quote_id"@,
        "mint"@,
        "amount"@,
        "unit"@,
        "request"@,
        "state"@,
        "expiration"@,
    ]
}

/// What is wrong with a tag of a mint quote, if anything is.
pub open spec fn mint_tag_fault(tag: TagView) -> Option<Fault> {
    let name = tag[0];
    let known = name == "quote_id"@ || name == "mint"@ || name == "amount"@ || name == "unit"@
        || name == "request"@ || name == "state"@ || name == "expiration"@;
    let number = name == "amount"@ || name == "expiration"@;
    if !known {
        None
    } else if tag.len() < 2 {
        Some(Fault::EmptyTag(name))
    } else if number && parse_decimal(tag[1], u64::MAX as nat) is Err {
        Some(Fault::ParseInt(parse_decimal(tag[1], u64::MAX as nat)->Err_0))
    } else if name == "unit"@ && tag[1] != "sat"@ && tag[1] != "msat"@ && tag[1] != "usd"@ && tag[1]
        != "eur"@ {
        Some(Fault::Nut00(Nut00Error::UnsupportedUnit))
    } else if name == "state"@ && tag[1] != "UNPAID"@ && tag[1] != "PAID"@ && tag[1] != "PENDING"@
        && tag[1] != "ISSUED"@ {
        Some(Fault::Nut04(Nut04Error::UnknownState))
    } else {
        None
    }
}

proof fn lemma_mint_step()
    ensures
        forall|value: MintQuoteFields, tag: TagView|
            #![trigger value.with_tag(tag)]
            match value.with_tag(tag) {
                Ok(_) => mint_tag_fault(tag) is None,
                Err(fault) => mint_tag_fault(tag) == Some(fault),
            },
{
    lemma_tag_names();
}

proof fn lemma_mint_tag_was_read(tags: Seq<TagView>, i: int)
    ensures
        fold_tags(MintQuoteFields::none(), tags, MintQuoteFields::step()) is Ok && 0 <= i
            < tags.len() ==> mint_tag_fault(tags[i]) is None,
    decreases tags.len(),
{
    let step = MintQuoteFields::step();
    if tags.len() > 0 && fold_tags(MintQuoteFields::none(), tags, step) is Ok && 0 <= i
        < tags.len() {
        let rest = tags.drop_last();
        lemma_mint_tag_was_read(rest, i);
        lemma_mint_step();
        let before = fold_tags(MintQuoteFields::none(), rest, step)->Ok_0;
        assert(before.with_tag(tags.last()) is Ok);
        if i < rest.len() {
            assert(rest[i] == tags[i]);
        }
    }
}

proof fn lemma_mint_id(tags: Seq<TagView>, i: int)
    ensures
        fold_tags(
            MintQuoteFields::none(),
            tags,
            MintQuoteFields::step(),
        ) matches Ok(after) ==> {
            &&& none_named(tags, "quote_id"@) ==> after.id is None
            &&& last_named(tags, "quote_id"@, i) ==> after.id == Some(tags[i][1])
        },
{
    lemma_tag_names();
    let step = MintQuoteFields::step();
    let part = |value: MintQuoteFields| value.id;
    let said = |tag: TagView| Some(tag[1]);
    assert forall|value: MintQuoteFields, tag: TagView|
        #![trigger step(value, tag)]
        step(value, tag) is Ok implies part(step(value, tag)->Ok_0) == (if tag[0]
        == "quote_id"@ {
        said(tag)
    } else {
        part(value)
    }) by {}
    lemma_last_named_counts(MintQuoteFields::none(), tags, step, part, "quote_id"@, said, i);
}

proof fn lemma_mint_mint_url(tags: Seq<TagView>, i: int)
    ensures
        fold_tags(
            MintQuoteFields::none(),
            tags,
            MintQuoteFields::step(),
        ) matches Ok(after) ==> {
            &&& none_named(tags, "mint"@) ==> after.mint_url is None
            &&& last_named(tags, "mint"@, i) ==> after.mint_url == Some(tags[i][1])
        },
{
    lemma_tag_names();
    let step = MintQuoteFields::step();
    let part = |value: MintQuoteFields| value.mint_url;
    let said = |tag: TagView| Some(tag[1]);
    assert forall|value: MintQuoteFields, tag: TagView|
        #![trigger step(value, tag)]
        step(value, tag) is Ok implies part(step(value, tag)->Ok_0) == (if tag[0]
        == "mint"@ {
        said(tag)
    } else {
        part(value)
    }) by {}
    lemma_last_named_counts(MintQuoteFields::none(), tags, step, part, "mint"@, said, i);
}

proof fn lemma_mint_amount(tags: Seq<TagView>, i: int)
    ensures
        fold_tags(
            MintQuoteFields::none(),
            tags,
            MintQuoteFields::step(),
        ) matches Ok(after) ==> {
            &&& none_named(tags, "amount"@) ==> after.amount is None
            &&& last_named(tags, "amount"@, i) ==> after.amount == Some(
                parse_decimal(tags[i][1], u64::MAX as nat)->Ok_0 as u64,
            )
        },
{
    lemma_tag_names();
    let step = MintQuoteFields::step();
    let part = |value: MintQuoteFields| value.amount;
    let said = |tag: TagView| Some(parse_decimal(tag[1], u64::MAX as nat)->Ok_0 as u64);
    assert forall|value: MintQuoteFields, tag: TagView|
        #![trigger step(value, tag)]
        step(value, tag) is Ok implies part(step(value, tag)->Ok_0) == (if tag[0]
        == "amount"@ {
        said(tag)
    } else {
        part(value)
    }) by {}
    lemma_last_named_counts(MintQuoteFields::none(), tags, step, part, "amount"@, said, i);
}

proof fn lemma_mint_unit(tags: Seq<TagView>, i: int)
    ensures
        fold_tags(
            MintQuoteFields::none(),
            tags,
            MintQuoteFields::step(),
        ) matches Ok(after) ==> {
            &&& none_named(tags, "unit"@) ==> after.unit is None
            &&& last_named(tags, "unit"@, i) ==> after.unit == Some(
                CurrencyUnit::named(tags[i][1])->Ok_0,
            )
        },
{
    lemma_tag_names();
    let step = MintQuoteFields::step();
    let part = |value: MintQuoteFields| value.unit;
    let said = |tag: TagView| Some(CurrencyUnit::named(tag[1])->Ok_0);
    assert forall|value: MintQuoteFields, tag: TagView|
        #![trigger step(value, tag)]
        step(value, tag) is Ok implies part(step(value, tag)->Ok_0) == (if tag[0]
        == "unit"@ {
        said(tag)
    } else {
        part(value)
    }) by {}
    lemma_last_named_counts(MintQuoteFields::none(), tags, step, part, "unit"@, said, i);
}

proof fn lemma_mint_request(tags: Seq<TagView>, i: int)
    ensures
        fold_tags(
            MintQuoteFields::none(),
            tags,
            MintQuoteFields::step(),
        ) matches Ok(after) ==> {
            &&& none_named(tags, "request"@) ==> after.request is None
            &&& last_named(tags, "request"@, i) ==> after.request == Some(tags[i][1])
        },
{
    lemma_tag_names();
    let step = MintQuoteFields::step();
    let part = |value: MintQuoteFields| value.request;
    let said = |tag: TagView| Some(tag[1]);
    assert forall|value: MintQuoteFields, tag: TagView|
        #![trigger step(value, tag)]
        step(value, tag) is Ok implies part(step(value, tag)->Ok_0) == (if tag[0]
        == "request"@ {
        said(tag)
    } else {
        part(value)
    }) by {}
    lemma_last_named_counts(MintQuoteFields::none(), tags, step, part, "request"@, said, i);
}

proof fn lemma_mint_state(tags: Seq<TagView>, i: int)
    ensures
        fold_tags(
            MintQuoteFields::none(),
            tags,
            MintQuoteFields::step(),
        ) matches Ok(after) ==> {
            &&& none_named(tags, "state"@) ==> after.state is None
            &&& last_named(tags, "state"@, i) ==> after.state == Some(
                MintQuoteState::named(tags[i][1])->Ok_0,
            )
        },
{
    lemma_tag_names();
    let step = MintQuoteFields::step();
    let part = |value: MintQuoteFields| value.state;
    let said = |tag: TagView| Some(MintQuoteState::named(tag[1])->Ok_0);
    assert forall|value: MintQuoteFields, tag: TagView|
        #![trigger step(value, tag)]
        step(value, tag) is Ok implies part(step(value, tag)->Ok_0) == (if tag[0]
        == "state"@ {
        said(tag)
    } else {
        part(value)
    }) by {}
    lemma_last_named_counts(MintQuoteFields::none(), tags, step, part, "state"@, said, i);
}

proof fn lemma_mint_expiry(tags: Seq<TagView>, i: int)
    ensures
        fold_tags(
            MintQuoteFields::none(),
            tags,
            MintQuoteFields::step(),
        ) matches Ok(after) ==> {
            &&& none_named(tags, "expiration"@) ==> after.expiry is None
            &&& last_named(tags, "expiration"@, i) ==> after.expiry == Some(
                parse_decimal(tags[i][1], u64::MAX as nat)->Ok_0 as u64,
            )
        },
{
    lemma_tag_names();
    let step = MintQuoteFields::step();
    let part = |value: MintQuoteFields| value.expiry;
    let said = |tag: TagView| Some(parse_decimal(tag[1], u64::MAX as nat)->Ok_0 as u64);
    assert forall|value: MintQuoteFields, tag: TagView|
        #![trigger step(value, tag)]
        step(value, tag) is Ok implies part(step(value, tag)->Ok_0) == (if tag[0]
        == "expiration"@ {
        said(tag)
    } else {
        part(value)
    }) by {}
    lemma_last_named_counts(MintQuoteFields::none(), tags, step, part, "expiration"@, said, i);
}

/// Each part of a mint quote is what the last tag of its name says, of the outer tags and then
/// those of the content, whatever other tags there are and in whatever order. No part may be
/// missing.
pub proof fn law_mint_quote_is_what_its_tags_say(
    keys: WalletKeys,
    tags: Seq<TagView>,
    content: Seq<TagView>,
    payload: Seq<char>,
    i: int,
)
    requires
        opened_tags(keys, payload) == Ok::<Seq<TagView>, Fault>(content),
    ensures
        mint_quote_kept(keys, tags, payload) matches Ok(quote) ==> {
            let all = tags + content;
            &&& !none_named(all, "quote_id"@)
            &&& last_named(all, "quote_id"@, i) ==> quote.id == all[i][1]
            &&& !none_named(all, "mint"@)
            &&& last_named(all, "mint"@, i) ==> quote.mint_url == all[i][1]
            &&& !none_named(all, "amount"@)
            &&& last_named(all, "amount"@, i) ==> parse_decimal(
                all[i][1],
                u64::MAX as nat,
            ) == Ok::<nat, NumberError>(quote.amount as nat)
            &&& !none_named(all, "unit"@)
            &&& last_named(all, "unit"@, i) ==> unit_has_name(quote.unit, all[i][1])
            &&& !none_named(all, "request"@)
            &&& last_named(all, "request"@, i) ==> quote.request == all[i][1]
            &&& !none_named(all, "state"@)
            &&& last_named(all, "state"@, i) ==> state_has_name(quote.state, all[i][1])
            &&& !none_named(all, "expiration"@)
            &&& last_named(all, "expiration"@, i) ==> parse_decimal(
                all[i][1],
                u64::MAX as nat,
            ) == Ok::<nat, NumberError>(quote.expiry as nat)
        },
{
    let all = tags + content;
    lemma_mint_id(all, i);
    lemma_mint_mint_url(all, i);
    lemma_mint_amount(all, i);
    lemma_mint_unit(all, i);
    lemma_mint_request(all, i);
    lemma_mint_state(all, i);
    lemma_mint_expiry(all, i);
    lemma_mint_tag_was_read(all, i);
    if mint_quote_kept(keys, tags, payload) is Ok {
        if 0 <= i < all.len() {
            law_number_is_within_limit(all[i][1], u64::MAX as nat);
        }
        lemma_tag_names();
    }
}

/// An event that can be decrypted keeps a mint quote exactly when each of its tags can be read by
/// itself and no part of the quote is missing. Otherwise the first tag that cannot be read is the
/// one that is reported, or else the first part that is missing.
pub proof fn law_mint_quote_is_read_tag_by_tag(
    keys: WalletKeys,
    tags: Seq<TagView>,
    content: Seq<TagView>,
    payload: Seq<char>,
    i: int,
)
    requires
        opened_tags(keys, payload) == Ok::<Seq<TagView>, Fault>(content),
    ensures
        ({
            let all = tags + content;
            let names = mint_quote_parts();
            &&& 0 <= i < all.len() && mint_tag_fault(all[i]) is Some && (forall|j: int|
                0 <= j < i ==> mint_tag_fault(#[trigger] all[j]) is None) ==> mint_quote_kept(
                keys,
                tags,
                payload,
            ) == Err::<MintQuoteView, Fault>(mint_tag_fault(all[i])->0)
            &&& (forall|j: int| 0 <= j < all.len() ==> mint_tag_fault(#[trigger] all[j]) is None)
                ==> match mint_quote_kept(keys, tags, payload) {
                Ok(_) => forall|k: int|
                    0 <= k < names.len() ==> !none_named(all, #[trigger] names[k]),
                Err(fault) => exists|k: int|
                    0 <= k < names.len() && fault == Fault::MissingTag(#[trigger] names[k])
                        && none_named(all, names[k]) && forall|j: int|
                        0 <= j < k ==> !none_named(all, #[trigger] names[j]),
            }
        }),
{
    lemma_tag_names();
    lemma_mint_step();
    let all = tags + content;
    let step = MintQuoteFields::step();
    let wrong = |tag: TagView| mint_tag_fault(tag);
    assert forall|value: MintQuoteFields, tag: TagView|
        #![trigger step(value, tag)]
        match step(value, tag) {
            Ok(_) => wrong(tag) is None,
            Err(fault) => wrong(tag) == Some(fault),
        } by {
        assert(step(value, tag) == value.with_tag(tag));
    }
    lemma_first_unreadable_is_reported(MintQuoteFields::none(), all, step, wrong, i);
    if 0 <= i < all.len() && mint_tag_fault(all[i]) is Some && (forall|j: int|
        0 <= j < i ==> mint_tag_fault(#[trigger] all[j]) is None) {
        assert forall|j: int| 0 <= j < i implies wrong(#[trigger] all[j]) is None by {}
    }
    if forall|j: int| 0 <= j < all.len() ==> mint_tag_fault(#[trigger] all[j]) is None {
        assert forall|j: int| 0 <= j < all.len() implies wrong(#[trigger] all[j]) is None by {}
        let names = mint_quote_parts();
        assert(names[0] == "quote_id"@);
        assert(names[1] == "mint"@);
        assert(names[2] == "amount"@);
        assert(names[3] == "unit"@);
        assert(names[4] == "request"@);
        assert(names[5] == "state"@);
        assert(names[6] == "expiration"@);
        if !none_named(all, "quote_id"@) {
            let k = lemma_last_exists(all, "quote_id"@);
            lemma_mint_id(all, k);
        }
        lemma_mint_id(all, 0);
        if !none_named(all, "mint"@) {
            let k = lemma_last_exists(all, "mint"@);
            lemma_mint_mint_url(all, k);
        }
        lemma_mint_mint_url(all, 0);
        if !none_named(all, "amount"@) {
            let k = lemma_last_exists(all, "amount"@);
            lemma_mint_amount(all, k);
        }
        lemma_mint_amount(all, 0);
        if !none_named(all, "unit"@) {
            let k = lemma_last_exists(all, "unit"@);
            lemma_mint_unit(all, k);
        }
        lemma_mint_unit(all, 0);
        if !none_named(all, "request"@) {
            let k = lemma_last_exists(all, "request"@);
            lemma_mint_request(all, k);
        }
        lemma_mint_request(all, 0);
        if !none_named(all, "state"@) {
            let k = lemma_last_exists(all, "state"@);
            lemma_mint_state(all, k);
        }
        lemma_mint_state(all, 0);
        if !none_named(all, "expiration"@) {
            let k = lemma_last_exists(all, "expiration"@);
            lemma_mint_expiry(all, k);
        }
        lemma_mint_expiry(all, 0);
    }
}

/// An event that cannot be decrypted, or whose content is no row of tags, keeps no mint quote, for
/// that reason.
pub proof fn law_sealed_mint_quote_must_be_opened(
    keys: WalletKeys,
    tags: Seq<TagView>,
    payload: Seq<char>,
)
    requires
        opened_tags(keys, payload) is Err,
    ensures
        mint_quote_kept(keys, tags, payload) == Err::<MintQuoteView, Fault>(
            opened_tags(keys, payload)->Err_0,
        ),
{
}

/// The mint quote that an event keeps.
pub open spec fn mint_quote_of(keys: WalletKeys, event: Event) -> Result<MintQuoteView, Fault> {
    mint_quote_kept(keys, tag_views(event.tags@), event.content@)
}

/// A list of mint quotes holds the quote of each event, each event taken once, in order.
pub proof fn law_mint_quotes_are_those_of_the_events(keys: WalletKeys, events: Seq<Event>)
    ensures
        ({
            let row = distinct(events);
            &&& all_read(row, mint_quote_reader(keys)) is Ok <==> forall|i: int|
                0 <= i < row.len() ==> mint_quote_of(keys, #[trigger] row[i]) is Ok
            &&& all_read(row, mint_quote_reader(keys)) matches Ok(quotes) ==> {
                &&& quotes.len() == row.len()
                &&& forall|i: int|
                    0 <= i < row.len() ==> mint_quote_of(keys, #[trigger] row[i]) == Ok::<
                        MintQuoteView,
                        Fault,
                    >(quotes[i])
            }
        }),
{
    let row = distinct(events);
    let read = mint_quote_reader(keys);
    law_list_needs_every_event(row, read);
    assert forall|i: int| 0 <= i < row.len() implies read(#[trigger] row[i]) == mint_quote_of(
        keys,
        row[i],
    ) by {}
    if forall|i: int| 0 <= i < row.len() ==> mint_quote_of(keys, #[trigger] row[i]) is Ok {
        assert forall|i: int| 0 <= i < row.len() implies read(#[trigger] row[i]) is Ok by {
            assert(mint_quote_of(keys, row[i]) is Ok);
        }
    }
    if all_read(row, read) is Ok {
        assert forall|i: int| 0 <= i < row.len() implies mint_quote_of(
            keys,
            #[trigger] row[i],
        ) is Ok by {
            assert(read(row[i]) is Ok);
        }
    }
}

/// Where every event can be read, the mint quote that is found is the first that has the id,
/// whatever else it says, and none is found exactly when no event keeps a quote with the id.
pub proof fn law_mint_quote_is_found_by_its_id(
    keys: WalletKeys,
    events: Seq<Event>,
    quote_id: Seq<char>,
)
    requires
        forall|i: int|
            0 <= i < distinct(events).len() ==> mint_quote_of(
                keys,
                #[trigger] distinct(events)[i],
            ) is Ok,
    ensures
        ({
            let row = distinct(events);
            match found(
                all_read(row, mint_quote_reader(keys)),
                mint_quote_with(quote_id),
            ) {
                Ok(None) => forall|i: int|
                    0 <= i < row.len() ==> mint_quote_of(keys, #[trigger] row[i])->Ok_0.id
                        != quote_id,
                Ok(Some(quote)) => quote.id == quote_id && exists|i: int|
                    0 <= i < row.len() && mint_quote_of(keys, #[trigger] row[i]) == Ok::<
                        MintQuoteView,
                        Fault,
                    >(quote) && forall|j: int|
                        0 <= j < i ==> mint_quote_of(keys, #[trigger] row[j])->Ok_0.id != quote_id,
                Err(_) => false,
            }
        }),
{
    let row = distinct(events);
    law_mint_quotes_are_those_of_the_events(keys, events);
    let quotes = all_read(row, mint_quote_reader(keys))->Ok_0;
    let wanted = mint_quote_with(quote_id);
    assert forall|quote: MintQuoteView| #[trigger] wanted(quote) <==> quote.id == quote_id by {}
    lemma_first_wanted(quotes, wanted);
    if first_wanted(quotes, wanted) is None {
        assert forall|i: int| 0 <= i < row.len() implies mint_quote_of(
            keys,
            #[trigger] row[i],
        )->Ok_0.id != quote_id by {
            assert(!wanted(quotes[i]));
        }
    } else {
        let quote = first_wanted(quotes, wanted)->0;
        let i = choose|i: int|
            0 <= i < quotes.len() && #[trigger] quotes[i] == quote && wanted(quote) && forall|
                j: int,
            |
                0 <= j < i ==> !wanted(#[trigger] quotes[j]);
        assert(mint_quote_of(keys, row[i]) == Ok::<MintQuoteView, Fault>(quote));
        assert forall|j: int| 0 <= j < i implies mint_quote_of(
            keys,
            #[trigger] row[j],
        )->Ok_0.id != quote_id by {
            assert(!wanted(quotes[j]));
        }
    }
}

/// The events that are deleted are, in order, exactly those whose mint quote has the id, whatever
/// else it says, of the events in front of the first that cannot be read. That one is reported;
/// where every event can be read, nothing is.
pub proof fn law_mint_quotes_are_deleted_by_their_id(
    keys: WalletKeys,
    events: Seq<Event>,
    quote_id: Seq<char>,
    n: int,
)
    requires
        0 <= n <= events.len(),
        forall|i: int| 0 <= i < n ==> mint_quote_of(keys, #[trigger] events[i]) is Ok,
        n < events.len() ==> mint_quote_of(keys, events[n]) is Err,
    ensures
        deletions(events, mint_quote_reader(keys), mint_quote_with(quote_id)).0
            == events.take(n).filter(
            |event: Event| mint_quote_of(keys, event)->Ok_0.id == quote_id,
        ).map_values(|event: Event| event.id@),
        deletions(events, mint_quote_reader(keys), mint_quote_with(quote_id)).1 == (if n
            < events.len() {
            Some(mint_quote_of(keys, events[n])->Err_0)
        } else {
            None
        }),
{
    let read = mint_quote_reader(keys);
    let wanted = mint_quote_with(quote_id);
    let keep = |event: Event| mint_quote_of(keys, event)->Ok_0.id == quote_id;
    assert forall|i: int| 0 <= i < n implies read(#[trigger] events[i]) is Ok && keep(events[i])
        == wanted(read(events[i])->Ok_0) by {
        assert(mint_quote_of(keys, events[i]) is Ok);
    }
    lemma_deletions(events, read, wanted, keep, n);
}

} // verus!
