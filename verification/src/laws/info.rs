//! The wallet's info: what is read from the events that keep it.

use vstd::prelude::*;

use crate::error::{Fault, Nut00Error};
use crate::laws::tags::{
    last_named, lemma_all_named_are_gathered, lemma_first_unreadable_is_reported,
    lemma_last_counts, lemma_last_named_counts, none_named,
};
use crate::nuts::{id_of_text, CurrencyUnit};
use crate::sealing::{opened_tags, secret_key_hex, WalletKeys};
use crate::tag::{lemma_tag_names, TagView};
use crate::text::parse_decimal;
use crate::wallet_info::{first_of_kind, info_kept, wallet_id_of, WalletInfoView};

verus! {

/// The wallet's id is the value of the first `d` tag among the outer tags of its event.
pub proof fn law_id_is_that_of_the_first_d_tag(
    keys: WalletKeys,
    tags: Seq<TagView>,
    payload: Seq<char>,
    i: int,
)
    requires
        0 <= i < tags.len(),
        tags[i][0] == "d"@,
        forall|j: int| 0 <= j < i ==> (#[trigger] tags[j])[0] != "d"@,
    ensures
        info_kept(keys, tags, payload) matches Ok(info) ==> tags[i].len() > 1 && info.id
            == tags[i][1],
        tags[i].len() == 1 ==> info_kept(keys, tags, payload) == Err::<WalletInfoView, Fault>(
            Fault::EmptyTag("d"@),
        ),
{
    lemma_first_of_kind(tags, "d"@, i);
    if info_kept(keys, tags, payload) is Ok {
        let content = opened_tags(keys, payload)->Ok_0;
        let id = wallet_id_of(tags)->Ok_0;
        let start = WalletInfoView::named(id);
        let step = WalletInfoView::step();
        assert forall|value: WalletInfoView, tag: TagView|
            #![trigger step(value, tag)]
            step(value, tag) is Ok implies step(value, tag)->Ok_0.id == value.id by {}
        let part = |value: WalletInfoView| value.id;
        let said = |tag: TagView| id;
        let speaks = |tag: TagView| false;
        lemma_last_counts(start, tags + content, step, part, speaks, said, 0);
    }
}

proof fn lemma_first_of_kind(tags: Seq<TagView>, name: Seq<char>, i: int)
    requires
        0 <= i < tags.len(),
        tags[i][0] == name,
        forall|j: int| 0 <= j < i ==> (#[trigger] tags[j])[0] != name,
    ensures
        first_of_kind(tags, name) == Some(tags[i]),
    decreases i,
{
    if i > 0 {
        assert(tags[0][0] != name);
        let rest = tags.drop_first();
        assert forall|j: int| 0 <= j < i - 1 implies (#[trigger] rest[j])[0] != name by {
            assert(tags[j + 1][0] != name);
        }
        assert(rest[i - 1] == tags[i]);
        lemma_first_of_kind(rest, name, i - 1);
    }
}

/// An event without a `d` tag keeps no wallet's info.
pub proof fn law_no_info_without_d_tag(keys: WalletKeys, tags: Seq<TagView>, payload: Seq<char>)
    requires
        none_named(tags, "d"@),
    ensures
        info_kept(keys, tags, payload) == Err::<WalletInfoView, Fault>(Fault::TagNotFound("d"@)),
{
    lemma_none_of_kind(tags, "d"@);
}

proof fn lemma_none_of_kind(tags: Seq<TagView>, name: Seq<char>)
    requires
        none_named(tags, name),
    ensures
        first_of_kind(tags, name) is None,
    decreases tags.len(),
{
    if tags.len() > 0 {
        let rest = tags.drop_first();
        assert forall|j: int| 0 <= j < rest.len() implies (#[trigger] rest[j])[0] != name by {
            assert(tags[j + 1][0] != name);
        }
        assert(tags[0][0] != name);
        lemma_none_of_kind(rest, name);
    }
}

/// What is wrong with a tag of the wallet's info, if anything is.
pub open spec fn info_tag_fault(tag: TagView) -> Option<Fault> {
    let name = tag[0];
    let known = name == "mint"@ || name == "relay"@ || name == "unit"@ || name == "name"@ || name
        == "description"@ || name == "balance"@ || name == "privkey"@ || name == "counter"@;
    if !known {
        None
    } else if tag.len() < 2 {
        Some(Fault::EmptyTag(name))
    } else if name == "unit"@ && tag[1] != "sat"@ && tag[1] != "msat"@ && tag[1] != "usd"@ && tag[1]
        != "eur"@ {
        Some(Fault::Nut00(Nut00Error::UnsupportedUnit))
    } else if name == "balance"@ && parse_decimal(tag[1], u64::MAX as nat) is Err {
        Some(Fault::ParseInt(parse_decimal(tag[1], u64::MAX as nat)->Err_0))
    } else if name == "privkey"@ && secret_key_hex(tag[1]) is None {
        Some(Fault::Key)
    } else if name == "counter"@ && id_of_text(tag[1]) is Err {
        Some(id_of_text(tag[1])->Err_0)
    } else if name == "counter"@ && parse_decimal(tag.last(), u32::MAX as nat) is Err {
        Some(Fault::ParseInt(parse_decimal(tag.last(), u32::MAX as nat)->Err_0))
    } else {
        None
    }
}

proof fn lemma_info_step()
    ensures
        forall|value: WalletInfoView, tag: TagView|
            #![trigger value.with_tag(tag)]
            match value.with_tag(tag) {
                Ok(_) => info_tag_fault(tag) is None,
                Err(fault) => info_tag_fault(tag) == Some(fault),
            },
{
    lemma_tag_names();
}

proof fn lemma_every_tag_was_read(start: WalletInfoView, tags: Seq<TagView>, i: int)
    ensures
        start.with_tags(tags) is Ok && 0 <= i < tags.len() ==> info_tag_fault(tags[i]) is None,
    decreases tags.len(),
{
    if tags.len() > 0 && start.with_tags(tags) is Ok && 0 <= i < tags.len() {
        let rest = tags.drop_last();
        lemma_every_tag_was_read(start, rest, i);
        lemma_info_step();
        let before = start.with_tags(rest)->Ok_0;
        assert(before.with_tag(tags.last()) is Ok);
        if i < rest.len() {
            assert(rest[i] == tags[i]);
        }
    }
}

/// The info of an event that names a wallet and can be decrypted is read exactly when each of its
/// tags, the outer ones and then those of the content, can be read by itself. Otherwise the first
/// that cannot is the one that is reported.
pub proof fn law_info_is_read_tag_by_tag(
    keys: WalletKeys,
    tags: Seq<TagView>,
    content: Seq<TagView>,
    payload: Seq<char>,
    d: int,
    i: int,
)
    requires
        opened_tags(keys, payload) == Ok::<Seq<TagView>, Fault>(content),
        0 <= d < tags.len(),
        tags[d][0] == "d"@ && tags[d].len() > 1,
        forall|j: int| 0 <= j < d ==> (#[trigger] tags[j])[0] != "d"@,
    ensures
        ({
            let all = tags + content;
            &&& info_kept(keys, tags, payload) is Ok <==> forall|j: int|
                0 <= j < all.len() ==> info_tag_fault(#[trigger] all[j]) is None
            &&& 0 <= i < all.len() && info_tag_fault(all[i]) is Some && (forall|j: int|
                0 <= j < i ==> info_tag_fault(#[trigger] all[j]) is None) ==> info_kept(
                keys,
                tags,
                payload,
            ) == Err::<WalletInfoView, Fault>(info_tag_fault(all[i])->0)
        }),
{
    lemma_first_of_kind(tags, "d"@, d);
    lemma_info_step();
    let all = tags + content;
    let start = WalletInfoView::named(tags[d][1]);
    let step = WalletInfoView::step();
    let wrong = |tag: TagView| info_tag_fault(tag);
    assert forall|value: WalletInfoView, tag: TagView|
        #![trigger step(value, tag)]
        match step(value, tag) {
            Ok(_) => wrong(tag) is None,
            Err(fault) => wrong(tag) == Some(fault),
        } by {
        assert(step(value, tag) == value.with_tag(tag));
    }
    lemma_first_unreadable_is_reported(start, all, step, wrong, i);
    if forall|j: int| 0 <= j < all.len() ==> info_tag_fault(#[trigger] all[j]) is None {
        assert forall|j: int| 0 <= j < all.len() implies wrong(#[trigger] all[j]) is None by {}
    }
    if 0 <= i < all.len() && info_tag_fault(all[i]) is Some && (forall|j: int|
        0 <= j < i ==> info_tag_fault(#[trigger] all[j]) is None) {
        assert forall|j: int| 0 <= j < i implies wrong(#[trigger] all[j]) is None by {}
    }
    if info_kept(keys, tags, payload) is Ok {
        assert forall|j: int| 0 <= j < all.len() implies info_tag_fault(
            #[trigger] all[j],
        ) is None by {
            lemma_every_tag_was_read(start, all, j);
        }
    }
}

/// An event that names a wallet and cannot be decrypted, or whose content is no row of tags, is
/// refused for that reason.
pub proof fn law_sealed_info_must_be_opened(
    keys: WalletKeys,
    tags: Seq<TagView>,
    payload: Seq<char>,
    d: int,
)
    requires
        0 <= d < tags.len(),
        tags[d][0] == "d"@ && tags[d].len() > 1,
        forall|j: int| 0 <= j < d ==> (#[trigger] tags[j])[0] != "d"@,
        opened_tags(keys, payload) is Err,
    ensures
        info_kept(keys, tags, payload) == Err::<WalletInfoView, Fault>(
            opened_tags(keys, payload)->Err_0,
        ),
{
    lemma_first_of_kind(tags, "d"@, d);
}

/// The name is the one that the last name tag gives, whatever other tags there are and in whatever
/// order. Without a name tag there is none.
pub proof fn law_name_is_the_last_that_was_said(
    keys: WalletKeys,
    tags: Seq<TagView>,
    content: Seq<TagView>,
    payload: Seq<char>,
    i: int,
)
    requires
        opened_tags(keys, payload) == Ok::<Seq<TagView>, Fault>(content),
    ensures
        info_kept(keys, tags, payload) matches Ok(info) ==> {
            let all = tags + content;
            &&& none_named(all, "name"@) ==> info.name is None
            &&& last_named(all, "name"@, i) ==> all[i].len() > 1
                && info.name == Some(all[i][1])
        },
{
    if info_kept(keys, tags, payload) is Ok {
        lemma_tag_names();
        let all = tags + content;
        let start = WalletInfoView::named(wallet_id_of(tags)->Ok_0);
        let step = WalletInfoView::step();
        let part = |value: WalletInfoView| value.name;
        let said = |tag: TagView| Some(tag[1]);
        assert forall|value: WalletInfoView, tag: TagView|
            #![trigger step(value, tag)]
            step(value, tag) is Ok implies part(step(value, tag)->Ok_0) == (if tag[0]
            == "name"@ {
            said(tag)
        } else {
            part(value)
        }) by {}
        lemma_last_named_counts(start, all, step, part, "name"@, said, i);
        lemma_every_tag_was_read(start, all, i);
    }
}

/// The description is the one that the last description tag gives, whatever other tags there are
/// and in whatever order. Without a description tag there is none.
pub proof fn law_description_is_the_last_that_was_said(
    keys: WalletKeys,
    tags: Seq<TagView>,
    content: Seq<TagView>,
    payload: Seq<char>,
    i: int,
)
    requires
        opened_tags(keys, payload) == Ok::<Seq<TagView>, Fault>(content),
    ensures
        info_kept(keys, tags, payload) matches Ok(info) ==> {
            let all = tags + content;
            &&& none_named(all, "description"@) ==> info.description is None
            &&& last_named(all, "description"@, i) ==> all[i].len() > 1
                && info.description == Some(all[i][1])
        },
{
    if info_kept(keys, tags, payload) is Ok {
        lemma_tag_names();
        let all = tags + content;
        let start = WalletInfoView::named(wallet_id_of(tags)->Ok_0);
        let step = WalletInfoView::step();
        let part = |value: WalletInfoView| value.description;
        let said = |tag: TagView| Some(tag[1]);
        assert forall|value: WalletInfoView, tag: TagView|
            #![trigger step(value, tag)]
            step(value, tag) is Ok implies part(step(value, tag)->Ok_0) == (if tag[0]
            == "description"@ {
            said(tag)
        } else {
            part(value)
        }) by {}
        lemma_last_named_counts(start, all, step, part, "description"@, said, i);
        lemma_every_tag_was_read(start, all, i);
    }
}

/// The balance is the one that the last balance tag gives, whatever other tags there are and in
/// whatever order. Without a balance tag there is none.
pub proof fn law_balance_is_the_last_that_was_said(
    keys: WalletKeys,
    tags: Seq<TagView>,
    content: Seq<TagView>,
    payload: Seq<char>,
    i: int,
)
    requires
        opened_tags(keys, payload) == Ok::<Seq<TagView>, Fault>(content),
    ensures
        info_kept(keys, tags, payload) matches Ok(info) ==> {
            let all = tags + content;
            &&& none_named(all, "balance"@) ==> info.balance is None
            &&& last_named(all, "balance"@, i) ==> all[i].len() > 1
                && parse_decimal(all[i][1], u64::MAX as nat) is Ok && info.balance == Some(
                parse_decimal(all[i][1], u64::MAX as nat)->Ok_0 as u64,
            )
        },
{
    if info_kept(keys, tags, payload) is Ok {
        lemma_tag_names();
        let all = tags + content;
        let start = WalletInfoView::named(wallet_id_of(tags)->Ok_0);
        let step = WalletInfoView::step();
        let part = |value: WalletInfoView| value.balance;
        let said = |tag: TagView| Some(parse_decimal(tag[1], u64::MAX as nat)->Ok_0 as u64);
        assert forall|value: WalletInfoView, tag: TagView|
            #![trigger step(value, tag)]
            step(value, tag) is Ok implies part(step(value, tag)->Ok_0) == (if tag[0]
            == "balance"@ {
            said(tag)
        } else {
            part(value)
        }) by {}
        lemma_last_named_counts(start, all, step, part, "balance"@, said, i);
        lemma_every_tag_was_read(start, all, i);
    }
}

/// The secret key is the one that the last key tag gives, whatever other tags there are and in
/// whatever order. Without a key tag there is none.
pub proof fn law_key_is_the_last_that_was_said(
    keys: WalletKeys,
    tags: Seq<TagView>,
    content: Seq<TagView>,
    payload: Seq<char>,
    i: int,
)
    requires
        opened_tags(keys, payload) == Ok::<Seq<TagView>, Fault>(content),
    ensures
        info_kept(keys, tags, payload) matches Ok(info) ==> {
            let all = tags + content;
            &&& none_named(all, "privkey"@) ==> info.p2pk_priv_key is None
            &&& last_named(all, "privkey"@, i) ==> all[i].len() > 1
                && secret_key_hex(all[i][1]) is Some && info.p2pk_priv_key == Some(
                secret_key_hex(all[i][1])->0,
            )
        },
{
    if info_kept(keys, tags, payload) is Ok {
        lemma_tag_names();
        let all = tags + content;
        let start = WalletInfoView::named(wallet_id_of(tags)->Ok_0);
        let step = WalletInfoView::step();
        let part = |value: WalletInfoView| value.p2pk_priv_key;
        let said = |tag: TagView| Some(secret_key_hex(tag[1])->0);
        assert forall|value: WalletInfoView, tag: TagView|
            #![trigger step(value, tag)]
            step(value, tag) is Ok implies part(step(value, tag)->Ok_0) == (if tag[0]
            == "privkey"@ {
            said(tag)
        } else {
            part(value)
        }) by {}
        lemma_last_named_counts(start, all, step, part, "privkey"@, said, i);
        lemma_every_tag_was_read(start, all, i);
    }
}

/// The unit is the one that the last unit tag names, whatever other tags there are and in whatever
/// order. Without a unit tag there is none.
pub proof fn law_unit_is_the_last_that_was_said(
    keys: WalletKeys,
    tags: Seq<TagView>,
    content: Seq<TagView>,
    payload: Seq<char>,
    i: int,
)
    requires
        opened_tags(keys, payload) == Ok::<Seq<TagView>, Fault>(content),
    ensures
        info_kept(keys, tags, payload) matches Ok(info) ==> {
            let all = tags + content;
            &&& none_named(all, "unit"@) ==> info.unit is None
            &&& last_named(all, "unit"@, i) ==> all[i].len() > 1
                && (all[i][1] == "sat"@ && info.unit == Some(CurrencyUnit::Sat) || all[i][1]
                == "msat"@ && info.unit == Some(CurrencyUnit::Msat) || all[i][1] == "usd"@
                && info.unit == Some(CurrencyUnit::Usd) || all[i][1] == "eur"@ && info.unit == Some(
                CurrencyUnit::Eur,
            ))
        },
{
    if info_kept(keys, tags, payload) is Ok {
        lemma_tag_names();
        let all = tags + content;
        let start = WalletInfoView::named(wallet_id_of(tags)->Ok_0);
        let step = WalletInfoView::step();
        let part = |value: WalletInfoView| value.unit;
        let said = |tag: TagView| Some(CurrencyUnit::named(tag[1])->Ok_0);
        assert forall|value: WalletInfoView, tag: TagView|
            #![trigger step(value, tag)]
            step(value, tag) is Ok implies part(step(value, tag)->Ok_0) == (if tag[0]
            == "unit"@ {
            said(tag)
        } else {
            part(value)
        }) by {}
        lemma_last_named_counts(start, all, step, part, "unit"@, said, i);
        lemma_every_tag_was_read(start, all, i);
    }
}

/// The mints are exactly the values of the mint tags, whatever other tags there are.
pub proof fn law_mints_are_those_that_were_said(
    keys: WalletKeys,
    tags: Seq<TagView>,
    content: Seq<TagView>,
    payload: Seq<char>,
    url: Seq<char>,
)
    requires
        opened_tags(keys, payload) == Ok::<Seq<TagView>, Fault>(content),
    ensures
        info_kept(keys, tags, payload) matches Ok(info) ==> {
            let all = tags + content;
            info.mints.contains(url) <==> exists|j: int|
                0 <= j < all.len() && (#[trigger] all[j])[0] == "mint"@ && all[j][1] == url
        },
{
    if info_kept(keys, tags, payload) is Ok {
        lemma_tag_names();
        let all = tags + content;
        let start = WalletInfoView::named(wallet_id_of(tags)->Ok_0);
        let step = WalletInfoView::step();
        let part = |value: WalletInfoView| value.mints;
        assert forall|value: WalletInfoView, tag: TagView|
            #![trigger step(value, tag)]
            step(value, tag) is Ok implies part(step(value, tag)->Ok_0) == (if tag[0]
            == "mint"@ {
            part(value).insert(tag[1])
        } else {
            part(value)
        }) by {}
        lemma_all_named_are_gathered(start, all, step, part, "mint"@, url);
    }
}

/// The relays are exactly the values of the relay tags, whatever other tags there are.
pub proof fn law_relays_are_those_that_were_said(
    keys: WalletKeys,
    tags: Seq<TagView>,
    content: Seq<TagView>,
    payload: Seq<char>,
    url: Seq<char>,
)
    requires
        opened_tags(keys, payload) == Ok::<Seq<TagView>, Fault>(content),
    ensures
        info_kept(keys, tags, payload) matches Ok(info) ==> {
            let all = tags + content;
            info.relays.contains(url) <==> exists|j: int|
                0 <= j < all.len() && (#[trigger] all[j])[0] == "relay"@ && all[j][1] == url
        },
{
    if info_kept(keys, tags, payload) is Ok {
        lemma_tag_names();
        let all = tags + content;
        let start = WalletInfoView::named(wallet_id_of(tags)->Ok_0);
        let step = WalletInfoView::step();
        let part = |value: WalletInfoView| value.relays;
        assert forall|value: WalletInfoView, tag: TagView|
            #![trigger step(value, tag)]
            step(value, tag) is Ok implies part(step(value, tag)->Ok_0) == (if tag[0]
            == "relay"@ {
            part(value).insert(tag[1])
        } else {
            part(value)
        }) by {}
        lemma_all_named_are_gathered(start, all, step, part, "relay"@, url);
    }
}

/// Whether a tag tells the counter of a keyset.
pub open spec fn tells_counter(tag: TagView, id: u64) -> bool {
    tag[0] == "counter"@ && id_of_text(tag[1]) == Ok::<u64, Fault>(id)
}

/// The counter of a keyset is the last field of the last counter tag that names the keyset,
/// whatever other tags there are. A keyset that no counter tag names has none.
pub proof fn law_counter_is_the_last_that_was_said(
    keys: WalletKeys,
    tags: Seq<TagView>,
    content: Seq<TagView>,
    payload: Seq<char>,
    id: u64,
    i: int,
)
    requires
        opened_tags(keys, payload) == Ok::<Seq<TagView>, Fault>(content),
    ensures
        info_kept(keys, tags, payload) matches Ok(info) ==> {
            let all = tags + content;
            &&& (forall|j: int| 0 <= j < all.len() ==> !tells_counter(#[trigger] all[j], id))
                ==> !info.counters.contains_key(id)
            &&& 0 <= i < all.len() && tells_counter(all[i], id) && (forall|j: int|
                i < j < all.len() ==> !tells_counter(#[trigger] all[j], id)) ==> {
                &&& info.counters.contains_key(id)
                &&& parse_decimal(all[i].last(), u32::MAX as nat) is Ok
                &&& info.counters[id] == parse_decimal(
                    all[i].last(),
                    u32::MAX as nat,
                )->Ok_0 as u32
            }
        },
{
    if info_kept(keys, tags, payload) is Ok {
        lemma_tag_names();
        let all = tags + content;
        let start = WalletInfoView::named(wallet_id_of(tags)->Ok_0);
        let step = WalletInfoView::step();
        let part = |value: WalletInfoView|
            if value.counters.contains_key(id) {
                Some(value.counters[id])
            } else {
                None::<u32>
            };
        let speaks = |tag: TagView| tells_counter(tag, id);
        let said = |tag: TagView|
            Some(parse_decimal(tag.last(), u32::MAX as nat)->Ok_0 as u32);
        assert forall|value: WalletInfoView, tag: TagView|
            #![trigger step(value, tag)]
            step(value, tag) is Ok implies part(step(value, tag)->Ok_0) == (if speaks(tag) {
            said(tag)
        } else {
            part(value)
        }) by {}
        lemma_last_counts(start, all, step, part, speaks, said, i);
        lemma_every_tag_was_read(start, all, i);
        if forall|j: int| 0 <= j < all.len() ==> !tells_counter(#[trigger] all[j], id) {
            assert forall|j: int| 0 <= j < all.len() implies !speaks(#[trigger] all[j]) by {}
        }
        if 0 <= i < all.len() && tells_counter(all[i], id) && (forall|j: int|
            i < j < all.len() ==> !tells_counter(#[trigger] all[j], id)) {
            assert forall|j: int| i < j < all.len() implies !speaks(#[trigger] all[j]) by {}
        }
    }
}

} // verus!
