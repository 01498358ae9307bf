//! What is written: the events that the wallet makes, and the changes that it writes.

use vstd::prelude::*;
use vstd::utf8::encode_utf8;

use crate::error::Fault;
use crate::event::Event;
use crate::melt_quote::{melt_quote_written, MeltQuoteView};
use crate::mint_quote::{mint_quote_written, MintQuoteView};
use crate::proofs::transaction_written;
use crate::sealing::{
    event_id_hex, nip44_keys_agree, nip44_message, opened, opened_tags, public_key_hex,
    sealing_fault, secret_key_hex, signature_holds, wallet_link, WalletKeys,
};
use crate::tag::{json_tags, tag_views, TagView};
use crate::text::decimal;
use crate::wallet_info::{info_kept, info_written, WalletInfo, WalletInfoView};

verus! {

/// Reading the event that was written for a wallet's info gives back its id, balance, mints, name,
/// description, relays and counters, and its unit where it has a balance. Its secret key is not
/// written.
pub proof fn law_written_info_is_read_back(keys: WalletKeys, info: WalletInfo, event: Event)
    requires
        info_written(keys, info, Ok(event)),
    ensures
        event.kind == 37375,
        tag_views(event.tags@) == seq![seq!["d"@, info.id@]],
        info_kept(keys, tag_views(event.tags@), event.content@) is Ok,
        ({
            let read = info_kept(keys, tag_views(event.tags@), event.content@)->Ok_0;
            &&& read.id == info.id@
            &&& info.balance is Some ==> read.balance == Some(info.balance->0.value)
            &&& info.balance is None ==> read.balance is None
            &&& read.mints == info.mints.order().to_set()
            &&& info.name is Some ==> read.name == Some(info.name->0@)
            &&& info.name is None ==> read.name is None
            &&& info.balance is Some ==> read.unit == info.unit
            &&& info.balance is None ==> read.unit is None
            &&& info.description is Some ==> read.description == Some(info.description->0@)
            &&& info.description is None ==> read.description is None
            &&& read.relays == info.relays.order().to_set()
            &&& read.p2pk_priv_key is None
            &&& read.counters == info.counters@
        }),
{
}

/// An event that was written names the holder of the wallet's secret key as its author, has the id
/// that its contents give, and is signed by the author.
pub open spec fn is_signed_by_wallet(keys: WalletKeys, event: Event) -> bool {
    &&& keys.secret_key is Some
    &&& event.pubkey@ == public_key_hex(keys.secret_key->0@)
    &&& event.id.text@ == event_id_hex(
        event.pubkey@,
        event.created_at,
        event.kind,
        tag_views(event.tags@),
        event.content@,
    )
    &&& signature_holds(event.pubkey@, event.id.text@, event.sig@)
}

/// The text that links an event to a wallet.
pub open spec fn link_text(wallet_id: Seq<char>, public_key: Seq<char>) -> Seq<char> {
    "37375:"@ + public_key + ":"@ + wallet_id
}

/// The link to a wallet is the number of its kind, its public key and its id, with colons between
/// them.
pub proof fn law_link_is_kind_key_and_id(wallet_id: Seq<char>, public_key: Seq<char>)
    ensures
        wallet_link(wallet_id, public_key) == link_text(wallet_id, public_key),
{
    reveal_strlit("37375:");
    reveal_strlit(":");
    assert(decimal(3) == seq!['3']);
    assert(decimal(37) =~= seq!['3', '7']);
    assert(decimal(373) =~= seq!['3', '7', '3']);
    assert(decimal(3737) =~= seq!['3', '7', '3', '7']);
    assert(decimal(37375) =~= seq!['3', '7', '3', '7', '5']);
    assert(decimal(37375) + ":"@ =~= "37375:"@);
    assert(wallet_link(wallet_id, public_key) =~= link_text(wallet_id, public_key));
}

/// Every written event is signed by the wallet.
pub proof fn law_written_events_are_signed(
    keys: WalletKeys,
    wallet_id: Seq<char>,
    info: WalletInfo,
    mint_quote: MintQuoteView,
    melt_quote: MeltQuoteView,
    json: Seq<char>,
    event: Event,
)
    ensures
        info_written(keys, info, Ok(event)) ==> is_signed_by_wallet(keys, event),
        mint_quote_written(keys, wallet_id, mint_quote, Ok(event)) ==> is_signed_by_wallet(
            keys,
            event,
        ),
        melt_quote_written(keys, wallet_id, melt_quote, Ok(event)) ==> is_signed_by_wallet(
            keys,
            event,
        ),
        transaction_written(keys, wallet_id, json, Ok(event)) ==> is_signed_by_wallet(keys, event),
{
}

/// The event of a mint quote is linked to the wallet and tells when the quote expires; sealed in
/// its content stand the quote's id, mint, amount, unit and request.
pub proof fn law_written_mint_quote_tells_its_parts(
    keys: WalletKeys,
    wallet_id: Seq<char>,
    quote: MintQuoteView,
    event: Event,
)
    requires
        mint_quote_written(keys, wallet_id, quote, Ok(event)),
    ensures
        event.kind == 7376,
        tag_views(event.tags@) == seq![
            seq!["a"@, link_text(wallet_id, keys.public_key@)],
            seq!["expiration"@, decimal(quote.expiry as nat)],
        ],
        opened_tags(keys, event.content@) == Ok::<Seq<TagView>, Fault>(
            seq![
                seq!["quote_id"@, quote.id],
                seq!["mint"@, quote.mint_url],
                seq!["amount"@, decimal(quote.amount as nat)],
                seq!["unit"@, quote.unit.name()],
                seq!["request"@, quote.request],
            ],
        ),
{
    law_link_is_kind_key_and_id(wallet_id, keys.public_key@);
}

/// The event of a melt quote is linked to the wallet and tells when the quote expires; sealed in
/// its content stand the quote's id, amount, unit and request.
pub proof fn law_written_melt_quote_tells_its_parts(
    keys: WalletKeys,
    wallet_id: Seq<char>,
    quote: MeltQuoteView,
    event: Event,
)
    requires
        melt_quote_written(keys, wallet_id, quote, Ok(event)),
    ensures
        event.kind == 7376,
        tag_views(event.tags@) == seq![
            seq!["a"@, link_text(wallet_id, keys.public_key@)],
            seq!["expiration"@, decimal(quote.expiry as nat)],
        ],
        opened_tags(keys, event.content@) == Ok::<Seq<TagView>, Fault>(
            seq![
                seq!["quote_id"@, quote.id],
                seq!["amount"@, decimal(quote.amount as nat)],
                seq!["unit"@, quote.unit.name()],
                seq!["request"@, quote.request],
            ],
        ),
{
    law_link_is_kind_key_and_id(wallet_id, keys.public_key@);
}

/// The event of a transaction is linked to the wallet, and its text can be read from it.
pub proof fn law_written_transaction_is_read_back(
    keys: WalletKeys,
    wallet_id: Seq<char>,
    json: Seq<char>,
    event: Event,
)
    requires
        transaction_written(keys, wallet_id, json, Ok(event)),
    ensures
        event.kind == 7375,
        tag_views(event.tags@) == seq![seq!["a"@, link_text(wallet_id, keys.public_key@)]],
        opened(keys, event.content@) == Ok::<Seq<char>, Fault>(json),
{
    law_link_is_kind_key_and_id(wallet_id, keys.public_key@);
}

/// A wallet that can write one message can write every message of one to 65408 bytes, and no other.
pub proof fn law_only_the_length_of_a_message_matters(
    keys: WalletKeys,
    text: Seq<char>,
    other: Seq<char>,
)
    requires
        sealing_fault(keys, text) is None,
    ensures
        sealing_fault(keys, other) is None <==> 1 <= encode_utf8(other).len() <= 65408,
        sealing_fault(keys, other) is Some ==> sealing_fault(keys, other) == Some(Fault::Encrypt),
{
}

/// A wallet can write a message exactly when it has a secret key that agrees with its public key
/// and the message is of one to 65408 bytes.
pub proof fn law_what_it_takes_to_write(keys: WalletKeys, text: Seq<char>)
    ensures
        sealing_fault(keys, text) is None <==> {
            &&& keys.secret_key is Some
            &&& secret_key_hex(keys.secret_key->0@) is Some
            &&& nip44_keys_agree(keys.secret_key->0@, keys.public_key@)
            &&& 1 <= encode_utf8(text).len() <= 65408
        },
{
}

/// Without a secret key nothing can be read or written, and the missing key is what is reported.
pub proof fn law_nothing_without_a_secret_key(keys: WalletKeys, payload: Seq<char>, text: Seq<char>)
    requires
        keys.secret_key is None || secret_key_hex(keys.secret_key->0@) is None,
    ensures
        opened(keys, payload) == Err::<Seq<char>, Fault>(Fault::Key),
        opened_tags(keys, payload) == Err::<Seq<TagView>, Fault>(Fault::Key),
        sealing_fault(keys, text) == Some(Fault::Key),
{
}

/// With a secret key, a payload is read as the message that it hides, and where that is the JSON
/// text of tags, as those.
pub proof fn law_payload_is_read_as_what_it_hides(keys: WalletKeys, payload: Seq<char>)
    requires
        keys.secret_key is Some && secret_key_hex(keys.secret_key->0@) is Some,
    ensures
        match nip44_message(keys.secret_key->0@, keys.public_key@, payload) {
            None => {
                &&& opened(keys, payload) == Err::<Seq<char>, Fault>(Fault::Encrypt)
                &&& opened_tags(keys, payload) == Err::<Seq<TagView>, Fault>(Fault::Encrypt)
            },
            Some(text) => {
                &&& opened(keys, payload) == Ok::<Seq<char>, Fault>(text)
                &&& json_tags(text) is Some ==> opened_tags(keys, payload) == Ok::<
                    Seq<TagView>,
                    Fault,
                >(json_tags(text)->0)
                &&& json_tags(text) is None ==> opened_tags(keys, payload) == Err::<
                    Seq<TagView>,
                    Fault,
                >(Fault::Json)
            },
        },
{
}

/// Adding a mint puts it among the mints, taking it out removes it, and neither touches another
/// mint.
pub proof fn law_mint_is_added_and_taken_out(
    info: WalletInfoView,
    mint: Seq<char>,
    other: Seq<char>,
)
    ensures
        info.with_mint(mint).mints.contains(mint),
        !info.without_mint(mint).mints.contains(mint),
        other != mint ==> info.with_mint(mint).mints.contains(other) == info.mints.contains(other),
        other != mint ==> info.without_mint(mint).mints.contains(other) == info.mints.contains(
            other,
        ),
        info.without_mint(mint).with_mint(mint) == info.with_mint(mint),
        info.with_mint(mint).without_mint(mint) == info.without_mint(mint),
{
    assert(info.without_mint(mint).with_mint(mint).mints =~= info.with_mint(mint).mints);
    assert(info.with_mint(mint).without_mint(mint).mints =~= info.without_mint(mint).mints);
}

/// Whether two infos differ at most in their mints and counters.
pub open spec fn same_but_mints_and_counters(a: WalletInfoView, b: WalletInfoView) -> bool {
    &&& a.id == b.id
    &&& a.balance == b.balance
    &&& a.name == b.name
    &&& a.unit == b.unit
    &&& a.description == b.description
    &&& a.relays == b.relays
    &&& a.p2pk_priv_key == b.p2pk_priv_key
}

/// Changing the mints leaves all else as it was, and so does raising a counter.
pub proof fn law_changes_touch_nothing_else(
    info: WalletInfoView,
    mint: Seq<char>,
    id: u64,
    count: u32,
)
    ensures
        same_but_mints_and_counters(info.with_mint(mint), info),
        info.with_mint(mint).counters == info.counters,
        same_but_mints_and_counters(info.without_mint(mint), info),
        info.without_mint(mint).counters == info.counters,
        same_but_mints_and_counters(info.raised(id, count), info),
        info.raised(id, count).mints == info.mints,
{
}

/// Raising the counter of a keyset adds to it what is given, or begins with that where it had none.
/// The counters of other keysets stay as they were.
pub proof fn law_counter_is_raised_by_the_count(
    info: WalletInfoView,
    id: u64,
    count: u32,
    other: u64,
)
    requires
        info.counters.contains_key(id) ==> info.counters[id] + count <= u32::MAX,
        other != id,
    ensures
        info.raised(id, count).counters.contains_key(id),
        info.counters.contains_key(id) ==> info.raised(id, count).counters[id]
            == info.counters[id] + count,
        !info.counters.contains_key(id) ==> info.raised(id, count).counters[id] == count,
        info.raised(id, count).counters.contains_key(other) == info.counters.contains_key(other),
        info.counters.contains_key(other) ==> info.raised(id, count).counters[other]
            == info.counters[other],
{
}

} // verus!
