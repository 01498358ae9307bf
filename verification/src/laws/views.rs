//! How contracts speak of values: every part of a value, and every item of a row.

use vstd::prelude::*;

use crate::database::{info_views, Store};
use crate::error::{outcome, Error, Fault};
use crate::keysets::Keysets;
use crate::melt_quote::{melt_quote_views, MeltQuote};
use crate::mint_quote::{mint_quote_views, MintQuote};
use crate::nuts::{Keys, ProofInfo, State};
use crate::proofs::{groups, EventProofs, Purse};
use crate::sealing::WalletKeys;
use crate::tag::{tag_views, texts, Tag};
use crate::wallet_info::{WalletInfo, WalletInfoView};

verus! {

/// Contracts speak of every part of a quote, of a wallet's info and of a proof.
pub proof fn law_contracts_speak_of_every_part(
    mint_quote: MintQuote,
    melt_quote: MeltQuote,
    info: WalletInfo,
    proof_info: ProofInfo,
    group: EventProofs,
)
    ensures
        mint_quote@.id == mint_quote.id@ && mint_quote@.mint_url == mint_quote.mint_url.text@
            && mint_quote@.amount == mint_quote.amount.value && mint_quote@.unit == mint_quote.unit
            && mint_quote@.request == mint_quote.request@ && mint_quote@.state == mint_quote.state
            && mint_quote@.expiry == mint_quote.expiry,
        melt_quote@.id == melt_quote.id@ && melt_quote@.amount == melt_quote.amount.value
            && melt_quote@.unit == melt_quote.unit && melt_quote@.request == melt_quote.request@
            && melt_quote@.fee_reserve == melt_quote.fee_reserve.value && melt_quote@.state
            == melt_quote.state && melt_quote@.expiry == melt_quote.expiry,
        melt_quote@.payment_preimage is Some <==> melt_quote.payment_preimage is Some,
        melt_quote.payment_preimage is Some ==> melt_quote@.payment_preimage->0
            == melt_quote.payment_preimage->0@,
        info@.id == info.id@ && info@.unit == info.unit && info@.mints == info.mints@
            && info@.relays == info.relays@ && info@.counters == info.counters@,
        info@.balance is Some <==> info.balance is Some,
        info.balance is Some ==> info@.balance->0 == info.balance->0.value,
        info@.name is Some <==> info.name is Some,
        info.name is Some ==> info@.name->0 == info.name->0@,
        info@.description is Some <==> info.description is Some,
        info.description is Some ==> info@.description->0 == info.description->0@,
        info@.p2pk_priv_key is Some <==> info.p2pk_priv_key is Some,
        info.p2pk_priv_key is Some ==> info@.p2pk_priv_key->0 == info.p2pk_priv_key->0.text@,
        proof_info@.cash == proof_info.cash && proof_info@.y == proof_info.y.text@
            && proof_info@.mint_url == proof_info.mint_url.text@ && proof_info@.state
            == proof_info.state && proof_info@.unit == proof_info.unit,
        proof_info@.spending_condition is Some <==> proof_info.spending_condition is Some,
        proof_info.spending_condition is Some ==> proof_info@.spending_condition->0
            == proof_info.spending_condition->0.text@,
        group@.0 == group.mint_url.text@ && group@.1 == group.proofs@,
{
}

/// Contracts tell errors apart, with the tag that they name or their cause.
pub proof fn law_contracts_tell_errors_apart(e: Error)
    ensures
        match e {
            Error::EmptyTag(name) => e@ == Fault::EmptyTag(name@),
            Error::Encrypt(_) => e@ == Fault::Encrypt,
            Error::EventBuilder(_) => e@ == Fault::EventBuilder,
            Error::Json(_) => e@ == Fault::Json,
            Error::Key(_) => e@ == Fault::Key,
            Error::MissingTag(name) => e@ == Fault::MissingTag(name@),
            Error::NotFound => e@ == Fault::NotFound,
            Error::Nut00(cause) => e@ == Fault::Nut00(cause),
            Error::Nut02(cause) => e@ == Fault::Nut02(cause),
            Error::Nut04(cause) => e@ == Fault::Nut04(cause),
            Error::ParseInt(cause) => e@ == Fault::ParseInt(cause),
            Error::Tag => e@ == Fault::Tag,
            Error::TagNotFound(name) => e@ == Fault::TagNotFound(name@),
        },
{
}

/// Contracts speak of rows item by item, in order, and leave none out.
pub proof fn law_contracts_speak_of_every_item(
    tags: Seq<Tag>,
    strings: Seq<String>,
    mint_quotes: Seq<MintQuote>,
    melt_quotes: Seq<MeltQuote>,
    infos: Seq<ProofInfo>,
    side: Seq<EventProofs>,
    i: int,
)
    ensures
        tag_views(tags).len() == tags.len(),
        0 <= i < tags.len() ==> tag_views(tags)[i] == tags[i]@,
        texts(strings).len() == strings.len(),
        0 <= i < strings.len() ==> texts(strings)[i] == strings[i]@,
        mint_quote_views(mint_quotes).len() == mint_quotes.len(),
        0 <= i < mint_quotes.len() ==> mint_quote_views(mint_quotes)[i] == mint_quotes[i]@,
        melt_quote_views(melt_quotes).len() == melt_quotes.len(),
        0 <= i < melt_quotes.len() ==> melt_quote_views(melt_quotes)[i] == melt_quotes[i]@,
        info_views(infos).len() == infos.len(),
        0 <= i < infos.len() ==> info_views(infos)[i] == infos[i]@,
        groups(side).len() == side.len(),
        0 <= i < side.len() ==> groups(side)[i] == side[i]@,
{
}

/// Contracts speak of a result as the value that it holds, or as what went wrong.
pub proof fn law_contracts_speak_of_results(text: String, e: Error)
    ensures
        outcome(Ok::<String, Error>(text)) == Ok::<Seq<char>, Fault>(text@),
        outcome(Err::<String, Error>(e)) == Err::<Seq<char>, Fault>(e@),
{
}

/// A new database knows its id and keys, and nothing of mints, keysets or proofs. Nor does a new
/// wallet's info say more than its id, and before any transaction there are no proofs.
pub proof fn law_nothing_is_known_at_first(id: Seq<char>, keys: WalletKeys, local: bool)
    ensures
        Store::new(id, keys, local).id == id,
        Store::new(id, keys, local).keys == keys,
        Store::new(id, keys, local).local == local,
        Store::new(id, keys, local).keysets.by_mint == Map::<Seq<char>, Seq<u64>>::empty(),
        Store::new(id, keys, local).keysets.infos.dom() == Set::<u64>::empty(),
        Store::new(id, keys, local).mint_keys == Map::<u64, Keys>::empty(),
        Store::new(id, keys, local).proof_states == Map::<Seq<char>, State>::empty(),
        Keysets::empty() == Store::new(id, keys, local).keysets,
        Purse::empty().mints.len() == 0,
        Purse::empty().proofs.dom() == Set::<Seq<char>>::empty(),
        ({
            let info = WalletInfoView::named(id);
            &&& info.id == id
            &&& info.balance is None
            &&& info.mints == Set::<Seq<char>>::empty()
            &&& info.name is None
            &&& info.unit is None
            &&& info.description is None
            &&& info.relays == Set::<Seq<char>>::empty()
            &&& info.p2pk_priv_key is None
            &&& info.counters == Map::<u64, u32>::empty()
        }),
{
    assert(Store::new(id, keys, local).keysets.infos.dom() =~= Set::<u64>::empty());
    assert(Purse::empty().proofs.dom() =~= Set::<Seq<char>>::empty());
}

} // verus!
