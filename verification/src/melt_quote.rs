//! Quotes for melting ecash, and the events that keep them.

use vstd::prelude::*;

use crate::error::{outcome, Error, Fault};
use crate::event::{Event, EventId, QUOTE_KIND};
use crate::mint_quote::{mint_quote_content, mint_quote_in, MintQuoteFields, MintQuoteView};
use crate::nuts::{Amount, CurrencyUnit, MeltQuoteState};
use crate::quotes::{
    all_read, amount_view, deletions, first_wanted, lemma_all_read_fault, lemma_deletions_fault,
    lemma_quote_tags, number_content, quote_tags, read_number, read_text, read_unit,
    tags_of_quote, text_view, unit_content,
};
use crate::sealing::{
    authored, open_tags, opened_tags, seal, sealing_fault, WalletKeys,
};
use crate::tag::{
    fold_tags, lemma_fold_concat, lemma_fold_fault, lemma_fold_push, lemma_tag_names,
    required_content, tag_views, tags_json, tags_to_json, Tag, TagView, AMOUNT_TAG,
    EXPIRATION_TAG, FEE_RESERVE, MINT_TAG, PREIMAGE_TAG, QUOTE_ID_TAG, REQUEST_TAG, UNIT_TAG,
};
use crate::text::{decimal, decimal_text, law_decimal_round_trip, same_text};

verus! {

/// Melt quote
#[derive(Clone, Debug)]
pub struct MeltQuote {
    /// Quote id
    pub id: String,
    /// Amount
    pub amount: Amount,
    /// Unit
    pub unit: CurrencyUnit,
    /// Request to pay
    pub request: String,
    /// Fee that is set aside
    pub fee_reserve: Amount,
    /// State
    pub state: MeltQuoteState,
    /// Time at which it expires, in seconds of UNIX time
    pub expiry: u64,
    /// Preimage of the payment
    pub payment_preimage: Option<String>,
}

/// A melt quote as contracts speak of it.
pub struct MeltQuoteView {
    pub id: Seq<char>,
    pub amount: u64,
    pub unit: CurrencyUnit,
    pub request: Seq<char>,
    pub fee_reserve: u64,
    pub state: MeltQuoteState,
    pub expiry: u64,
    pub payment_preimage: Option<Seq<char>>,
}

impl View for MeltQuote {
    type V = MeltQuoteView;

    open spec fn view(&self) -> MeltQuoteView {
        MeltQuoteView {
            id: self.id@,
            amount: self.amount.value,
            unit: self.unit,
            request: self.request@,
            fee_reserve: self.fee_reserve.value,
            state: self.state,
            expiry: self.expiry,
            payment_preimage: text_view(self.payment_preimage),
        }
    }
}

/// What tags have said of a melt quote.
pub struct MeltQuoteFields {
    pub id: Option<Seq<char>>,
    pub amount: Option<u64>,
    pub unit: Option<CurrencyUnit>,
    pub request: Option<Seq<char>>,
    pub fee_reserve: Option<u64>,
    pub preimage: Option<Seq<char>>,
    pub expiry: Option<u64>,
}

impl MeltQuoteFields {
    pub open spec fn none() -> MeltQuoteFields {
        MeltQuoteFields {
            id: None,
            amount: None,
            unit: None,
            request: None,
            fee_reserve: None,
            preimage: None,
            expiry: None,
        }
    }

    /// Takes in what a tag says. Tags of other names say nothing.
    pub open spec fn with_tag(self, tag: TagView) -> Result<MeltQuoteFields, Fault> {
        let kind = tag[0];
        if kind == QUOTE_ID_TAG@ {
            match required_content(tag) {
                Ok(text) => Ok(MeltQuoteFields { id: Some(text), ..self }),
                Err(fault) => Err(fault),
            }
        } else if kind == AMOUNT_TAG@ {
            match number_content(tag) {
                Ok(n) => Ok(MeltQuoteFields { amount: Some(n), ..self }),
                Err(fault) => Err(fault),
            }
        } else if kind == UNIT_TAG@ {
            match unit_content(tag) {
                Ok(unit) => Ok(MeltQuoteFields { unit: Some(unit), ..self }),
                Err(fault) => Err(fault),
            }
        } else if kind == REQUEST_TAG@ {
            match required_content(tag) {
                Ok(text) => Ok(MeltQuoteFields { request: Some(text), ..self }),
                Err(fault) => Err(fault),
            }
        } else if kind == FEE_RESERVE@ {
            match number_content(tag) {
                Ok(n) => Ok(MeltQuoteFields { fee_reserve: Some(n), ..self }),
                Err(fault) => Err(fault),
            }
        } else if kind == PREIMAGE_TAG@ {
            match required_content(tag) {
                Ok(text) => Ok(MeltQuoteFields { preimage: Some(text), ..self }),
                Err(fault) => Err(fault),
            }
        } else if kind == EXPIRATION_TAG@ {
            match number_content(tag) {
                Ok(n) => Ok(MeltQuoteFields { expiry: Some(n), ..self }),
                Err(fault) => Err(fault),
            }
        } else {
            Ok(self)
        }
    }

    pub open spec fn step() -> spec_fn(MeltQuoteFields, TagView) -> Result<MeltQuoteFields, Fault> {
        |fields: MeltQuoteFields, tag: TagView| fields.with_tag(tag)
    }

    /// The quote, where tags have said all of it. It is taken to be pending.
    pub open spec fn quote(self) -> Result<MeltQuoteView, Fault> {
        if self.id is None {
            Err(Fault::MissingTag(QUOTE_ID_TAG@))
        } else if self.amount is None {
            Err(Fault::MissingTag(AMOUNT_TAG@))
        } else if self.unit is None {
            Err(Fault::MissingTag(UNIT_TAG@))
        } else if self.request is None {
            Err(Fault::MissingTag(REQUEST_TAG@))
        } else if self.fee_reserve is None {
            Err(Fault::MissingTag(FEE_RESERVE@))
        } else if self.expiry is None {
            Err(Fault::MissingTag(EXPIRATION_TAG@))
        } else {
            Ok(
                MeltQuoteView {
                    id: self.id->0,
                    amount: self.amount->0,
                    unit: self.unit->0,
                    request: self.request->0,
                    fee_reserve: self.fee_reserve->0,
                    state: MeltQuoteState::Pending,
                    expiry: self.expiry->0,
                    payment_preimage: self.preimage,
                },
            )
        }
    }
}

/// The melt quote that tags describe.
pub open spec fn melt_quote_in(tags: Seq<TagView>) -> Result<MeltQuoteView, Fault> {
    match fold_tags(MeltQuoteFields::none(), tags, MeltQuoteFields::step()) {
        Ok(fields) => fields.quote(),
        Err(fault) => Err(fault),
    }
}

/// The melt quote that an event with these tags and this content keeps.
pub open spec fn melt_quote_kept(
    keys: WalletKeys,
    tags: Seq<TagView>,
    payload: Seq<char>,
) -> Result<MeltQuoteView, Fault> {
    match opened_tags(keys, payload) {
        Ok(content) => melt_quote_in(tags + content),
        Err(fault) => Err(fault),
    }
}

/// What tags have said of a melt quote so far.
struct MeltQuoteDraft {
    id: Option<String>,
    amount: Option<Amount>,
    unit: Option<CurrencyUnit>,
    request: Option<String>,
    fee_reserve: Option<Amount>,
    preimage: Option<String>,
    expiry: Option<u64>,
}

impl View for MeltQuoteDraft {
    type V = MeltQuoteFields;

    closed spec fn view(&self) -> MeltQuoteFields {
        MeltQuoteFields {
            id: text_view(self.id),
            amount: amount_view(self.amount),
            unit: self.unit,
            request: text_view(self.request),
            fee_reserve: amount_view(self.fee_reserve),
            preimage: text_view(self.preimage),
            expiry: self.expiry,
        }
    }
}

impl MeltQuoteDraft {
    fn new() -> (r: Self)
        ensures
            r@ == MeltQuoteFields::none(),
    {
        MeltQuoteDraft {
            id: None,
            amount: None,
            unit: None,
            request: None,
            fee_reserve: None,
            preimage: None,
            expiry: None,
        }
    }

    /// Takes in what a tag says.
    fn apply_tag(&mut self, tag: &Tag) -> (r: Result<(), Error>)
        ensures
            match r {
                Ok(_) => old(self)@.with_tag(tag@) == Ok::<MeltQuoteFields, Fault>(final(self)@),
                Err(e) => old(self)@.with_tag(tag@) == Err::<MeltQuoteFields, Fault>(e@),
            },
    {
        let kind = tag.kind();
        if same_text(kind, QUOTE_ID_TAG) {
            match read_text(tag) {
                Ok(text) => {
                    self.id = Some(text);
                },
                Err(e) => {
                    return Err(e);
                },
            }
        } else if same_text(kind, AMOUNT_TAG) {
            match read_number(tag) {
                Ok(value) => {
                    self.amount = Some(Amount { value });
                },
                Err(e) => {
                    return Err(e);
                },
            }
        } else if same_text(kind, UNIT_TAG) {
            match read_unit(tag) {
                Ok(unit) => {
                    self.unit = Some(unit);
                },
                Err(e) => {
                    return Err(e);
                },
            }
        } else if same_text(kind, REQUEST_TAG) {
            match read_text(tag) {
                Ok(text) => {
                    self.request = Some(text);
                },
                Err(e) => {
                    return Err(e);
                },
            }
        } else if same_text(kind, FEE_RESERVE) {
            match read_number(tag) {
                Ok(value) => {
                    self.fee_reserve = Some(Amount { value });
                },
                Err(e) => {
                    return Err(e);
                },
            }
        } else if same_text(kind, PREIMAGE_TAG) {
            match read_text(tag) {
                Ok(text) => {
                    self.preimage = Some(text);
                },
                Err(e) => {
                    return Err(e);
                },
            }
        } else if same_text(kind, EXPIRATION_TAG) {
            match read_number(tag) {
                Ok(n) => {
                    self.expiry = Some(n);
                },
                Err(e) => {
                    return Err(e);
                },
            }
        }
        Ok(())
    }

    /// Takes in what tags say, up to the first that cannot be read.
    fn apply_tags(&mut self, tags: &Vec<Tag>) -> (r: Result<(), Error>)
        ensures
            match r {
                Ok(_) => fold_tags(old(self)@, tag_views(tags@), MeltQuoteFields::step()) == Ok::<
                    MeltQuoteFields,
                    Fault,
                >(final(self)@),
                Err(e) => fold_tags(old(self)@, tag_views(tags@), MeltQuoteFields::step()) == Err::<
                    MeltQuoteFields,
                    Fault,
                >(e@),
            },
    {
        let ghost views = tag_views(tags@);
        let ghost before = self@;
        let ghost step = MeltQuoteFields::step();
        for i in 0..tags.len()
            invariant
                views == tag_views(tags@),
                before == old(self)@,
                step == MeltQuoteFields::step(),
                fold_tags(before, views.take(i as int), step) == Ok::<MeltQuoteFields, Fault>(
                    self@,
                ),
        {
            assert(views.take(i + 1).drop_last() =~= views.take(i as int));
            assert(views.take(i + 1).last() == tags@[i as int]@);
            match self.apply_tag(&tags[i]) {
                Ok(_) => {},
                Err(e) => {
                    proof {
                        lemma_fold_fault(before, views, step, i + 1);
                    }
                    return Err(e);
                },
            }
        }
        assert(views.take(views.len() as int) =~= views);
        Ok(())
    }

    /// The quote, where tags have said all of it.
    fn finish(self) -> (r: Result<MeltQuote, Error>)
        ensures
            outcome(r) == self@.quote(),
    {
        let id = match self.id {
            Some(id) => id,
            None => {
                return Err(Error::MissingTag(QUOTE_ID_TAG.to_owned()));
            },
        };
        let amount = match self.amount {
            Some(amount) => amount,
            None => {
                return Err(Error::MissingTag(AMOUNT_TAG.to_owned()));
            },
        };
        let unit = match self.unit {
            Some(unit) => unit,
            None => {
                return Err(Error::MissingTag(UNIT_TAG.to_owned()));
            },
        };
        let request = match self.request {
            Some(request) => request,
            None => {
                return Err(Error::MissingTag(REQUEST_TAG.to_owned()));
            },
        };
        let fee_reserve = match self.fee_reserve {
            Some(fee_reserve) => fee_reserve,
            None => {
                return Err(Error::MissingTag(FEE_RESERVE.to_owned()));
            },
        };
        let expiry: u64 = match self.expiry {
            Some(expiry) => expiry,
            None => {
                return Err(Error::MissingTag(EXPIRATION_TAG.to_owned()));
            },
        };
        Ok(
            MeltQuote {
                id,
                amount,
                unit,
                request,
                fee_reserve,
                state: MeltQuoteState::Pending,
                expiry,
                payment_preimage: self.preimage,
            },
        )
    }
}

/// The melt quote that the tags of an event and those of its content describe.
pub fn melt_quote_from_tags(tags: &Vec<Tag>, content: &Vec<Tag>) -> (r: Result<MeltQuote, Error>)
    ensures
        outcome(r) == melt_quote_in(tag_views(tags@) + tag_views(content@)),
{
    let mut draft = MeltQuoteDraft::new();
    proof {
        lemma_fold_concat(draft@, tag_views(tags@), tag_views(content@), MeltQuoteFields::step());
    }
    match draft.apply_tags(tags) {
        Ok(_) => {},
        Err(e) => {
            return Err(e);
        },
    }
    match draft.apply_tags(content) {
        Ok(_) => draft.finish(),
        Err(e) => Err(e),
    }
}

/// Reads a melt quote from the event that keeps it.
pub fn melt_quote_from_event(event: &Event, keys: &WalletKeys) -> (r: Result<MeltQuote, Error>)
    ensures
        outcome(r) == melt_quote_kept(*keys, tag_views(event.tags@), event.content@),
{
    match open_tags(event.content.as_str(), keys) {
        Ok(content) => melt_quote_from_tags(&event.tags, &content),
        Err(e) => Err(e),
    }
}

/// The tags that the content of a melt quote's event consists of.
pub open spec fn melt_quote_content(quote: MeltQuoteView) -> Seq<TagView> {
    seq![
        seq![QUOTE_ID_TAG@, quote.id],
        seq![AMOUNT_TAG@, decimal(quote.amount as nat)],
        seq![UNIT_TAG@, quote.unit.name()],
        seq![REQUEST_TAG@, quote.request],
    ]
}

/// Reading the tags that are written for a melt quote gives back its id, amount, unit, request
/// and expiry. Its fee reserve, state and preimage are not written. So the quote as written is
/// refused for want of a fee reserve; with a tag for the fee reserve and, where there is a
/// preimage, one for that, it is given back whole if it is pending.
pub proof fn law_melt_quote_written(
    quote: MeltQuoteView,
    wallet_id: Seq<char>,
    public_key: Seq<char>,
)
    ensures
        melt_quote_in(
            quote_tags(wallet_id, public_key, quote.expiry) + melt_quote_content(quote),
        ) == Err::<MeltQuoteView, Fault>(Fault::MissingTag(FEE_RESERVE@)),
        quote.state is Pending && quote.payment_preimage is None ==> melt_quote_in(
            quote_tags(wallet_id, public_key, quote.expiry) + melt_quote_content(quote).push(
                seq![FEE_RESERVE@, decimal(quote.fee_reserve as nat)],
            ),
        ) == Ok::<MeltQuoteView, Fault>(quote),
        quote.state is Pending && quote.payment_preimage is Some ==> melt_quote_in(
            quote_tags(wallet_id, public_key, quote.expiry) + melt_quote_content(quote).push(
                seq![FEE_RESERVE@, decimal(quote.fee_reserve as nat)],
            ).push(seq![PREIMAGE_TAG@, quote.payment_preimage->0]),
        ) == Ok::<MeltQuoteView, Fault>(quote),
{
    lemma_tag_names();
    law_decimal_round_trip(quote.expiry as nat, u64::MAX as nat);
    law_decimal_round_trip(quote.amount as nat, u64::MAX as nat);
    law_decimal_round_trip(quote.fee_reserve as nat, u64::MAX as nat);
    quote.unit.law_name_round_trip();
    let step = MeltQuoteFields::step();
    let none = MeltQuoteFields::none();
    let tags = quote_tags(wallet_id, public_key, quote.expiry);
    let content = melt_quote_content(quote);
    let t0 = Seq::<TagView>::empty();
    let t1 = t0.push(tags[0]);
    let t2 = t1.push(tags[1]);
    let t3 = t2.push(content[0]);
    let t4 = t3.push(content[1]);
    let t5 = t4.push(content[2]);
    let t6 = t5.push(content[3]);
    lemma_fold_push(none, t0, tags[0], step);
    lemma_fold_push(none, t1, tags[1], step);
    lemma_fold_push(none, t2, content[0], step);
    lemma_fold_push(none, t3, content[1], step);
    lemma_fold_push(none, t4, content[2], step);
    lemma_fold_push(none, t5, content[3], step);
    assert(t6 =~= tags + content);
    let fee: TagView = seq![FEE_RESERVE@, decimal(quote.fee_reserve as nat)];
    lemma_fold_push(none, t6, fee, step);
    assert(t6.push(fee) =~= tags + content.push(fee));
    if let Some(text) = quote.payment_preimage {
        let preimage: TagView = seq![PREIMAGE_TAG@, text];
        lemma_fold_push(none, t6.push(fee), preimage, step);
        assert(t6.push(fee).push(preimage) =~= tags + content.push(fee).push(preimage));
    }
}

/// Quotes of both sorts are kept in events of one kind, and neither sort can be read as the
/// other: a written mint quote lacks the fee reserve of a melt quote, and a written melt quote
/// lacks the mint of a mint quote.
pub proof fn law_quotes_told_apart(
    mint_quote: MintQuoteView,
    melt_quote: MeltQuoteView,
    wallet_id: Seq<char>,
    public_key: Seq<char>,
)
    ensures
        melt_quote_in(
            quote_tags(wallet_id, public_key, mint_quote.expiry) + mint_quote_content(mint_quote),
        ) == Err::<MeltQuoteView, Fault>(Fault::MissingTag(FEE_RESERVE@)),
        mint_quote_in(
            quote_tags(wallet_id, public_key, melt_quote.expiry) + melt_quote_content(melt_quote),
        ) == Err::<MintQuoteView, Fault>(Fault::MissingTag(MINT_TAG@)),
{
    lemma_tag_names();
    {
        let quote = mint_quote;
        law_decimal_round_trip(quote.expiry as nat, u64::MAX as nat);
        law_decimal_round_trip(quote.amount as nat, u64::MAX as nat);
        quote.unit.law_name_round_trip();
        let step = MeltQuoteFields::step();
        let none = MeltQuoteFields::none();
        let tags = quote_tags(wallet_id, public_key, quote.expiry);
        let content = mint_quote_content(quote);
        let t0 = Seq::<TagView>::empty();
        let t1 = t0.push(tags[0]);
        let t2 = t1.push(tags[1]);
        let t3 = t2.push(content[0]);
        let t4 = t3.push(content[1]);
        let t5 = t4.push(content[2]);
        let t6 = t5.push(content[3]);
        lemma_fold_push(none, t0, tags[0], step);
        lemma_fold_push(none, t1, tags[1], step);
        lemma_fold_push(none, t2, content[0], step);
        lemma_fold_push(none, t3, content[1], step);
        lemma_fold_push(none, t4, content[2], step);
        lemma_fold_push(none, t5, content[3], step);
        lemma_fold_push(none, t6, content[4], step);
        assert(t6.push(content[4]) =~= tags + content);
    }
    {
        let quote = melt_quote;
        law_decimal_round_trip(quote.expiry as nat, u64::MAX as nat);
        law_decimal_round_trip(quote.amount as nat, u64::MAX as nat);
        quote.unit.law_name_round_trip();
        let step = MintQuoteFields::step();
        let none = MintQuoteFields::none();
        let tags = quote_tags(wallet_id, public_key, quote.expiry);
        let content = melt_quote_content(quote);
        let t0 = Seq::<TagView>::empty();
        let t1 = t0.push(tags[0]);
        let t2 = t1.push(tags[1]);
        let t3 = t2.push(content[0]);
        let t4 = t3.push(content[1]);
        let t5 = t4.push(content[2]);
        lemma_fold_push(none, t0, tags[0], step);
        lemma_fold_push(none, t1, tags[1], step);
        lemma_fold_push(none, t2, content[0], step);
        lemma_fold_push(none, t3, content[1], step);
        lemma_fold_push(none, t4, content[2], step);
        lemma_fold_push(none, t5, content[3], step);
        assert(t5.push(content[3]) =~= tags + content);
    }
}

/// Whether a result is what writing a melt quote for a wallet gives: an event that keeps it, but
/// cannot be read as a melt quote again, or what stands in the way of encrypting it.
pub open spec fn melt_quote_written(
    keys: WalletKeys,
    wallet_id: Seq<char>,
    quote: MeltQuoteView,
    r: Result<Event, Error>,
) -> bool {
    match r {
        Ok(event) => {
            &&& sealing_fault(keys, tags_json(melt_quote_content(quote))) is None
            &&& event.kind == QUOTE_KIND
            &&& tag_views(event.tags@) == quote_tags(wallet_id, keys.public_key@, quote.expiry)
            &&& opened_tags(keys, event.content@) == Ok::<Seq<TagView>, Fault>(
                melt_quote_content(quote),
            )
            &&& authored(keys, event)
            &&& melt_quote_kept(keys, tag_views(event.tags@), event.content@) == Err::<
                MeltQuoteView,
                Fault,
            >(Fault::MissingTag(FEE_RESERVE@))
        },
        Err(e) => sealing_fault(keys, tags_json(melt_quote_content(quote))) == Some(e@),
    }
}

/// Writes a melt quote as the event that keeps it. The fee reserve is not written, so the event
/// cannot be read as a melt quote again.
pub fn melt_quote_to_event(wallet_id: &str, quote: &MeltQuote, keys: &WalletKeys) -> (r: Result<
    Event,
    Error,
>)
    ensures
        melt_quote_written(*keys, wallet_id@, quote@, r),
{
    let mut content: Vec<Tag> = Vec::new();
    content.push(Tag::with_value(QUOTE_ID_TAG, quote.id.as_str()));
    content.push(Tag::with_value(AMOUNT_TAG, decimal_text(quote.amount.value).as_str()));
    content.push(Tag::with_value(UNIT_TAG, quote.unit.to_string().as_str()));
    content.push(Tag::with_value(REQUEST_TAG, quote.request.as_str()));
    assert(tag_views(content@) =~= melt_quote_content(quote@));
    let tags = tags_of_quote(wallet_id, quote.expiry, keys);
    proof {
        lemma_quote_tags(wallet_id@, keys.public_key@, quote.expiry);
        law_melt_quote_written(quote@, wallet_id@, keys.public_key@);
        assert forall|i: int| 0 <= i < tags@.len() implies (#[trigger] tags@[i])@[0] != "p"@ by {
            assert(tag_views(tags@)[i] == tags@[i]@);
        }
    }
    match tags_to_json(&content) {
        Ok(text) => seal(QUOTE_KIND, text.as_str(), tags, keys),
        Err(e) => Err(e),
    }
}

/// What is read from an event as a melt quote.
pub open spec fn melt_quote_reader(keys: WalletKeys) -> spec_fn(Event) -> Result<
    MeltQuoteView,
    Fault,
> {
    |event: Event| melt_quote_kept(keys, tag_views(event.tags@), event.content@)
}

/// Whether a melt quote has an id.
pub open spec fn melt_quote_with(id: Seq<char>) -> spec_fn(MeltQuoteView) -> bool {
    |quote: MeltQuoteView| quote.id == id
}

/// The views of a row of melt quotes.
pub open spec fn melt_quote_views(s: Seq<MeltQuote>) -> Seq<MeltQuoteView> {
    s.map_values(|q: MeltQuote| q@)
}

/// Reads a melt quote from each event. The first event that keeps none makes it fail.
pub fn melt_quotes_from_events(events: &Vec<Event>, keys: &WalletKeys) -> (r: Result<
    Vec<MeltQuote>,
    Error,
>)
    ensures
        match r {
            Ok(quotes) => all_read(events@, melt_quote_reader(*keys)) == Ok::<
                Seq<MeltQuoteView>,
                Fault,
            >(melt_quote_views(quotes@)),
            Err(e) => all_read(events@, melt_quote_reader(*keys)) == Err::<
                Seq<MeltQuoteView>,
                Fault,
            >(e@),
        },
{
    let ghost read = melt_quote_reader(*keys);
    let mut quotes: Vec<MeltQuote> = Vec::new();
    assert(melt_quote_views(quotes@) =~= Seq::empty());
    for i in 0..events.len()
        invariant
            read == melt_quote_reader(*keys),
            all_read(events@.take(i as int), read) == Ok::<Seq<MeltQuoteView>, Fault>(
                melt_quote_views(quotes@),
            ),
    {
        assert(events@.take(i + 1).drop_last() =~= events@.take(i as int));
        match melt_quote_from_event(&events[i], keys) {
            Ok(quote) => {
                let ghost before = melt_quote_views(quotes@);
                quotes.push(quote);
                assert(melt_quote_views(quotes@) =~= before.push(quote@));
            },
            Err(e) => {
                proof {
                    lemma_all_read_fault(events@, read, i + 1);
                }
                return Err(e);
            },
        }
    }
    assert(events@.take(events@.len() as int) =~= events@);
    Ok(quotes)
}

/// The first melt quote that has an id.
pub fn find_melt_quote(quotes: Vec<MeltQuote>, quote_id: &str) -> (r: Option<MeltQuote>)
    ensures
        match r {
            Some(quote) => first_wanted(melt_quote_views(quotes@), melt_quote_with(quote_id@))
                == Some(quote@),
            None => first_wanted(melt_quote_views(quotes@), melt_quote_with(quote_id@)) is None,
        },
{
    let ghost views = melt_quote_views(quotes@);
    let ghost all = quotes@;
    let ghost wanted = melt_quote_with(quote_id@);
    assert(views.skip(0) =~= views);
    for quote in it: quotes
        invariant
            it.seq() == all,
            views == melt_quote_views(all),
            wanted == melt_quote_with(quote_id@),
            first_wanted(views, wanted) == first_wanted(views.skip(it.index()), wanted),
    {
        let ghost i = it.index();
        assert(views.skip(i)[0] == all[i]@);
        assert(views.skip(i).drop_first() =~= views.skip(i + 1));
        if same_text(quote.id.as_str(), quote_id) {
            return Some(quote);
        }
    }
    None
}

/// Lists the events that keep a melt quote with an id, up to the first event that keeps no melt
/// quote at all, and what is wrong with that one, if there is one.
pub fn melt_quote_deletions(events: &Vec<Event>, quote_id: &str, keys: &WalletKeys) -> (r: (
    Vec<EventId>,
    Result<(), Error>,
))
    ensures
        deletions(events@, melt_quote_reader(*keys), melt_quote_with(quote_id@)) == (
            r.0@.map_values(|id: EventId| id@),
            match r.1 {
                Ok(_) => None::<Fault>,
                Err(e) => Some(e@),
            },
        ),
{
    let ghost read = melt_quote_reader(*keys);
    let ghost wanted = melt_quote_with(quote_id@);
    let ghost view = |id: EventId| id@;
    let mut ids: Vec<EventId> = Vec::new();
    assert(ids@.map_values(view) =~= Seq::empty());
    for i in 0..events.len()
        invariant
            read == melt_quote_reader(*keys),
            wanted == melt_quote_with(quote_id@),
            view == (|id: EventId| id@),
            deletions(events@.take(i as int), read, wanted) == (
                ids@.map_values(view),
                None::<Fault>,
            ),
    {
        assert(events@.take(i + 1).drop_last() =~= events@.take(i as int));
        match melt_quote_from_event(&events[i], keys) {
            Ok(quote) => {
                if same_text(quote.id.as_str(), quote_id) {
                    let ghost before = ids@.map_values(view);
                    ids.push(events[i].id.clone());
                    assert(ids@.map_values(view) =~= before.push(events@[i as int].id@));
                }
            },
            Err(e) => {
                proof {
                    lemma_deletions_fault(events@, read, wanted, i + 1);
                }
                return (ids, Err(e));
            },
        }
    }
    assert(events@.take(events@.len() as int) =~= events@);
    (ids, Ok(()))
}

} // verus!
