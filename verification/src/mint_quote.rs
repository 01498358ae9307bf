//! Quotes for minting ecash, and the events that keep them.

use vstd::prelude::*;

use crate::error::{outcome, Error, Fault};
use crate::event::{Event, EventId, QUOTE_KIND};
use crate::nuts::{Amount, CurrencyUnit, MintQuoteState, UncheckedUrl};
use crate::quotes::{
    all_read, amount_view, deletions, first_wanted, lemma_all_read_fault, lemma_deletions_fault,
    lemma_quote_tags, number_content, quote_tags, read_number, read_text, read_unit,
    tags_of_quote, text_view, unit_content,
};
use crate::sealing::{
    authored, open_tags, opened_tags, seal, sealing_fault, WalletKeys,
};
use crate::tag::{
    fold_tags, lemma_fold_concat, lemma_fold_fault, lemma_fold_push, lemma_tag_names,
    required_content, tag_views, tags_json, tags_to_json, Tag, TagView, AMOUNT_TAG,
    EXPIRATION_TAG, MINT_TAG, QUOTE_ID_TAG, REQUEST_TAG, STATE_TAG, UNIT_TAG,
};
use crate::text::{decimal, decimal_text, law_decimal_round_trip, same_text};

verus! {

/// Mint quote
#[derive(Clone, Debug)]
pub struct MintQuote {
    /// Quote id
    pub id: String,
    /// Mint
    pub mint_url: UncheckedUrl,
    /// Amount
    pub amount: Amount,
    /// Unit
    pub unit: CurrencyUnit,
    /// Request to be paid
    pub request: String,
    /// State
    pub state: MintQuoteState,
    /// Time at which it expires, in seconds of UNIX time
    pub expiry: u64,
}

/// A mint quote as contracts speak of it.
pub struct MintQuoteView {
    pub id: Seq<char>,
    pub mint_url: Seq<char>,
    pub amount: u64,
    pub unit: CurrencyUnit,
    pub request: Seq<char>,
    pub state: MintQuoteState,
    pub expiry: u64,
}

impl View for MintQuote {
    type V = MintQuoteView;

    open spec fn view(&self) -> MintQuoteView {
        MintQuoteView {
            id: self.id@,
            mint_url: self.mint_url@,
            amount: self.amount.value,
            unit: self.unit,
            request: self.request@,
            state: self.state,
            expiry: self.expiry,
        }
    }
}

/// What tags have said of a mint quote.
pub struct MintQuoteFields {
    pub id: Option<Seq<char>>,
    pub mint_url: Option<Seq<char>>,
    pub amount: Option<u64>,
    pub unit: Option<CurrencyUnit>,
    pub request: Option<Seq<char>>,
    pub state: Option<MintQuoteState>,
    pub expiry: Option<u64>,
}

impl MintQuoteFields {
    pub open spec fn none() -> MintQuoteFields {
        MintQuoteFields {
            id: None,
            mint_url: None,
            amount: None,
            unit: None,
            request: None,
            state: None,
            expiry: None,
        }
    }

    /// Takes in what a tag says. Tags of other names say nothing.
    pub open spec fn with_tag(self, tag: TagView) -> Result<MintQuoteFields, Fault> {
        let kind = tag[0];
        if kind == QUOTE_ID_TAG@ {
            match required_content(tag) {
                Ok(text) => Ok(MintQuoteFields { id: Some(text), ..self }),
                Err(fault) => Err(fault),
            }
        } else if kind == MINT_TAG@ {
            match required_content(tag) {
                Ok(text) => Ok(MintQuoteFields { mint_url: Some(text), ..self }),
                Err(fault) => Err(fault),
            }
        } else if kind == AMOUNT_TAG@ {
            match number_content(tag) {
                Ok(n) => Ok(MintQuoteFields { amount: Some(n), ..self }),
                Err(fault) => Err(fault),
            }
        } else if kind == UNIT_TAG@ {
            match unit_content(tag) {
                Ok(unit) => Ok(MintQuoteFields { unit: Some(unit), ..self }),
                Err(fault) => Err(fault),
            }
        } else if kind == REQUEST_TAG@ {
            match required_content(tag) {
                Ok(text) => Ok(MintQuoteFields { request: Some(text), ..self }),
                Err(fault) => Err(fault),
            }
        } else if kind == STATE_TAG@ {
            match required_content(tag) {
                Ok(text) => match MintQuoteState::named(text) {
                    Ok(state) => Ok(MintQuoteFields { state: Some(state), ..self }),
                    Err(fault) => Err(fault),
                },
                Err(fault) => Err(fault),
            }
        } else if kind == EXPIRATION_TAG@ {
            match number_content(tag) {
                Ok(n) => Ok(MintQuoteFields { expiry: Some(n), ..self }),
                Err(fault) => Err(fault),
            }
        } else {
            Ok(self)
        }
    }

    pub open spec fn step() -> spec_fn(MintQuoteFields, TagView) -> Result<MintQuoteFields, Fault> {
        |fields: MintQuoteFields, tag: TagView| fields.with_tag(tag)
    }

    /// The quote, where tags have said all of it.
    pub open spec fn quote(self) -> Result<MintQuoteView, Fault> {
        if self.id is None {
            Err(Fault::MissingTag(QUOTE_ID_TAG@))
        } else if self.mint_url is None {
            Err(Fault::MissingTag(MINT_TAG@))
        } else if self.amount is None {
            Err(Fault::MissingTag(AMOUNT_TAG@))
        } else if self.unit is None {
            Err(Fault::MissingTag(UNIT_TAG@))
        } else if self.request is None {
            Err(Fault::MissingTag(REQUEST_TAG@))
        } else if self.state is None {
            Err(Fault::MissingTag(STATE_TAG@))
        } else if self.expiry is None {
            Err(Fault::MissingTag(EXPIRATION_TAG@))
        } else {
            Ok(
                MintQuoteView {
                    id: self.id->0,
                    mint_url: self.mint_url->0,
                    amount: self.amount->0,
                    unit: self.unit->0,
                    request: self.request->0,
                    state: self.state->0,
                    expiry: self.expiry->0,
                },
            )
        }
    }
}

/// The mint quote that tags describe.
pub open spec fn mint_quote_in(tags: Seq<TagView>) -> Result<MintQuoteView, Fault> {
    match fold_tags(MintQuoteFields::none(), tags, MintQuoteFields::step()) {
        Ok(fields) => fields.quote(),
        Err(fault) => Err(fault),
    }
}

/// The mint quote that an event with these tags and this content keeps.
pub open spec fn mint_quote_kept(
    keys: WalletKeys,
    tags: Seq<TagView>,
    payload: Seq<char>,
) -> Result<MintQuoteView, Fault> {
    match opened_tags(keys, payload) {
        Ok(content) => mint_quote_in(tags + content),
        Err(fault) => Err(fault),
    }
}

/// What tags have said of a mint quote so far.
struct MintQuoteDraft {
    id: Option<String>,
    mint_url: Option<UncheckedUrl>,
    amount: Option<Amount>,
    unit: Option<CurrencyUnit>,
    request: Option<String>,
    state: Option<MintQuoteState>,
    expiry: Option<u64>,
}

impl View for MintQuoteDraft {
    type V = MintQuoteFields;

    closed spec fn view(&self) -> MintQuoteFields {
        MintQuoteFields {
            id: text_view(self.id),
            mint_url: match self.mint_url {
                Some(url) => Some(url@),
                None => None,
            },
            amount: amount_view(self.amount),
            unit: self.unit,
            request: text_view(self.request),
            state: self.state,
            expiry: self.expiry,
        }
    }
}

impl MintQuoteDraft {
    fn new() -> (r: Self)
        ensures
            r@ == MintQuoteFields::none(),
    {
        MintQuoteDraft {
            id: None,
            mint_url: None,
            amount: None,
            unit: None,
            request: None,
            state: None,
            expiry: None,
        }
    }

    /// Takes in what a tag says.
    fn apply_tag(&mut self, tag: &Tag) -> (r: Result<(), Error>)
        ensures
            match r {
                Ok(_) => old(self)@.with_tag(tag@) == Ok::<MintQuoteFields, Fault>(final(self)@),
                Err(e) => old(self)@.with_tag(tag@) == Err::<MintQuoteFields, Fault>(e@),
            },
    {
        let kind = tag.kind();
        if same_text(kind, QUOTE_ID_TAG) {
            match read_text(tag) {
                Ok(text) => {
                    self.id = Some(text);
                },
                Err(e) => {
                    return Err(e);
                },
            }
        } else if same_text(kind, MINT_TAG) {
            match read_text(tag) {
                Ok(text) => {
                    self.mint_url = Some(UncheckedUrl { text });
                },
                Err(e) => {
                    return Err(e);
                },
            }
        } else if same_text(kind, AMOUNT_TAG) {
            match read_number(tag) {
                Ok(value) => {
                    self.amount = Some(Amount { value });
                },
                Err(e) => {
                    return Err(e);
                },
            }
        } else if same_text(kind, UNIT_TAG) {
            match read_unit(tag) {
                Ok(unit) => {
                    self.unit = Some(unit);
                },
                Err(e) => {
                    return Err(e);
                },
            }
        } else if same_text(kind, REQUEST_TAG) {
            match read_text(tag) {
                Ok(text) => {
                    self.request = Some(text);
                },
                Err(e) => {
                    return Err(e);
                },
            }
        } else if same_text(kind, STATE_TAG) {
            let text = match tag.require_content() {
                Ok(text) => text,
                Err(e) => {
                    return Err(e);
                },
            };
            match MintQuoteState::from_str(text) {
                Ok(state) => {
                    self.state = Some(state);
                },
                Err(e) => {
                    return Err(e);
                },
            }
        } else if same_text(kind, EXPIRATION_TAG) {
            match read_number(tag) {
                Ok(n) => {
                    self.expiry = Some(n);
                },
                Err(e) => {
                    return Err(e);
                },
            }
        }
        Ok(())
    }

    /// Takes in what tags say, up to the first that cannot be read.
    fn apply_tags(&mut self, tags: &Vec<Tag>) -> (r: Result<(), Error>)
        ensures
            match r {
                Ok(_) => fold_tags(old(self)@, tag_views(tags@), MintQuoteFields::step()) == Ok::<
                    MintQuoteFields,
                    Fault,
                >(final(self)@),
                Err(e) => fold_tags(old(self)@, tag_views(tags@), MintQuoteFields::step()) == Err::<
                    MintQuoteFields,
                    Fault,
                >(e@),
            },
    {
        let ghost views = tag_views(tags@);
        let ghost before = self@;
        let ghost step = MintQuoteFields::step();
        for i in 0..tags.len()
            invariant
                views == tag_views(tags@),
                before == old(self)@,
                step == MintQuoteFields::step(),
                fold_tags(before, views.take(i as int), step) == Ok::<MintQuoteFields, Fault>(
                    self@,
                ),
        {
            assert(views.take(i + 1).drop_last() =~= views.take(i as int));
            assert(views.take(i + 1).last() == tags@[i as int]@);
            match self.apply_tag(&tags[i]) {
                Ok(_) => {},
                Err(e) => {
                    proof {
                        lemma_fold_fault(before, views, step, i + 1);
                    }
                    return Err(e);
                },
            }
        }
        assert(views.take(views.len() as int) =~= views);
        Ok(())
    }

    /// The quote, where tags have said all of it.
    fn finish(self) -> (r: Result<MintQuote, Error>)
        ensures
            outcome(r) == self@.quote(),
    {
        let id = match self.id {
            Some(id) => id,
            None => {
                return Err(Error::MissingTag(QUOTE_ID_TAG.to_owned()));
            },
        };
        let mint_url = match self.mint_url {
            Some(mint_url) => mint_url,
            None => {
                return Err(Error::MissingTag(MINT_TAG.to_owned()));
            },
        };
        let amount = match self.amount {
            Some(amount) => amount,
            None => {
                return Err(Error::MissingTag(AMOUNT_TAG.to_owned()));
            },
        };
        let unit = match self.unit {
            Some(unit) => unit,
            None => {
                return Err(Error::MissingTag(UNIT_TAG.to_owned()));
            },
        };
        let request = match self.request {
            Some(request) => request,
            None => {
                return Err(Error::MissingTag(REQUEST_TAG.to_owned()));
            },
        };
        let state = match self.state {
            Some(state) => state,
            None => {
                return Err(Error::MissingTag(STATE_TAG.to_owned()));
            },
        };
        let expiry: u64 = match self.expiry {
            Some(expiry) => expiry,
            None => {
                return Err(Error::MissingTag(EXPIRATION_TAG.to_owned()));
            },
        };
        Ok(MintQuote { id, mint_url, amount, unit, request, state, expiry })
    }
}

/// The mint quote that the tags of an event and those of its content describe.
pub fn mint_quote_from_tags(tags: &Vec<Tag>, content: &Vec<Tag>) -> (r: Result<MintQuote, Error>)
    ensures
        outcome(r) == mint_quote_in(tag_views(tags@) + tag_views(content@)),
{
    let mut draft = MintQuoteDraft::new();
    proof {
        lemma_fold_concat(draft@, tag_views(tags@), tag_views(content@), MintQuoteFields::step());
    }
    match draft.apply_tags(tags) {
        Ok(_) => {},
        Err(e) => {
            return Err(e);
        },
    }
    match draft.apply_tags(content) {
        Ok(_) => draft.finish(),
        Err(e) => Err(e),
    }
}

/// Reads a mint quote from the event that keeps it.
pub fn mint_quote_from_event(event: &Event, keys: &WalletKeys) -> (r: Result<MintQuote, Error>)
    ensures
        outcome(r) == mint_quote_kept(*keys, tag_views(event.tags@), event.content@),
{
    match open_tags(event.content.as_str(), keys) {
        Ok(content) => mint_quote_from_tags(&event.tags, &content),
        Err(e) => Err(e),
    }
}

/// The tags that the content of a mint quote's event consists of.
pub open spec fn mint_quote_content(quote: MintQuoteView) -> Seq<TagView> {
    seq![
        seq![QUOTE_ID_TAG@, quote.id],
        seq![MINT_TAG@, quote.mint_url],
        seq![AMOUNT_TAG@, decimal(quote.amount as nat)],
        seq![UNIT_TAG@, quote.unit.name()],
        seq![REQUEST_TAG@, quote.request],
    ]
}

/// Reading the tags that are written for a mint quote gives back every part of it but its state,
/// for which no tag is written. So the quote as written is refused for want of a state; with a tag
/// that names the state, it is given back whole.
pub proof fn law_mint_quote_written(
    quote: MintQuoteView,
    wallet_id: Seq<char>,
    public_key: Seq<char>,
    state: Seq<char>,
)
    ensures
        mint_quote_in(
            quote_tags(wallet_id, public_key, quote.expiry) + mint_quote_content(quote),
        ) == Err::<MintQuoteView, Fault>(Fault::MissingTag(STATE_TAG@)),
        MintQuoteState::named(state) == Ok::<MintQuoteState, Fault>(quote.state) ==> mint_quote_in(
            quote_tags(wallet_id, public_key, quote.expiry) + mint_quote_content(quote).push(
                seq![STATE_TAG@, state],
            ),
        ) == Ok::<MintQuoteView, Fault>(quote),
{
    lemma_tag_names();
    law_decimal_round_trip(quote.expiry as nat, u64::MAX as nat);
    law_decimal_round_trip(quote.amount as nat, u64::MAX as nat);
    quote.unit.law_name_round_trip();
    let step = MintQuoteFields::step();
    let none = MintQuoteFields::none();
    let tags = quote_tags(wallet_id, public_key, quote.expiry);
    let content = mint_quote_content(quote);
    let t0 = Seq::<TagView>::empty();
    let t1 = t0.push(tags[0]);
    let t2 = t1.push(tags[1]);
    let t3 = t2.push(content[0]);
    let t4 = t3.push(content[1]);
    let t5 = t4.push(content[2]);
    let t6 = t5.push(content[3]);
    let t7 = t6.push(content[4]);
    lemma_fold_push(none, t0, tags[0], step);
    lemma_fold_push(none, t1, tags[1], step);
    lemma_fold_push(none, t2, content[0], step);
    lemma_fold_push(none, t3, content[1], step);
    lemma_fold_push(none, t4, content[2], step);
    lemma_fold_push(none, t5, content[3], step);
    lemma_fold_push(none, t6, content[4], step);
    assert(t7 =~= tags + content);
    let last: TagView = seq![STATE_TAG@, state];
    lemma_fold_push(none, t7, last, step);
    assert(t7.push(last) =~= tags + content.push(last));
}

/// Whether a result is what writing a mint quote for a wallet gives: an event that keeps it, but
/// cannot be read as a mint quote again, or what stands in the way of encrypting it.
pub open spec fn mint_quote_written(
    keys: WalletKeys,
    wallet_id: Seq<char>,
    quote: MintQuoteView,
    r: Result<Event, Error>,
) -> bool {
    match r {
        Ok(event) => {
            &&& sealing_fault(keys, tags_json(mint_quote_content(quote))) is None
            &&& event.kind == QUOTE_KIND
            &&& tag_views(event.tags@) == quote_tags(wallet_id, keys.public_key@, quote.expiry)
            &&& opened_tags(keys, event.content@) == Ok::<Seq<TagView>, Fault>(
                mint_quote_content(quote),
            )
            &&& authored(keys, event)
            &&& mint_quote_kept(keys, tag_views(event.tags@), event.content@) == Err::<
                MintQuoteView,
                Fault,
            >(Fault::MissingTag(STATE_TAG@))
        },
        Err(e) => sealing_fault(keys, tags_json(mint_quote_content(quote))) == Some(e@),
    }
}

/// Writes a mint quote as the event that keeps it. The quote's state is not written, so the event
/// cannot be read as a mint quote again.
pub fn mint_quote_to_event(wallet_id: &str, quote: &MintQuote, keys: &WalletKeys) -> (r: Result<
    Event,
    Error,
>)
    ensures
        mint_quote_written(*keys, wallet_id@, quote@, r),
{
    let mut content: Vec<Tag> = Vec::new();
    content.push(Tag::with_value(QUOTE_ID_TAG, quote.id.as_str()));
    content.push(Tag::with_value(MINT_TAG, quote.mint_url.text.as_str()));
    content.push(Tag::with_value(AMOUNT_TAG, decimal_text(quote.amount.value).as_str()));
    content.push(Tag::with_value(UNIT_TAG, quote.unit.to_string().as_str()));
    content.push(Tag::with_value(REQUEST_TAG, quote.request.as_str()));
    assert(tag_views(content@) =~= mint_quote_content(quote@));
    let tags = tags_of_quote(wallet_id, quote.expiry, keys);
    proof {
        lemma_quote_tags(wallet_id@, keys.public_key@, quote.expiry);
        law_mint_quote_written(quote@, wallet_id@, keys.public_key@, Seq::empty());
        assert forall|i: int| 0 <= i < tags@.len() implies (#[trigger] tags@[i])@[0] != "p"@ by {
            assert(tag_views(tags@)[i] == tags@[i]@);
        }
    }
    match tags_to_json(&content) {
        Ok(text) => seal(QUOTE_KIND, text.as_str(), tags, keys),
        Err(e) => Err(e),
    }
}

/// What is read from an event as a mint quote.
pub open spec fn mint_quote_reader(keys: WalletKeys) -> spec_fn(Event) -> Result<
    MintQuoteView,
    Fault,
> {
    |event: Event| mint_quote_kept(keys, tag_views(event.tags@), event.content@)
}

/// Whether a mint quote has an id.
pub open spec fn mint_quote_with(id: Seq<char>) -> spec_fn(MintQuoteView) -> bool {
    |quote: MintQuoteView| quote.id == id
}

/// The views of a row of mint quotes.
pub open spec fn mint_quote_views(s: Seq<MintQuote>) -> Seq<MintQuoteView> {
    s.map_values(|q: MintQuote| q@)
}

/// Reads a mint quote from each event. The first event that keeps none makes it fail.
pub fn mint_quotes_from_events(events: &Vec<Event>, keys: &WalletKeys) -> (r: Result<
    Vec<MintQuote>,
    Error,
>)
    ensures
        match r {
            Ok(quotes) => all_read(events@, mint_quote_reader(*keys)) == Ok::<
                Seq<MintQuoteView>,
                Fault,
            >(mint_quote_views(quotes@)),
            Err(e) => all_read(events@, mint_quote_reader(*keys)) == Err::<
                Seq<MintQuoteView>,
                Fault,
            >(e@),
        },
{
    let ghost read = mint_quote_reader(*keys);
    let mut quotes: Vec<MintQuote> = Vec::new();
    assert(mint_quote_views(quotes@) =~= Seq::empty());
    for i in 0..events.len()
        invariant
            read == mint_quote_reader(*keys),
            all_read(events@.take(i as int), read) == Ok::<Seq<MintQuoteView>, Fault>(
                mint_quote_views(quotes@),
            ),
    {
        assert(events@.take(i + 1).drop_last() =~= events@.take(i as int));
        match mint_quote_from_event(&events[i], keys) {
            Ok(quote) => {
                let ghost before = mint_quote_views(quotes@);
                quotes.push(quote);
                assert(mint_quote_views(quotes@) =~= before.push(quote@));
            },
            Err(e) => {
                proof {
                    lemma_all_read_fault(events@, read, i + 1);
                }
                return Err(e);
            },
        }
    }
    assert(events@.take(events@.len() as int) =~= events@);
    Ok(quotes)
}

/// The first mint quote that has an id.
pub fn find_mint_quote(quotes: Vec<MintQuote>, quote_id: &str) -> (r: Option<MintQuote>)
    ensures
        match r {
            Some(quote) => first_wanted(mint_quote_views(quotes@), mint_quote_with(quote_id@))
                == Some(quote@),
            None => first_wanted(mint_quote_views(quotes@), mint_quote_with(quote_id@)) is None,
        },
{
    let ghost views = mint_quote_views(quotes@);
    let ghost all = quotes@;
    let ghost wanted = mint_quote_with(quote_id@);
    assert(views.skip(0) =~= views);
    for quote in it: quotes
        invariant
            it.seq() == all,
            views == mint_quote_views(all),
            wanted == mint_quote_with(quote_id@),
            first_wanted(views, wanted) == first_wanted(views.skip(it.index()), wanted),
    {
        let ghost i = it.index();
        assert(views.skip(i)[0] == all[i]@);
        assert(views.skip(i).drop_first() =~= views.skip(i + 1));
        if same_text(quote.id.as_str(), quote_id) {
            return Some(quote);
        }
    }
    None
}

/// Lists the events that keep a mint quote with an id, up to the first event that keeps no mint
/// quote at all, and what is wrong with that one, if there is one.
pub fn mint_quote_deletions(events: &Vec<Event>, quote_id: &str, keys: &WalletKeys) -> (r: (
    Vec<EventId>,
    Result<(), Error>,
))
    ensures
        deletions(events@, mint_quote_reader(*keys), mint_quote_with(quote_id@)) == (
            r.0@.map_values(|id: EventId| id@),
            match r.1 {
                Ok(_) => None::<Fault>,
                Err(e) => Some(e@),
            },
        ),
{
    let ghost read = mint_quote_reader(*keys);
    let ghost wanted = mint_quote_with(quote_id@);
    let ghost view = |id: EventId| id@;
    let mut ids: Vec<EventId> = Vec::new();
    assert(ids@.map_values(view) =~= Seq::empty());
    for i in 0..events.len()
        invariant
            read == mint_quote_reader(*keys),
            wanted == mint_quote_with(quote_id@),
            view == (|id: EventId| id@),
            deletions(events@.take(i as int), read, wanted) == (
                ids@.map_values(view),
                None::<Fault>,
            ),
    {
        assert(events@.take(i + 1).drop_last() =~= events@.take(i as int));
        match mint_quote_from_event(&events[i], keys) {
            Ok(quote) => {
                if same_text(quote.id.as_str(), quote_id) {
                    let ghost before = ids@.map_values(view);
                    ids.push(events[i].id.clone());
                    assert(ids@.map_values(view) =~= before.push(events@[i as int].id@));
                }
            },
            Err(e) => {
                proof {
                    lemma_deletions_fault(events@, read, wanted, i + 1);
                }
                return (ids, Err(e));
            },
        }
    }
    assert(events@.take(events@.len() as int) =~= events@);
    (ids, Ok(()))
}

} // verus!
