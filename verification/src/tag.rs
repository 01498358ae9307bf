//! Tags: rows of texts that begin with the name of what they say.

use vstd::prelude::*;

use crate::error::{outcome, Error, Fault};

verus! {

pub const ID_TAG: &'static str = "d";

pub const ID_LINK_TAG: &'static str = "a";

pub const MINT_TAG: &'static str = "mint";

pub const NAME_TAG: &'static str = "name";

pub const UNIT_TAG: &'static str = "unit";

pub const DESCRIPTION_TAG: &'static str = "description";

pub const RELAY_TAG: &'static str = "relay";

pub const BALANCE_TAG: &'static str = "balance";

pub const PRIVKEY_TAG: &'static str = "privkey";

pub const COUNTER_TAG: &'static str = "counter";

pub const QUOTE_ID_TAG: &'static str = "quote_id";

pub const AMOUNT_TAG: &'static str = "amount";

pub const REQUEST_TAG: &'static str = "request";

pub const STATE_TAG: &'static str = "state";

pub const FEE_RESERVE: &'static str = "fee_reserve";

pub const PREIMAGE_TAG: &'static str = "preimage";

pub const EXPIRATION_TAG: &'static str = "expiration";

/// The names of tags: no two of them have both the length and the first letter in common.
pub proof fn lemma_tag_names()
    ensures
        ID_TAG@.len() == 1 && ID_TAG@[0] == 'd',
        ID_LINK_TAG@.len() == 1 && ID_LINK_TAG@[0] == 'a',
        MINT_TAG@.len() == 4 && MINT_TAG@[0] == 'm',
        NAME_TAG@.len() == 4 && NAME_TAG@[0] == 'n',
        UNIT_TAG@.len() == 4 && UNIT_TAG@[0] == 'u',
        DESCRIPTION_TAG@.len() == 11 && DESCRIPTION_TAG@[0] == 'd',
        RELAY_TAG@.len() == 5 && RELAY_TAG@[0] == 'r',
        BALANCE_TAG@.len() == 7 && BALANCE_TAG@[0] == 'b',
        PRIVKEY_TAG@.len() == 7 && PRIVKEY_TAG@[0] == 'p',
        COUNTER_TAG@.len() == 7 && COUNTER_TAG@[0] == 'c',
        QUOTE_ID_TAG@.len() == 8 && QUOTE_ID_TAG@[0] == 'q',
        AMOUNT_TAG@.len() == 6 && AMOUNT_TAG@[0] == 'a',
        REQUEST_TAG@.len() == 7 && REQUEST_TAG@[0] == 'r',
        STATE_TAG@.len() == 5 && STATE_TAG@[0] == 's',
        FEE_RESERVE@.len() == 11 && FEE_RESERVE@[0] == 'f',
        PREIMAGE_TAG@.len() == 8 && PREIMAGE_TAG@[0] == 'p',
        EXPIRATION_TAG@.len() == 10 && EXPIRATION_TAG@[0] == 'e',
        "p"@.len() == 1 && "p"@[0] == 'p',
{
    reveal_strlit("d");
    reveal_strlit("a");
    reveal_strlit("mint");
    reveal_strlit("name");
    reveal_strlit("unit");
    reveal_strlit("description");
    reveal_strlit("relay");
    reveal_strlit("balance");
    reveal_strlit("privkey");
    reveal_strlit("counter");
    reveal_strlit("quote_id");
    reveal_strlit("amount");
    reveal_strlit("request");
    reveal_strlit("state");
    reveal_strlit("fee_reserve");
    reveal_strlit("preimage");
    reveal_strlit("expiration");
    reveal_strlit("p");
}

/// A tag as contracts speak of it.
pub type TagView = Seq<Seq<char>>;

/// The views of a row of texts.
pub open spec fn texts(s: Seq<String>) -> Seq<Seq<char>> {
    s.map_values(|t: String| t@)
}

/// A tag: its name, then its values
#[derive(Debug)]
pub struct Tag {
    fields: Vec<String>,
}

impl View for Tag {
    type V = TagView;

    closed spec fn view(&self) -> TagView {
        texts(self.fields@)
    }
}

/// The views of a row of tags.
pub open spec fn tag_views(s: Seq<Tag>) -> Seq<TagView> {
    s.map_values(|t: Tag| t@)
}

/// Whether each tag of a row has a name.
pub open spec fn all_named(tags: Seq<TagView>) -> bool {
    forall|i: int| 0 <= i < tags.len() ==> (#[trigger] tags[i]).len() > 0
}

/// The first value of a tag.
pub open spec fn content_of(tag: TagView) -> Option<Seq<char>> {
    if tag.len() > 1 {
        Some(tag[1])
    } else {
        None
    }
}

/// The first value of a tag, which must have one.
pub open spec fn required_content(tag: TagView) -> Result<Seq<char>, Fault> {
    match content_of(tag) {
        Some(content) => Ok(content),
        None => Err(Fault::EmptyTag(tag[0])),
    }
}

/// Takes in what tags say, one after the other, up to the first that cannot be read.
pub open spec fn fold_tags<T>(
    start: T,
    tags: Seq<TagView>,
    step: spec_fn(T, TagView) -> Result<T, Fault>,
) -> Result<T, Fault>
    decreases tags.len(),
{
    if tags.len() == 0 {
        Ok(start)
    } else {
        match fold_tags(start, tags.drop_last(), step) {
            Ok(value) => step(value, tags.last()),
            Err(fault) => Err(fault),
        }
    }
}

/// Once a tag cannot be read, the tags behind it change nothing.
pub proof fn lemma_fold_fault<T>(
    start: T,
    tags: Seq<TagView>,
    step: spec_fn(T, TagView) -> Result<T, Fault>,
    i: int,
)
    requires
        0 <= i <= tags.len(),
        fold_tags(start, tags.take(i), step) is Err,
    ensures
        fold_tags(start, tags, step) == fold_tags(start, tags.take(i), step),
    decreases tags.len() - i,
{
    if i < tags.len() {
        assert(tags.take(i + 1).drop_last() =~= tags.take(i));
        lemma_fold_fault(start, tags, step, i + 1);
    } else {
        assert(tags.take(i) =~= tags);
    }
}

/// Tags can be taken in in two parts.
pub proof fn lemma_fold_concat<T>(
    start: T,
    first: Seq<TagView>,
    second: Seq<TagView>,
    step: spec_fn(T, TagView) -> Result<T, Fault>,
)
    ensures
        fold_tags(start, first + second, step) == (match fold_tags(start, first, step) {
            Ok(between) => fold_tags(between, second, step),
            Err(fault) => Err(fault),
        }),
    decreases second.len(),
{
    if second.len() == 0 {
        assert(first + second =~= first);
    } else {
        lemma_fold_concat(start, first, second.drop_last(), step);
        assert((first + second).drop_last() =~= first + second.drop_last());
    }
}

/// Taking in one tag.
pub proof fn lemma_fold_one<T>(
    start: T,
    tag: TagView,
    step: spec_fn(T, TagView) -> Result<T, Fault>,
)
    ensures
        fold_tags(start, seq![tag], step) == step(start, tag),
{
    assert(seq![tag].drop_last() =~= Seq::<TagView>::empty());
    assert(fold_tags(start, Seq::<TagView>::empty(), step) == Ok::<T, Fault>(start));
}

/// Taking in one more tag.
pub proof fn lemma_fold_push<T>(
    start: T,
    tags: Seq<TagView>,
    tag: TagView,
    step: spec_fn(T, TagView) -> Result<T, Fault>,
)
    ensures
        fold_tags(start, tags.push(tag), step) == (match fold_tags(start, tags, step) {
            Ok(value) => step(value, tag),
            Err(fault) => Err(fault),
        }),
{
    assert(tags.push(tag).drop_last() =~= tags);
}

impl Tag {
    /// A tag has a name.
    #[verifier::type_invariant]
    spec fn wf(self) -> bool {
        self.fields@.len() > 0
    }

    /// Takes the name and the values of a tag. There must be a name.
    pub fn parse(fields: Vec<String>) -> (r: Result<Tag, Error>)
        ensures
            outcome(r) == (if fields@.len() > 0 {
                Ok::<TagView, Fault>(texts(fields@))
            } else {
                Err(Fault::Tag)
            }),
    {
        if fields.len() == 0 {
            Err(Error::Tag)
        } else {
            Ok(Tag { fields })
        }
    }

    /// A tag with one value.
    pub fn with_value(name: &str, value: &str) -> (r: Tag)
        ensures
            r@ == seq![name@, value@],
    {
        let mut fields: Vec<String> = Vec::new();
        fields.push(name.to_owned());
        fields.push(value.to_owned());
        let r = Tag { fields };
        assert(r@ =~= seq![name@, value@]);
        r
    }

    /// A tag with two values.
    pub fn with_values(name: &str, first: &str, second: &str) -> (r: Tag)
        ensures
            r@ == seq![name@, first@, second@],
    {
        let mut fields: Vec<String> = Vec::new();
        fields.push(name.to_owned());
        fields.push(first.to_owned());
        fields.push(second.to_owned());
        let r = Tag { fields };
        assert(r@ =~= seq![name@, first@, second@]);
        r
    }

    /// The name of the tag.
    pub fn kind(&self) -> (r: &str)
        ensures
            self@.len() > 0,
            r@ == self@[0],
    {
        proof {
            use_type_invariant(self);
        }
        self.fields[0].as_str()
    }

    /// The first value.
    pub fn content(&self) -> (r: Option<&str>)
        ensures
            r is Some <==> content_of(self@) is Some,
            r matches Some(c) ==> content_of(self@) == Some(c@),
    {
        if self.fields.len() > 1 {
            Some(self.fields[1].as_str())
        } else {
            None
        }
    }

    /// The first value, which must be there.
    pub fn require_content(&self) -> (r: Result<&str, Error>)
        ensures
            match r {
                Ok(c) => required_content(self@) == Ok::<Seq<char>, Fault>(c@),
                Err(e) => required_content(self@) == Err::<Seq<char>, Fault>(e@),
            },
    {
        match self.content() {
            Some(content) => Ok(content),
            None => Err(Error::EmptyTag(self.kind().to_owned())),
        }
    }

    /// The last field.
    pub fn last(&self) -> (r: &str)
        ensures
            self@.len() > 0,
            r@ == self@.last(),
    {
        proof {
            use_type_invariant(self);
        }
        self.fields[self.fields.len() - 1].as_str()
    }

    /// The name and the values.
    pub fn as_vec(&self) -> (r: &Vec<String>)
        ensures
            texts(r@) == self@,
            r@.len() > 0,
    {
        proof {
            use_type_invariant(self);
        }
        &self.fields
    }
}

/// The tags that a JSON text stands for: what `serde_json::from_str` reads from it as a row of
/// tags.
pub uninterp spec fn json_tags(text: Seq<char>) -> Option<Seq<TagView>>;

/// The JSON text of a row of tags: what `serde_json::to_string` writes for it.
pub uninterp spec fn tags_json(tags: Seq<TagView>) -> Seq<char>;

/// `serde_json::from_str` at a row of `nostr_sdk::Tag`, each taken apart into its fields. Which
/// tags come out depends on the text alone; every one of them has a field.
#[verifier::external_body]
fn read_json(text: &str) -> (r: Result<Vec<Tag>, serde_json::Error>)
    ensures
        r is Ok <==> json_tags(text@) is Some,
        r matches Ok(tags) ==> json_tags(text@) == Some(tag_views(tags@)),
{
    serde_json::from_str::<Vec<nostr_sdk::Tag>>(text).map(
        |tags| tags.into_iter().map(|tag| Tag { fields: tag.to_vec() }).collect(),
    )
}

/// `serde_json::to_string` at a row of rows of texts, which never fails. The text depends on the
/// tags alone, and reading it gives the tags back, where each has a field.
#[verifier::external_body]
fn write_json(tags: &Vec<Tag>) -> (r: Result<String, serde_json::Error>)
    ensures
        r is Ok,
        r matches Ok(text) ==> text@ == tags_json(tag_views(tags@)),
        r matches Ok(text) ==> (all_named(tag_views(tags@)) ==> json_tags(text@) == Some(
            tag_views(tags@),
        )),
{
    serde_json::to_string(&tags.iter().map(|tag| &tag.fields).collect::<Vec<&Vec<String>>>())
}

/// Reads a row of tags from its JSON text.
pub fn tags_from_json(text: &str) -> (r: Result<Vec<Tag>, Error>)
    ensures
        match r {
            Ok(tags) => json_tags(text@) == Some(tag_views(tags@)),
            Err(e) => json_tags(text@) is None && e@ == Fault::Json,
        },
{
    match read_json(text) {
        Ok(tags) => Ok(tags),
        Err(e) => Err(Error::Json(e)),
    }
}

/// Writes a row of tags as JSON. Reading the text gives the tags back.
pub fn tags_to_json(tags: &Vec<Tag>) -> (r: Result<String, Error>)
    ensures
        r is Ok,
        r matches Ok(text) ==> text@ == tags_json(tag_views(tags@)),
        r matches Ok(text) ==> (all_named(tag_views(tags@)) ==> json_tags(text@) == Some(
            tag_views(tags@),
        )),
{
    match write_json(tags) {
        Ok(text) => Ok(text),
        Err(e) => Err(Error::Json(e)),
    }
}

} // verus!
