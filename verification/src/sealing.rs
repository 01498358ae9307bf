//! The wallet's keys, and what they do: encrypt, decrypt and sign.

use nostr_sdk::event::builder::Error as BuilderError;
use nostr_sdk::key::Error as KeyError;
use nostr_sdk::nips::nip44;
use nostr_sdk::nips::nip44::Error as Nip44Error;
use std::str::FromStr;
use vstd::prelude::*;
use vstd::string::*;
use vstd::utf8::encode_utf8;

use crate::error::{outcome, Error, Fault};
use crate::event::{Event, EventId, WALLET_INFO_KIND};
use crate::tag::{
    all_named, json_tags, tag_views, tags_from_json, Tag, TagView, ID_LINK_TAG,
};
use crate::text::{decimal, decimal_text};

verus! {

/// The keys of a wallet, as hexadecimal text. The secret key may be missing
#[derive(Clone, Debug)]
pub struct WalletKeys {
    pub public_key: String,
    pub secret_key: Option<String>,
}

/// A secret key, as hexadecimal text
#[derive(Clone, Debug)]
pub struct SecretKey {
    pub text: String,
}

impl View for SecretKey {
    type V = Seq<char>;

    open spec fn view(&self) -> Seq<char> {
        self.text@
    }
}

/// The secret key that a text stands for, in hexadecimal: what `SecretKey::from_str` of the
/// `nostr` crate reads from it.
pub uninterp spec fn secret_key_hex(text: Seq<char>) -> Option<Seq<char>>;

/// Whether a secret and a public key have a shared conversation key: whether
/// `ConversationKey::derive` of the `nostr` crate finds one.
pub uninterp spec fn nip44_keys_agree(secret_key: Seq<char>, public_key: Seq<char>) -> bool;

/// The message that a payload hides from all but the holders of two keys: what `nip44::decrypt`
/// of the `nostr` crate makes of it.
pub uninterp spec fn nip44_message(
    secret_key: Seq<char>,
    public_key: Seq<char>,
    payload: Seq<char>,
) -> Option<Seq<char>>;

/// The public key of a secret key, in hexadecimal: what `Keys::public_key` of the `nostr` crate
/// gives.
pub uninterp spec fn public_key_hex(secret_key: Seq<char>) -> Seq<char>;

/// The id of an event with these contents, in hexadecimal: what `EventId::new` of the `nostr` crate
/// gives.
pub uninterp spec fn event_id_hex(
    pubkey: Seq<char>,
    created_at: u64,
    kind: u16,
    tags: Seq<TagView>,
    content: Seq<char>,
) -> Seq<char>;

/// Whether a signature is that of a public key's holder on an event id, all in hexadecimal: what
/// `Event::verify_signature` of the `nostr` crate finds.
pub uninterp spec fn signature_holds(pubkey: Seq<char>, id: Seq<char>, sig: Seq<char>) -> bool;

/// The length of the longest message that can be encrypted, in bytes.
pub const MAX_MESSAGE_BYTES: usize = 65408;

/// Whether a message is of a length that can be encrypted.
pub open spec fn fits_message(text: Seq<char>) -> bool {
    1 <= encode_utf8(text).len() <= MAX_MESSAGE_BYTES
}

/// `SecretKey::from_str` of the `nostr` crate, which reads hexadecimal and bech32 text, and the
/// hexadecimal text of the key. It depends on the text alone. An empty text is no key.
#[verifier::external_body]
fn read_secret_key(text: &str) -> (r: Result<String, KeyError>)
    ensures
        r is Ok <==> secret_key_hex(text@) is Some,
        r matches Ok(key) ==> secret_key_hex(text@) == Some(key@),
        text@.len() == 0 ==> r is Err,
{
    nostr_sdk::SecretKey::from_str(text).map(|key| key.to_secret_hex())
}

/// `nip44::decrypt` of the `nostr` crate, with the keys given as text. It depends on its
/// arguments alone. It fails where a text is no key.
#[verifier::external_body]
fn nip44_decrypt(secret_key: &str, public_key: &str, payload: &str) -> (r: Result<
    String,
    Nip44Error,
>)
    ensures
        r is Ok <==> nip44_message(secret_key@, public_key@, payload@) is Some,
        r matches Ok(text) ==> nip44_message(secret_key@, public_key@, payload@) == Some(text@),
{
    let secret_key = nostr_sdk::SecretKey::from_str(secret_key)?;
    let public_key = nostr_sdk::PublicKey::from_hex(public_key)?;
    nip44::decrypt(&secret_key, &public_key, payload)
}

/// `nip44::encrypt` of the `nostr` crate in its second version, with the keys given as text. It
/// fails where a text is no key, where the keys have no conversation key, and where the message
/// is empty or too long. The payload holds a random number, so it is not the same each time, but
/// decrypting it with the same keys always gives the message back.
#[verifier::external_body]
fn nip44_encrypt(secret_key: &str, public_key: &str, text: &str) -> (r: Result<String, Nip44Error>)
    ensures
        r is Ok <==> (nip44_keys_agree(secret_key@, public_key@) && fits_message(text@)),
        r matches Ok(payload) ==> nip44_message(secret_key@, public_key@, payload@) == Some(text@),
{
    let secret_key = nostr_sdk::SecretKey::from_str(secret_key)?;
    let public_key = nostr_sdk::PublicKey::from_hex(public_key)?;
    nip44::encrypt(&secret_key, &public_key, text, nip44::Version::V2)
}

/// `EventBuilder::sign_with_keys` of the `nostr` crate. The event has the kind, the content and
/// the tags that were given, and names the public key of the secret key as its author. Its id is
/// the one that its author, time, kind, tags and content give, and its signature is the author's
/// on that id. Which time it has is left open, and of the signature, which is randomised, only
/// that it holds is said. Tags named `p` are not given, because the builder drops one that names
/// the author.
#[verifier::external_body]
fn sign_event(secret_key: &str, kind: u16, content: String, tags: &Vec<Tag>) -> (r: Result<
    Event,
    BuilderError,
>)
    requires
        secret_key_hex(secret_key@) is Some,
        all_named(tag_views(tags@)),
        forall|i: int| 0 <= i < tags@.len() ==> (#[trigger] tags@[i])@[0] != "p"@,
    ensures
        r is Ok,
        r matches Ok(event) ==> event.kind == kind,
        r matches Ok(event) ==> event.content@ == content@,
        r matches Ok(event) ==> tag_views(event.tags@) == tag_views(tags@),
        r matches Ok(event) ==> event.pubkey@ == public_key_hex(secret_key@),
        r matches Ok(event) ==> event.id@ == event_id_hex(
            event.pubkey@,
            event.created_at,
            event.kind,
            tag_views(event.tags@),
            event.content@,
        ),
        r matches Ok(event) ==> signature_holds(event.pubkey@, event.id@, event.sig@),
{
    let keys = nostr_sdk::Keys::from_str(secret_key).expect("a secret key");
    let tags = tags.iter().map(|t| nostr_sdk::Tag::parse(t.as_vec().clone()).expect("a name"));
    let builder = nostr_sdk::EventBuilder::new(nostr_sdk::Kind::from(kind), content).tags(tags);
    let event = builder.sign_with_keys(&keys)?;
    Ok(Event {
        id: EventId { text: event.id.to_hex() },
        pubkey: event.pubkey.to_hex(),
        created_at: event.created_at.as_secs(),
        kind: event.kind.as_u16(),
        tags: event.tags.into_iter().map(|t| Tag::parse(t.to_vec()).expect("a name")).collect(),
        content: event.content,
        sig: event.sig.to_string(),
    })
}

impl SecretKey {
    /// The secret key that a text stands for.
    pub open spec fn read(text: Seq<char>) -> Result<Seq<char>, Fault> {
        match secret_key_hex(text) {
            Some(key) => Ok(key),
            None => Err(Fault::Key),
        }
    }

    pub fn from_str(text: &str) -> (r: Result<SecretKey, Error>)
        ensures
            outcome(r) == SecretKey::read(text@),
    {
        match read_secret_key(text) {
            Ok(text) => Ok(SecretKey { text }),
            Err(e) => Err(Error::Key(e)),
        }
    }
}

/// Whether a wallet's keys hold a secret key.
pub open spec fn has_secret_key(keys: WalletKeys) -> bool {
    keys.secret_key matches Some(text) && secret_key_hex(text@) is Some
}

/// Whether the public key of a wallet is that of its secret key, where it has one.
pub open spec fn paired(keys: WalletKeys) -> bool {
    keys.secret_key matches Some(text) ==> keys.public_key@ == public_key_hex(text@)
}

/// Whether an event was made by a wallet: it names the public key of the wallet's secret key as
/// its author, which is the wallet's own public key where the two belong together, its id is the
/// one that its contents give, and its signature holds.
pub open spec fn authored(keys: WalletKeys, event: Event) -> bool {
    &&& event.pubkey@ == public_key_hex(keys.secret_key->0@)
    &&& paired(keys) ==> event.pubkey@ == keys.public_key@
    &&& event.id@ == event_id_hex(
        event.pubkey@,
        event.created_at,
        event.kind,
        tag_views(event.tags@),
        event.content@,
    )
    &&& signature_holds(event.pubkey@, event.id@, event.sig@)
}

/// The message that a payload hides from all but the wallet.
pub open spec fn opened(keys: WalletKeys, payload: Seq<char>) -> Result<Seq<char>, Fault> {
    if !has_secret_key(keys) {
        Err(Fault::Key)
    } else {
        match nip44_message(keys.secret_key->0@, keys.public_key@, payload) {
            None => Err(Fault::Encrypt),
            Some(text) => Ok(text),
        }
    }
}

/// The tags that a payload hides from all but the wallet.
pub open spec fn opened_tags(keys: WalletKeys, payload: Seq<char>) -> Result<Seq<TagView>, Fault> {
    match opened(keys, payload) {
        Err(fault) => Err(fault),
        Ok(text) => match json_tags(text) {
            None => Err(Fault::Json),
            Some(tags) => Ok(tags),
        },
    }
}

/// What stands in the way of encrypting a message to the wallet itself, if anything does.
pub open spec fn sealing_fault(keys: WalletKeys, text: Seq<char>) -> Option<Fault> {
    if !has_secret_key(keys) {
        Some(Fault::Key)
    } else if nip44_keys_agree(keys.secret_key->0@, keys.public_key@) && fits_message(text) {
        None
    } else {
        Some(Fault::Encrypt)
    }
}

/// The wallet's secret key, which must be there.
fn secret_key(keys: &WalletKeys) -> (r: Result<&str, Error>)
    ensures
        match r {
            Ok(text) => has_secret_key(*keys) && text@ == keys.secret_key->0@,
            Err(e) => !has_secret_key(*keys) && e@ is Key,
        },
{
    let text = match &keys.secret_key {
        Some(text) => text.as_str(),
        None => "",
    };
    proof {
        reveal_strlit("");
    }
    match read_secret_key(text) {
        Ok(_) => Ok(text),
        Err(e) => Err(Error::Key(e)),
    }
}

/// Reads a message that the wallet encrypted to itself.
pub fn open_payload(payload: &str, keys: &WalletKeys) -> (r: Result<String, Error>)
    ensures
        outcome(r) == opened(*keys, payload@),
{
    let secret_key = match secret_key(keys) {
        Ok(text) => text,
        Err(e) => {
            return Err(e);
        },
    };
    match nip44_decrypt(secret_key, keys.public_key.as_str(), payload) {
        Ok(text) => Ok(text),
        Err(e) => Err(Error::Encrypt(e)),
    }
}

/// Reads tags that the wallet encrypted to itself.
pub fn open_tags(payload: &str, keys: &WalletKeys) -> (r: Result<Vec<Tag>, Error>)
    ensures
        match r {
            Ok(tags) => opened_tags(*keys, payload@) == Ok::<Seq<TagView>, Fault>(tag_views(tags@)),
            Err(e) => opened_tags(*keys, payload@) == Err::<Seq<TagView>, Fault>(e@),
        },
{
    match open_payload(payload, keys) {
        Ok(text) => tags_from_json(text.as_str()),
        Err(e) => Err(e),
    }
}

/// Signs an event whose content is a message that the wallet encrypts to itself. The wallet can
/// read the message back.
pub fn seal(kind: u16, text: &str, tags: Vec<Tag>, keys: &WalletKeys) -> (r: Result<Event, Error>)
    requires
        all_named(tag_views(tags@)),
        forall|i: int| 0 <= i < tags@.len() ==> (#[trigger] tags@[i])@[0] != "p"@,
    ensures
        match r {
            Ok(event) => {
                &&& sealing_fault(*keys, text@) is None
                &&& event.kind == kind
                &&& tag_views(event.tags@) == tag_views(tags@)
                &&& opened(*keys, event.content@) == Ok::<Seq<char>, Fault>(text@)
                &&& authored(*keys, event)
            },
            Err(e) => sealing_fault(*keys, text@) == Some(e@),
        },
{
    let secret_key = match secret_key(keys) {
        Ok(text) => text,
        Err(e) => {
            return Err(e);
        },
    };
    match nip44_encrypt(secret_key, keys.public_key.as_str(), text) {
        Ok(payload) => match sign_event(secret_key, kind, payload, &tags) {
            Ok(event) => Ok(event),
            Err(e) => Err(Error::EventBuilder(e)),
        },
        Err(e) => Err(Error::Encrypt(e)),
    }
}

/// The value of the tag that links an event to a wallet: the kind of the wallet's own event, the
/// wallet's public key and its id, with colons between them.
pub open spec fn wallet_link(wallet_id: Seq<char>, public_key: Seq<char>) -> Seq<char> {
    decimal(WALLET_INFO_KIND as nat) + ":"@ + public_key + ":"@ + wallet_id
}

/// The tag that links an event to a wallet.
pub fn wallet_link_tag(wallet_id: &str, keys: &WalletKeys) -> (r: Tag)
    ensures
        r@ == seq![ID_LINK_TAG@, wallet_link(wallet_id@, keys.public_key@)],
{
    let mut link = decimal_text(WALLET_INFO_KIND as u64);
    link.append(":");
    link.append(keys.public_key.as_str());
    link.append(":");
    link.append(wallet_id);
    Tag::with_value(ID_LINK_TAG, link.as_str())
}

} // verus!
