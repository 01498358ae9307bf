//! What can go wrong.

use nostr_sdk::event::builder::Error as BuilderError;
use nostr_sdk::key::Error as KeyError;
use nostr_sdk::nips::nip44::Error as Nip44Error;
use serde_json::Error as JsonError;
use vstd::prelude::*;

use crate::text::NumberError;

verus! {

/// The error type of NIP-44 encryption.
#[verifier::external_type_specification]
#[verifier::external_body]
pub struct ExNip44Error(Nip44Error);

/// The error type of the event builder.
#[verifier::external_type_specification]
#[verifier::external_body]
pub struct ExBuilderError(BuilderError);

/// The error type of Nostr keys.
#[verifier::external_type_specification]
#[verifier::external_body]
pub struct ExKeyError(KeyError);

/// The error type of JSON.
#[verifier::external_type_specification]
#[verifier::external_body]
pub struct ExJsonError(JsonError);

/// What goes against NUT-00
#[derive(Clone, Copy, Debug, PartialEq, Eq, Structural)]
pub enum Nut00Error {
    /// A text is not the name of a currency unit
    UnsupportedUnit,
    /// A secret hashes to no point on the curve
    NoPoint,
}

/// What goes against NUT-02
#[derive(Clone, Copy, Debug, PartialEq, Eq, Structural)]
pub enum Nut02Error {
    /// A keyset id is too short or too long
    Length,
    /// A keyset id is of an unknown version
    UnknownVersion,
    /// A keyset id is not hexadecimal
    Hex,
}

/// What goes against NUT-04
#[derive(Clone, Copy, Debug, PartialEq, Eq, Structural)]
pub enum Nut04Error {
    /// A text is not the name of a mint quote's state
    UnknownState,
}

/// Error of the wallet store
#[derive(Debug)]
pub enum Error {
    /// A tag has no value
    EmptyTag(String),
    /// A message could not be encrypted or decrypted
    Encrypt(Nip44Error),
    /// An event could not be built
    EventBuilder(BuilderError),
    /// A text is not the JSON that was expected
    Json(JsonError),
    /// A text is not a secret key, or the wallet's keys hold none
    Key(KeyError),
    /// A tag that a record must have is missing
    MissingTag(String),
    /// Event not found
    NotFound,
    /// NUT-00 error
    Nut00(Nut00Error),
    /// NUT-02 error
    Nut02(Nut02Error),
    /// NUT-04 error
    Nut04(Nut04Error),
    /// A text is not a number of the expected size
    ParseInt(NumberError),
    /// A tag without any field
    Tag,
    /// An event lacks the tag that it is found by
    TagNotFound(String),
}

/// An error as contracts speak of it: which one it is, and its cause or the tag that it names.
pub enum Fault {
    EmptyTag(Seq<char>),
    Encrypt,
    EventBuilder,
    Json,
    Key,
    MissingTag(Seq<char>),
    NotFound,
    Nut00(Nut00Error),
    Nut02(Nut02Error),
    Nut04(Nut04Error),
    ParseInt(NumberError),
    Tag,
    TagNotFound(Seq<char>),
}

impl View for Error {
    type V = Fault;

    open spec fn view(&self) -> Fault {
        match self {
            Error::EmptyTag(name) => Fault::EmptyTag(name@),
            Error::Encrypt(_) => Fault::Encrypt,
            Error::EventBuilder(_) => Fault::EventBuilder,
            Error::Json(_) => Fault::Json,
            Error::Key(_) => Fault::Key,
            Error::MissingTag(name) => Fault::MissingTag(name@),
            Error::NotFound => Fault::NotFound,
            Error::Nut00(cause) => Fault::Nut00(*cause),
            Error::Nut02(cause) => Fault::Nut02(*cause),
            Error::Nut04(cause) => Fault::Nut04(*cause),
            Error::ParseInt(cause) => Fault::ParseInt(*cause),
            Error::Tag => Fault::Tag,
            Error::TagNotFound(name) => Fault::TagNotFound(name@),
        }
    }
}

/// A result as contracts speak of it: the view of the value, or the fault.
pub open spec fn outcome<T: View>(r: Result<T, Error>) -> Result<T::V, Fault> {
    match r {
        Ok(v) => Ok(v@),
        Err(e) => Err(e@),
    }
}

} // verus!
