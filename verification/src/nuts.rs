//! The Cashu values that the wallet store keeps.

use vstd::prelude::*;
use vstd::string::*;

use crate::collections::Key;
use crate::error::{outcome, Error, Fault, Nut00Error, Nut02Error, Nut04Error};
use crate::text::{
    hex_value, hexadecimal, hexadecimal_text, lemma_hex_seven_bytes, lemma_seven_bytes_hex,
    parse_hex, same_text,
};

verus! {

/// The address of a mint or a relay, as it was written
#[derive(Debug, PartialEq, Eq, Hash)]
pub struct UncheckedUrl {
    pub text: String,
}

impl View for UncheckedUrl {
    type V = Seq<char>;

    open spec fn view(&self) -> Seq<char> {
        self.text@
    }
}

impl Clone for UncheckedUrl {
    fn clone(&self) -> (r: Self)
        ensures
            r == *self,
    {
        UncheckedUrl { text: self.text.clone() }
    }
}

impl Key for UncheckedUrl {
    fn same(&self, other: &Self) -> (r: bool) {
        self.text == other.text
    }

    fn copy(&self) -> (r: Self) {
        self.clone()
    }
}

impl UncheckedUrl {
    /// Takes a text as it is.
    pub fn from_str(text: &str) -> (r: Self)
        ensures
            r@ == text@,
    {
        UncheckedUrl { text: text.to_owned() }
    }
}

/// An amount in some currency unit
#[derive(Clone, Copy, Debug, PartialEq, Eq, Hash, Structural)]
pub struct Amount {
    pub value: u64,
}

/// Currency unit
#[derive(Clone, Copy, Debug, PartialEq, Eq, Hash, Structural)]
pub enum CurrencyUnit {
    /// Sat
    Sat,
    /// Msat
    Msat,
    /// Usd
    Usd,
    /// Euro
    Eur,
}

impl View for CurrencyUnit {
    type V = CurrencyUnit;

    open spec fn view(&self) -> CurrencyUnit {
        *self
    }
}

impl CurrencyUnit {
    /// The unit's name.
    pub open spec fn name(self) -> Seq<char> {
        match self {
            CurrencyUnit::Sat => "sat"@,
            CurrencyUnit::Msat => "msat"@,
            CurrencyUnit::Usd => "usd"@,
            CurrencyUnit::Eur => "eur"@,
        }
    }

    /// The unit of a name.
    pub open spec fn named(name: Seq<char>) -> Result<CurrencyUnit, Fault> {
        if name == "sat"@ {
            Ok(CurrencyUnit::Sat)
        } else if name == "msat"@ {
            Ok(CurrencyUnit::Msat)
        } else if name == "usd"@ {
            Ok(CurrencyUnit::Usd)
        } else if name == "eur"@ {
            Ok(CurrencyUnit::Eur)
        } else {
            Err(Fault::Nut00(Nut00Error::UnsupportedUnit))
        }
    }

    pub fn from_str(text: &str) -> (r: Result<CurrencyUnit, Error>)
        ensures
            outcome(r) == CurrencyUnit::named(text@),
    {
        if same_text(text, "sat") {
            Ok(CurrencyUnit::Sat)
        } else if same_text(text, "msat") {
            Ok(CurrencyUnit::Msat)
        } else if same_text(text, "usd") {
            Ok(CurrencyUnit::Usd)
        } else if same_text(text, "eur") {
            Ok(CurrencyUnit::Eur)
        } else {
            Err(Error::Nut00(Nut00Error::UnsupportedUnit))
        }
    }

    pub fn to_string(&self) -> (r: String)
        ensures
            r@ == self.name(),
    {
        match self {
            CurrencyUnit::Sat => "sat".to_owned(),
            CurrencyUnit::Msat => "msat".to_owned(),
            CurrencyUnit::Usd => "usd".to_owned(),
            CurrencyUnit::Eur => "eur".to_owned(),
        }
    }

    /// Reading a unit's name gives that unit back.
    pub proof fn law_name_round_trip(self)
        ensures
            CurrencyUnit::named(self.name()) == Ok::<CurrencyUnit, Fault>(self),
    {
        reveal_strlit("sat");
        reveal_strlit("msat");
        reveal_strlit("usd");
        reveal_strlit("eur");
        assert("sat"@[0] == 's' && "usd"@[0] == 'u' && "eur"@[0] == 'e');
        assert("sat"@.len() == 3 && "msat"@.len() == 4);
    }
}

/// The id of a keyset: a version byte, which is zero, and seven bytes
#[derive(Clone, Copy, Debug, PartialEq, Eq, Hash, Structural)]
pub struct Id {
    value: u64,
}

impl View for Id {
    type V = u64;

    closed spec fn view(&self) -> u64 {
        self.value
    }
}

impl Key for Id {
    fn same(&self, other: &Self) -> (r: bool) {
        self.value == other.value
    }

    fn copy(&self) -> (r: Self) {
        *self
    }
}

/// The text of a keyset id: sixteen hexadecimal digits.
pub open spec fn id_text(id: u64) -> Seq<char> {
    hexadecimal(id as nat, 16)
}

/// The numbers that are keyset ids: the version byte is zero.
pub open spec fn is_id(id: u64) -> bool {
    id < 0x100_0000_0000_0000
}

/// Reading the text of a keyset id gives that id back.
pub proof fn law_id_round_trip(id: u64)
    requires
        is_id(id),
    ensures
        id_of_text(id_text(id)) == Ok::<u64, Fault>(id),
{
    lemma_seven_bytes_hex(id as nat);
}

/// The keyset id that a text stands for: sixteen hexadecimal digits, of which the first two are
/// zero.
pub open spec fn id_of_text(s: Seq<char>) -> Result<u64, Fault> {
    if s.len() != 16 {
        Err(Fault::Nut02(Nut02Error::Length))
    } else if s[0] != '0' || s[1] != '0' {
        Err(Fault::Nut02(Nut02Error::UnknownVersion))
    } else {
        match hex_value(s) {
            Some(value) => Ok(value as u64),
            None => Err(Fault::Nut02(Nut02Error::Hex)),
        }
    }
}

impl Id {
    /// The version byte is zero.
    #[verifier::type_invariant]
    spec fn wf(self) -> bool {
        is_id(self.value)
    }

    pub fn from_str(text: &str) -> (r: Result<Id, Error>)
        ensures
            outcome(r) == id_of_text(text@),
    {
        if text.unicode_len() != 16 {
            return Err(Error::Nut02(Nut02Error::Length));
        }
        if text.get_char(0) != '0' || text.get_char(1) != '0' {
            return Err(Error::Nut02(Nut02Error::UnknownVersion));
        }
        proof {
            lemma_hex_seven_bytes(text@);
        }
        match parse_hex(text) {
            Some(value) => Ok(Id { value }),
            None => Err(Error::Nut02(Nut02Error::Hex)),
        }
    }

    pub fn to_string(&self) -> (r: String)
        ensures
            r@ == id_text(self@),
            is_id(self@),
    {
        proof {
            use_type_invariant(self);
        }
        hexadecimal_text(self.value, 16)
    }
}

/// State of a mint quote
#[derive(Clone, Copy, Debug, PartialEq, Eq, Hash, Structural)]
pub enum MintQuoteState {
    /// The quote has not been paid
    Unpaid,
    /// The quote has been paid, and its ecash can be minted
    Paid,
    /// The minting is in progress
    Pending,
    /// The ecash has been issued
    Issued,
}

impl View for MintQuoteState {
    type V = MintQuoteState;

    open spec fn view(&self) -> MintQuoteState {
        *self
    }
}

impl MintQuoteState {
    /// The state of a name.
    pub open spec fn named(name: Seq<char>) -> Result<MintQuoteState, Fault> {
        if name == "UNPAID"@ {
            Ok(MintQuoteState::Unpaid)
        } else if name == "PAID"@ {
            Ok(MintQuoteState::Paid)
        } else if name == "PENDING"@ {
            Ok(MintQuoteState::Pending)
        } else if name == "ISSUED"@ {
            Ok(MintQuoteState::Issued)
        } else {
            Err(Fault::Nut04(Nut04Error::UnknownState))
        }
    }

    pub fn from_str(text: &str) -> (r: Result<MintQuoteState, Error>)
        ensures
            outcome(r) == MintQuoteState::named(text@),
    {
        if same_text(text, "UNPAID") {
            Ok(MintQuoteState::Unpaid)
        } else if same_text(text, "PAID") {
            Ok(MintQuoteState::Paid)
        } else if same_text(text, "PENDING") {
            Ok(MintQuoteState::Pending)
        } else if same_text(text, "ISSUED") {
            Ok(MintQuoteState::Issued)
        } else {
            Err(Error::Nut04(Nut04Error::UnknownState))
        }
    }
}

/// State of a melt quote
#[derive(Clone, Copy, Debug, PartialEq, Eq, Hash, Structural)]
pub enum MeltQuoteState {
    /// The quote has not been paid
    Unpaid,
    /// The quote has been paid
    Paid,
    /// The payment is in progress
    Pending,
}

/// State of an ecash proof
#[derive(Clone, Copy, Debug, PartialEq, Eq, Hash, Structural)]
pub enum State {
    /// Spent
    Spent,
    /// Unspent
    Unspent,
    /// Pending
    Pending,
    /// Set aside, so that it is not used
    Reserved,
}

/// A point on the curve, as the hexadecimal text of its compressed form
#[derive(Debug, PartialEq, Eq, Hash)]
pub struct PublicKey {
    pub text: String,
}

impl View for PublicKey {
    type V = Seq<char>;

    open spec fn view(&self) -> Seq<char> {
        self.text@
    }
}

impl Clone for PublicKey {
    fn clone(&self) -> (r: Self)
        ensures
            r == *self,
    {
        PublicKey { text: self.text.clone() }
    }
}

impl Key for PublicKey {
    fn same(&self, other: &Self) -> (r: bool) {
        self.text == other.text
    }

    fn copy(&self) -> (r: Self) {
        self.clone()
    }
}

/// The conditions under which a proof can be spent, as their canonical text
#[derive(Debug, PartialEq, Eq, Hash)]
pub struct SpendingConditions {
    pub text: String,
}

impl View for SpendingConditions {
    type V = Seq<char>;

    open spec fn view(&self) -> Seq<char> {
        self.text@
    }
}

impl Clone for SpendingConditions {
    fn clone(&self) -> (r: Self)
        ensures
            r == *self,
    {
        SpendingConditions { text: self.text.clone() }
    }
}

/// The keys of a keyset: the public key of each amount
#[derive(Clone, Debug, PartialEq, Eq)]
pub struct Keys {
    pub keys: Vec<(Amount, PublicKey)>,
}

/// Keyset info
#[derive(Clone, Copy, Debug, PartialEq, Eq)]
pub struct KeySetInfo {
    /// Keyset id
    pub id: Id,
    /// Unit of the keyset
    pub unit: CurrencyUnit,
    /// Whether the mint signs with the keyset
    pub active: bool,
    /// Input fee in parts per thousand
    pub input_fee_ppk: u64,
}

/// An ecash proof, and what follows from its secret
#[derive(Clone, Debug, PartialEq, Eq)]
pub struct Proof {
    /// Amount
    pub amount: Amount,
    /// Id of the keyset that signed it
    pub keyset_id: Id,
    /// Secret
    pub secret: String,
    /// The mint's signature on the secret
    pub c: PublicKey,
    /// Witness, as its JSON text
    pub witness: Option<String>,
    /// Proof of the signature's discrete logarithm equality, as its JSON text
    pub dleq: Option<String>,
    /// The point to which the secret hashes, where it hashes to one
    pub y: Option<PublicKey>,
    /// The spending conditions that the secret states, where it states some
    pub spending_condition: Option<SpendingConditions>,
}

/// A proof with what the wallet knows of it
#[derive(Clone, Debug, PartialEq, Eq)]
pub struct ProofInfo {
    /// The proof
    pub cash: Proof,
    /// The point to which its secret hashes
    pub y: PublicKey,
    /// Mint that issued it
    pub mint_url: UncheckedUrl,
    /// State
    pub state: State,
    /// The conditions under which it can be spent
    pub spending_condition: Option<SpendingConditions>,
    /// Unit of its keyset
    pub unit: CurrencyUnit,
}

/// A proof with what the wallet knows of it, as contracts speak of it.
pub struct ProofInfoView {
    pub cash: Proof,
    pub y: Seq<char>,
    pub mint_url: Seq<char>,
    pub state: State,
    pub spending_condition: Option<Seq<char>>,
    pub unit: CurrencyUnit,
}

/// The text of conditions, where there are some.
pub open spec fn condition_text(o: Option<SpendingConditions>) -> Option<Seq<char>> {
    match o {
        Some(condition) => Some(condition@),
        None => None,
    }
}

impl View for ProofInfo {
    type V = ProofInfoView;

    open spec fn view(&self) -> ProofInfoView {
        ProofInfoView {
            cash: self.cash,
            y: self.y@,
            mint_url: self.mint_url@,
            state: self.state,
            spending_condition: condition_text(self.spending_condition),
            unit: self.unit,
        }
    }
}

/// What proofs are asked for. What is not given may be anything.
pub struct ProofQuery {
    pub mint_url: Option<Seq<char>>,
    pub unit: Option<CurrencyUnit>,
    pub state: Option<Seq<State>>,
    pub spending_conditions: Option<Seq<Seq<char>>>,
}

/// The query that its parts make.
pub open spec fn proof_query(
    mint_url: Option<UncheckedUrl>,
    unit: Option<CurrencyUnit>,
    state: Option<Vec<State>>,
    spending_conditions: Option<Vec<SpendingConditions>>,
) -> ProofQuery {
    ProofQuery {
        mint_url: match mint_url {
            Some(url) => Some(url@),
            None => None,
        },
        unit,
        state: match state {
            Some(states) => Some(states@),
            None => None,
        },
        spending_conditions: match spending_conditions {
            Some(conditions) => Some(conditions@.map_values(|c: SpendingConditions| c@)),
            None => None,
        },
    }
}

impl ProofInfoView {
    /// Whether every part of a query that is given holds of the proof.
    pub open spec fn fits(self, query: ProofQuery) -> bool {
        &&& query.mint_url matches Some(url) ==> url == self.mint_url
        &&& query.unit matches Some(unit) ==> unit == self.unit
        &&& query.state matches Some(states) ==> states.contains(self.state)
        &&& query.spending_conditions matches Some(conditions) ==> {
            &&& self.spending_condition is Some
            &&& conditions.contains(self.spending_condition->0)
        }
    }
}

impl ProofInfo {
    /// Puts together what the wallet knows of a proof, whose secret must hash to a point.
    pub fn new(cash: Proof, mint_url: UncheckedUrl, state: State, unit: CurrencyUnit) -> (r: Result<
        ProofInfo,
        Error,
    >)
        ensures
            outcome(r) == (match cash.y {
                Some(y) => Ok(
                    ProofInfoView {
                        cash,
                        y: y@,
                        mint_url: mint_url@,
                        state,
                        spending_condition: condition_text(cash.spending_condition),
                        unit,
                    },
                ),
                None => Err(Fault::Nut00(Nut00Error::NoPoint)),
            }),
    {
        let y = match &cash.y {
            Some(y) => y.clone(),
            None => {
                return Err(Error::Nut00(Nut00Error::NoPoint));
            },
        };
        let spending_condition = match &cash.spending_condition {
            Some(condition) => Some(condition.clone()),
            None => None,
        };
        Ok(ProofInfo { cash, y, mint_url, state, spending_condition, unit })
    }

    pub fn matches_conditions(
        &self,
        mint_url: &Option<UncheckedUrl>,
        unit: &Option<CurrencyUnit>,
        state: &Option<Vec<State>>,
        spending_conditions: &Option<Vec<SpendingConditions>>,
    ) -> (r: bool)
        ensures
            r == self@.fits(proof_query(*mint_url, *unit, *state, *spending_conditions)),
    {
        if let Some(url) = mint_url {
            if !url.same(&self.mint_url) {
                return false;
            }
        }
        if let Some(u) = unit {
            if *u != self.unit {
                return false;
            }
        }
        if let Some(states) = state {
            if !holds_state(states, self.state) {
                return false;
            }
        }
        if let Some(conditions) = spending_conditions {
            match &self.spending_condition {
                None => {
                    return false;
                },
                Some(own) => {
                    if !holds_condition(conditions, own) {
                        return false;
                    }
                },
            }
        }
        true
    }
}

fn holds_state(states: &Vec<State>, state: State) -> (r: bool)
    ensures
        r == states@.contains(state),
{
    for i in 0..states.len()
        invariant
            forall|j: int| 0 <= j < i ==> states@[j] != state,
    {
        if states[i] == state {
            return true;
        }
    }
    false
}

fn holds_condition(conditions: &Vec<SpendingConditions>, own: &SpendingConditions) -> (r: bool)
    ensures
        r == conditions@.map_values(|c: SpendingConditions| c@).contains(own@),
{
    let ghost views = conditions@.map_values(|c: SpendingConditions| c@);
    for i in 0..conditions.len()
        invariant
            views == conditions@.map_values(|c: SpendingConditions| c@),
            forall|j: int| 0 <= j < i ==> views[j] != own@,
    {
        assert(views[i as int] == conditions@[i as int]@);
        if conditions[i].text == own.text {
            return true;
        }
    }
    false
}

} // verus!
