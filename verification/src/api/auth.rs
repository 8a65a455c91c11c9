//! Verification of API keys.
//!
//! A request without a valid key is refused. Two asymmetries matter for what a client does next. A
//! key that could not be checked is not a wrong key: the answer to it can be retried. And every
//! wrong key gets the same answer, which therefore does not tell which ids exist.

use vstd::prelude::*;

use crate::auth::{
    from_authorization, hashed_bytes, parsed_header, reason_text, same_hash, Malformed, Token, TokenView,
};
use crate::content_id::blake3_of;

verus! {

/// What verification concludes about one request.
#[derive(Debug, PartialEq, Eq)]
pub enum Outcome {
    /// No `Authorization` header.
    Absent,
    /// A header that is no usable token; what is wrong with its shape.
    Malformed(Malformed),
    /// No key with that id was ever issued.
    UnknownId,
    /// The id exists, and its secret is another.
    WrongSecret,
    /// The key could not be checked.
    Unavailable,
    /// Verified; the id is public.
    Valid { id: String },
}

impl Outcome {
    /// The one thing that lets a request through.
    pub fn is_authorized(&self) -> (r: bool)
        ensures
            r == (self is Valid),
    {
        match self {
            Outcome::Valid { id: _ } => true,
            _ => false,
        }
    }
}

/// Which form of error a route speaks.
#[derive(Debug, Clone, Copy, PartialEq, Eq, Structural)]
pub enum Shape {
    /// A protobuf status.
    Otlp,
    /// A JSON object.
    Json,
}

/// The bytes that a header can hold as text: visible ASCII, the space and the tab.
pub open spec fn is_header_text(b: u8) -> bool {
    32 <= b < 127 || b == 9
}

/// The text of a header, where its bytes are text.
pub open spec fn header_text(bytes: Seq<u8>) -> Option<Seq<char>> {
    if forall|i: int| 0 <= i < bytes.len() ==> is_header_text(#[trigger] bytes[i]) {
        Some(Seq::new(bytes.len(), |i: int| bytes[i] as char))
    } else {
        None
    }
}

/// The text of a header, where its bytes are text.
pub fn text_of_header(bytes: &[u8]) -> (r: Option<String>)
    ensures
        match header_text(bytes@) {
            Some(text) => r matches Some(s) && s@ == text,
            None => r is None,
        },
{
    let mut out = String::new();
    let mut i: usize = 0;
    while i < bytes.len()
        invariant
            i <= bytes@.len(),
            out@ == Seq::new(i as nat, |j: int| bytes@[j] as char),
            forall|j: int| 0 <= j < i ==> is_header_text(#[trigger] bytes@[j]),
        decreases bytes@.len() - i,
    {
        let b: u8 = bytes[i];
        if !((32 <= b && b < 127) || b == 9) {
            assert(!is_header_text(bytes@[i as int]));
            return None;
        }
        out.push(b as char);
        i += 1;
        assert(out@ =~= Seq::new(i as nat, |j: int| bytes@[j] as char));
    }
    assert(out@ =~= Seq::new(bytes@.len(), |j: int| bytes@[j] as char));
    Some(out)
}

/// What a header comes to before any key is looked up: the token to look up, or a conclusion.
pub open spec fn presentation(header: Option<Seq<u8>>) -> Result<TokenView, Option<Malformed>> {
    match header {
        None => Err(None),
        Some(bytes) => match header_text(bytes) {
            None => Err(Some(Malformed::NotText)),
            Some(text) => match parsed_header(text) {
                Ok(token) => Ok(token),
                Err(reason) => Err(Some(reason)),
            },
        },
    }
}

/// What to do about a request once its header was read.
pub enum Evaluation {
    /// There is nothing to look up.
    Concluded(Outcome),
    /// Look the token's id up, and [`conclude`].
    LookUp(Token),
}

/// Reads the `Authorization` header, which need not be text.
pub fn evaluate(presented: Option<&[u8]>) -> (r: Evaluation)
    ensures
        match presentation(
            match presented {
                Some(bytes) => Some(bytes@),
                None => None,
            },
        ) {
            Ok(t) => r matches Evaluation::LookUp(token) && token@ == t && t.valid(),
            Err(None) => r == Evaluation::Concluded(Outcome::Absent),
            Err(Some(reason)) => r == Evaluation::Concluded(Outcome::Malformed(reason)),
        },
{
    match presented {
        None => Evaluation::Concluded(Outcome::Absent),
        Some(bytes) => match text_of_header(bytes) {
            None => Evaluation::Concluded(Outcome::Malformed(Malformed::NotText)),
            Some(text) => match from_authorization(text.as_str()) {
                Ok(token) => Evaluation::LookUp(token),
                Err(reason) => Evaluation::Concluded(Outcome::Malformed(reason)),
            },
        },
    }
}

/// What looking an id up came to.
#[derive(Debug, Clone, Copy, PartialEq, Eq)]
pub enum Lookup {
    /// The hash that is stored under the id.
    Found([u8; 32]),
    NotFound,
    /// The table could not be read.
    Failed,
}

/// Compares the secret of the token with what is stored under its id.
pub fn conclude(token: &Token, stored: Lookup) -> (r: Outcome)
    ensures
        match stored {
            Lookup::Found(hash) => if hash@ == blake3_of(hashed_bytes(token@.secret)) {
                r matches Outcome::Valid { id } && id@ == token@.id
            } else {
                r is WrongSecret
            },
            Lookup::NotFound => r is UnknownId,
            Lookup::Failed => r is Unavailable,
        },
{
    match stored {
        Lookup::Found(hash) => if same_hash(&token.secret_hash(), &hash) {
            Outcome::Valid { id: token.id().to_owned() }
        } else {
            Outcome::WrongSecret
        },
        Lookup::NotFound => Outcome::UnknownId,
        Lookup::Failed => Outcome::Unavailable,
    }
}

/// The answer to a request that is not let through.
#[derive(Debug, PartialEq, Eq)]
pub struct Refusal {
    pub status: u16,
    pub message: &'static str,
    pub shape: Shape,
    /// What goes into the `WWW-Authenticate` header.
    pub challenge: Option<&'static str>,
}

/// The status and the message of a refusal.
pub open spec fn refusal(unavailable: bool) -> (u16, Seq<char>) {
    if unavailable {
        (503, "the API key could not be verified; try again"@)
    } else {
        (401, "a valid API key is required"@)
    }
}

/// The answer to an outcome that lets nothing through.
pub fn refuse(outcome: &Outcome, shape: Shape) -> (r: Refusal)
    ensures
        (r.status, r.message@) == refusal(outcome is Unavailable),
        r.shape == shape,
        r.challenge is Some <==> r.status == 401,
        r.challenge matches Some(scheme) ==> scheme@ == "Bearer"@,
{
    match outcome {
        Outcome::Unavailable => Refusal {
            status: 503,
            message: "the API key could not be verified; try again",
            shape,
            challenge: None,
        },
        _ => Refusal { status: 401, message: "a valid API key is required", shape, challenge: Some("Bearer") },
    }
}

/// How loudly an outcome is logged.
#[derive(Debug, Clone, Copy, PartialEq, Eq, Structural)]
pub enum Level {
    Debug,
    Warn,
    Error,
}

/// The log line of an outcome: its level and its words, and what is wrong with the shape of a key that
/// is no key. Unlike the answer, it tells the ways a key can be wrong apart.
pub fn report(outcome: &Outcome) -> (r: (Level, &'static str, Option<&'static str>))
    ensures
        (r.0, r.1@) == match outcome {
            Outcome::Valid { id: _ } => (Level::Debug, "request authenticated"@),
            Outcome::Unavailable => (
                Level::Error,
                "could not verify an API key; answering 503 so the client retries rather than discards"@,
            ),
            Outcome::Absent => (Level::Warn, "rejected: no API key presented"@),
            Outcome::Malformed(_) => (Level::Warn, "rejected: unusable API key"@),
            Outcome::UnknownId => (Level::Warn, "rejected: API key id was never issued"@),
            Outcome::WrongSecret => (Level::Warn, "rejected: API key secret does not match"@),
        },
        match outcome {
            Outcome::Malformed(shape) => r.2 matches Some(reason) && reason@ == reason_text(*shape),
            _ => r.2 is None,
        },
{
    match outcome {
        Outcome::Valid { id: _ } => (Level::Debug, "request authenticated", None),
        Outcome::Unavailable => (
            Level::Error,
            "could not verify an API key; answering 503 so the client retries rather than discards",
            None,
        ),
        Outcome::Absent => (Level::Warn, "rejected: no API key presented", None),
        Outcome::Malformed(shape) => (Level::Warn, "rejected: unusable API key", Some(shape.reason())),
        Outcome::UnknownId => (Level::Warn, "rejected: API key id was never issued", None),
        Outcome::WrongSecret => (Level::Warn, "rejected: API key secret does not match", None),
    }
}

/// Every way a key can be wrong is answered alike, and differently from a key that could not be
/// checked; only the latter answer may be retried.
pub proof fn law_wrong_keys_are_answered_alike(a: Outcome, b: Outcome)
    requires
        a !is Valid,
        b !is Valid,
    ensures
        refusal(a is Unavailable) == refusal(b is Unavailable) <==> (a is Unavailable <==> b is Unavailable),
        refusal(a is Unavailable).0 == 503 <==> a is Unavailable,
{
}

} // verus!
