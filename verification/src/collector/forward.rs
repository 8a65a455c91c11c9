//! Sending a corrected batch on: where it goes, and what an answer means.

use vstd::prelude::*;
use vstd::utf8::encode_utf8;

use crate::collector::config::{Target, TargetView, LOGS_PATH};
use crate::text::{join_with, joined_with, split_words, words};

verus! {

/// The host that is named over a unix socket, where it means nothing and HTTP still asks for it.
pub const LOCAL_AUTHORITY: &'static str = "localhost";

/// The host and the path of a request to a target.
pub open spec fn destination_of(target: TargetView) -> (Seq<char>, Seq<char>) {
    match target {
        TargetView::Unix(_) => (LOCAL_AUTHORITY@, LOGS_PATH@),
        TargetView::Http { authority, path } => (authority, path),
    }
}

/// The host and the path of a request to a target.
pub fn destination(target: &Target) -> (r: (&str, &str))
    ensures
        (r.0@, r.1@) == destination_of(target.view()),
{
    match target {
        Target::Unix(_) => (LOCAL_AUTHORITY, LOGS_PATH),
        Target::Http { authority, path } => (authority.as_str(), path.as_str()),
    }
}

/// Whether a byte may stand in a header.
pub open spec fn is_legal(b: u8) -> bool {
    (b >= 32 && b != 127) || b == 9
}

pub open spec fn all_legal(bytes: Seq<u8>) -> bool {
    forall|i: int| 0 <= i < bytes.len() ==> is_legal(#[trigger] bytes[i])
}

/// The `Authorization` header for an API key. A key that no header can hold is not sent.
pub fn authorization(api_key: Option<&str>) -> (r: Option<String>)
    ensures
        match api_key {
            None => r is None,
            Some(key) => if all_legal(encode_utf8("Bearer "@ + key@)) {
                r matches Some(value) && value@ == "Bearer "@ + key@
            } else {
                r is None
            },
        },
{
    match api_key {
        None => None,
        Some(key) => {
            let mut value = "Bearer ".to_owned();
            value.append(key);
            if legal(value.as_str()) {
                Some(value)
            } else {
                None
            }
        },
    }
}

fn legal(s: &str) -> (r: bool)
    ensures
        r == all_legal(encode_utf8(s@)),
{
    let bytes = s.as_bytes();
    let mut i: usize = 0;
    while i < bytes.len()
        invariant
            i <= bytes@.len(),
            bytes@ == encode_utf8(s@),
            forall|k: int| 0 <= k < i ==> is_legal(#[trigger] bytes@[k]),
        decreases bytes.len() - i,
    {
        let b: u8 = bytes[i];
        if !((b >= 32 && b != 127) || b == 9) {
            assert(!is_legal(bytes@[i as int]));
            return false;
        }
        i += 1;
    }
    true
}

/// Whether a kept connection is used again: not once the peer has closed it, or what drives it has
/// ended. This is decided before a batch is committed to the connection, since afterwards a closed
/// connection cannot be told from a refused batch.
pub fn reusable(closed: bool, ended: bool) -> (r: bool)
    ensures
        r == (!closed && !ended),
{
    !closed && !ended
}

/// Whether a status is a success; anything else keeps the batch for another attempt.
pub fn is_success(status: u16) -> (r: bool)
    ensures
        r == (200 <= status < 300),
{
    200 <= status && status < 300
}

/// How a target is named to an operator.
pub open spec fn name_of(target: TargetView) -> Seq<char> {
    match target {
        TargetView::Unix(path) => path,
        TargetView::Http { authority, path: _ } => authority,
    }
}

/// How a target is named to an operator.
pub fn describe(target: &Target) -> (r: String)
    ensures
        r@ == name_of(target.view()),
{
    match target {
        Target::Unix(path) => path.clone(),
        Target::Http { authority, path: _ } => authority.clone(),
    }
}

/// A byte as it is shown: itself where it can be printed, else a space.
pub open spec fn printable(b: u8) -> char {
    if 32 <= b < 127 {
        b as char
    } else {
        ' '
    }
}

/// What can be read in a body that is not text: its printable runs, one space apart.
pub open spec fn legible(body: Seq<u8>) -> Seq<char> {
    joined_with(words(Seq::new(body.len(), |i: int| printable(body[i]))), " "@)
}

/// What a refusal is shown as: the status, and what can be read in the body.
pub open spec fn shown(status: Seq<char>, body: Seq<u8>) -> Seq<char> {
    if legible(body).len() == 0 {
        status
    } else {
        status + " ("@ + legible(body) + ")"@
    }
}

/// What a refusal is shown as. The body is a message that only its reader decodes, but the runs of
/// text in it say why.
pub fn detail(status: &str, body: &[u8]) -> (r: String)
    ensures
        r@ == shown(status@, body@),
{
    let mut text = String::new();
    let mut i: usize = 0;
    while i < body.len()
        invariant
            i <= body@.len(),
            text@ == Seq::new(i as nat, |k: int| printable(body@[k])),
        decreases body.len() - i,
    {
        let b: u8 = body[i];
        text.push(if 32 <= b && b < 127 { b as char } else { ' ' });
        i += 1;
        assert(text@ =~= Seq::new(i as nat, |k: int| printable(body@[k])));
    }
    assert(text@ =~= Seq::new(body@.len(), |k: int| printable(body@[k])));
    let parts = split_words(text.as_str());
    let legible_text = join_with(&parts, " ");
    if legible_text.as_str().unicode_len() == 0 {
        return status.to_owned();
    }
    let mut out = status.to_owned();
    out.append(" (");
    out.append(legible_text.as_str());
    out.append(")");
    out
}

/// The words for a batch that the target refused.
pub fn rejection(target: &Target, status: &str, body: &[u8]) -> (r: String)
    ensures
        r@ == name_of(target.view()) + " rejected the batch: "@ + shown(status@, body@),
{
    let mut out = describe(target);
    out.append(" rejected the batch: ");
    out.append(detail(status, body).as_str());
    out
}

} // verus!
