//! Compressing a response, when the client asked for it and the body is worth it.

use std::io::Write;

use vstd::prelude::*;

use crate::text::{
    after, ascii_lowered, before, begins_with, finishes_with, first_index, has_prefix, has_suffix, lowered,
    pieces, same_ignoring_ascii_case, same_text, split, split_once, texts, trim, trimmed,
};
use crate::wire::{gunzipped, payload_of, FailureView, PAYLOAD_TOO_LARGE};

verus! {

/// Bodies below this are sent as they are: on a small body the envelope outweighs what is saved.
pub const MIN_COMPRESS_BYTES: usize = 1024;

/// The largest response body that is collected in order to compress it.
pub const MAX_BUFFER_BYTES: usize = 67_108_864;

/// What every response that may be compressed says of what it depends on.
pub const VARY: &'static str = "accept-encoding";

/// Whether a client takes gzip.
#[derive(Debug, PartialEq, Eq)]
pub enum Acceptance {
    No,
    Yes,
    /// It depends on this weight, which is a decimal fraction; see [`weight_allows`].
    Weighted(String),
}

/// What an [`Acceptance`] says.
pub enum AcceptanceView {
    No,
    Yes,
    Weighted(Seq<char>),
}

impl Acceptance {
    pub open spec fn view(self) -> AcceptanceView {
        match self {
            Acceptance::No => AcceptanceView::No,
            Acceptance::Yes => AcceptanceView::Yes,
            Acceptance::Weighted(q) => AcceptanceView::Weighted(q@),
        }
    }
}

/// The weight that a parameter gives, if it gives one.
pub open spec fn weight_in(parameter: Seq<char>) -> Option<Seq<char>> {
    let p = trimmed(parameter);
    if first_index(p, '=') < p.len() && ascii_lowered(trimmed(before(p, '='))) == ascii_lowered("q"@) {
        Some(trimmed(after(p, '=')))
    } else {
        None
    }
}

/// The first weight among some parameters.
pub open spec fn first_weight(parameters: Seq<Seq<char>>) -> Option<Seq<char>>
    decreases parameters.len(),
{
    if parameters.len() == 0 {
        None
    } else if weight_in(parameters[0]) is Some {
        weight_in(parameters[0])
    } else {
        first_weight(parameters.drop_first())
    }
}

/// The encoding that an entry names.
pub open spec fn token_of(entry: Seq<char>) -> Seq<char> {
    trimmed(pieces(entry, ';')[0])
}

/// What an entry says of the encoding it names; without a weight it is accepted.
pub open spec fn acceptance_of(entry: Seq<char>) -> AcceptanceView {
    match first_weight(pieces(entry, ';').drop_first()) {
        None => AcceptanceView::Yes,
        Some(q) => AcceptanceView::Weighted(q),
    }
}

pub open spec fn names_gzip(entry: Seq<char>) -> bool {
    ascii_lowered(token_of(entry)) == ascii_lowered("gzip"@)
}

pub open spec fn is_wildcard(entry: Seq<char>) -> bool {
    token_of(entry) == "*"@
}

/// The first entry that names gzip.
pub open spec fn first_gzip(entries: Seq<Seq<char>>) -> Option<Seq<char>>
    decreases entries.len(),
{
    if entries.len() == 0 {
        None
    } else if names_gzip(entries[0]) {
        Some(entries[0])
    } else {
        first_gzip(entries.drop_first())
    }
}

/// The last entry that is a wildcard.
pub open spec fn last_wildcard(entries: Seq<Seq<char>>) -> Option<Seq<char>>
    decreases entries.len(),
{
    if entries.len() == 0 {
        None
    } else if is_wildcard(entries.last()) {
        Some(entries.last())
    } else {
        last_wildcard(entries.drop_last())
    }
}

/// What an `Accept-Encoding` says of gzip: the first entry that names it decides; a wildcard stands in
/// only where none does.
pub open spec fn gzip_acceptance(header: Option<Seq<char>>) -> AcceptanceView {
    match header {
        None => AcceptanceView::No,
        Some(raw) => match first_gzip(pieces(raw, ',')) {
            Some(entry) => acceptance_of(entry),
            None => match last_wildcard(pieces(raw, ',')) {
                Some(entry) => acceptance_of(entry),
                None => AcceptanceView::No,
            },
        },
    }
}

fn weight(parameter: &str) -> (r: Option<String>)
    ensures
        match weight_in(parameter@) {
            Some(q) => r matches Some(s) && s@ == q,
            None => r is None,
        },
{
    let (key, value) = split_once(trim(parameter), '=');
    match value {
        None => None,
        Some(value) => if same_ignoring_ascii_case(trim(key), "q") {
            Some(trim(value).to_owned())
        } else {
            None
        },
    }
}

fn entry_acceptance(parts: &Vec<String>) -> (r: Acceptance)
    requires
        parts@.len() > 0,
    ensures
        r.view() == match first_weight(texts(parts@).drop_first()) {
            None => AcceptanceView::Yes,
            Some(q) => AcceptanceView::Weighted(q),
        },
{
    let mut i: usize = 1;
    let ghost all = texts(parts@).drop_first();
    assert(all.skip(0) =~= all);
    while i < parts.len()
        invariant
            1 <= i <= parts@.len(),
            all == texts(parts@).drop_first(),
            first_weight(all) == first_weight(all.skip(i - 1)),
        decreases parts.len() - i,
    {
        proof {
            assert(all.skip(i - 1)[0] == parts@[i as int]@);
            assert(all.skip(i - 1).drop_first() =~= all.skip(i as int));
        }
        match weight(parts[i].as_str()) {
            Some(q) => {
                return Acceptance::Weighted(q);
            },
            None => {},
        }
        i += 1;
    }
    assert(all.skip(i - 1).len() == 0);
    Acceptance::Yes
}

/// What an `Accept-Encoding` header says of gzip.
pub fn accepts_gzip(accept_encoding: Option<&str>) -> (r: Acceptance)
    ensures
        r.view() == gzip_acceptance(
            match accept_encoding {
                None => None,
                Some(raw) => Some(raw@),
            },
        ),
{
    let raw = match accept_encoding {
        None => {
            return Acceptance::No;
        },
        Some(raw) => raw,
    };
    let entries = split(raw, ',');
    let ghost all = texts(entries@);
    let mut wildcard = Acceptance::No;
    let mut i: usize = 0;
    proof {
        assert(all.skip(0) =~= all);
        assert(all.take(0) =~= Seq::<Seq<char>>::empty());
    }
    while i < entries.len()
        invariant
            i <= entries@.len(),
            accept_encoding matches Some(text) && text@ == raw@,
            all == texts(entries@),
            all == pieces(raw@, ','),
            first_gzip(all) == first_gzip(all.skip(i as int)),
            wildcard.view() == match last_wildcard(all.take(i as int)) {
                Some(entry) => acceptance_of(entry),
                None => AcceptanceView::No,
            },
        decreases entries.len() - i,
    {
        let parts = split(entries[i].as_str(), ';');
        let token = trim(parts[0].as_str());
        proof {
            assert(texts(parts@)[0] == parts@[0]@);
            assert(all.skip(i as int)[0] == entries@[i as int]@);
            assert(all.skip(i as int).drop_first() =~= all.skip(i + 1));
            assert(all.take(i + 1).drop_last() =~= all.take(i as int));
            assert(all.take(i + 1).last() == entries@[i as int]@);
        }
        if same_ignoring_ascii_case(token, "gzip") {
            return entry_acceptance(&parts);
        }
        if same_text(token, "*") {
            wildcard = entry_acceptance(&parts);
        }
        i += 1;
    }
    proof {
        assert(all.skip(i as int).len() == 0);
        assert(all.take(i as int) =~= all);
    }
    wildcard
}

/// Whether a weight accepts what it weighs, given the bits of the single it was read as; a weight that
/// could not be read is ignored, which accepts. Zero refuses, and so does what is not a number.
pub fn weight_allows(bits: Option<u32>) -> (r: bool)
    ensures
        r == match bits {
            None => true,
            Some(b) => 0 < b <= 0x7f80_0000,
        },
{
    match bits {
        None => true,
        Some(b) => 0 < b && b <= 0x7f80_0000,
    }
}

/// Whether a media type is a text that compresses.
pub open spec fn is_text_type(raw: Seq<char>) -> bool {
    let essence = ascii_lowered(trimmed(pieces(raw, ';')[0]));
    begins_with(essence, "text/"@) || essence == "application/json"@ || finishes_with(essence, "+json"@)
}

/// Whether a body is worth compressing: of a type that is a text, and large enough.
pub fn worth_compressing(content_type: Option<&str>, body_len: usize) -> (r: bool)
    ensures
        r == (body_len >= MIN_COMPRESS_BYTES && content_type is Some && is_text_type(content_type->0@)),
{
    if body_len < MIN_COMPRESS_BYTES {
        return false;
    }
    match content_type {
        None => false,
        Some(raw) => {
            let parts = split(raw, ';');
            proof {
                assert(pieces(raw@, ';')[0] == parts@[0]@);
            }
            let essence = lowered(trim(parts[0].as_str()));
            has_prefix(essence.as_str(), "text/") || same_text(essence.as_str(), "application/json") || has_suffix(
                essence.as_str(),
                "+json",
            )
        },
    }
}

/// The gzip stream that holds `data`, or the words for why there is none.
pub uninterp spec fn gzipped(data: Seq<u8>) -> Result<Seq<u8>, Seq<char>>;

/// Whether a stream decompresses to the data: asked for its first bytes, it gives those of the data.
pub open spec fn restores(stream: Seq<u8>, data: Seq<u8>) -> bool {
    forall|most: nat|
        #[trigger] gunzipped(stream, most) == Ok::<Seq<u8>, Seq<char>>(
            data.take(if most < data.len() { most as int } else { data.len() as int }),
        )
}

/// `flate2::write::GzEncoder` at its default level, into a `Vec`: a gzip stream that decompresses to
/// the data, or the words of the error.
#[verifier::external_body]
fn gzip(data: &[u8]) -> (r: Result<Vec<u8>, String>)
    ensures
        match gzipped(data@) {
            Ok(bytes) => r matches Ok(z) && z@ == bytes,
            Err(words) => r matches Err(e) && e@ == words,
        },
        r matches Ok(z) ==> restores(z@, data@),
{
    let mut encoder = flate2::write::GzEncoder::new(Vec::new(), flate2::Compression::default());
    match encoder.write_all(data) {
        Ok(()) => match encoder.finish() {
            Ok(out) => Ok(out),
            Err(e) => Err(e.to_string()),
        },
        Err(e) => Err(e.to_string()),
    }
}

/// Compresses; what comes out decompresses to what went in.
pub fn encode(data: &[u8]) -> (r: Result<Vec<u8>, String>)
    ensures
        match gzipped(data@) {
            Ok(bytes) => r matches Ok(z) && z@ == bytes,
            Err(words) => r matches Err(e) && e@ == words,
        },
        r matches Ok(z) ==> restores(z@, data@),
{
    gzip(data)
}

/// How a body goes out.
#[derive(Debug, PartialEq, Eq)]
pub enum Encoded {
    /// As it is.
    Identity,
    /// As these bytes, with the encoding named and the length restated.
    Gzip(Vec<u8>),
}

/// Takes what compressing came to: a failure is no reason to fail the request, and a stream that is
/// not smaller is not sent.
pub fn choose_encoding(compressed: Result<Vec<u8>, String>, body_len: usize) -> (r: Encoded)
    ensures
        match compressed {
            Ok(z) => if z@.len() < body_len {
                r matches Encoded::Gzip(v) && v@ == z@
            } else {
                r is Identity
            },
            Err(_) => r is Identity,
        },
{
    match compressed {
        Ok(z) => if z.len() < body_len {
            Encoded::Gzip(z)
        } else {
            Encoded::Identity
        },
        Err(_) => Encoded::Identity,
    }
}

/// Whether the body must be collected at all: the client takes gzip, and the handler did not encode
/// the body itself.
pub fn may_compress(accepted: bool, already_encoded: bool) -> (r: bool)
    ensures
        r == (accepted && !already_encoded),
{
    accepted && !already_encoded
}

/// How a body goes out: compressed where it is worth it, the compression succeeds and it saves bytes.
pub open spec fn encoding_for(content_type: Option<Seq<char>>, body: Seq<u8>) -> Option<Seq<u8>> {
    if body.len() >= MIN_COMPRESS_BYTES && content_type is Some && is_text_type(content_type->0) {
        match gzipped(body) {
            Ok(z) => if z.len() < body.len() {
                Some(z)
            } else {
                None
            },
            Err(_) => None,
        }
    } else {
        None
    }
}

/// How a collected body goes out.
pub fn encode_body(content_type: Option<&str>, body: &[u8]) -> (r: Encoded)
    ensures
        match encoding_for(
            match content_type {
                Some(t) => Some(t@),
                None => None,
            },
            body@,
        ) {
            Some(z) => r matches Encoded::Gzip(v) && v@ == z && restores(v@, body@),
            None => r is Identity,
        },
{
    if !worth_compressing(content_type, body.len()) {
        return Encoded::Identity;
    }
    choose_encoding(encode(body), body.len())
}

/// Compressed data within the limit comes back as it was; beyond the limit it is refused, and not
/// cut off.
pub proof fn law_gzip_round_trip(stream: Seq<u8>, data: Seq<u8>, limit: nat)
    requires
        restores(stream, data),
    ensures
        data.len() <= limit ==> payload_of(stream, true, limit) == Ok::<Seq<u8>, FailureView>(data),
        data.len() > limit ==> (payload_of(stream, true, limit) matches Err(e) && e.status == PAYLOAD_TOO_LARGE),
{
    let most = limit + 1;
    assert(gunzipped(stream, most) == Ok::<Seq<u8>, Seq<char>>(
        data.take(if most < data.len() { most as int } else { data.len() as int }),
    ));
    if data.len() <= limit {
        assert(data.take(data.len() as int) =~= data);
    }
}

} // verus!
