//! What a request's headers and its compressed body come to. The receiver and the collector share
//! it: an application can be pointed at either of them unchanged.

use std::io::Read;

use vstd::prelude::*;

use crate::api::auth::{header_text, text_of_header};
use crate::text::{
    ascii_lowered, debug_form, debug_text, decimal, decimal_u64, pieces, same_ignoring_ascii_case,
    same_text, split, trim, trimmed,
};

verus! {

/// The media type of an OTLP request.
pub const PROTOBUF: &'static str = "application/x-protobuf";

pub const BAD_REQUEST: u16 = 400;

pub const PAYLOAD_TOO_LARGE: u16 = 413;

pub const UNSUPPORTED_MEDIA_TYPE: u16 = 415;

pub const INTERNAL_SERVER_ERROR: u16 = 500;

pub const SERVICE_UNAVAILABLE: u16 = 503;

/// A request that is refused: the status and the message.
#[derive(Debug, PartialEq, Eq)]
pub struct Failure {
    pub status: u16,
    pub message: String,
}

/// What a [`Failure`] says.
pub struct FailureView {
    pub status: u16,
    pub message: Seq<char>,
}

impl Failure {
    pub open spec fn view(self) -> FailureView {
        FailureView { status: self.status, message: self.message@ }
    }

    pub fn new(status: u16, message: String) -> (r: Self)
        ensures
            r.view() == (FailureView { status, message: message@ }),
    {
        Failure { status, message }
    }
}

/// The text of a header, where there is one and it is text.
pub open spec fn header_given(header: Option<&[u8]>) -> Option<Seq<char>> {
    match header {
        None => None,
        Some(bytes) => header_text(bytes@),
    }
}

/// Whether a media type is that of an OTLP request, whatever its parameters.
pub open spec fn names_protobuf(raw: Seq<char>) -> bool {
    ascii_lowered(trimmed(pieces(raw, ';')[0])) == ascii_lowered(PROTOBUF@)
}

/// Why a `Content-Type` is refused, if it is.
pub open spec fn content_type_failure(header: Option<Seq<char>>) -> Option<FailureView> {
    match header {
        None => Some(
            FailureView {
                status: UNSUPPORTED_MEDIA_TYPE,
                message: "missing Content-Type; expected application/x-protobuf"@,
            },
        ),
        Some(raw) => if names_protobuf(raw) {
            None
        } else {
            Some(
                FailureView {
                    status: UNSUPPORTED_MEDIA_TYPE,
                    message: "unsupported Content-Type "@ + debug_form(raw) + "; expected application/x-protobuf"@,
                },
            )
        },
    }
}

/// Accepts the media type of an OTLP request and no other.
pub fn require_protobuf_content_type(header: Option<&[u8]>) -> (r: Result<(), Failure>)
    ensures
        match content_type_failure(header_given(header)) {
            None => r is Ok,
            Some(e) => r matches Err(f) && f.view() == e,
        },
{
    let text = match header {
        None => None,
        Some(bytes) => text_of_header(bytes),
    };
    match text {
        None => Err(
            Failure::new(
                UNSUPPORTED_MEDIA_TYPE,
                "missing Content-Type; expected application/x-protobuf".to_owned(),
            ),
        ),
        Some(raw) => {
            let parts = split(raw.as_str(), ';');
            proof {
                assert(pieces(raw@, ';')[0] == parts@[0]@);
            }
            if same_ignoring_ascii_case(trim(parts[0].as_str()), PROTOBUF) {
                return Ok(());
            }
            let mut message = "unsupported Content-Type ".to_owned();
            message.append(debug_text(raw.as_str()).as_str());
            message.append("; expected application/x-protobuf");
            Err(Failure::new(UNSUPPORTED_MEDIA_TYPE, message))
        },
    }
}

/// Whether a body is compressed, or why its encoding is refused. An encoding that is not known is
/// refused and not taken for none, so that the client fails visibly.
pub open spec fn encoding_of(header: Option<Seq<char>>) -> Result<bool, FailureView> {
    match header {
        None => Ok(false),
        Some(raw) => {
            let name = trimmed(raw);
            if name.len() == 0 || name == "identity"@ {
                Ok(false)
            } else if name == "gzip"@ {
                Ok(true)
            } else {
                Err(
                    FailureView {
                        status: UNSUPPORTED_MEDIA_TYPE,
                        message: "unsupported Content-Encoding "@ + debug_form(name)
                            + "; only gzip and identity are accepted"@,
                    },
                )
            }
        },
    }
}

/// Whether the body is compressed.
pub fn gzip_requested(header: Option<&[u8]>) -> (r: Result<bool, Failure>)
    ensures
        match encoding_of(header_given(header)) {
            Ok(gzipped) => r == Ok::<bool, Failure>(gzipped),
            Err(e) => r matches Err(f) && f.view() == e,
        },
{
    let text = match header {
        None => None,
        Some(bytes) => text_of_header(bytes),
    };
    match text {
        None => Ok(false),
        Some(raw) => {
            let name = trim(raw.as_str());
            if name.unicode_len() == 0 || same_text(name, "identity") {
                Ok(false)
            } else if same_text(name, "gzip") {
                Ok(true)
            } else {
                let mut message = "unsupported Content-Encoding ".to_owned();
                message.append(debug_text(name).as_str());
                message.append("; only gzip and identity are accepted");
                Err(Failure::new(UNSUPPORTED_MEDIA_TYPE, message))
            }
        },
    }
}

/// The first bytes, at most `most` of them, of what a gzip stream holds, or the words for what is
/// wrong with the stream.
pub uninterp spec fn gunzipped(input: Seq<u8>, most: nat) -> Result<Seq<u8>, Seq<char>>;

/// `flate2::read::GzDecoder` behind `Read::take`, read to the end: at most the first `most` bytes of
/// what the stream holds, or the words of the error.
#[verifier::external_body]
fn gunzip(input: &[u8], most: u64) -> (r: Result<Vec<u8>, String>)
    ensures
        match gunzipped(input@, most as nat) {
            Ok(bytes) => r matches Ok(v) && v@ == bytes && v@.len() <= most,
            Err(words) => r matches Err(e) && e@ == words,
        },
{
    let mut out = Vec::new();
    match flate2::read::GzDecoder::new(input).take(most).read_to_end(&mut out) {
        Ok(_) => Ok(out),
        Err(e) => Err(e.to_string()),
    }
}

/// What a decompression within a limit comes to. One byte past the limit is asked for, which tells an
/// overrun without taking the whole stream.
pub open spec fn within_limit(result: Result<Seq<u8>, Seq<char>>, limit: nat) -> Result<Seq<u8>, FailureView> {
    match result {
        Err(words) => Err(
            FailureView { status: BAD_REQUEST, message: "body is not valid gzip: "@ + words },
        ),
        Ok(bytes) => if bytes.len() > limit {
            Err(
                FailureView {
                    status: PAYLOAD_TOO_LARGE,
                    message: "decompressed body exceeds max_decompressed_bytes ("@ + decimal(limit) + " bytes)"@,
                },
            )
        } else {
            Ok(bytes)
        },
    }
}

/// Takes what decompressing came to, within a limit.
pub fn limit_decompressed(result: Result<Vec<u8>, String>, limit: usize) -> (r: Result<Vec<u8>, Failure>)
    ensures
        match within_limit(
            match result {
                Ok(bytes) => Ok(bytes@),
                Err(words) => Err(words@),
            },
            limit as nat,
        ) {
            Ok(bytes) => r matches Ok(v) && v@ == bytes,
            Err(e) => r matches Err(f) && f.view() == e,
        },
{
    match result {
        Err(words) => {
            let mut message = "body is not valid gzip: ".to_owned();
            message.append(words.as_str());
            Err(Failure::new(BAD_REQUEST, message))
        },
        Ok(bytes) => if bytes.len() > limit {
            let mut message = "decompressed body exceeds max_decompressed_bytes (".to_owned();
            message.append(decimal_u64(limit as u64).as_str());
            message.append(" bytes)");
            Err(Failure::new(PAYLOAD_TOO_LARGE, message))
        } else {
            Ok(bytes)
        },
    }
}

/// Decompresses a body, with a ceiling on what comes out.
pub fn decompress_gzip(input: &[u8], limit: usize) -> (r: Result<Vec<u8>, Failure>)
    requires
        limit < u64::MAX,
    ensures
        match within_limit(gunzipped(input@, (limit + 1) as nat), limit as nat) {
            Ok(bytes) => r matches Ok(v) && v@ == bytes,
            Err(e) => r matches Err(f) && f.view() == e,
        },
{
    limit_decompressed(gunzip(input, limit as u64 + 1), limit)
}

/// Refuses a body that is larger than may be read from the wire; `unit` stands behind the number.
fn too_large(limit: usize, unit: &str) -> (r: Failure)
    ensures
        r.view() == (FailureView {
            status: PAYLOAD_TOO_LARGE,
            message: "request body exceeds max_body_bytes ("@ + decimal(limit as nat) + unit@ + ")"@,
        }),
{
    let mut message = "request body exceeds max_body_bytes (".to_owned();
    message.append(decimal_u64(limit as u64).as_str());
    message.append(unit);
    message.append(")");
    Failure::new(PAYLOAD_TOO_LARGE, message)
}

/// The receiver's refusal of a body that is too large.
pub fn receiver_body_too_large(limit: usize) -> (r: Failure)
    ensures
        r.view() == (FailureView {
            status: PAYLOAD_TOO_LARGE,
            message: "request body exceeds max_body_bytes ("@ + decimal(limit as nat) + " bytes"@ + ")"@,
        }),
{
    too_large(limit, " bytes")
}

/// The collector's refusal of a body that is too large.
pub fn collector_body_too_large(limit: usize) -> (r: Failure)
    ensures
        r.view() == (FailureView {
            status: PAYLOAD_TOO_LARGE,
            message: "request body exceeds max_body_bytes ("@ + decimal(limit as nat) + ")"@,
        }),
{
    let r = too_large(limit, "");
    proof {
        reveal_strlit("");
        let head = "request body exceeds max_body_bytes ("@ + decimal(limit as nat);
        assert(head + ""@ =~= head);
    }
    r
}

/// The refusal of a body that does not decode; `words` say why.
pub fn malformed(words: &str) -> (r: Failure)
    ensures
        r.view() == (FailureView {
            status: BAD_REQUEST,
            message: "malformed ExportLogsServiceRequest: "@ + words@,
        }),
{
    let mut message = "malformed ExportLogsServiceRequest: ".to_owned();
    message.append(words);
    Failure::new(BAD_REQUEST, message)
}

/// Reads what a request says of its body: whether it is compressed, or why it is refused. The type is
/// asked for first.
pub fn body_encoding(content_type: Option<&[u8]>, content_encoding: Option<&[u8]>) -> (r: Result<bool, Failure>)
    ensures
        match content_type_failure(header_given(content_type)) {
            Some(e) => r matches Err(f) && f.view() == e,
            None => match encoding_of(header_given(content_encoding)) {
                Ok(gzipped) => r == Ok::<bool, Failure>(gzipped),
                Err(e) => r matches Err(f) && f.view() == e,
            },
        },
{
    match require_protobuf_content_type(content_type) {
        Err(f) => Err(f),
        Ok(()) => gzip_requested(content_encoding),
    }
}

/// What a body is once it is decompressed, where it is compressed.
pub open spec fn payload_of(wire: Seq<u8>, gzipped: bool, limit: nat) -> Result<Seq<u8>, FailureView> {
    if gzipped {
        within_limit(gunzipped(wire, limit + 1), limit)
    } else {
        Ok(wire)
    }
}

/// The body, decompressed where it is compressed.
pub fn payload(wire: Vec<u8>, gzipped: bool, limit: usize) -> (r: Result<Vec<u8>, Failure>)
    requires
        limit < u64::MAX,
    ensures
        match payload_of(wire@, gzipped, limit as nat) {
            Ok(bytes) => r matches Ok(v) && v@ == bytes,
            Err(e) => r matches Err(f) && f.view() == e,
        },
{
    if gzipped {
        decompress_gzip(wire.as_slice(), limit)
    } else {
        Ok(wire)
    }
}

} // verus!
