//! Batches in the bytes of the protocol.
//!
//! The message that comes out holds doubles, so its contents stay closed here: whoever holds it reads
//! it into the values of [`crate::otlp::proto`], which have the bits of a double in its place.

use opentelemetry_proto::tonic::collector::logs::v1::ExportLogsServiceRequest;
use prost::Message;
use vstd::prelude::*;

use crate::wire::{malformed, payload, payload_of, Failure, FailureView, BAD_REQUEST};

verus! {

/// `opentelemetry_proto`'s message of a logs request. Nothing is said of what is in it.
#[verifier::external_type_specification]
#[verifier::external_body]
pub struct ExExportLogsServiceRequest(
    opentelemetry_proto::tonic::collector::logs::v1::ExportLogsServiceRequest,
);

/// The message that some bytes encode, or the words for what is wrong with them.
pub uninterp spec fn decoded(bytes: Seq<u8>) -> Result<ExportLogsServiceRequest, Seq<char>>;

/// `prost::Message::decode` of an `ExportLogsServiceRequest`: the message, or the words of the error.
/// Which bytes are a message, and what it then holds, is left to the name.
#[verifier::external_body]
fn decode(bytes: &[u8]) -> (r: Result<ExportLogsServiceRequest, String>)
    ensures
        match decoded(bytes@) {
            Ok(message) => r == Ok::<ExportLogsServiceRequest, String>(message),
            Err(words) => r matches Err(e) && e@ == words,
        },
{
    ExportLogsServiceRequest::decode(bytes).map_err(|e| e.to_string())
}

/// The refusal of a body that is not a message.
pub open spec fn malformed_view(words: Seq<char>) -> FailureView {
    FailureView { status: BAD_REQUEST, message: "malformed ExportLogsServiceRequest: "@ + words }
}

/// Takes what decoding came to: the message, or a refusal that says why there is none.
pub fn accept_decoded(result: Result<ExportLogsServiceRequest, String>) -> (r: Result<
    ExportLogsServiceRequest,
    Failure,
>)
    ensures
        match result {
            Ok(message) => r == Ok::<ExportLogsServiceRequest, Failure>(message),
            Err(words) => r matches Err(f) && f.view() == malformed_view(words@),
        },
{
    match result {
        Ok(message) => Ok(message),
        Err(words) => Err(malformed(words.as_str())),
    }
}

/// The message in a payload, or its refusal.
pub fn decode_request(payload: &[u8]) -> (r: Result<ExportLogsServiceRequest, Failure>)
    ensures
        match decoded(payload@) {
            Ok(message) => r == Ok::<ExportLogsServiceRequest, Failure>(message),
            Err(words) => r matches Err(f) && f.view() == malformed_view(words),
        },
{
    accept_decoded(decode(payload))
}

/// The message in the body of a request, and how many bytes it takes once it is decompressed. A body
/// that does not decompress is refused before it is looked at.
pub fn request_in(wire: Vec<u8>, gzipped: bool, limit: usize) -> (r: Result<
    (ExportLogsServiceRequest, usize),
    Failure,
>)
    requires
        limit < u64::MAX,
    ensures
        match payload_of(wire@, gzipped, limit as nat) {
            Err(e) => r matches Err(f) && f.view() == e,
            Ok(bytes) => match decoded(bytes) {
                Ok(message) => r matches Ok(v) && v.0 == message && v.1 == bytes.len(),
                Err(words) => r matches Err(f) && f.view() == malformed_view(words),
            },
        },
{
    let payload = match payload(wire, gzipped, limit) {
        Ok(payload) => payload,
        Err(failure) => {
            return Err(failure);
        },
    };
    let bytes: usize = payload.len();
    match decode_request(payload.as_slice()) {
        Ok(message) => Ok((message, bytes)),
        Err(failure) => Err(failure),
    }
}

} // verus!
