//! What becomes of a request to store log records.

use opentelemetry_proto::tonic::collector::logs::v1::{ExportLogsPartialSuccess, ExportLogsServiceResponse};
use prost::Message;
use vstd::prelude::*;

use crate::model::{Measurement, Rejections};
use crate::otlp::convert::{
    counts, law_every_record_is_accounted_for, measurement_views, request_measurements, skipped,
    to_measurements, Reason,
};
use crate::otlp::proto::{all_records, LogsRequest, RecordView};
use crate::wire::{Failure, FailureView, SERVICE_UNAVAILABLE};

verus! {

/// What the answer says of the records that were not stored.
#[derive(Debug, PartialEq, Eq)]
pub struct PartialSuccess {
    pub rejected_log_records: i64,
    pub error_message: String,
}

/// The part of the answer about rejections: nothing where there are none.
pub fn partial_success(rejections: &Rejections) -> (r: Option<PartialSuccess>)
    requires
        i64::MIN <= rejections.sum() <= i64::MAX,
    ensures
        r is Some <==> rejections.sum() != 0,
        r matches Some(p) ==> p.rejected_log_records == rejections.sum() && p.error_message@ == rejections.text(),
{
    if rejections.is_empty() {
        None
    } else {
        Some(PartialSuccess { rejected_log_records: rejections.total(), error_message: rejections.message() })
    }
}

impl PartialSuccess {
    /// The count and the message.
    pub open spec fn view(self) -> (i64, Seq<char>) {
        (self.rejected_log_records, self.error_message@)
    }
}

/// What a part of the answer says, where there is one.
pub open spec fn partial_view(partial: Option<PartialSuccess>) -> Option<(i64, Seq<char>)> {
    match partial {
        None => None,
        Some(p) => Some(p.view()),
    }
}

/// The bytes of an answer.
pub uninterp spec fn encoded_answer(partial: Option<(i64, Seq<char>)>) -> Seq<u8>;

/// `prost::Message::encode_to_vec` of an `ExportLogsServiceResponse`. The answer has one field, the
/// partial success, and takes no bytes where that is absent.
#[verifier::external_body]
fn encode_answer(partial: Option<PartialSuccess>) -> (r: Vec<u8>)
    ensures
        r@ == encoded_answer(partial_view(partial)),
        partial is None ==> r@.len() == 0,
{
    let partial_success = partial.map(
        |p| ExportLogsPartialSuccess {
            rejected_log_records: p.rejected_log_records,
            error_message: p.error_message,
        },
    );
    ExportLogsServiceResponse { partial_success }.encode_to_vec()
}

/// The body of the answer to a request that was taken.
pub fn answer(partial: Option<PartialSuccess>) -> (r: Vec<u8>)
    ensures
        r@ == encoded_answer(partial_view(partial)),
        partial is None ==> r@.len() == 0,
{
    encode_answer(partial)
}

/// How many records of a request are skipped.
pub open spec fn skipped_of(records: Seq<RecordView>) -> nat {
    skipped(records, Reason::MissingEventName) + skipped(records, Reason::MissingTimestamp)
}

/// The measurements to store of a request, and what the answer says of the other records. The answer
/// is a success even where every record is rejected: a client must not send again what will never be
/// accepted.
pub fn ingest(request: &LogsRequest, processed_time: i64) -> (r: (
    Vec<Measurement>,
    Option<PartialSuccess>,
))
    requires
        all_records(request.view()).len() <= i64::MAX,
    ensures
        measurement_views(r.0@) == request_measurements(request.view(), processed_time),
        r.1 is Some <==> skipped_of(all_records(request.view())) > 0,
        r.1 matches Some(p) ==> p.rejected_log_records == skipped_of(all_records(request.view())) && exists|
            rejections: Rejections,
        | #[trigger]
            counts(rejections, all_records(request.view())) && p.error_message@ == rejections.text(),
        r.0@.len() + skipped_of(all_records(request.view())) == all_records(request.view()).len(),
{
    let (measurements, rejections) = to_measurements(request, processed_time);
    proof {
        law_every_record_is_accounted_for(request.view(), processed_time);
        assert(measurement_views(measurements@).len() == measurements@.len());
    }
    let partial = partial_success(&rejections);
    (measurements, partial)
}

/// The refusal when the measurements could not be stored; the client may send them again.
pub fn unavailable(words: &str) -> (r: Failure)
    ensures
        r.view() == (FailureView { status: SERVICE_UNAVAILABLE, message: "storage write failed: "@ + words@ }),
{
    let mut message = "storage write failed: ".to_owned();
    message.append(words);
    Failure::new(SERVICE_UNAVAILABLE, message)
}

} // verus!
