//! Taking a batch in: its records are resolved when it arrives, while what that depends on is still
//! known.

use vstd::prelude::*;

use crate::collector::buffer::Pending;
use crate::collector::correct::{dispositions, receipt_pass, resolve_request, rewritten, Receipt, Tally};
use crate::collector::epoch::{window_fits, EpochTable};
use crate::otlp::proto::{all_records, LogsRequest};
use crate::wire::{Failure, FailureView, INTERNAL_SERVER_ERROR, SERVICE_UNAVAILABLE};

verus! {

/// The words for a batch that came while the queue was full.
pub const QUEUE_FULL: &'static str = "the collector's flush queue is full";

/// When a sender started, on the boot clock. Where that is not known it is zero, the weakest bound
/// there is: it makes resolution less precise, and never wrong.
pub fn sender_start(known: Option<i64>) -> (r: i64)
    ensures
        r == match known {
            Some(at) => at,
            None => 0,
        },
{
    match known {
        Some(at) => at,
        None => 0,
    }
}

/// Resolves a batch, and makes it ready to be queued. `bytes` is its size, and the receipt says who
/// sent it and when it came.
pub fn receive(request: LogsRequest, bytes: usize, table: &EpochTable, receipt: Receipt) -> (r: Pending)
    requires
        window_fits(receipt.sender_started, receipt.received, receipt.tolerance),
        all_records(request.view()).len() <= u64::MAX,
    ensures
        r.request.view() == rewritten(request.view(), receipt_pass(table@, receipt)),
        r.bytes == bytes,
        r.queued_at == receipt.received,
        r.tally.counts(
            Tally { exact: 0, ambiguous: 0, passthrough: 0, authoritative: 0 },
            dispositions(all_records(request.view()), table@, receipt),
        ),
        r.tally.sum() == all_records(request.view()).len(),
{
    let mut request = request;
    let tally = resolve_request(&mut request, table, receipt);
    Pending { request, bytes, queued_at: receipt.received, tally }
}

/// The refusal when the boot clock could not be read.
pub fn clock_unreadable(words: &str) -> (r: Failure)
    ensures
        r.view() == (FailureView {
            status: INTERNAL_SERVER_ERROR,
            message: "cannot read CLOCK_BOOTTIME: "@ + words@,
        }),
{
    let mut message = "cannot read CLOCK_BOOTTIME: ".to_owned();
    message.append(words);
    Failure::new(INTERNAL_SERVER_ERROR, message)
}

/// The refusal when a batch could not be queued; the sender may send it again.
pub fn cannot_accept(words: &str) -> (r: Failure)
    ensures
        r.view() == (FailureView { status: SERVICE_UNAVAILABLE, message: "cannot accept: "@ + words@ }),
{
    let mut message = "cannot accept: ".to_owned();
    message.append(words);
    Failure::new(SERVICE_UNAVAILABLE, message)
}

} // verus!
