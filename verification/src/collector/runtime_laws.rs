//! What becomes of the batches in hand, told by their records.

use vstd::prelude::*;

use crate::collector::buffer::Decision;
use crate::collector::correct::{
    carried_event, corrected_record, flush_pass, is_corrected, rewritten, rewritten_records, Correction, Flush,
};
use crate::collector::correction_laws::law_every_record_is_rewritten;
use crate::collector::delivery_laws::{has_same_times, is_time, is_uncertain_mark};
use crate::collector::epoch::Epoch;
use crate::collector::runtime::{
    after_correction, all_held_out, all_spooled_out, correction_for, excess, InFlightView, OutgoingView,
};
use crate::collector::spool::Spooled;
use crate::collector::sync::SyncSource;
use crate::otlp::proto::{all_records, RecordView, ResourceLogsView};

verus! {

/// Whether a record leaves as a flush is to let it leave. Without an offset it keeps its times. With one
/// the boot time that it carries becomes a time of the wall clock by that offset, and a record that
/// carries none keeps its times. A flush that waited in vain for the clock marks every record.
pub open spec fn record_leaves(before: RecordView, after: RecordView, offset: Option<i64>, uncertain: bool) -> bool {
    &&& match offset {
        None => has_same_times(before, after),
        Some(offset) => if is_corrected(before, Some(Correction { offset })) {
            let event = carried_event(before)->0;
            if before.time_unix_nano != 0 {
                is_time(after.time_unix_nano, event + offset)
            } else {
                after.time_unix_nano == 0 && is_time(after.observed_time_unix_nano, event + offset)
            }
        } else {
            has_same_times(before, after)
        },
    }
    &&& uncertain ==> after.attributes.len() > 0 && is_uncertain_mark(after.attributes.last())
    &&& after.event_name == before.event_name
    &&& after.body == before.body
}

/// Whether every record of a batch leaves so, each in its place.
pub open spec fn batch_leaves(
    before: Seq<ResourceLogsView>,
    after: Seq<ResourceLogsView>,
    offset: Option<i64>,
    uncertain: bool,
) -> bool {
    &&& all_records(after).len() == all_records(before).len()
    &&& forall|i: int|
        0 <= i < all_records(before).len() ==> record_leaves(
            #[trigger] all_records(before)[i],
            all_records(after)[i],
            offset,
            uncertain,
        )
}

/// Whether an entry of the outbox is what is to stand there: first what stood there, as it was; then what
/// was read from disk; then what was held. A batch of another boot keeps its times and is marked.
pub open spec fn is_entry(
    v: InFlightView,
    spooled: Seq<Spooled>,
    offset: Option<i64>,
    uncertain: bool,
    at: int,
    entry: OutgoingView,
) -> bool {
    let first = v.outbox.len() as int;
    let second = first + spooled.len();
    if at < first {
        entry == v.outbox[at]
    } else if at < second {
        let s = spooled[at - first];
        &&& entry.file == Some(s.file.view())
        &&& s.file.same_boot ==> batch_leaves(s.request.view(), entry.request, offset, uncertain)
        &&& !s.file.same_boot ==> batch_leaves(s.request.view(), entry.request, None, true)
    } else {
        &&& entry.file is None
        &&& batch_leaves(v.held[at - second].request.view(), entry.request, offset, uncertain)
    }
}

/// Whether everything in hand went to the outbox as it is to go, and no more than the oldest of it was
/// dropped, and counted, to keep within a limit. A flush that waited in vain for the clock has no offset;
/// any other has that of the last epoch.
pub open spec fn is_shipped(
    v: InFlightView,
    spooled: Seq<Spooled>,
    table: Seq<Epoch>,
    decision: Decision,
    limit: nat,
    w: InFlightView,
) -> bool {
    let uncertain = decision == Decision::FlushUncertain;
    let offset = if uncertain {
        None
    } else {
        Some(table.last().offset)
    };
    let all = v.outbox.len() + spooled.len() + v.held.len();
    let gone = all - w.outbox.len();
    &&& w.held.len() == 0
    &&& all <= limit ==> w.outbox.len() == all
    &&& all > limit ==> w.outbox.len() == limit
    &&& w.totals.shed_batches == v.totals.shed_batches + gone
    &&& w.totals.forwarded_batches == v.totals.forwarded_batches
    &&& w.holding_since is None
    &&& w.failures == v.failures && w.retry_at == v.retry_at
    &&& v.spool_dirty ==> w.spool_dirty
    &&& forall|i: int|
        0 <= i < w.outbox.len() ==> is_entry(v, spooled, offset, uncertain, i + gone, #[trigger] w.outbox[i])
}

proof fn lemma_batch_leaves(request: Seq<ResourceLogsView>, offset: Option<i64>, flush: Flush)
    ensures
        batch_leaves(
            request,
            rewritten(
                request,
                flush_pass(
                    match offset {
                        None => None,
                        Some(offset) => Some(Correction { offset }),
                    },
                    flush,
                ),
            ),
            offset,
            flush.uncertain,
        ),
{
    let correction = match offset {
        None => None,
        Some(offset) => Some(Correction { offset }),
    };
    let f = flush_pass(correction, flush);
    law_every_record_is_rewritten(request, f);
    let before = all_records(request);
    let after = all_records(rewritten(request, f));
    assert(after == rewritten_records(before, f));
    assert forall|i: int| 0 <= i < before.len() implies record_leaves(
        #[trigger] before[i],
        after[i],
        offset,
        flush.uncertain,
    ) by {
        assert(after[i] == corrected_record(before[i], correction, flush));
        reveal(corrected_record);
    }
}

/// A flush whose wait for the clock was in vain changes no time: every record that it moves to the
/// outbox, from memory or from disk, has the times it had, and the mark that says so. Any other flush
/// gives a record that carries a boot time that boot time and the offset of the last epoch.
pub proof fn law_a_flush_ships_what_is_in_hand(
    v: InFlightView,
    spooled: Seq<Spooled>,
    table: Seq<Epoch>,
    sync_source: Option<SyncSource>,
    decision: Decision,
    limit: nat,
)
    requires
        v.totals.shed_batches + v.outbox.len() + spooled.len() + v.held.len() <= u64::MAX,
    ensures
        is_shipped(
            v,
            spooled,
            table,
            decision,
            limit,
            after_correction(
                v,
                spooled,
                correction_for(table, decision == Decision::FlushUncertain),
                Flush { uncertain: decision == Decision::FlushUncertain, sync_source },
                limit,
            ),
        ),
{
    let uncertain = decision == Decision::FlushUncertain;
    let offset = if uncertain {
        None
    } else {
        Some(table.last().offset)
    };
    let correction = correction_for(table, uncertain);
    let flush = Flush { uncertain, sync_source };
    let w = after_correction(v, spooled, correction, flush, limit);
    let second = all_spooled_out(spooled, correction, flush);
    let third = all_held_out(v.held, correction, flush);
    let all = v.outbox + second + third;
    let gone = excess(all.len(), limit);
    assert(w.outbox == all.skip(gone as int));
    assert forall|i: int| 0 <= i < w.outbox.len() implies is_entry(
        v,
        spooled,
        offset,
        uncertain,
        i + (all.len() - w.outbox.len()),
        #[trigger] w.outbox[i],
    ) by {
        let at = i + gone;
        assert(w.outbox[i] == all[at]);
        let a = v.outbox.len() as int;
        let b = a + spooled.len();
        if at < a {
        } else if at < b {
            let s = spooled[at - a];
            assert(all[at] == second[at - a]);
            if s.file.same_boot {
                lemma_batch_leaves(s.request.view(), offset, flush);
            } else {
                lemma_batch_leaves(s.request.view(), None, Flush { uncertain: true, sync_source });
            }
        } else {
            assert(all[at] == third[at - b]);
            lemma_batch_leaves(v.held[at - b].request.view(), offset, flush);
        }
    }
}

} // verus!
