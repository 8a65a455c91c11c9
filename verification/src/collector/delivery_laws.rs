//! What a record leaves the collector as, told by what it came in with.

use vstd::prelude::*;

use crate::collector::correct::{
    corrected_record, hints_in, occurrences, resolved_record, without_hints, Class, Correction, Disposition, Flush,
    Receipt,
};
use crate::collector::correction_laws::{is_plain, law_both_passes};
use crate::collector::epoch::{resolved, Epoch, Query, Resolution};
use crate::otlp::proto::{AnyView, AttrView, RecordView};

verus! {

/// Whether an attribute is the last with a key.
pub open spec fn is_last_with(s: Seq<AttrView>, key: Seq<char>, i: int) -> bool {
    &&& 0 <= i < s.len()
    &&& s[i].key == key
    &&& forall|j: int| i < j < s.len() ==> (#[trigger] s[j]).key != key
}

/// Whether the last attribute with a key has this value.
pub open spec fn says_last(s: Seq<AttrView>, key: Seq<char>, value: AnyView) -> bool {
    exists|i: int| #[trigger] is_last_with(s, key, i) && s[i].value == Some(value)
}

/// Whether the application vouches for the time of a record.
pub open spec fn is_vouched_for(record: RecordView) -> bool {
    says_last(record.attributes, "mp.clock.authoritative"@, AnyView::Bool(true))
}

/// Whether the application tells when the event was, on the boot clock.
pub open spec fn is_told(record: RecordView, boottime: i64) -> bool {
    says_last(record.attributes, "mp.clock.boottime_ns"@, AnyView::Int(boottime))
}

/// The time a record is stamped with: that of the event, else that of its observation.
pub open spec fn stamp_of(record: RecordView) -> u64 {
    if record.time_unix_nano != 0 {
        record.time_unix_nano
    } else {
        record.observed_time_unix_nano
    }
}

/// What the history says about the stamp of a record.
pub open spec fn explained(record: RecordView, es: Seq<Epoch>, receipt: Receipt) -> Resolution {
    resolved(
        es,
        Query {
            stamped: stamp_of(record) as i64,
            sender_started: receipt.sender_started,
            received: receipt.received,
        },
        receipt.tolerance,
    )
}

/// Whether `boottime` is when the event of a record was, on the boot clock, as far as that is known and
/// the record may be touched.
pub open spec fn happened_at(record: RecordView, es: Seq<Epoch>, receipt: Receipt, boottime: i64) -> bool {
    &&& !is_vouched_for(record)
    &&& is_told(record, boottime) || ((forall|b: i64| !is_told(record, b)) && 0 < stamp_of(record) <= i64::MAX
        && explained(record, es, receipt).boottime() == Some(boottime))
}

/// Whether a time is `n` nanoseconds since 1970; and zero where there is no such time.
pub open spec fn is_time(time: u64, n: int) -> bool {
    if 0 <= n <= i64::MAX {
        time == n
    } else {
        time == 0
    }
}

/// Whether a record's times are those of its event and of its receipt. A record that has no time of
/// its own has its event as its observation.
pub open spec fn is_moved(record: RecordView, out: RecordView, boottime: i64, received: i64, offset: i64) -> bool {
    if record.time_unix_nano != 0 {
        is_time(out.time_unix_nano, boottime + offset) && is_time(out.observed_time_unix_nano, received + offset)
    } else {
        out.time_unix_nano == 0 && is_time(out.observed_time_unix_nano, boottime + offset)
    }
}

/// Whether the times of a record are as they were.
pub open spec fn has_same_times(record: RecordView, out: RecordView) -> bool {
    out.time_unix_nano == record.time_unix_nano && out.observed_time_unix_nano == record.observed_time_unix_nano
}

proof fn lemma_hints(s: Seq<AttrView>)
    ensures
        hints_in(s).authoritative <==> says_last(s, "mp.clock.authoritative"@, AnyView::Bool(true)),
        forall|b: i64| hints_in(s).boottime == Some(b) <==> #[trigger] says_last(
            s,
            "mp.clock.boottime_ns"@,
            AnyView::Int(b),
        ),
    decreases s.len(),
{
    if s.len() > 0 {
        lemma_hints(s.drop_last());
        assert("mp.clock.authoritative"@ != "mp.clock.boottime_ns"@) by {
            reveal_strlit("mp.clock.authoritative");
            reveal_strlit("mp.clock.boottime_ns");
            assert("mp.clock.authoritative"@.len() == 22 && "mp.clock.boottime_ns"@.len() == 20);
        }
        lemma_last(s, "mp.clock.authoritative"@, AnyView::Bool(true));
        assert forall|b: i64| hints_in(s).boottime == Some(b) <==> #[trigger] says_last(
            s,
            "mp.clock.boottime_ns"@,
            AnyView::Int(b),
        ) by {
            lemma_last(s, "mp.clock.boottime_ns"@, AnyView::Int(b));
        }
    }
}

proof fn lemma_last(s: Seq<AttrView>, key: Seq<char>, value: AnyView)
    requires
        s.len() > 0,
    ensures
        says_last(s, key, value) <==> if s.last().key == key {
            s.last().value == Some(value)
        } else {
            says_last(s.drop_last(), key, value)
        },
{
    let front = s.drop_last();
    let n = s.len() - 1;
    if s.last().key == key {
        assert(is_last_with(s, key, n));
        if says_last(s, key, value) {
            let i = choose|i: int| #[trigger] is_last_with(s, key, i) && s[i].value == Some(value);
            assert(i == n) by {
                if i < n {
                    assert(s[n].key != key);
                }
            }
        }
    } else {
        if says_last(s, key, value) {
            let i = choose|i: int| #[trigger] is_last_with(s, key, i) && s[i].value == Some(value);
            assert(is_last_with(front, key, i)) by {
                assert forall|j: int| i < j < front.len() implies (#[trigger] front[j]).key != key by {
                    assert(s[j].key != key);
                }
            }
            assert(front[i].value == Some(value));
        }
        if says_last(front, key, value) {
            let i = choose|i: int| #[trigger] is_last_with(front, key, i) && front[i].value == Some(value);
            assert(is_last_with(s, key, i)) by {
                assert forall|j: int| i < j < s.len() implies (#[trigger] s[j]).key != key by {
                    if j < n {
                        assert(front[j].key != key);
                    }
                }
            }
            assert(s[i].value == Some(value));
        }
    }
}

/// A record whose event is known on the boot clock leaves with the time that the offset of the flush
/// gives it; every other record, and every record of a flush without an offset, leaves with the times it
/// came with. An application that vouches for a time has the last word, and one that tells the boot time
/// has it before the history. Nothing but the times and the attributes is ever touched.
pub proof fn law_records_leave_with_the_time_of_their_event(
    record: RecordView,
    es: Seq<Epoch>,
    receipt: Receipt,
    correction: Option<Correction>,
    flush: Flush,
)
    requires
        is_plain(record.attributes),
    ensures
        ({
            let out = corrected_record(resolved_record(record, es, receipt), correction, flush);
            &&& forall|b: i64| #[trigger]
                happened_at(record, es, receipt, b) && correction is Some ==> is_moved(
                    record,
                    out,
                    b,
                    receipt.received,
                    correction->0.offset,
                )
            &&& correction is None ==> has_same_times(record, out)
            &&& (forall|b: i64| !#[trigger] happened_at(record, es, receipt, b)) ==> has_same_times(record, out)
            &&& out.event_name == record.event_name
            &&& out.body == record.body
            &&& out.severity_number == record.severity_number
            &&& out.severity_text == record.severity_text
            &&& out.trace_id == record.trace_id
            &&& out.span_id == record.span_id
            &&& out.flags == record.flags
            &&& out.dropped_attributes_count == record.dropped_attributes_count
        }),
{
    law_both_passes(record, es, receipt, correction, flush);
    lemma_hints(record.attributes);
    let hints = hints_in(record.attributes);
    let d = crate::collector::correct::record_disposition(record, es, receipt);
    let known = match d {
        Disposition::Resolved(r) => r.boottime(),
        Disposition::Authoritative => None,
    };
    assert forall|b: i64| #[trigger] happened_at(record, es, receipt, b) <==> known == Some(b) by {
        assert(is_told(record, b) <==> hints.boottime == Some(b));
        if hints.boottime is Some {
            assert(is_told(record, hints.boottime->0));
        } else {
            assert forall|c: i64| !is_told(record, c) by {
                assert(is_told(record, c) <==> hints.boottime == Some(c));
            }
        }
    }
    if known is Some {
        assert(happened_at(record, es, receipt, known->0));
    }
}

/// Whether an attribute is one that says that the clock was never set.
pub open spec fn is_uncertain_mark(a: AttrView) -> bool {
    a.key == "mp.clock.uncertain"@ && a.value == Some(AnyView::Bool(true))
}

/// Whether an attribute says by its label how the time of a record was come by.
pub open spec fn is_label(a: AttrView, label: Seq<char>) -> bool {
    a.key == "mp.clock.resolution"@ && a.value == Some(AnyView::Text(label))
}

/// What is not ordinary about a record is said in its attributes, behind its own: that its time could
/// not be corrected, or could have been explained in several ways, and how far these lie apart; and that
/// the clock was never set. Of an ordinary record nothing is said, and of no record anything else.
pub proof fn law_what_is_not_ordinary_is_said(
    record: RecordView,
    es: Seq<Epoch>,
    receipt: Receipt,
    correction: Option<Correction>,
    flush: Flush,
)
    requires
        is_plain(record.attributes),
    ensures
        ({
            let out = corrected_record(resolved_record(record, es, receipt), correction, flush);
            let own = record.attributes.filter(
                |a: AttrView| a.key != "mp.clock.boottime_ns"@ && a.key != "mp.clock.authoritative"@,
            );
            let d = crate::collector::correct::record_disposition(record, es, receipt);
            let unmoved = correction is None || forall|b: i64| !#[trigger] happened_at(record, es, receipt, b);
            let spread = match d {
                Disposition::Resolved(Resolution::Ambiguous { spread, .. }) => Some(spread),
                _ => None,
            };
            let n = own.len() as int;
            let label_at = n + if spread is Some { 1int } else { 0int };
            let labelled = unmoved || spread is Some || flush.uncertain;
            let mark_at = label_at + if labelled { 1int } else { 0int };
            &&& out.attributes.len() == mark_at + if flush.uncertain { 1int } else { 0int }
            &&& out.attributes.take(n) == own
            &&& spread is Some ==> out.attributes[n].key == "mp.clock.ambiguity_spread_ns"@ && out.attributes[n].value
                == Some(AnyView::Int(spread->0))
            &&& labelled ==> is_label(
                out.attributes[label_at],
                match d {
                    Disposition::Authoritative => "authoritative"@,
                    Disposition::Resolved(Resolution::Passthrough) => "passthrough"@,
                    Disposition::Resolved(Resolution::Exact { .. }) => "exact"@,
                    Disposition::Resolved(Resolution::Ambiguous { .. }) => "ambiguous"@,
                },
            )
            &&& flush.uncertain ==> is_uncertain_mark(out.attributes[mark_at])
            &&& d is Authoritative <==> is_vouched_for(record)
        }),
{
    law_both_passes(record, es, receipt, correction, flush);
    lemma_hints(record.attributes);
    let own = record.attributes.filter(
        |a: AttrView| a.key != "mp.clock.boottime_ns"@ && a.key != "mp.clock.authoritative"@,
    );
    lemma_own(record.attributes);
    assert(own == without_hints(record.attributes));
    let hints = hints_in(record.attributes);
    let d = crate::collector::correct::record_disposition(record, es, receipt);
    let known = match d {
        Disposition::Resolved(r) => r.boottime(),
        Disposition::Authoritative => None,
    };
    assert forall|b: i64| #[trigger] happened_at(record, es, receipt, b) <==> known == Some(b) by {
        assert(is_told(record, b) <==> hints.boottime == Some(b));
        if hints.boottime is Some {
            assert(is_told(record, hints.boottime->0));
        } else {
            assert forall|c: i64| !is_told(record, c) by {
                assert(is_told(record, c) <==> hints.boottime == Some(c));
            }
        }
    }
    if known is Some {
        assert(happened_at(record, es, receipt, known->0));
    }
    let out = corrected_record(resolved_record(record, es, receipt), correction, flush);
    assert(out.attributes.take(own.len() as int) =~= own);
}

proof fn lemma_own(s: Seq<AttrView>)
    ensures
        s.filter(|a: AttrView| a.key != "mp.clock.boottime_ns"@ && a.key != "mp.clock.authoritative"@)
            == without_hints(s),
    decreases s.len(),
{
    reveal(Seq::filter);
    if s.len() > 0 {
        lemma_own(s.drop_last());
    }
}

/// Records are counted by the way they went: by one explanation, by several, by none, or vouched for.
pub proof fn law_records_are_counted_by_the_way_they_went(ds: Seq<Disposition>)
    ensures
        occurrences(ds, Class::Exact) == ds.filter(
            |d: Disposition| d is Resolved && d->Resolved_0 is Exact,
        ).len(),
        occurrences(ds, Class::Ambiguous) == ds.filter(
            |d: Disposition| d is Resolved && d->Resolved_0 is Ambiguous,
        ).len(),
        occurrences(ds, Class::Passthrough) == ds.filter(
            |d: Disposition| d is Resolved && d->Resolved_0 is Passthrough,
        ).len(),
        occurrences(ds, Class::Authoritative) == ds.filter(|d: Disposition| d is Authoritative).len(),
    decreases ds.len(),
{
    reveal(Seq::filter);
    if ds.len() > 0 {
        law_records_are_counted_by_the_way_they_went(ds.drop_last());
    }
}

} // verus!
