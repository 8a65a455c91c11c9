//! What the two passes of [`correct`](crate::collector::correct) amount to together.

use vstd::prelude::*;

use crate::collector::correct::{
    bool_mark, carried_event, carried_label, carried_receipt, corrected_count, corrected_record, dispositions,
    first_text, flush_base, flush_pass, has_key, hints_in, int_mark, is_ambiguous, is_corrected, is_hint, kept_label, key_index,
    last_int, lemma_without_key_push, marked, occurrences, projected, receipt_marks, receipt_pass,
    record_disposition, resolved_record, rewritten, rewritten_records,
    rewritten_scope, text_mark, without_first, without_hints,
    without_key, Class, Correction, Disposition, Flush, Hints, Receipt, Tally, ATTR_AUTHORITATIVE, ATTR_BOOTTIME,
    ATTR_CORRECTED, ATTR_CORRECTION_NS, ATTR_EVENT_BOOTTIME, ATTR_RECEIPT_BOOTTIME,
    ATTR_RESOLUTION, ATTR_SPREAD_NS, ATTR_SYNC_SOURCE, ATTR_UNCERTAIN, NS,
};
use crate::collector::epoch::{explains, law_one_explanation_is_exact, Epoch, Query, Resolution};
use crate::otlp::proto::{
    all_records, scope_records, AttrView, RecordView, ResourceLogsView, ScopeLogsView,
};
use crate::text::begins_with;

verus! {

/// Every attribute key the collector uses lies in its own namespace.
pub proof fn law_keys_are_namespaced()
    ensures
        begins_with(ATTR_BOOTTIME@, NS@),
        begins_with(ATTR_AUTHORITATIVE@, NS@),
        begins_with(ATTR_EVENT_BOOTTIME@, NS@),
        begins_with(ATTR_RECEIPT_BOOTTIME@, NS@),
        begins_with(ATTR_CORRECTED@, NS@),
        begins_with(ATTR_CORRECTION_NS@, NS@),
        begins_with(ATTR_RESOLUTION@, NS@),
        begins_with(ATTR_SPREAD_NS@, NS@),
        begins_with(ATTR_UNCERTAIN@, NS@),
        begins_with(ATTR_SYNC_SOURCE@, NS@),
{
    assert(begins_with(ATTR_BOOTTIME@, NS@)) by {
        reveal_strlit("mp.clock.");
        reveal_strlit("mp.clock.boottime_ns");
        assert(ATTR_BOOTTIME@.take(9) =~= NS@);
    }
    assert(begins_with(ATTR_AUTHORITATIVE@, NS@)) by {
        reveal_strlit("mp.clock.");
        reveal_strlit("mp.clock.authoritative");
        assert(ATTR_AUTHORITATIVE@.take(9) =~= NS@);
    }
    assert(begins_with(ATTR_EVENT_BOOTTIME@, NS@)) by {
        reveal_strlit("mp.clock.");
        reveal_strlit("mp.clock.internal.event_boottime_ns");
        assert(ATTR_EVENT_BOOTTIME@.take(9) =~= NS@);
    }
    assert(begins_with(ATTR_RECEIPT_BOOTTIME@, NS@)) by {
        reveal_strlit("mp.clock.");
        reveal_strlit("mp.clock.internal.receipt_boottime_ns");
        assert(ATTR_RECEIPT_BOOTTIME@.take(9) =~= NS@);
    }
    assert(begins_with(ATTR_CORRECTED@, NS@)) by {
        reveal_strlit("mp.clock.");
        reveal_strlit("mp.clock.corrected");
        assert(ATTR_CORRECTED@.take(9) =~= NS@);
    }
    assert(begins_with(ATTR_CORRECTION_NS@, NS@)) by {
        reveal_strlit("mp.clock.");
        reveal_strlit("mp.clock.correction_ns");
        assert(ATTR_CORRECTION_NS@.take(9) =~= NS@);
    }
    assert(begins_with(ATTR_RESOLUTION@, NS@)) by {
        reveal_strlit("mp.clock.");
        reveal_strlit("mp.clock.resolution");
        assert(ATTR_RESOLUTION@.take(9) =~= NS@);
    }
    assert(begins_with(ATTR_SPREAD_NS@, NS@)) by {
        reveal_strlit("mp.clock.");
        reveal_strlit("mp.clock.ambiguity_spread_ns");
        assert(ATTR_SPREAD_NS@.take(9) =~= NS@);
    }
    assert(begins_with(ATTR_UNCERTAIN@, NS@)) by {
        reveal_strlit("mp.clock.");
        reveal_strlit("mp.clock.uncertain");
        assert(ATTR_UNCERTAIN@.take(9) =~= NS@);
    }
    assert(begins_with(ATTR_SYNC_SOURCE@, NS@)) by {
        reveal_strlit("mp.clock.");
        reveal_strlit("mp.clock.sync_source");
        assert(ATTR_SYNC_SOURCE@.take(9) =~= NS@);
    }
}

proof fn lemma_keys_differ()
    ensures
        ATTR_BOOTTIME@ != ATTR_RESOLUTION@,
        ATTR_BOOTTIME@ != ATTR_UNCERTAIN@,
        ATTR_BOOTTIME@ != ATTR_EVENT_BOOTTIME@,
        ATTR_BOOTTIME@ != ATTR_RECEIPT_BOOTTIME@,
        ATTR_BOOTTIME@ != ATTR_SPREAD_NS@,
        ATTR_AUTHORITATIVE@ != ATTR_RESOLUTION@,
        ATTR_AUTHORITATIVE@ != ATTR_UNCERTAIN@,
        ATTR_AUTHORITATIVE@ != ATTR_EVENT_BOOTTIME@,
        ATTR_AUTHORITATIVE@ != ATTR_RECEIPT_BOOTTIME@,
        ATTR_AUTHORITATIVE@ != ATTR_SPREAD_NS@,
        ATTR_EVENT_BOOTTIME@ != ATTR_RECEIPT_BOOTTIME@,
        ATTR_EVENT_BOOTTIME@ != ATTR_RESOLUTION@,
        ATTR_EVENT_BOOTTIME@ != ATTR_SPREAD_NS@,
        ATTR_EVENT_BOOTTIME@ != ATTR_UNCERTAIN@,
        ATTR_RECEIPT_BOOTTIME@ != ATTR_RESOLUTION@,
        ATTR_RECEIPT_BOOTTIME@ != ATTR_SPREAD_NS@,
        ATTR_RECEIPT_BOOTTIME@ != ATTR_UNCERTAIN@,
        ATTR_RESOLUTION@ != ATTR_SPREAD_NS@,
        ATTR_RESOLUTION@ != ATTR_UNCERTAIN@,
        "exact"@ != "ambiguous"@,
        "exact"@ != "passthrough"@,
        "exact"@ != "authoritative"@,
        "ambiguous"@ != "passthrough"@,
        "ambiguous"@ != "authoritative"@,
        "passthrough"@ != "authoritative"@,
{
    assert(ATTR_BOOTTIME@.len() == 20) by {
        reveal_strlit("mp.clock.boottime_ns");
    }
    assert(ATTR_AUTHORITATIVE@.len() == 22) by {
        reveal_strlit("mp.clock.authoritative");
    }
    assert(ATTR_EVENT_BOOTTIME@.len() == 35) by {
        reveal_strlit("mp.clock.internal.event_boottime_ns");
    }
    assert(ATTR_RECEIPT_BOOTTIME@.len() == 37) by {
        reveal_strlit("mp.clock.internal.receipt_boottime_ns");
    }
    assert(ATTR_RESOLUTION@.len() == 19) by {
        reveal_strlit("mp.clock.resolution");
    }
    assert(ATTR_SPREAD_NS@.len() == 28) by {
        reveal_strlit("mp.clock.ambiguity_spread_ns");
    }
    assert(ATTR_UNCERTAIN@.len() == 18) by {
        reveal_strlit("mp.clock.uncertain");
    }
    assert("exact"@.len() == 5) by {
        reveal_strlit("exact");
    }
    assert("ambiguous"@.len() == 9) by {
        reveal_strlit("ambiguous");
    }
    assert("passthrough"@.len() == 11) by {
        reveal_strlit("passthrough");
    }
    assert("authoritative"@.len() == 13) by {
        reveal_strlit("authoritative");
    }
}

/// A label names a disposition of its own kind.
pub proof fn law_labels_round_trip(d: Disposition)
    ensures
        Disposition::labelled(d.spec_label()) matches Some(back) && back.spec_label() == d.spec_label()
            && back.correctable() == d.correctable(),
{
    lemma_keys_differ();
}

proof fn lemma_filter_push<A>(s: Seq<A>, a: A, pred: spec_fn(A) -> bool)
    ensures
        s.push(a).filter(pred) == if pred(a) { s.filter(pred).push(a) } else { s.filter(pred) },
{
    reveal(Seq::filter);
    assert(s.push(a).drop_last() =~= s);
}

proof fn lemma_filter_add<A>(s: Seq<A>, t: Seq<A>, pred: spec_fn(A) -> bool)
    ensures
        (s + t).filter(pred) == s.filter(pred) + t.filter(pred),
    decreases t.len(),
{
    reveal(Seq::filter);
    if t.len() == 0 {
        assert(s + t =~= s);
        assert(s.filter(pred) + t.filter(pred) =~= s.filter(pred));
    } else {
        lemma_filter_add(s, t.drop_last(), pred);
        assert((s + t).drop_last() =~= s + t.drop_last());
        assert((s + t).last() == t.last());
        assert((s + t).filter(pred) =~= s.filter(pred) + t.filter(pred));
    }
}

/// Filtering twice is filtering once with both conditions, and keeps only what both keep.
proof fn lemma_filter_keeps<A>(s: Seq<A>, pred: spec_fn(A) -> bool)
    ensures
        forall|i: int| 0 <= i < s.filter(pred).len() ==> pred(#[trigger] s.filter(pred)[i]) && s.contains(s.filter(pred)[i]),
        (forall|i: int| 0 <= i < s.len() ==> pred(#[trigger] s[i])) ==> s.filter(pred) == s,
    decreases s.len(),
{
    reveal(Seq::filter);
    if s.len() > 0 {
        let front = s.drop_last();
        lemma_filter_keeps(front, pred);
        assert forall|i: int| 0 <= i < s.filter(pred).len() implies pred(#[trigger] s.filter(pred)[i])
            && s.contains(s.filter(pred)[i]) by {
            if i < front.filter(pred).len() {
                assert(s.filter(pred)[i] == front.filter(pred)[i]);
                let k = choose|k: int| 0 <= k < front.len() && front[k] == front.filter(pred)[i];
                assert(s[k] == s.filter(pred)[i]);
            } else {
                assert(s[s.len() - 1] == s.filter(pred)[i]);
            }
        }
        if forall|i: int| 0 <= i < s.len() ==> pred(#[trigger] s[i]) {
            assert forall|i: int| 0 <= i < front.len() implies pred(#[trigger] front[i]) by {
                assert(front[i] == s[i]);
            }
            assert(pred(s[s.len() - 1]));
            assert(front.push(s.last()) =~= s);
        }
    }
}

proof fn lemma_filter_twice<A>(s: Seq<A>, p: spec_fn(A) -> bool, q: spec_fn(A) -> bool)
    requires
        forall|a: A| #[trigger] q(a) ==> p(a),
    ensures
        s.filter(p).filter(q) == s.filter(q),
    decreases s.len(),
{
    reveal(Seq::filter);
    if s.len() > 0 {
        let front = s.drop_last();
        lemma_filter_twice(front, p, q);
        assert(s =~= front.push(s.last()));
        lemma_filter_push(front, s.last(), p);
        lemma_filter_push(front, s.last(), q);
        if p(s.last()) {
            lemma_filter_push(front.filter(p), s.last(), q);
        }
    }
}

proof fn lemma_without_key(s: Seq<AttrView>, key: Seq<char>)
    ensures
        !has_key(without_key(s, key), key),
        forall|k: Seq<char>| !has_key(s, k) ==> !has_key(without_key(s, key), k),
        !has_key(s, key) ==> without_key(s, key) == s,
{
    let pred = |a: AttrView| a.key != key;
    lemma_filter_keeps(s, pred);
    assert(without_key(s, key) == s.filter(pred));
    assert forall|k: Seq<char>| !has_key(s, k) implies !has_key(without_key(s, key), k) by {
        if has_key(without_key(s, key), k) {
            let i = choose|i: int| 0 <= i < without_key(s, key).len() && (#[trigger] without_key(s, key)[i]).key == k;
            let a = s.filter(pred)[i];
            let j = choose|j: int| 0 <= j < s.len() && s[j] == a;
            assert(s[j].key == k);
        }
    }
}

proof fn lemma_without_hints(s: Seq<AttrView>)
    ensures
        !has_key(without_hints(s), ATTR_BOOTTIME@),
        !has_key(without_hints(s), ATTR_AUTHORITATIVE@),
        forall|k: Seq<char>| !has_key(s, k) ==> !has_key(without_hints(s), k),
{
    let pred = |a: AttrView| !is_hint(a.key);
    lemma_filter_keeps(s, pred);
    assert(without_hints(s) == s.filter(pred));
    assert forall|k: Seq<char>| !has_key(s, k) implies !has_key(without_hints(s), k) by {
        if has_key(without_hints(s), k) {
            let i = choose|i: int| 0 <= i < without_hints(s).len() && (#[trigger] without_hints(s)[i]).key == k;
            let a = s.filter(pred)[i];
            let j = choose|j: int| 0 <= j < s.len() && s[j] == a;
            assert(s[j].key == k);
        }
    }
}

proof fn lemma_key_index_bounds(s: Seq<AttrView>, key: Seq<char>)
    ensures
        0 <= key_index(s, key) <= s.len(),
        key_index(s, key) < s.len() ==> s[key_index(s, key)].key == key,
        has_key(s, key) ==> key_index(s, key) < s.len(),
        forall|i: int| 0 <= i < key_index(s, key) ==> (#[trigger] s[i]).key != key,
    decreases s.len(),
{
    if s.len() > 0 && s[0].key != key {
        let rest = s.drop_first();
        lemma_key_index_bounds(rest, key);
        assert forall|i: int| 0 <= i < key_index(s, key) implies (#[trigger] s[i]).key != key by {
            if i > 0 {
                assert(s[i] == rest[i - 1]);
            }
        }
        if has_key(s, key) {
            let i = choose|i: int| 0 <= i < s.len() && (#[trigger] s[i]).key == key;
            assert(rest[i - 1].key == key);
        }
    }
}

proof fn lemma_without_first(s: Seq<AttrView>, key: Seq<char>)
    ensures
        forall|k: Seq<char>| !has_key(s, k) ==> !has_key(without_first(s, key), k),
{
    lemma_key_index_bounds(s, key);
    let t = without_first(s, key);
    assert forall|k: Seq<char>| !has_key(s, k) implies !has_key(t, k) by {
        if has_key(t, k) {
            let i = choose|i: int| 0 <= i < t.len() && (#[trigger] t[i]).key == k;
            if has_key(s, key) {
                let j = if i < key_index(s, key) { i } else { i + 1 };
                assert(s[j].key == k);
            } else {
                assert(s[i].key == k);
            }
        }
    }
}

proof fn lemma_no_key_add(s: Seq<AttrView>, t: Seq<AttrView>, key: Seq<char>)
    ensures
        has_key(s + t, key) <==> has_key(s, key) || has_key(t, key),
{
    if has_key(s + t, key) {
        let i = choose|i: int| 0 <= i < (s + t).len() && (#[trigger] (s + t)[i]).key == key;
        if i < s.len() {
            assert(s[i].key == key);
        } else {
            assert(t[i - s.len()].key == key);
        }
    }
    if has_key(s, key) {
        let i = choose|i: int| 0 <= i < s.len() && (#[trigger] s[i]).key == key;
        assert((s + t)[i].key == key);
    }
    if has_key(t, key) {
        let i = choose|i: int| 0 <= i < t.len() && (#[trigger] t[i]).key == key;
        assert((s + t)[i + s.len()].key == key);
    }
}

proof fn lemma_key_push(s: Seq<AttrView>, a: AttrView, key: Seq<char>)
    ensures
        has_key(s.push(a), key) <==> has_key(s, key) || a.key == key,
{
    let t = s.push(a);
    assert(t[s.len() as int] == a);
    if has_key(s, key) {
        let i = choose|i: int| 0 <= i < s.len() && (#[trigger] s[i]).key == key;
        assert(t[i].key == key);
    }
    if has_key(t, key) && a.key != key {
        let i = choose|i: int| 0 <= i < t.len() && (#[trigger] t[i]).key == key;
        assert(s[i].key == key);
    }
}

/// The marks of a flush have no other keys than their own two.
proof fn lemma_marked_keys(s: Seq<AttrView>, label: Option<Seq<char>>, uncertain: bool, key: Seq<char>)
    requires
        key != ATTR_RESOLUTION@,
        key != ATTR_UNCERTAIN@,
    ensures
        has_key(marked(s, label, uncertain), key) <==> has_key(s, key),
{
    let labelled = match label {
        Some(label) => s.push(text_mark(ATTR_RESOLUTION@, label)),
        None => s,
    };
    if label is Some {
        lemma_key_push(s, text_mark(ATTR_RESOLUTION@, label->0), key);
    }
    if uncertain {
        lemma_key_push(labelled, bool_mark(ATTR_UNCERTAIN@, true), key);
    }
}

/// The collector's own bookkeeping never leaves it, whatever a record came in with and whether or
/// not there is an offset to correct with.
pub proof fn law_internal_attributes_never_reach_the_wire(
    record: RecordView,
    correction: Option<Correction>,
    flush: Flush,
)
    ensures
        !has_key(corrected_record(record, correction, flush).attributes, ATTR_EVENT_BOOTTIME@),
        !has_key(corrected_record(record, correction, flush).attributes, ATTR_RECEIPT_BOOTTIME@),
{
    reveal(corrected_record);
    lemma_keys_differ();
    let taken = without_first(record.attributes, ATTR_RESOLUTION@);
    lemma_without_key(taken, ATTR_EVENT_BOOTTIME@);
    lemma_without_key(without_key(taken, ATTR_EVENT_BOOTTIME@), ATTR_RECEIPT_BOOTTIME@);
    let base = flush_base(record);
    let label = kept_label(record, correction, flush);
    lemma_marked_keys(base, label, flush.uncertain, ATTR_EVENT_BOOTTIME@);
    lemma_marked_keys(base, label, flush.uncertain, ATTR_RECEIPT_BOOTTIME@);
}

/// A hint that an application attached is consumed: it never leaves the collector.
pub proof fn law_hints_never_reach_the_wire(
    record: RecordView,
    es: Seq<Epoch>,
    receipt: Receipt,
    correction: Option<Correction>,
    flush: Flush,
)
    ensures
        ({
            let out = corrected_record(resolved_record(record, es, receipt), correction, flush);
            !has_key(out.attributes, ATTR_BOOTTIME@) && !has_key(out.attributes, ATTR_AUTHORITATIVE@)
        }),
{
    reveal(corrected_record);
    lemma_keys_differ();
    let mid = resolved_record(record, es, receipt);
    let d = record_disposition(record, es, receipt);
    lemma_without_hints(record.attributes);
    let kept = without_hints(record.attributes);
    let marks = receipt_marks(d, receipt.received);
    lemma_no_key_add(kept, marks, ATTR_BOOTTIME@);
    lemma_no_key_add(kept, marks, ATTR_AUTHORITATIVE@);
    let taken = without_first(mid.attributes, ATTR_RESOLUTION@);
    lemma_without_first(mid.attributes, ATTR_RESOLUTION@);
    lemma_without_key(taken, ATTR_EVENT_BOOTTIME@);
    lemma_without_key(without_key(taken, ATTR_EVENT_BOOTTIME@), ATTR_RECEIPT_BOOTTIME@);
    let base = flush_base(mid);
    let label = kept_label(mid, correction, flush);
    lemma_marked_keys(base, label, flush.uncertain, ATTR_BOOTTIME@);
    lemma_marked_keys(base, label, flush.uncertain, ATTR_AUTHORITATIVE@);
}

/// The attributes that are not the collector's: those outside its namespace.
pub open spec fn application_attributes(s: Seq<AttrView>) -> Seq<AttrView> {
    s.filter(|a: AttrView| !begins_with(a.key, NS@))
}

/// No attribute of the application is lost, changed or moved by either pass.
pub proof fn law_application_attributes_are_kept(
    record: RecordView,
    es: Seq<Epoch>,
    receipt: Receipt,
    correction: Option<Correction>,
    flush: Flush,
)
    ensures
        application_attributes(resolved_record(record, es, receipt).attributes) == application_attributes(
            record.attributes,
        ),
        application_attributes(corrected_record(record, correction, flush).attributes)
            == application_attributes(record.attributes),
{
    reveal(corrected_record);
    law_keys_are_namespaced();
    let app = |a: AttrView| !begins_with(a.key, NS@);
    let d = record_disposition(record, es, receipt);
    let marks = receipt_marks(d, receipt.received);
    lemma_own_marks(marks);
    lemma_filter_add(without_hints(record.attributes), marks, app);
    let no_hint = |a: AttrView| !is_hint(a.key);
    lemma_filter_twice(record.attributes, no_hint, app);
    assert(application_attributes(resolved_record(record, es, receipt).attributes) =~= application_attributes(
        record.attributes,
    ));
    let taken = without_first(record.attributes, ATTR_RESOLUTION@);
    lemma_key_index_bounds(record.attributes, ATTR_RESOLUTION@);
    if has_key(record.attributes, ATTR_RESOLUTION@) {
        let k = key_index(record.attributes, ATTR_RESOLUTION@);
        let head = record.attributes.take(k);
        let tail = record.attributes.skip(k + 1);
        let label = record.attributes[k];
        assert(record.attributes =~= head.push(label) + tail);
        assert(taken =~= head + tail);
        lemma_filter_add(head.push(label), tail, app);
        lemma_filter_push(head, label, app);
        lemma_filter_add(head, tail, app);
    }
    let no_event = |a: AttrView| a.key != ATTR_EVENT_BOOTTIME@;
    let no_receipt = |a: AttrView| a.key != ATTR_RECEIPT_BOOTTIME@;
    lemma_filter_twice(taken, no_event, app);
    lemma_filter_twice(without_key(taken, ATTR_EVENT_BOOTTIME@), no_receipt, app);
    let base = flush_base(record);
    let label = kept_label(record, correction, flush);
    let labelled = match label {
        Some(label) => base.push(text_mark(ATTR_RESOLUTION@, label)),
        None => base,
    };
    if label is Some {
        lemma_filter_push(base, text_mark(ATTR_RESOLUTION@, label->0), app);
    }
    if flush.uncertain {
        lemma_filter_push(labelled, bool_mark(ATTR_UNCERTAIN@, true), app);
    }
}

proof fn lemma_own_marks(s: Seq<AttrView>)
    requires
        forall|i: int| 0 <= i < s.len() ==> begins_with((#[trigger] s[i]).key, NS@),
    ensures
        application_attributes(s) == Seq::<AttrView>::empty(),
    decreases s.len(),
{
    reveal(Seq::filter);
    if s.len() > 0 {
        let front = s.drop_last();
        assert forall|i: int| 0 <= i < front.len() implies begins_with((#[trigger] front[i]).key, NS@) by {
            assert(front[i] == s[i]);
        }
        lemma_own_marks(front);
        assert(begins_with(s[s.len() - 1].key, NS@));
    }
}

/// Whether none of the attributes already carries a key that the two passes hand a value over in.
pub open spec fn is_plain(s: Seq<AttrView>) -> bool {
    &&& !has_key(s, ATTR_RESOLUTION@)
    &&& !has_key(s, ATTR_EVENT_BOOTTIME@)
    &&& !has_key(s, ATTR_RECEIPT_BOOTTIME@)
    &&& !has_key(s, ATTR_SPREAD_NS@)
}

/// The attributes a record is delivered with: its own without the hints, then how far several
/// explanations lie apart, then its label where something about it is not ordinary, then whether
/// the clock was never set.
pub open spec fn delivered_attributes(
    s: Seq<AttrView>,
    d: Disposition,
    correction: Option<Correction>,
    flush: Flush,
) -> Seq<AttrView> {
    let ambiguous = d matches Disposition::Resolved(Resolution::Ambiguous { .. });
    let exceptional = correction is None || !d.correctable() || flush.uncertain || ambiguous;
    let kept = match d {
        Disposition::Resolved(Resolution::Ambiguous { spread, .. }) => without_hints(s).push(
            int_mark(ATTR_SPREAD_NS@, spread),
        ),
        _ => without_hints(s),
    };
    marked(kept, if exceptional { Some(d.spec_label()) } else { None }, flush.uncertain)
}

/// The record as it is delivered after both passes.
pub open spec fn delivered(
    record: RecordView,
    d: Disposition,
    received: i64,
    correction: Option<Correction>,
    flush: Flush,
) -> RecordView {
    let attributes = delivered_attributes(record.attributes, d, correction, flush);
    let boottime = match d {
        Disposition::Resolved(r) => r.boottime(),
        Disposition::Authoritative => None,
    };
    match (correction, boottime) {
        (Some(Correction { offset }), Some(event)) => if record.time_unix_nano != 0 {
            RecordView {
                attributes,
                time_unix_nano: projected(event, offset),
                observed_time_unix_nano: projected(received, offset),
                ..record
            }
        } else {
            RecordView { attributes, observed_time_unix_nano: projected(event, offset), ..record }
        },
        _ => RecordView { attributes, ..record },
    }
}

proof fn lemma_absent_key(s: Seq<AttrView>, key: Seq<char>)
    requires
        !has_key(s, key),
    ensures
        without_key(s, key) == s,
{
    lemma_without_key(s, key);
}

proof fn lemma_still_plain(s: Seq<AttrView>)
    requires
        is_plain(s),
    ensures
        is_plain(without_hints(s)),
{
    lemma_without_hints(s);
}

/// Where the label stands when it is the last mark and the only attribute with its key.
proof fn lemma_label_is_last(kept: Seq<AttrView>, carried: Seq<AttrView>, label: Seq<char>)
    requires
        !has_key(kept, ATTR_RESOLUTION@),
        !has_key(carried, ATTR_RESOLUTION@),
    ensures
        ({
            let all = kept + carried.push(text_mark(ATTR_RESOLUTION@, label));
            &&& first_text(all, ATTR_RESOLUTION@) == Some(label)
            &&& without_first(all, ATTR_RESOLUTION@) == kept + carried
        }),
{
    let all = kept + carried.push(text_mark(ATTR_RESOLUTION@, label));
    let at = all.len() - 1;
    assert(all[at].key == ATTR_RESOLUTION@);
    assert(has_key(all, ATTR_RESOLUTION@));
    lemma_key_index_bounds(all, ATTR_RESOLUTION@);
    let k = key_index(all, ATTR_RESOLUTION@);
    assert(k == at) by {
        if k < kept.len() {
            assert(kept[k].key == ATTR_RESOLUTION@);
        } else if k < at {
            assert(carried[k - kept.len()].key == ATTR_RESOLUTION@);
        }
    }
    assert(all.remove(at) =~= kept + carried);
}

/// What is read back of an exact resolution.
proof fn lemma_exact_is_read_back(kept: Seq<AttrView>, boottime: i64, received: i64)
    requires
        !has_key(kept, ATTR_EVENT_BOOTTIME@),
        !has_key(kept, ATTR_RECEIPT_BOOTTIME@),
        ATTR_EVENT_BOOTTIME@ != ATTR_RECEIPT_BOOTTIME@,
    ensures
        last_int(two_marks(kept, boottime, received), ATTR_EVENT_BOOTTIME@) == Some(boottime),
        without_key(two_marks(kept, boottime, received), ATTR_EVENT_BOOTTIME@) == kept.push(
            int_mark(ATTR_RECEIPT_BOOTTIME@, received),
        ),
        last_int(kept.push(int_mark(ATTR_RECEIPT_BOOTTIME@, received)), ATTR_RECEIPT_BOOTTIME@) == Some(received),
        without_key(kept.push(int_mark(ATTR_RECEIPT_BOOTTIME@, received)), ATTR_RECEIPT_BOOTTIME@) == kept,
{
    let event = int_mark(ATTR_EVENT_BOOTTIME@, boottime);
    let receipt = int_mark(ATTR_RECEIPT_BOOTTIME@, received);
    let one = kept.push(event);
    let two = one.push(receipt);
    lemma_absent_key(kept, ATTR_EVENT_BOOTTIME@);
    lemma_absent_key(kept, ATTR_RECEIPT_BOOTTIME@);
    lemma_without_key_push(kept, event, ATTR_EVENT_BOOTTIME@);
    lemma_without_key_push(one, receipt, ATTR_EVENT_BOOTTIME@);
    lemma_without_key_push(kept, receipt, ATTR_RECEIPT_BOOTTIME@);
    let left = kept.push(receipt);
    assert(left.last() == receipt);
    assert(two.drop_last() =~= one);
    assert(two.last() == receipt);
    assert(one.last() == event);
    assert(last_int(one, ATTR_EVENT_BOOTTIME@) == Some(boottime));
}

/// A record's attributes with the two values that every resolved one carries.
spec fn two_marks(kept: Seq<AttrView>, boottime: i64, received: i64) -> Seq<AttrView> {
    kept.push(int_mark(ATTR_EVENT_BOOTTIME@, boottime)).push(int_mark(ATTR_RECEIPT_BOOTTIME@, received))
}

/// What is read back of an ambiguous resolution.
proof fn lemma_ambiguous_is_read_back(kept: Seq<AttrView>, boottime: i64, received: i64, width: AttrView)
    requires
        !has_key(kept, ATTR_EVENT_BOOTTIME@),
        !has_key(kept, ATTR_RECEIPT_BOOTTIME@),
        ATTR_EVENT_BOOTTIME@ != ATTR_RECEIPT_BOOTTIME@,
        width.key != ATTR_EVENT_BOOTTIME@,
        width.key != ATTR_RECEIPT_BOOTTIME@,
    ensures
        last_int(two_marks(kept, boottime, received).push(width), ATTR_EVENT_BOOTTIME@) == Some(boottime),
        without_key(two_marks(kept, boottime, received).push(width), ATTR_EVENT_BOOTTIME@) == kept.push(
            int_mark(ATTR_RECEIPT_BOOTTIME@, received),
        ).push(width),
        last_int(
            kept.push(int_mark(ATTR_RECEIPT_BOOTTIME@, received)).push(width),
            ATTR_RECEIPT_BOOTTIME@,
        ) == Some(received),
        without_key(
            kept.push(int_mark(ATTR_RECEIPT_BOOTTIME@, received)).push(width),
            ATTR_RECEIPT_BOOTTIME@,
        ) == kept.push(width),
{
    lemma_exact_is_read_back(kept, boottime, received);
    let two = two_marks(kept, boottime, received);
    let left = kept.push(int_mark(ATTR_RECEIPT_BOOTTIME@, received));
    lemma_without_key_push(two, width, ATTR_EVENT_BOOTTIME@);
    lemma_without_key_push(left, width, ATTR_RECEIPT_BOOTTIME@);
    assert(two.push(width).drop_last() =~= two);
    assert(left.push(width).drop_last() =~= left);
}

/// What the flush finds on a record that the receipt pass left untouchable.
proof fn lemma_untouched_reads(kept: Seq<AttrView>, label: Seq<char>, record: RecordView)
    requires
        is_plain(kept),
        record.attributes == kept.push(text_mark(ATTR_RESOLUTION@, label)),
    ensures
        carried_label(record) == Some(label),
        flush_base(record) == kept,
        !is_ambiguous(record),
{
    let none = Seq::<AttrView>::empty();
    lemma_label_is_last(kept, none, label);
    assert(kept + none =~= kept);
    assert(record.attributes =~= kept + none.push(text_mark(ATTR_RESOLUTION@, label)));
    lemma_absent_key(kept, ATTR_EVENT_BOOTTIME@);
    lemma_absent_key(kept, ATTR_RECEIPT_BOOTTIME@);
}

/// What the flush finds on a record with one explanation.
proof fn lemma_exact_reads(kept: Seq<AttrView>, label: Seq<char>, boottime: i64, received: i64, record: RecordView)
    requires
        is_plain(kept),
        record.attributes == two_marks(kept, boottime, received).push(text_mark(ATTR_RESOLUTION@, label)),
    ensures
        carried_label(record) == Some(label),
        carried_event(record) == Some(boottime),
        carried_receipt(record) == Some(received),
        flush_base(record) == kept,
        !is_ambiguous(record),
{
    lemma_keys_differ();
    let event = int_mark(ATTR_EVENT_BOOTTIME@, boottime);
    let receipt = int_mark(ATTR_RECEIPT_BOOTTIME@, received);
    let carried = Seq::<AttrView>::empty().push(event).push(receipt);
    assert(!has_key(carried, ATTR_RESOLUTION@));
    assert(!has_key(carried, ATTR_SPREAD_NS@));
    lemma_label_is_last(kept, carried, label);
    assert(record.attributes =~= kept + carried.push(text_mark(ATTR_RESOLUTION@, label)));
    lemma_no_key_add(kept, carried, ATTR_SPREAD_NS@);
    assert(kept + carried =~= two_marks(kept, boottime, received));
    lemma_exact_is_read_back(kept, boottime, received);
}

/// What the flush finds on a record with several explanations.
proof fn lemma_ambiguous_reads(
    kept: Seq<AttrView>,
    label: Seq<char>,
    boottime: i64,
    received: i64,
    spread: i64,
    record: RecordView,
)
    requires
        is_plain(kept),
        record.attributes == two_marks(kept, boottime, received).push(int_mark(ATTR_SPREAD_NS@, spread)).push(
            text_mark(ATTR_RESOLUTION@, label),
        ),
    ensures
        carried_label(record) == Some(label),
        carried_event(record) == Some(boottime),
        carried_receipt(record) == Some(received),
        flush_base(record) == kept.push(int_mark(ATTR_SPREAD_NS@, spread)),
        is_ambiguous(record),
{
    lemma_keys_differ();
    let event = int_mark(ATTR_EVENT_BOOTTIME@, boottime);
    let receipt = int_mark(ATTR_RECEIPT_BOOTTIME@, received);
    let width = int_mark(ATTR_SPREAD_NS@, spread);
    let carried = Seq::<AttrView>::empty().push(event).push(receipt).push(width);
    assert(!has_key(carried, ATTR_RESOLUTION@));
    assert(carried[2].key == ATTR_SPREAD_NS@);
    lemma_label_is_last(kept, carried, label);
    assert(record.attributes =~= kept + carried.push(text_mark(ATTR_RESOLUTION@, label)));
    lemma_no_key_add(kept, carried, ATTR_SPREAD_NS@);
    assert(kept + carried =~= two_marks(kept, boottime, received).push(width));
    lemma_ambiguous_is_read_back(kept, boottime, received, width);
}

/// What both passes together make of a record: its event boot time projected with the offset of
/// the flush where it has one, its original stamps otherwise, its own attributes without the
/// hints, and marks only where something about it is not ordinary.
pub proof fn law_both_passes(
    record: RecordView,
    es: Seq<Epoch>,
    receipt: Receipt,
    correction: Option<Correction>,
    flush: Flush,
)
    requires
        is_plain(record.attributes),
    ensures
        corrected_record(resolved_record(record, es, receipt), correction, flush) == delivered(
            record,
            record_disposition(record, es, receipt),
            receipt.received,
            correction,
            flush,
        ),
{
    reveal(corrected_record);
    let d = record_disposition(record, es, receipt);
    law_labels_round_trip(d);
    let mid = resolved_record(record, es, receipt);
    let kept = without_hints(record.attributes);
    lemma_still_plain(record.attributes);
    let label = text_mark(ATTR_RESOLUTION@, d.spec_label());
    match d {
        Disposition::Resolved(Resolution::Exact { boottime }) => {
            assert(mid.attributes =~= two_marks(kept, boottime, receipt.received).push(label));
            lemma_exact_reads(kept, d.spec_label(), boottime, receipt.received, mid);
        },
        Disposition::Resolved(Resolution::Ambiguous { boottime, spread }) => {
            assert(mid.attributes =~= two_marks(kept, boottime, receipt.received).push(
                int_mark(ATTR_SPREAD_NS@, spread),
            ).push(label));
            lemma_ambiguous_reads(kept, d.spec_label(), boottime, receipt.received, spread, mid);
        },
        _ => {
            assert(mid.attributes =~= kept.push(label));
            lemma_untouched_reads(kept, d.spec_label(), mid);
        },
    }
}

/// The correction of a record is the size of the step between the epoch it was stamped in and the
/// epoch of the flush, and nothing else. In particular a record stamped in the epoch still in
/// force comes out with the timestamp it went in with, to the nanosecond.
pub proof fn law_correction_is_the_step(
    record: RecordView,
    es: Seq<Epoch>,
    receipt: Receipt,
    i: int,
    offset: i64,
    flush: Flush,
)
    requires
        is_plain(record.attributes),
        hints_in(record.attributes) == (Hints { boottime: None, authoritative: false }),
        0 < record.time_unix_nano <= i64::MAX,
        0 <= i < es.len(),
        ({
            let q = Query {
                stamped: record.time_unix_nano as i64,
                sender_started: receipt.sender_started,
                received: receipt.received,
            };
            &&& explains(es, i, q, receipt.tolerance)
            &&& forall|j: int| 0 <= j < es.len() && j != i ==> !#[trigger] explains(es, j, q, receipt.tolerance)
        }),
        0 <= record.time_unix_nano + (offset - es[i].offset) <= i64::MAX,
    ensures
        ({
            let out = corrected_record(resolved_record(record, es, receipt), Some(Correction { offset }), flush);
            &&& out.time_unix_nano == record.time_unix_nano + (offset - es[i].offset)
            &&& offset == es[i].offset ==> out.time_unix_nano == record.time_unix_nano
            &&& !flush.uncertain ==> out.attributes == without_hints(record.attributes)
        }),
{
    reveal(corrected_record);
    let q = Query {
        stamped: record.time_unix_nano as i64,
        sender_started: receipt.sender_started,
        received: receipt.received,
    };
    law_one_explanation_is_exact(es, q, receipt.tolerance, i);
    law_both_passes(record, es, receipt, Some(Correction { offset }), flush);
    let out = corrected_record(resolved_record(record, es, receipt), Some(Correction { offset }), flush);
    if !flush.uncertain {
        assert(out.attributes =~= without_hints(record.attributes));
    }
}

/// A record that is sent twice and explained the same both times is delivered with the same name,
/// body, attributes and event time, whenever each copy came: so the receiver, which identifies a
/// measurement by these, stores it once.
pub proof fn law_deliveries_agree_on_what_identifies(
    record: RecordView,
    es: Seq<Epoch>,
    first: Receipt,
    second: Receipt,
    correction: Option<Correction>,
    flush: Flush,
)
    requires
        is_plain(record.attributes),
        record_disposition(record, es, first) == record_disposition(record, es, second),
    ensures
        ({
            let a = corrected_record(resolved_record(record, es, first), correction, flush);
            let b = corrected_record(resolved_record(record, es, second), correction, flush);
            &&& a.event_name == b.event_name
            &&& a.body == b.body
            &&& a.attributes == b.attributes
            &&& a.time_unix_nano == b.time_unix_nano
            &&& record.time_unix_nano == 0 ==> a.observed_time_unix_nano == b.observed_time_unix_nano
        }),
{
    law_both_passes(record, es, first, correction, flush);
    law_both_passes(record, es, second, correction, flush);
}

/// A record that the application vouches for, one that no epoch explains, and any record flushed
/// without an offset leave with the timestamps they arrived with, and with a label that says so.
pub proof fn law_untouchable_records_keep_their_stamps(
    record: RecordView,
    es: Seq<Epoch>,
    receipt: Receipt,
    correction: Option<Correction>,
    flush: Flush,
)
    requires
        is_plain(record.attributes),
        correction is None || !record_disposition(record, es, receipt).correctable(),
    ensures
        ({
            let out = corrected_record(resolved_record(record, es, receipt), correction, flush);
            &&& out.time_unix_nano == record.time_unix_nano
            &&& out.observed_time_unix_nano == record.observed_time_unix_nano
            &&& has_key(out.attributes, ATTR_RESOLUTION@)
        }),
{
    reveal(corrected_record);
    law_both_passes(record, es, receipt, correction, flush);
    let d = record_disposition(record, es, receipt);
    let kept = match d {
        Disposition::Resolved(Resolution::Ambiguous { spread, .. }) => without_hints(record.attributes).push(
            int_mark(ATTR_SPREAD_NS@, spread),
        ),
        _ => without_hints(record.attributes),
    };
    let label = text_mark(ATTR_RESOLUTION@, d.spec_label());
    lemma_key_push(kept, label, ATTR_RESOLUTION@);
    lemma_key_push(kept.push(label), bool_mark(ATTR_UNCERTAIN@, true), ATTR_RESOLUTION@);
}

/// One offset covers a batch: two records that a flush rewrites end up as far apart as their
/// events were.
pub proof fn law_intervals_are_preserved(a: RecordView, b: RecordView, offset: i64, flush: Flush)
    requires
        is_corrected(a, Some(Correction { offset })),
        is_corrected(b, Some(Correction { offset })),
        a.time_unix_nano != 0,
        b.time_unix_nano != 0,
        0 <= carried_event(a)->0 + offset <= i64::MAX,
        0 <= carried_event(b)->0 + offset <= i64::MAX,
    ensures
        corrected_record(a, Some(Correction { offset }), flush).time_unix_nano - corrected_record(
            b,
            Some(Correction { offset }),
            flush,
        ).time_unix_nano == carried_event(a)->0 - carried_event(b)->0,
{
    reveal(corrected_record);
}

/// A pass over a request is the pass over each of its records, in order: none is added, dropped or
/// moved.
pub proof fn law_every_record_is_rewritten(s: Seq<ResourceLogsView>, f: spec_fn(RecordView) -> RecordView)
    ensures
        all_records(rewritten(s, f)) == rewritten_records(all_records(s), f),
    decreases s.len(),
{
    if s.len() == 0 {
        assert(all_records(rewritten(s, f)) =~= rewritten_records(all_records(s), f));
    } else {
        let front = s.drop_last();
        law_every_record_is_rewritten(front, f);
        assert(rewritten(s, f).drop_last() =~= rewritten(front, f));
        lemma_scope_records_rewritten(s.last().scope_logs, f);
        let scopes = Seq::new(
            s.last().scope_logs.len(),
            |i: int| rewritten_scope(s.last().scope_logs[i], f),
        );
        assert(rewritten(s, f).last().scope_logs =~= scopes);
        assert(all_records(rewritten(s, f)) =~= rewritten_records(all_records(s), f));
    }
}

proof fn lemma_scope_records_rewritten(s: Seq<ScopeLogsView>, f: spec_fn(RecordView) -> RecordView)
    ensures
        scope_records(Seq::new(s.len(), |i: int| rewritten_scope(s[i], f))) == rewritten_records(
            scope_records(s),
            f,
        ),
    decreases s.len(),
{
    let t = Seq::new(s.len(), |i: int| rewritten_scope(s[i], f));
    if s.len() == 0 {
        assert(scope_records(t) =~= rewritten_records(scope_records(s), f));
    } else {
        let front = s.drop_last();
        lemma_scope_records_rewritten(front, f);
        assert(t.drop_last() =~= Seq::new(front.len(), |i: int| rewritten_scope(front[i], f)));
        assert(scope_records(t) =~= rewritten_records(scope_records(s), f));
    }
}

proof fn lemma_corrected_where_correctable(
    record: RecordView,
    es: Seq<Epoch>,
    receipt: Receipt,
    correction: Option<Correction>,
)
    requires
        is_plain(record.attributes),
    ensures
        is_corrected(resolved_record(record, es, receipt), correction) == (correction is Some
            && record_disposition(record, es, receipt).correctable()),
{
    let d = record_disposition(record, es, receipt);
    law_labels_round_trip(d);
    let mid = resolved_record(record, es, receipt);
    let kept = without_hints(record.attributes);
    lemma_still_plain(record.attributes);
    let label = text_mark(ATTR_RESOLUTION@, d.spec_label());
    match d {
        Disposition::Resolved(Resolution::Exact { boottime }) => {
            assert(mid.attributes =~= two_marks(kept, boottime, receipt.received).push(label));
            lemma_exact_reads(kept, d.spec_label(), boottime, receipt.received, mid);
        },
        Disposition::Resolved(Resolution::Ambiguous { boottime, spread }) => {
            assert(mid.attributes =~= two_marks(kept, boottime, receipt.received).push(
                int_mark(ATTR_SPREAD_NS@, spread),
            ).push(label));
            lemma_ambiguous_reads(kept, d.spec_label(), boottime, receipt.received, spread, mid);
        },
        _ => {
            assert(mid.attributes =~= kept.push(label));
            lemma_untouched_reads(kept, d.spec_label(), mid);
        },
    }
}

proof fn lemma_corrected_count(
    records: Seq<RecordView>,
    es: Seq<Epoch>,
    receipt: Receipt,
    correction: Option<Correction>,
)
    requires
        forall|i: int| 0 <= i < records.len() ==> is_plain((#[trigger] records[i]).attributes),
    ensures
        corrected_count(rewritten_records(records, receipt_pass(es, receipt)), correction) == if correction is Some {
            occurrences(dispositions(records, es, receipt), Class::Exact) + occurrences(
                dispositions(records, es, receipt),
                Class::Ambiguous,
            )
        } else {
            0
        },
    decreases records.len(),
{
    let all = rewritten_records(records, receipt_pass(es, receipt));
    let ds = dispositions(records, es, receipt);
    if records.len() > 0 {
        let front = records.drop_last();
        assert forall|i: int| 0 <= i < front.len() implies is_plain((#[trigger] front[i]).attributes) by {
            assert(front[i] == records[i]);
        }
        lemma_corrected_count(front, es, receipt, correction);
        assert(all.drop_last() =~= rewritten_records(front, receipt_pass(es, receipt)));
        assert(ds.drop_last() =~= dispositions(front, es, receipt));
        assert(is_plain(records[records.len() - 1].attributes));
        lemma_corrected_where_correctable(records.last(), es, receipt, correction);
        assert(all.last() == resolved_record(records.last(), es, receipt));
        assert(ds.last() == record_disposition(records.last(), es, receipt));
    }
}

/// A flush with an offset rewrites exactly the records that the receipt pass counted as correctable,
/// and one without rewrites none.
pub proof fn law_a_flush_rewrites_what_was_correctable(
    request: Seq<ResourceLogsView>,
    es: Seq<Epoch>,
    receipt: Receipt,
    tally: Tally,
    correction: Option<Correction>,
)
    requires
        forall|i: int|
            0 <= i < all_records(request).len() ==> is_plain((#[trigger] all_records(request)[i]).attributes),
        tally.counts(
            Tally { exact: 0, ambiguous: 0, passthrough: 0, authoritative: 0 },
            dispositions(all_records(request), es, receipt),
        ),
    ensures
        corrected_count(all_records(rewritten(request, receipt_pass(es, receipt))), correction) == if correction is Some {
            tally.exact + tally.ambiguous
        } else {
            0
        },
{
    law_every_record_is_rewritten(request, receipt_pass(es, receipt));
    lemma_corrected_count(all_records(request), es, receipt, correction);
}

/// A whole request goes through both passes as its records do, each in its place: what
/// [`law_both_passes`] says of one record holds of all. None keeps what is internal to the collector,
/// and without an offset every timestamp is as it arrived.
pub proof fn law_a_request_goes_through_both_passes(
    request: Seq<ResourceLogsView>,
    es: Seq<Epoch>,
    receipt: Receipt,
    correction: Option<Correction>,
    flush: Flush,
)
    requires
        forall|i: int|
            0 <= i < all_records(request).len() ==> is_plain((#[trigger] all_records(request)[i]).attributes),
    ensures
        ({
            let before = all_records(request);
            let after = all_records(
                rewritten(rewritten(request, receipt_pass(es, receipt)), flush_pass(correction, flush)),
            );
            &&& after.len() == before.len()
            &&& forall|i: int|
                0 <= i < before.len() ==> #[trigger] after[i] == delivered(
                    before[i],
                    record_disposition(before[i], es, receipt),
                    receipt.received,
                    correction,
                    flush,
                )
            &&& forall|i: int|
                0 <= i < before.len() ==> !has_key((#[trigger] after[i]).attributes, ATTR_EVENT_BOOTTIME@)
                    && !has_key(after[i].attributes, ATTR_RECEIPT_BOOTTIME@)
            &&& correction is None ==> forall|i: int|
                0 <= i < before.len() ==> (#[trigger] after[i]).time_unix_nano == before[i].time_unix_nano
                    && after[i].observed_time_unix_nano == before[i].observed_time_unix_nano
        }),
{
    let before = all_records(request);
    let middle = rewritten(request, receipt_pass(es, receipt));
    let after = all_records(rewritten(middle, flush_pass(correction, flush)));
    law_every_record_is_rewritten(request, receipt_pass(es, receipt));
    law_every_record_is_rewritten(middle, flush_pass(correction, flush));
    assert forall|i: int| 0 <= i < before.len() implies #[trigger] after[i] == delivered(
        before[i],
        record_disposition(before[i], es, receipt),
        receipt.received,
        correction,
        flush,
    ) && !has_key(after[i].attributes, ATTR_EVENT_BOOTTIME@) && !has_key(
        after[i].attributes,
        ATTR_RECEIPT_BOOTTIME@,
    ) by {
        let mid = resolved_record(before[i], es, receipt);
        assert(after[i] == corrected_record(mid, correction, flush));
        law_both_passes(before[i], es, receipt, correction, flush);
        law_internal_attributes_never_reach_the_wire(mid, correction, flush);
    }
}

} // verus!
