//! What one turn of the two long-lived tasks does to what is in hand, told field by field.

use vstd::prelude::*;

use crate::collector::buffer::{spill_count, total_bytes, total_records, Decision, Limits, Pending};
use crate::collector::epoch::{Epoch, Source};
use crate::collector::metrics::Health;
use crate::collector::retry::{law_each_failure_doubles_the_wait, wait_after};
use crate::collector::runtime::{
    after_choice, after_close, after_delivery, after_failure, after_receipt, boundary, chosen_files, due_decision,
    holds_file, in_outbox, initial_history, waiting_files, ClockState, InFlight, InFlightView, Origin,
};
use crate::collector::spool::SpooledView;
use crate::collector::sync::{disciplined, poll_of, streak_after, sync_condition, trailing_good, Reading, SyncSource};
use crate::host::Sample;

verus! {

/// The totals of batches are those of each of them together.
pub proof fn law_totals_are_sums(a: Seq<Pending>, b: Seq<Pending>, p: Pending)
    ensures
        total_bytes(a + b) == total_bytes(a) + total_bytes(b),
        total_records(a + b) == total_records(a) + total_records(b),
        total_bytes(seq![p]) == p.bytes,
        total_records(seq![p]) == p.tally.exact + p.tally.ambiguous + p.tally.passthrough + p.tally.authoritative,
    decreases b.len(),
{
    assert(seq![p].drop_last() =~= Seq::<Pending>::empty());
    assert(total_bytes(Seq::<Pending>::empty()) == 0 && total_records(Seq::<Pending>::empty()) == 0);
    if b.len() > 0 {
        law_totals_are_sums(a, b.drop_last(), p);
        assert((a + b).drop_last() =~= a + b.drop_last());
        assert((a + b).last() == b.last());
    } else {
        assert(a + b =~= a);
    }
}

proof fn lemma_spill(s: Seq<Pending>, limits: Limits)
    ensures
        s.len() > 0 ==> spill_count(s, limits) < s.len(),
        s.len() == 0 ==> spill_count(s, limits) == 0,
        s.len() - spill_count(s, limits) > 1 ==> total_records(s.skip(spill_count(s, limits) as int))
            <= limits.max_records && total_bytes(s.skip(spill_count(s, limits) as int)) <= limits.max_bytes,
        spill_count(s, limits) > 0 ==> ({
            let kept = s.skip(spill_count(s, limits) - 1);
            total_records(kept) > limits.max_records || total_bytes(kept) > limits.max_bytes
        }),
    decreases s.len(),
{
    let n = spill_count(s, limits) as int;
    if n > 0 {
        let rest = s.drop_first();
        lemma_spill(rest, limits);
        assert(rest.skip(n - 1) =~= s.skip(n));
        if n > 1 {
            assert(rest.skip(n - 2) =~= s.skip(n - 1));
        } else {
            assert(s.skip(0) =~= s);
        }
    } else {
        assert(s.skip(0) =~= s);
    }
}

/// A batch that is taken in is the last of those held, and no other is moved or lost: as few of the
/// oldest as possible leave for the disk, until the rest keeps to the caps or is that batch alone. Its
/// records are counted, each kind by itself, and nothing else changes.
pub proof fn law_a_batch_is_taken_in(v: InFlightView, pending: Pending, limits: Limits)
    requires
        v.totals.exact + pending.tally.exact <= u64::MAX,
        v.totals.ambiguous + pending.tally.ambiguous <= u64::MAX,
        v.totals.passthrough + pending.tally.passthrough <= u64::MAX,
        v.totals.authoritative + pending.tally.authoritative <= u64::MAX,
    ensures
        ({
            let all = v.held.push(pending);
            let n = spill_count(all, limits) as int;
            let w = after_receipt(v, pending, n);
            &&& all.take(n) + w.held == all
            &&& w.held.len() > 0 && w.held.last() == pending
            &&& w.held.len() > 1 ==> total_records(w.held) <= limits.max_records && total_bytes(w.held)
                <= limits.max_bytes
            &&& n > 0 ==> total_records(all.skip(n - 1)) > limits.max_records || total_bytes(all.skip(n - 1))
                > limits.max_bytes
            &&& w.totals.exact == v.totals.exact + pending.tally.exact
            &&& w.totals.ambiguous == v.totals.ambiguous + pending.tally.ambiguous
            &&& w.totals.passthrough == v.totals.passthrough + pending.tally.passthrough
            &&& w.totals.authoritative == v.totals.authoritative + pending.tally.authoritative
            &&& w.totals.forwarded_batches == v.totals.forwarded_batches
            &&& w.totals.shed_batches == v.totals.shed_batches
            &&& v.holding_since is Some ==> w.holding_since == v.holding_since
            &&& v.holding_since is None ==> w.holding_since == Some(pending.queued_at)
            &&& w.spool_dirty <==> v.spool_dirty || n > 0
            &&& w.outbox == v.outbox && w.failures == v.failures && w.retry_at == v.retry_at
        }),
{
    let all = v.held.push(pending);
    lemma_spill(all, limits);
    let n = spill_count(all, limits) as int;
    assert(all.take(n) + all.skip(n) =~= all);
}

/// What is in hand goes out once the clock is good or ever was, or, marked, once it has been waited for
/// as long as it may be; where nothing is in hand, and nothing on disk, nothing is done.
pub proof fn law_what_is_in_hand_goes_out_in_time(
    v: InFlightView,
    synchronized: bool,
    ever_synchronized: bool,
    now: i64,
    timeout: nat,
)
    requires
        timeout <= i64::MAX || (v.holding_since matches Some(since) ==> now - since <= i64::MAX),
    ensures
        ({
            let r = due_decision(v, synchronized, ever_synchronized, now, timeout);
            let something = v.held.len() > 0 || v.spool_dirty;
            let waited = timeout == 0 || (v.holding_since matches Some(since) && now - since >= timeout);
            &&& r == Some(Decision::Flush) <==> something && (synchronized || ever_synchronized)
            &&& r == Some(Decision::FlushUncertain) <==> something && !synchronized && !ever_synchronized && waited
            &&& r != Some(Decision::Hold)
        }),
{
}

/// Whether the batch in a file waits for the receiver.
pub open spec fn is_outgoing(v: InFlightView, f: SpooledView) -> bool {
    exists|i: int|
        0 <= i < v.outbox.len() && (#[trigger] v.outbox[i]).file is Some && v.outbox[i].file->0.boot == f.boot
            && v.outbox[i].file->0.file == f.file
}

proof fn lemma_in_outbox(v: InFlightView, f: SpooledView)
    ensures
        in_outbox(v, f) <==> is_outgoing(v, f),
{
    if in_outbox(v, f) {
        let i = choose|i: int| 0 <= i < v.outbox.len() && #[trigger] holds_file(v.outbox[i], f);
        assert(v.outbox[i].file is Some);
    }
    if is_outgoing(v, f) {
        let i = choose|i: int|
            0 <= i < v.outbox.len() && (#[trigger] v.outbox[i]).file is Some && v.outbox[i].file->0.boot == f.boot
                && v.outbox[i].file->0.file == f.file;
        assert(holds_file(v.outbox[i], f));
    }
}

proof fn lemma_waiting(v: InFlightView, files: Seq<SpooledView>)
    ensures
        waiting_files(v, files) == files.filter(|f: SpooledView| !is_outgoing(v, f)),
    decreases files.len(),
{
    reveal(Seq::filter);
    if files.len() > 0 {
        lemma_waiting(v, files.drop_last());
        lemma_in_outbox(v, files.last());
    }
}

/// Of the files on disk those are read, in order, whose batches do not wait for the receiver already,
/// and as many as what is in hand leaves room for; only where all are read is the disk done with.
pub proof fn law_files_are_read_once_and_in_order(v: InFlightView, files: Seq<SpooledView>, limit: nat)
    ensures
        ({
            let waiting = files.filter(|f: SpooledView| !is_outgoing(v, f));
            let chosen = chosen_files(v, files, limit);
            let w = after_choice(v, files, limit);
            &&& chosen == waiting.take(chosen.len() as int)
            &&& chosen.len() <= waiting.len()
            &&& chosen.len() > 0 ==> chosen.len() + v.outbox.len() + v.held.len() <= limit
            &&& chosen.len() < waiting.len() ==> chosen.len() + v.outbox.len() + v.held.len() >= limit
            &&& w.spool_dirty <==> chosen.len() < waiting.len()
            &&& w.held == v.held && w.outbox == v.outbox && w.totals == v.totals
            &&& w.holding_since == v.holding_since && w.failures == v.failures && w.retry_at == v.retry_at
        }),
{
    lemma_waiting(v, files);
    let waiting = waiting_files(v, files);
    assert(waiting.take(waiting.len() as int) =~= waiting);
}

/// A delivery takes the oldest batch from the outbox, counts it, and clears the failures. A failure
/// leaves every batch where it is, counts one more, and lets the next attempt wait as long as it has to.
/// At the end everything that is held is given up. Nothing else changes.
pub proof fn law_delivery_goes_batch_by_batch(v: InFlightView, now: i64, grace: nat, retry_max: nat)
    requires
        v.outbox.len() > 0,
        v.totals.forwarded_batches < u64::MAX,
    ensures
        ({
            let w = after_delivery(v);
            &&& seq![v.outbox[0]] + w.outbox == v.outbox
            &&& w.totals.forwarded_batches == v.totals.forwarded_batches + 1
            &&& w.totals.shed_batches == v.totals.shed_batches
            &&& w.totals.exact == v.totals.exact && w.totals.ambiguous == v.totals.ambiguous
            &&& w.totals.passthrough == v.totals.passthrough && w.totals.authoritative == v.totals.authoritative
            &&& w.failures == 0 && w.retry_at is None
            &&& w.held == v.held && w.holding_since == v.holding_since && w.spool_dirty == v.spool_dirty
        }),
        ({
            let w = after_failure(v, now, grace, retry_max);
            &&& v.failures < u32::MAX ==> w.failures == v.failures + 1
            &&& v.failures == u32::MAX ==> w.failures == u32::MAX
            &&& w.retry_at is Some
            &&& ({
                let wait = wait_after(w.failures, grace, retry_max);
                &&& wait <= i64::MAX && now + wait <= i64::MAX ==> w.retry_at->0 == now + wait
                &&& wait <= i64::MAX && now + wait > i64::MAX ==> w.retry_at->0 == i64::MAX
                &&& v.failures == 0 && grace <= retry_max ==> wait == grace
                &&& v.failures == 0 && grace > retry_max ==> wait == retry_max
            })
            &&& w.outbox == v.outbox && w.totals == v.totals
            &&& w.held == v.held && w.holding_since == v.holding_since && w.spool_dirty == v.spool_dirty
        }),
        ({
            let w = after_close(v);
            &&& w.held.len() == 0 && w.holding_since is None
            &&& w.spool_dirty <==> v.spool_dirty || v.held.len() > 0
            &&& w.outbox == v.outbox && w.totals == v.totals && w.failures == v.failures && w.retry_at == v.retry_at
        }),
{
    assert(seq![v.outbox[0]] + v.outbox.drop_first() =~= v.outbox);
    law_each_failure_doubles_the_wait(1, grace, retry_max);
}

/// A clock is good where its error bound lies below the threshold, or where the kernel does not say
/// that it is unsynchronized; and the bound is what is named where both hold. It is disciplined where
/// the bound lies below sixteen seconds, or the kernel does not say so.
pub proof fn law_either_sign_makes_a_clock_good(reading: Reading, threshold_micros: i64)
    ensures
        sync_condition(reading, threshold_micros) == Some(SyncSource::MaxError) <==> reading.max_error_micros
            < threshold_micros,
        sync_condition(reading, threshold_micros) == Some(SyncSource::StatusFlag) <==> reading.max_error_micros
            >= threshold_micros && reading.status & 0x40 == 0,
        disciplined(reading) <==> reading.max_error_micros < 16_000_000 || reading.status & 0x40 == 0,
{
}

/// So many readings at the end are good as are good without a bad one between them.
pub proof fn law_trailing_readings_are_good(goods: Seq<bool>, n: nat)
    ensures
        trailing_good(goods) >= n <==> n <= goods.len() && forall|i: int|
            goods.len() - n <= i < goods.len() ==> #[trigger] goods[i],
    decreases goods.len(),
{
    if goods.len() > 0 && goods.last() && n > 0 {
        let front = goods.drop_last();
        law_trailing_readings_are_good(front, (n - 1) as nat);
        if trailing_good(goods) >= n {
            assert forall|i: int| goods.len() - n <= i < goods.len() implies #[trigger] goods[i] by {
                if i < front.len() {
                    assert(front[i] == goods[i]);
                }
            }
        }
        if n <= goods.len() && forall|i: int| goods.len() - n <= i < goods.len() ==> #[trigger] goods[i] {
            assert forall|i: int| front.len() - (n - 1) <= i < front.len() implies #[trigger] front[i] by {
                assert(goods[i]);
            }
        }
    } else if goods.len() > 0 && n > 0 {
        assert(goods[goods.len() - 1] == goods.last());
    }
}

/// A poll adds a good reading to the run and a bad one ends it; it releases once the run is as long as
/// it has to be, and then names the sign that was seen.
pub proof fn law_a_poll_counts_the_run(reading: Reading, threshold_micros: i64, consecutive: u32, streak: u32)
    requires
        streak < u32::MAX,
    ensures
        ({
            let good = reading.max_error_micros < threshold_micros || reading.status & 0x40 == 0;
            let poll = poll_of(reading, threshold_micros, consecutive, streak);
            &&& good ==> poll.streak == streak + 1
            &&& !good ==> poll.streak == 0
            &&& poll.released <==> poll.streak >= consecutive
            &&& poll.source is Some <==> good && poll.released
            &&& poll.source is Some ==> (poll.source == Some(SyncSource::MaxError) <==> reading.max_error_micros
                < threshold_micros)
        }),
        streak_after(u32::MAX, true) == u32::MAX,
{
}

/// A step that was not reported is seen: the two clocks have moved apart, or together, by more than
/// they may.
pub proof fn law_a_missed_step_is_seen(clock: ClockState, now: Sample, threshold: i64)
    ensures
        clock.drifted(now, threshold) <==> now.realtime - now.boottime - clock.table@.last().offset > threshold
            || clock.table@.last().offset - (now.realtime - now.boottime) > threshold,
{
}

/// A history begins with what was kept, else with the journal, else with the present reading, which
/// then holds from the beginning of the boot. The present reading is taken in wherever it is later than
/// the history and says something else.
pub proof fn law_a_history_begins_with_what_is_known(
    persisted: Option<Seq<Epoch>>,
    backfilled: Seq<Epoch>,
    now: Sample,
)
    requires
        i64::MIN <= now.realtime - now.boottime <= i64::MAX,
        persisted matches Some(table) ==> table.len() > 0,
    ensures
        ({
            let (history, origin) = initial_history(persisted, backfilled, now);
            &&& origin == Origin::Persisted <==> persisted is Some
            &&& origin == Origin::Journal <==> persisted is None && backfilled.len() > 0
            &&& origin == Origin::Startup <==> persisted is None && backfilled.len() == 0
            &&& persisted matches Some(table) ==> {
                &&& forall|i: int| 0 <= i < table.len() ==> history[i] == #[trigger] table[i]
                &&& now.boottime > table.last().boot_start ==> history.last().offset == now.realtime - now.boottime
                &&& history.len() > table.len() ==> history.len() == table.len() + 1 && history.last().boot_start
                    == now.boottime
            }
            &&& origin == Origin::Startup ==> history.len() == 1 && history[0].boot_start == 0
                && history[0].offset == now.realtime - now.boottime && history[0].source == Source::Startup
        }),
        boundary(now, Source::Step).boot_start == now.boottime,
        boundary(now, Source::Step).offset == now.realtime - now.boottime,
        boundary(now, Source::Resync).boot_start == now.boottime,
        boundary(now, Source::Resync).offset == now.realtime - now.boottime,
{
}

/// What is reported is what there is: of the clock, its error, its steps and how long ago the last was,
/// and its epochs; of the batches, what was counted of each kind, what is held and since when, and what
/// was delivered and dropped. Nothing that lies ahead has an age.
pub proof fn law_a_report_is_of_what_there_is(f: InFlight, h: Health, clock: ClockState, now: Sample)
    requires
        f.reports(h, clock, now),
    ensures
        h.max_error_micros == clock.max_error_micros && h.steps == clock.steps && h.disciplined == clock.disciplined,
        h.epochs == clock.table@.len(),
        clock.last_step is None <==> h.since_last_step is None,
        clock.last_step matches Some(at) ==> {
            &&& now.boottime <= at ==> h.since_last_step->0@ == 0
            &&& 0 <= now.boottime - at <= i64::MAX ==> h.since_last_step->0@ == now.boottime - at
        },
        h.resolved_exact == f@.totals.exact && h.resolved_ambiguous == f@.totals.ambiguous,
        h.resolved_passthrough == f@.totals.passthrough && h.resolved_authoritative == f@.totals.authoritative,
        h.forwarded_batches == f@.totals.forwarded_batches && h.shed_batches == f@.totals.shed_batches,
        h.buffered_records == total_records(f@.held),
        f@.held.len() == 0 ==> h.oldest_buffered@ == 0,
        f@.held.len() > 0 && 0 <= now.boottime - f@.held[0].queued_at <= i64::MAX ==> h.oldest_buffered@
            == now.boottime - f@.held[0].queued_at,
{
}

} // verus!
