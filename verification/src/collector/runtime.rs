//! What the two long-lived tasks decide: the one that watches the clock, and the one that holds,
//! corrects and delivers batches.

use std::collections::VecDeque;

use vstd::prelude::*;

use crate::collector::buffer::{
    decide, exceeds, flush_decision, spill_count, total_bytes, total_records, Buffer, Decision, Limits, Pending,
};
use crate::collector::correct::{apply_correction, corrected_record, flush_pass, rewritten, Correction, Flush, Tally};
use crate::collector::epoch::{
    collapsed, distance, extended, sorted_by_start, Epoch, EpochTable, Source,
};
use crate::collector::metrics::{health_request, to_request, Health};
use crate::collector::retry::{backoff, wait_after};
use crate::collector::runtime_laws::{is_shipped, law_a_flush_ships_what_is_in_hand};
use crate::collector::sync::{
    disciplined, evaluate, is_disciplined, poll_of, Reading, SyncSource,
};
use crate::collector::spool::{same_file, spooled_views, Spooled, SpooledFile, SpooledView};
use crate::host::Sample;
use crate::otlp::proto::{all_records, LogsRequest, ResourceLogsView};
use crate::time::{elapsed, saturated, saturating_add, Duration};

verus! {

/// Once the clock is good, it is polled on every so many ticks.
pub const SETTLED_POLL_TICKS: u64 = 60;

/// Where the history that the collector starts with came from.
#[derive(Debug, Clone, Copy, PartialEq, Eq, Structural)]
pub enum Origin {
    /// From disk: the collector was restarted within one boot.
    Persisted,
    /// From the journal.
    Journal,
    /// From nowhere: there is only the first reading.
    Startup,
}

/// The boundary that a reading of the clocks makes.
pub open spec fn boundary(now: Sample, source: Source) -> Epoch {
    Epoch { boot_start: now.boottime, offset: (now.realtime - now.boottime) as i64, source }
}

/// The history to start with. The present reading is appended to whatever there is: neither what was
/// persisted nor the journal knows of a step while the collector was down. With no history at all the
/// reading is taken to hold since boot, so that no earlier record is left without an epoch.
pub open spec fn initial_history(persisted: Option<Seq<Epoch>>, backfilled: Seq<Epoch>, now: Sample) -> (
    Seq<Epoch>,
    Origin,
) {
    let live = boundary(now, Source::Startup);
    match persisted {
        Some(table) => (extended(table, live), Origin::Persisted),
        None => if backfilled.len() > 0 {
            (extended(collapsed(sorted_by_start(backfilled)), live), Origin::Journal)
        } else {
            (seq![Epoch { boot_start: 0, ..live }], Origin::Startup)
        },
    }
}

/// The history to start with: what was persisted, else the journal's, else the first reading.
pub fn choose_initial_table(persisted: Option<EpochTable>, backfilled: Vec<Epoch>, now: Sample) -> (r: (
    EpochTable,
    Origin,
))
    requires
        now.fits(),
    ensures
        (r.0@, r.1) == initial_history(
            match persisted {
                Some(table) => Some(table@),
                None => None,
            },
            backfilled@,
            now,
        ),
{
    let live = Epoch { boot_start: now.boottime, offset: now.offset(), source: Source::Startup };
    match persisted {
        Some(table) => (table.with(live), Origin::Persisted),
        None => match EpochTable::from_epochs(backfilled) {
            Some(table) => (table.with(live), Origin::Journal),
            None => (
                EpochTable::new(Epoch { boot_start: 0, offset: live.offset, source: live.source }),
                Origin::Startup,
            ),
        },
    }
}

/// Whether the journal is asked: not where the answer is on disk already.
pub fn wants_backfill(persisted: bool, journal_backfill: bool) -> (r: bool)
    ensures
        r == (!persisted && journal_backfill),
{
    !persisted && journal_backfill
}

/// Everything there is to know about the clock, at one instant.
#[derive(Debug)]
pub struct ClockState {
    pub table: EpochTable,
    /// Which condition says that the clock can be trusted now, if one does.
    pub sync_source: Option<SyncSource>,
    /// Whether it could ever be trusted this boot.
    pub ever_synchronized: bool,
    pub steps: u64,
    /// The boot time of the last step.
    pub last_step: Option<i64>,
    pub max_error_micros: i64,
    /// Whether anything disciplines the clock.
    pub disciplined: bool,
}

/// What one poll of the clock came to.
#[derive(Debug, Clone, Copy, PartialEq, Eq, Structural)]
pub struct PollReport {
    /// Good readings in a row; handed to the next poll.
    pub streak: u32,
    /// The offset moved and no step was reported; the history was extended and is to be persisted.
    pub missed: bool,
    /// The clock became good for the first time.
    pub newly_synchronized: bool,
    pub released: bool,
}

/// How a poll judges.
#[derive(Debug, Clone, Copy, PartialEq, Eq, Structural)]
pub struct PollSettings {
    pub threshold_micros: i64,
    pub consecutive: u32,
    pub resync_threshold_nanos: i64,
}

impl ClockState {
    /// Nothing is known but the history.
    pub fn new(table: EpochTable) -> (r: Self)
        ensures
            r.table@ == table@,
            r.sync_source is None,
            !r.ever_synchronized,
            r.steps == 0,
            r.last_step is None,
            r.max_error_micros == 0,
            !r.disciplined,
    {
        ClockState {
            table,
            sync_source: None,
            ever_synchronized: false,
            steps: 0,
            last_step: None,
            max_error_micros: 0,
            disciplined: false,
        }
    }

    /// The clock was stepped; `now` was read behind the step.
    pub fn on_step(&mut self, now: Sample)
        requires
            now.fits(),
            old(self).steps < u64::MAX,
        ensures
            final(self).table@ == extended(old(self).table@, boundary(now, Source::Step)),
            final(self).steps == old(self).steps + 1,
            final(self).last_step == Some(now.boottime),
            final(self).sync_source == old(self).sync_source,
            final(self).ever_synchronized == old(self).ever_synchronized,
            final(self).max_error_micros == old(self).max_error_micros,
            final(self).disciplined == old(self).disciplined,
    {
        self.steps = self.steps + 1;
        self.last_step = Some(now.boottime);
        let table = self.table.with(
            Epoch { boot_start: now.boottime, offset: now.offset(), source: Source::Step },
        );
        self.table = table;
    }

    /// Whether the sampled offset is farther from the one in force than it may be. The two clocks are
    /// slewed alike, so only a step moves it.
    pub open spec fn drifted(&self, now: Sample, threshold: i64) -> bool {
        distance(now.realtime - now.boottime, self.table@.last().offset as int) > threshold
    }

    /// Takes one reading of the clock's quality, and of both clocks.
    pub fn on_poll(&mut self, reading: Reading, now: Sample, settings: PollSettings, streak: u32) -> (r: PollReport)
        requires
            now.fits(),
            distance(now.realtime - now.boottime, old(self).table@.last().offset as int) <= i64::MAX,
        ensures
            ({
                let poll = poll_of(reading, settings.threshold_micros, settings.consecutive, streak);
                let missed = old(self).drifted(now, settings.resync_threshold_nanos);
                &&& r == (PollReport {
                    streak: poll.streak,
                    missed,
                    newly_synchronized: poll.released && !old(self).ever_synchronized,
                    released: poll.released,
                })
                &&& final(self).max_error_micros == reading.max_error_micros
                &&& final(self).disciplined == disciplined(reading)
                &&& final(self).sync_source == poll.source
                &&& final(self).ever_synchronized == (old(self).ever_synchronized || poll.released)
                &&& final(self).table@ == if missed {
                    extended(old(self).table@, boundary(now, Source::Resync))
                } else {
                    old(self).table@
                }
                &&& final(self).steps == old(self).steps
                &&& final(self).last_step == old(self).last_step
            }),
    {
        let poll = evaluate(reading, settings.threshold_micros, settings.consecutive, streak);
        let missed = self.table.disagrees_with(now.offset(), settings.resync_threshold_nanos);
        let newly = poll.released && !self.ever_synchronized;
        self.max_error_micros = reading.max_error_micros;
        self.disciplined = is_disciplined(reading);
        self.sync_source = poll.source;
        self.ever_synchronized = self.ever_synchronized || poll.released;
        if missed {
            let table = self.table.with(
                Epoch { boot_start: now.boottime, offset: now.offset(), source: Source::Resync },
            );
            self.table = table;
        }
        PollReport { streak: poll.streak, missed, newly_synchronized: newly, released: poll.released }
    }

    /// Whether this tick polls: every one until the clock was good, and then only now and then. It
    /// never stops, since polling is what catches a step that was not reported.
    pub fn polls_on(&self, ticks: u64) -> (r: bool)
        ensures
            r == (!self.ever_synchronized || ticks % SETTLED_POLL_TICKS == 0),
    {
        !self.ever_synchronized || ticks % SETTLED_POLL_TICKS == 0
    }
}

/// Counters, for the health endpoint and the health events.
#[derive(Debug, Clone, Copy, PartialEq, Eq, Structural)]
pub struct Stats {
    pub buffered_records: u64,
    pub buffered_batches: u64,
    pub oldest_age: Duration,
    pub exact: u64,
    pub ambiguous: u64,
    pub passthrough: u64,
    pub authoritative: u64,
    pub forwarded_batches: u64,
    pub shed_batches: u64,
}

impl Default for Stats {
    fn default() -> (r: Self)
        ensures
            r.buffered_records == 0,
            r.buffered_batches == 0,
            r.oldest_age@ == 0,
            r.exact == 0,
            r.ambiguous == 0,
            r.passthrough == 0,
            r.authoritative == 0,
            r.forwarded_batches == 0,
            r.shed_batches == 0,
    {
        Stats {
            buffered_records: 0,
            buffered_batches: 0,
            oldest_age: Duration::zero(),
            exact: 0,
            ambiguous: 0,
            passthrough: 0,
            authoritative: 0,
            forwarded_batches: 0,
            shed_batches: 0,
        }
    }
}

/// What the health endpoint reports.
#[derive(Debug, Clone, Copy, PartialEq, Eq, Structural)]
pub struct Status {
    pub synchronized: bool,
    pub ever_synchronized: bool,
    pub disciplined: bool,
    pub sync_source: Option<SyncSource>,
    pub epochs: usize,
    pub steps: u64,
    pub buffered_records: u64,
}

/// What the health endpoint reports of a clock and some counters.
pub fn status(clock: &ClockState, stats: Stats) -> (r: Status)
    ensures
        r.synchronized == (clock.sync_source is Some),
        r.ever_synchronized == clock.ever_synchronized,
        r.disciplined == clock.disciplined,
        r.sync_source == clock.sync_source,
        r.epochs == clock.table@.len(),
        r.steps == clock.steps,
        r.buffered_records == stats.buffered_records,
{
    Status {
        synchronized: clock.sync_source.is_some(),
        ever_synchronized: clock.ever_synchronized,
        disciplined: clock.disciplined,
        sync_source: clock.sync_source,
        epochs: clock.table.len(),
        steps: clock.steps,
        buffered_records: stats.buffered_records,
    }
}

/// A corrected batch that waits for the receiver, and the file it was read from, if it was.
#[derive(Debug)]
struct Outgoing {
    request: LogsRequest,
    file: Option<SpooledFile>,
}

/// What an entry of the outbox says.
pub struct OutgoingView {
    pub request: Seq<ResourceLogsView>,
    /// The file that the batch is still in.
    pub file: Option<SpooledView>,
}

/// What a file says, where there is one.
pub open spec fn file_view(file: Option<SpooledFile>) -> Option<SpooledView> {
    match file {
        Some(f) => Some(f.view()),
        None => None,
    }
}

impl Outgoing {
    spec fn view(self) -> OutgoingView {
        OutgoingView { request: self.request.view(), file: file_view(self.file) }
    }
}

/// What is in hand, and how delivery is going.
#[derive(Debug)]
pub struct InFlight {
    buffer: Buffer,
    outbox: VecDeque<Outgoing>,
    totals: Stats,
    holding_since: Option<i64>,
    failures: u32,
    retry_at: Option<i64>,
    spool_dirty: bool,
}

/// What an [`InFlight`] says.
#[verifier::ext_equal]
pub struct InFlightView {
    /// Batches that wait for the clock, oldest first.
    pub held: Seq<Pending>,
    /// Corrected batches that wait for the receiver, oldest first.
    pub outbox: Seq<OutgoingView>,
    pub totals: Stats,
    /// When the current wait for the clock began.
    pub holding_since: Option<i64>,
    /// Attempts to deliver that failed in a row.
    pub failures: u32,
    /// Before this boot time there is no point in another attempt.
    pub retry_at: Option<i64>,
    /// Whether there may be a batch on disk that is not in the outbox.
    pub spool_dirty: bool,
}

spec fn outgoing_views(s: Seq<Outgoing>) -> Seq<OutgoingView> {
    s.map_values(|o: Outgoing| o.view())
}

/// Whether the batch in a file is in the outbox.
pub open spec fn in_outbox(v: InFlightView, f: SpooledView) -> bool {
    exists|i: int| 0 <= i < v.outbox.len() && #[trigger] holds_file(v.outbox[i], f)
}

/// Whether an entry of the outbox is the batch in a file.
pub open spec fn holds_file(entry: OutgoingView, f: SpooledView) -> bool {
    entry.file matches Some(g) && same_file(f, g)
}

/// The files whose batches are not in the outbox.
pub open spec fn waiting_files(v: InFlightView, files: Seq<SpooledView>) -> Seq<SpooledView>
    decreases files.len(),
{
    if files.len() == 0 {
        files
    } else {
        let front = waiting_files(v, files.drop_last());
        if in_outbox(v, files.last()) {
            front
        } else {
            front.push(files.last())
        }
    }
}

/// How many batches may come from disk before some would have to be dropped.
pub open spec fn room(v: InFlightView, limit: nat) -> nat {
    excess(limit, v.outbox.len() + v.held.len())
}

/// The files to read now: the first of those that wait, as many as there is room for.
pub open spec fn chosen_files(v: InFlightView, files: Seq<SpooledView>, limit: nat) -> Seq<SpooledView> {
    let waiting = waiting_files(v, files);
    if waiting.len() <= room(v, limit) {
        waiting
    } else {
        waiting.take(room(v, limit) as int)
    }
}

/// Files were chosen; what there is no room for stays to be looked for.
pub open spec fn after_choice(v: InFlightView, files: Seq<SpooledView>, limit: nat) -> InFlightView {
    InFlightView { spool_dirty: waiting_files(v, files).len() > room(v, limit), ..v }
}

/// The counters with a batch's counted in.
pub open spec fn tallied(t: Stats, tally: Tally) -> Stats {
    Stats {
        exact: (t.exact + tally.exact) as u64,
        ambiguous: (t.ambiguous + tally.ambiguous) as u64,
        passthrough: (t.passthrough + tally.passthrough) as u64,
        authoritative: (t.authoritative + tally.authoritative) as u64,
        ..t
    }
}

/// Whether a batch can be counted in.
pub open spec fn tally_fits(t: Stats, tally: Tally) -> bool {
    &&& t.exact + tally.exact <= u64::MAX
    &&& t.ambiguous + tally.ambiguous <= u64::MAX
    &&& t.passthrough + tally.passthrough <= u64::MAX
    &&& t.authoritative + tally.authoritative <= u64::MAX
}

/// One more batch, with `spilled` of the oldest gone to disk.
pub open spec fn after_receipt(v: InFlightView, pending: Pending, spilled: int) -> InFlightView {
    InFlightView {
        held: v.held.push(pending).skip(spilled),
        totals: tallied(v.totals, pending.tally),
        holding_since: match v.holding_since {
            Some(since) => Some(since),
            None => Some(pending.queued_at),
        },
        spool_dirty: v.spool_dirty || spilled > 0,
        ..v
    }
}

/// What is to be done now, if anything: nothing while the clock is waited for, and nothing where
/// there is nothing in memory nor on disk.
pub open spec fn due_decision(
    v: InFlightView,
    synchronized: bool,
    ever_synchronized: bool,
    now: i64,
    timeout: nat,
) -> Option<Decision> {
    let waited = match v.holding_since {
        Some(since) => elapsed(since, now),
        None => 0,
    };
    let decision = flush_decision(synchronized, ever_synchronized, waited, timeout);
    if decision != Decision::Hold && (v.held.len() > 0 || v.spool_dirty) {
        Some(decision)
    } else {
        None
    }
}

/// The correction that a flush projects with: the offset of the epoch in force and no fresh reading,
/// so that two deliveries of one batch are the same. None where the clock was never set.
pub open spec fn correction_for(table: Seq<Epoch>, uncertain: bool) -> Option<Correction> {
    if uncertain {
        None
    } else {
        Some(Correction { offset: table.last().offset })
    }
}

/// A batch from disk as it goes out. The boot times of another boot mean nothing now, so such a batch
/// goes out as it came, and marked.
pub open spec fn spooled_out(
    request: Seq<ResourceLogsView>,
    same_boot: bool,
    correction: Option<Correction>,
    flush: Flush,
) -> Seq<ResourceLogsView> {
    rewritten(
        request,
        flush_pass(
            if same_boot {
                correction
            } else {
                None
            },
            Flush { uncertain: flush.uncertain || !same_boot, sync_source: flush.sync_source },
        ),
    )
}

/// The batches from disk as they go out.
pub open spec fn all_spooled_out(
    spooled: Seq<Spooled>,
    correction: Option<Correction>,
    flush: Flush,
) -> Seq<OutgoingView> {
    Seq::new(
        spooled.len(),
        |i: int|
            OutgoingView {
                request: spooled_out(spooled[i].request.view(), spooled[i].file.same_boot, correction, flush),
                file: Some(spooled[i].file.view()),
            },
    )
}

/// The batches from memory as they go out.
pub open spec fn all_held_out(held: Seq<Pending>, correction: Option<Correction>, flush: Flush) -> Seq<
    OutgoingView,
> {
    Seq::new(
        held.len(),
        |i: int|
            OutgoingView { request: rewritten(held[i].request.view(), flush_pass(correction, flush)), file: None },
    )
}

/// Whether one of the first `n` entries is still in a file.
pub open spec fn some_filed(s: Seq<OutgoingView>, n: nat) -> bool {
    exists|i: int| 0 <= i < n && (#[trigger] s[i]).file is Some
}

/// How many batches are too many.
pub open spec fn excess(n: nat, limit: nat) -> nat {
    if n > limit {
        (n - limit) as nat
    } else {
        0
    }
}

/// Whether what is in hand and what was read from disk can be counted.
pub open spec fn correctable(v: InFlightView, spooled: Seq<Spooled>) -> bool {
    &&& v.totals.shed_batches + v.outbox.len() + spooled.len() + v.held.len() <= u64::MAX
    &&& forall|i: int|
        0 <= i < spooled.len() ==> all_records((#[trigger] spooled[i]).request.view()).len() <= u64::MAX
    &&& forall|i: int|
        0 <= i < v.held.len() ==> all_records((#[trigger] v.held[i]).request.view()).len() <= u64::MAX
}

/// Everything in hand corrected and moved to the outbox, what was read from disk first, since it came
/// first; and the oldest of it dropped where there is too much. What is dropped and is in a file stays
/// in it, and is looked for again.
pub open spec fn after_correction(
    v: InFlightView,
    spooled: Seq<Spooled>,
    correction: Option<Correction>,
    flush: Flush,
    limit: nat,
) -> InFlightView {
    let all = v.outbox + all_spooled_out(spooled, correction, flush) + all_held_out(v.held, correction, flush);
    let shed = excess(all.len(), limit);
    InFlightView {
        held: Seq::empty(),
        outbox: all.skip(shed as int),
        totals: Stats { shed_batches: (v.totals.shed_batches + shed) as u64, ..v.totals },
        holding_since: None,
        spool_dirty: v.spool_dirty || some_filed(all, shed),
        ..v
    }
}

/// Everything that is held given up to the disk.
pub open spec fn after_close(v: InFlightView) -> InFlightView {
    InFlightView {
        held: Seq::empty(),
        holding_since: None,
        spool_dirty: v.spool_dirty || v.held.len() > 0,
        ..v
    }
}

/// The first batch of the outbox delivered.
pub open spec fn after_delivery(v: InFlightView) -> InFlightView {
    InFlightView {
        outbox: v.outbox.drop_first(),
        totals: Stats { forwarded_batches: (v.totals.forwarded_batches + 1) as u64, ..v.totals },
        failures: 0,
        retry_at: None,
        ..v
    }
}

/// One failure more.
pub open spec fn one_more(failures: u32) -> u32 {
    if failures == u32::MAX {
        u32::MAX
    } else {
        (failures + 1) as u32
    }
}

/// A boot time that lies `wait` nanoseconds ahead.
pub open spec fn deadline(now: i64, wait: nat) -> i64 {
    saturated(
        now + if wait > i64::MAX {
            i64::MAX as int
        } else {
            wait as int
        },
    ) as i64
}

/// An attempt that failed. The batch stays where it is and as it is: sent again it hashes the same,
/// so the receiver stores it once.
pub open spec fn after_failure(v: InFlightView, now: i64, grace: nat, retry_max: nat) -> InFlightView {
    InFlightView {
        failures: one_more(v.failures),
        retry_at: Some(deadline(now, wait_after(one_more(v.failures), grace, retry_max))),
        ..v
    }
}

impl InFlight {
    pub closed spec fn view(&self) -> InFlightView {
        InFlightView {
            held: self.buffer@,
            outbox: outgoing_views(self.outbox@),
            totals: self.totals,
            holding_since: self.holding_since,
            failures: self.failures,
            retry_at: self.retry_at,
            spool_dirty: self.spool_dirty,
        }
    }

    pub closed spec fn caps(&self) -> Limits {
        self.buffer.caps()
    }

    /// Nothing in hand. There may be something on disk, which the first cycle looks for.
    pub fn new(limits: Limits) -> (r: Self)
        ensures
            r.caps() == limits,
            r@.held == Seq::<Pending>::empty(),
            r@.outbox == Seq::<OutgoingView>::empty(),
            r@.totals.exact == 0 && r@.totals.ambiguous == 0 && r@.totals.passthrough == 0
                && r@.totals.authoritative == 0 && r@.totals.forwarded_batches == 0 && r@.totals.shed_batches == 0,
            r@.holding_since is None,
            r@.failures == 0,
            r@.retry_at is None,
            r@.spool_dirty,
    {
        let r = InFlight {
            buffer: Buffer::new(limits),
            outbox: VecDeque::new(),
            totals: Stats::default(),
            holding_since: None,
            failures: 0,
            retry_at: None,
            spool_dirty: true,
        };
        assert(outgoing_views(r.outbox@) =~= Seq::empty());
        r
    }

    /// Whether a batch can be taken in: the counters and the totals can say what they come to then.
    pub fn can_receive(&self, pending: &Pending) -> (r: bool)
        ensures
            r == (tally_fits(self@.totals, pending.tally) && pending.tally.sum() <= u64::MAX && total_bytes(
                self@.held,
            ) + pending.bytes <= usize::MAX && total_records(self@.held) + pending.tally.sum() <= usize::MAX),
    {
        self.totals.exact.checked_add(pending.tally.exact).is_some() && self.totals.ambiguous.checked_add(
            pending.tally.ambiguous,
        ).is_some() && self.totals.passthrough.checked_add(pending.tally.passthrough).is_some()
            && self.totals.authoritative.checked_add(pending.tally.authoritative).is_some()
            && self.buffer.has_totals_for(pending)
    }

    /// Takes a batch in, and returns those that no longer fit, for the disk. Its records are counted
    /// here, since a batch that goes to disk loses its tally.
    pub fn received(&mut self, pending: Pending) -> (r: Vec<Pending>)
        requires
            tally_fits(old(self)@.totals, pending.tally),
            total_bytes(old(self)@.held) + pending.bytes <= usize::MAX,
            total_records(old(self)@.held) + pending.tally.sum() <= usize::MAX,
            pending.tally.sum() <= u64::MAX,
        ensures
            final(self).caps() == old(self).caps(),
            ({
                let all = old(self)@.held.push(pending);
                let n = spill_count(all, old(self).caps()) as int;
                &&& r@ == all.take(n)
                &&& final(self)@ == after_receipt(old(self)@, pending, n)
            }),
    {
        let ghost before = self@;
        self.totals.exact = self.totals.exact + pending.tally.exact;
        self.totals.ambiguous = self.totals.ambiguous + pending.tally.ambiguous;
        self.totals.passthrough = self.totals.passthrough + pending.tally.passthrough;
        self.totals.authoritative = self.totals.authoritative + pending.tally.authoritative;
        if self.holding_since.is_none() {
            self.holding_since = Some(pending.queued_at);
        }
        let spilled = self.buffer.push(pending);
        proof {
            let all = before.held.push(pending);
            assert(spilled@.len() + self.buffer@.len() == all.len());
        }
        if spilled.len() > 0 {
            self.spool_dirty = true;
        }
        spilled
    }

    /// What is to be done now, if anything.
    pub fn decision(&self, clock: &ClockState, now: i64, timeout: Duration) -> (r: Option<Decision>)
        ensures
            r == due_decision(self@, clock.sync_source is Some, clock.ever_synchronized, now, timeout@),
    {
        let waited = match self.holding_since {
            Some(since) => Duration::between(since, now),
            None => Duration::zero(),
        };
        let decision = decide(clock.sync_source.is_some(), clock.ever_synchronized, waited, timeout);
        if decision != Decision::Hold && (!self.buffer.is_empty() || self.spool_dirty) {
            Some(decision)
        } else {
            None
        }
    }

    /// Where in the outbox the batch in a file is; looked for from `from` on, and then before it.
    fn position(&self, file: &SpooledFile, from: usize) -> (r: Option<usize>)
        ensures
            match r {
                Some(i) => i < self@.outbox.len() && holds_file(self@.outbox[i as int], file.view()),
                None => !in_outbox(self@, file.view()),
            },
    {
        let n: usize = self.outbox.len();
        let start: usize = if from < n { from } else { 0 };
        let mut i: usize = start;
        while i < n
            invariant
                start <= i <= n,
                n == self.outbox@.len(),
                forall|k: int| start <= k < i ==> !holds_file(#[trigger] self@.outbox[k], file.view()),
            decreases n - i,
        {
            if let Some(own) = &self.outbox[i].file {
                if file.is_same(own) {
                    return Some(i);
                }
            }
            i += 1;
        }
        i = 0;
        while i < start
            invariant
                i <= start <= n,
                n == self.outbox@.len(),
                forall|k: int| 0 <= k < i ==> !holds_file(#[trigger] self@.outbox[k], file.view()),
                forall|k: int| start <= k < n ==> !holds_file(#[trigger] self@.outbox[k], file.view()),
            decreases start - i,
        {
            if let Some(own) = &self.outbox[i].file {
                if file.is_same(own) {
                    return Some(i);
                }
            }
            i += 1;
        }
        None
    }

    /// The files to read now, of those on disk in the order in which they are to go out. A batch that
    /// is in the outbox already is not read again, and none is read that there is no room for.
    pub fn choose_files(&mut self, files: Vec<SpooledFile>, limit: usize) -> (r: Vec<SpooledFile>)
        ensures
            final(self).caps() == old(self).caps(),
            spooled_views(r@) == chosen_files(old(self)@, spooled_views(files@), limit as nat),
            final(self)@ == after_choice(old(self)@, spooled_views(files@), limit as nat),
    {
        let ghost v = self@;
        let ghost all = spooled_views(files@);
        let held: usize = self.buffer.count();
        let places: usize = if limit > held && limit - held > self.outbox.len() {
            limit - held - self.outbox.len()
        } else {
            0
        };
        let mut out: Vec<SpooledFile> = Vec::new();
        let mut left: bool = false;
        let mut hint: usize = 0;
        proof {
            assert(all.take(0) =~= Seq::<SpooledView>::empty());
            assert(spooled_views(out@) =~= Seq::<SpooledView>::empty());
        }
        for file in it: files.into_iter()
            invariant
                it.seq() == files@,
                all == spooled_views(files@),
                v == self@,
                places == room(v, limit as nat),
                left == (waiting_files(v, all.take(it.index())).len() > places),
                spooled_views(out@) == (if left {
                    waiting_files(v, all.take(it.index())).take(places as int)
                } else {
                    waiting_files(v, all.take(it.index()))
                }),
        {
            let ghost i = it.index();
            let ghost waiting = waiting_files(v, all.take(i));
            let ghost before = spooled_views(out@);
            proof {
                assert(all.take(i + 1).drop_last() =~= all.take(i));
                assert(all.take(i + 1).last() == file.view());
                assert(before.len() == out@.len());
            }
            match self.position(&file, hint) {
                Some(at) => {
                    proof {
                        assert(in_outbox(v, file.view()));
                    }
                    hint = at;
                },
                None => {
                    if out.len() < places {
                        out.push(file);
                        assert(spooled_views(out@) =~= before.push(file.view()));
                    } else {
                        left = true;
                        assert(waiting.push(file.view()).take(places as int) =~= before);
                    }
                },
            }
        }
        proof {
            assert(all.take(all.len() as int) =~= all);
        }
        self.spool_dirty = left;
        out
    }

    /// Whether the directories of other boots can go: nothing on disk is left to look for, and no
    /// batch of another boot waits for the receiver.
    pub fn may_retire(&self) -> (r: bool)
        ensures
            r == (!self@.spool_dirty && forall|i: int|
                0 <= i < self@.outbox.len() ==> ((#[trigger] self@.outbox[i]).file matches Some(f) ==> f.same_boot)),
    {
        if self.spool_dirty {
            return false;
        }
        let n: usize = self.outbox.len();
        let mut i: usize = 0;
        while i < n
            invariant
                i <= n,
                n == self.outbox@.len(),
                forall|k: int| 0 <= k < i ==> ((#[trigger] self@.outbox[k]).file matches Some(f) ==> f.same_boot),
            decreases n - i,
        {
            assert(self@.outbox[i as int] == self.outbox@[i as int].view());
            if let Some(own) = &self.outbox[i].file {
                if !own.same_boot {
                    return false;
                }
            }
            i += 1;
        }
        true
    }

    /// Whether everything in hand, and what was read from disk, can be corrected: the records of each
    /// batch can be counted, and so can the batches that are dropped.
    pub fn can_correct(&self, spooled: &Vec<Spooled>) -> (r: bool)
        ensures
            r == correctable(self@, spooled@),
    {
        let batches: u128 = self.totals.shed_batches as u128 + self.outbox.len() as u128 + spooled.len() as u128
            + self.buffer.count() as u128;
        proof {
            assert(outgoing_views(self.outbox@).len() == self.outbox@.len());
        }
        if batches > u64::MAX as u128 || !self.buffer.is_countable() {
            return false;
        }
        let n: usize = spooled.len();
        let mut i: usize = 0;
        while i < n
            invariant
                i <= n,
                n == spooled@.len(),
                forall|k: int|
                    0 <= k < i ==> all_records((#[trigger] spooled@[k]).request.view()).len() <= u64::MAX,
            decreases n - i,
        {
            if spooled[i].request.record_count().is_none() {
                assert(all_records(spooled@[i as int].request.view()).len() > u64::MAX);
                return false;
            }
            i += 1;
        }
        true
    }

    /// Corrects everything in hand with one offset and moves it to the outbox. `spooled` is what was
    /// read from disk, in the order in which it is to go out; `limit` is the most that the outbox may
    /// hold. No file may be removed yet.
    pub fn correct_into_outbox(
        &mut self,
        table: &EpochTable,
        sync_source: Option<SyncSource>,
        decision: Decision,
        spooled: Vec<Spooled>,
        limit: usize,
    )
        requires
            correctable(old(self)@, spooled@),
        ensures
            final(self).caps() == old(self).caps(),
            final(self)@ == after_correction(
                old(self)@,
                spooled@,
                correction_for(table@, decision == Decision::FlushUncertain),
                Flush { uncertain: decision == Decision::FlushUncertain, sync_source },
                limit as nat,
            ),
            is_shipped(old(self)@, spooled@, table@, decision, limit as nat, final(self)@),
    {
        proof {
            law_a_flush_ships_what_is_in_hand(self@, spooled@, table@, sync_source, decision, limit as nat);
        }
        let uncertain = decision == Decision::FlushUncertain;
        let correction = if uncertain {
            None
        } else {
            Some(Correction { offset: table.current().offset })
        };
        let flush = Flush { uncertain, sync_source };
        let ghost v = self@;
        let ghost first = all_spooled_out(spooled@, correction, flush);
        let ghost second = all_held_out(v.held, correction, flush);

        self.ship_spooled(spooled, correction, flush);
        let held = self.buffer.drain();
        self.ship_held(held, correction, flush);
        self.holding_since = None;
        proof {
            assert(outgoing_views(self.outbox@) == v.outbox + first + second);
            assert(outgoing_views(self.outbox@).len() == self.outbox@.len());
        }
        self.shed(limit);
    }

    fn ship_spooled(
        &mut self,
        spooled: Vec<Spooled>,
        correction: Option<Correction>,
        flush: Flush,
    )
        requires
            forall|i: int|
                0 <= i < spooled@.len() ==> all_records((#[trigger] spooled@[i]).request.view()).len() <= u64::MAX,
        ensures
            final(self)@ == (InFlightView {
                outbox: old(self)@.outbox + all_spooled_out(spooled@, correction, flush),
                ..old(self)@
            }),
            final(self).buffer == old(self).buffer,
    {
        let ghost before = outgoing_views(self.outbox@);
        let ghost all = all_spooled_out(spooled@, correction, flush);
        assert(before + all.take(0) =~= before);
        for entry in it: spooled.into_iter()
            invariant
                it.seq() == spooled@,
                all == all_spooled_out(spooled@, correction, flush),
                before == old(self)@.outbox,
                outgoing_views(self.outbox@) == before + all.take(it.index()),
                self.buffer == old(self).buffer,
                self.totals == old(self).totals,
                self.holding_since == old(self).holding_since,
                self.failures == old(self).failures,
                self.retry_at == old(self).retry_at,
                self.spool_dirty == old(self).spool_dirty,
                forall|i: int|
                    0 <= i < spooled@.len() ==> all_records((#[trigger] spooled@[i]).request.view()).len() <= u64::MAX,
        {
            let ghost i = it.index();
            let ghost now = outgoing_views(self.outbox@);
            assert(spooled@[i] == entry);
            let mut request = entry.request;
            let same_boot = entry.file.same_boot;
            let usable = if same_boot { correction } else { None };
            let circumstances = Flush { uncertain: flush.uncertain || !same_boot, sync_source: flush.sync_source };
            let _corrected: u64 = apply_correction(&mut request, usable, circumstances);
            let outgoing = Outgoing { request, file: Some(entry.file) };
            self.outbox.push_back(outgoing);
            proof {
                assert(outgoing.view() == all[i]);
                assert(outgoing_views(self.outbox@) =~= now.push(outgoing.view()));
                assert(all.take(i + 1) =~= all.take(i).push(all[i]));
                assert(outgoing_views(self.outbox@) =~= before + all.take(i + 1));
            }
        }
        assert(all.take(all.len() as int) =~= all);
    }

    fn ship_held(&mut self, held: Vec<Pending>, correction: Option<Correction>, flush: Flush)
        requires
            forall|i: int|
                0 <= i < held@.len() ==> all_records((#[trigger] held@[i]).request.view()).len() <= u64::MAX,
        ensures
            final(self)@ == (InFlightView {
                outbox: old(self)@.outbox + all_held_out(held@, correction, flush),
                ..old(self)@
            }),
            final(self).buffer == old(self).buffer,
    {
        let ghost before = outgoing_views(self.outbox@);
        let ghost all = all_held_out(held@, correction, flush);
        assert(before + all.take(0) =~= before);
        for pending in it: held.into_iter()
            invariant
                it.seq() == held@,
                all == all_held_out(held@, correction, flush),
                before == old(self)@.outbox,
                outgoing_views(self.outbox@) == before + all.take(it.index()),
                self.buffer == old(self).buffer,
                self.totals == old(self).totals,
                self.holding_since == old(self).holding_since,
                self.failures == old(self).failures,
                self.retry_at == old(self).retry_at,
                self.spool_dirty == old(self).spool_dirty,
                forall|i: int|
                    0 <= i < held@.len() ==> all_records((#[trigger] held@[i]).request.view()).len() <= u64::MAX,
        {
            let ghost i = it.index();
            let ghost now = outgoing_views(self.outbox@);
            assert(held@[i] == pending);
            let mut request = pending.request;
            let _corrected: u64 = apply_correction(&mut request, correction, flush);
            let outgoing = Outgoing { request, file: None };
            self.outbox.push_back(outgoing);
            proof {
                assert(outgoing.view() == all[i]);
                assert(outgoing_views(self.outbox@) =~= now.push(outgoing.view()));
                assert(all.take(i + 1) =~= all.take(i).push(all[i]));
                assert(outgoing_views(self.outbox@) =~= before + all.take(i + 1));
            }
        }
        assert(all.take(all.len() as int) =~= all);
    }

    /// Drops the oldest batches beyond a limit, and counts them. A file that such a batch is in stays.
    fn shed(&mut self, limit: usize)
        requires
            old(self)@.totals.shed_batches + old(self)@.outbox.len() <= u64::MAX,
        ensures
            ({
                let n = excess(old(self)@.outbox.len(), limit as nat);
                final(self)@ == (InFlightView {
                    outbox: old(self)@.outbox.skip(n as int),
                    totals: Stats {
                        shed_batches: (old(self)@.totals.shed_batches + n) as u64,
                        ..old(self)@.totals
                    },
                    spool_dirty: old(self)@.spool_dirty || some_filed(old(self)@.outbox, n),
                    ..old(self)@
                })
            }),
            final(self).buffer == old(self).buffer,
    {
        let ghost all = self@.outbox;
        let ghost n = excess(all.len(), limit as nat);
        let ghost start = self.totals;
        let mut shed: u64 = 0;
        let mut filed: bool = false;
        assert(all.skip(0) =~= all);
        while self.outbox.len() > limit
            invariant
                all == old(self)@.outbox,
                start == old(self).totals,
                n == excess(all.len(), limit as nat),
                start.shed_batches + all.len() <= u64::MAX,
                shed <= n,
                n <= all.len(),
                filed == some_filed(all, shed as nat),
                outgoing_views(self.outbox@) == all.skip(shed as int),
                self.totals == start,
                self.buffer == old(self).buffer,
                self.holding_since == old(self).holding_since,
                self.failures == old(self).failures,
                self.retry_at == old(self).retry_at,
                self.spool_dirty == old(self).spool_dirty,
            decreases self.outbox@.len(),
        {
            let ghost before = self.outbox@;
            proof {
                assert(outgoing_views(before).len() == before.len());
            }
            let dropped = self.outbox.pop_front();
            proof {
                assert(outgoing_views(before)[0] == before[0].view());
                assert(all.skip(shed as int)[0] == all[shed as int]);
            }
            if let Some(entry) = dropped {
                if entry.file.is_some() {
                    filed = true;
                    assert(all[shed as int].file is Some);
                }
            }
            proof {
                assert(some_filed(all, (shed + 1) as nat) == (some_filed(all, shed as nat) || all[shed as int].file
                    is Some));
                assert(outgoing_views(self.outbox@) =~= outgoing_views(before).drop_first());
                assert(all.skip(shed as int).drop_first() =~= all.skip(shed + 1));
            }
            shed += 1;
        }
        proof {
            assert(outgoing_views(self.outbox@).len() == self.outbox@.len());
            assert(shed == n);
        }
        self.totals.shed_batches = self.totals.shed_batches + shed;
        if filed {
            self.spool_dirty = true;
        }
    }

    /// Whether an attempt to deliver is due.
    pub fn is_due(&self, now: i64) -> (r: bool)
        ensures
            r == match self@.retry_at {
                Some(at) => now >= at,
                None => true,
            },
    {
        match self.retry_at {
            Some(at) => now >= at,
            None => true,
        }
    }

    /// The batch to deliver next.
    pub fn front(&self) -> (r: Option<&LogsRequest>)
        ensures
            r is Some <==> self@.outbox.len() > 0,
            r matches Some(request) ==> request.view() == self@.outbox[0].request,
    {
        if self.outbox.len() == 0 {
            None
        } else {
            Some(&self.outbox[0].request)
        }
    }

    /// The first batch was delivered. Says whether delivery had been failing, and which file the batch
    /// was read from, if it was: that file is to be removed now. Nothing else hands out a file to
    /// remove.
    pub fn delivered(&mut self) -> (r: (bool, Option<SpooledFile>))
        requires
            old(self)@.outbox.len() > 0,
            old(self)@.totals.forwarded_batches < u64::MAX,
        ensures
            final(self).caps() == old(self).caps(),
            final(self)@ == after_delivery(old(self)@),
            r.0 == (old(self)@.failures > 0),
            file_view(r.1) == old(self)@.outbox[0].file,
    {
        let ghost before = self.outbox@;
        let file = match self.outbox.pop_front() {
            Some(sent) => sent.file,
            None => None,
        };
        proof {
            assert(outgoing_views(before)[0] == before[0].view());
            assert(outgoing_views(self.outbox@) =~= outgoing_views(before).drop_first());
        }
        self.totals.forwarded_batches = self.totals.forwarded_batches + 1;
        self.retry_at = None;
        let recovered = self.failures > 0;
        self.failures = 0;
        (recovered, file)
    }

    /// The attempt failed at `now`. Says whether it is the first failure, and how long the wait is.
    pub fn failed(&mut self, now: i64, grace: Duration, retry_max: Duration) -> (r: (bool, Duration))
        ensures
            final(self).caps() == old(self).caps(),
            final(self)@ == after_failure(old(self)@, now, grace@, retry_max@),
            r.0 == (old(self)@.failures == 0),
            r.1@ == wait_after(one_more(old(self)@.failures), grace@, retry_max@),
    {
        let first = self.failures == 0;
        self.failures = self.failures.saturating_add(1);
        let wait = backoff(self.failures, grace, retry_max);
        let nanos: u128 = wait.as_nanos();
        let ahead: i64 = if nanos > i64::MAX as u128 { i64::MAX } else { nanos as i64 };
        self.retry_at = Some(saturating_add(now, ahead));
        (first, wait)
    }

    /// Forgets the wait: at the end there is no later attempt to wait for.
    pub fn forget_wait(&mut self)
        ensures
            final(self).caps() == old(self).caps(),
            final(self)@ == (InFlightView { retry_at: None, ..old(self)@ }),
    {
        self.retry_at = None;
    }

    /// Gives up everything that is held, for the disk. This ends a run: what the clock still holds back
    /// after the last cycle must not be lost with it.
    pub fn close(&mut self) -> (r: Vec<Pending>)
        ensures
            final(self).caps() == old(self).caps(),
            r@ == old(self)@.held,
            final(self)@ == after_close(old(self)@),
    {
        let held = self.buffer.drain();
        self.holding_since = None;
        if held.len() > 0 {
            self.spool_dirty = true;
        }
        held
    }

    /// Whether this is what is reported of a clock and of what is in hand.
    pub open spec fn reports(&self, h: Health, clock: ClockState, now: Sample) -> bool {
        let v = self@;
        &&& h.max_error_micros == clock.max_error_micros
        &&& match clock.last_step {
            Some(at) => h.since_last_step matches Some(d) && d@ == elapsed(at, now.boottime),
            None => h.since_last_step is None,
        }
        &&& h.steps == clock.steps
        &&& h.disciplined == clock.disciplined
        &&& h.epochs == clock.table@.len()
        &&& h.resolved_exact == v.totals.exact
        &&& h.resolved_ambiguous == v.totals.ambiguous
        &&& h.resolved_passthrough == v.totals.passthrough
        &&& h.resolved_authoritative == v.totals.authoritative
        &&& h.buffered_records == total_records(v.held)
        &&& h.oldest_buffered@ == if v.held.len() == 0 {
            0
        } else {
            elapsed(v.held[0].queued_at, now.boottime)
        }
        &&& h.forwarded_batches == v.totals.forwarded_batches
        &&& h.shed_batches == v.totals.shed_batches
    }

    /// What there is to report.
    pub fn health(&self, clock: &ClockState, now: Sample) -> (r: Health)
        ensures
            self.reports(r, *clock, now),
    {
        Health {
            max_error_micros: clock.max_error_micros,
            since_last_step: match clock.last_step {
                Some(at) => Some(Duration::between(at, now.boottime)),
                None => None,
            },
            steps: clock.steps,
            disciplined: clock.disciplined,
            epochs: clock.table.len() as u64,
            resolved_exact: self.totals.exact,
            resolved_ambiguous: self.totals.ambiguous,
            resolved_passthrough: self.totals.passthrough,
            resolved_authoritative: self.totals.authoritative,
            buffered_records: self.buffer.depth(),
            oldest_buffered: self.oldest(now.boottime),
            forwarded_batches: self.totals.forwarded_batches,
            shed_batches: self.totals.shed_batches,
        }
    }

    fn oldest(&self, now: i64) -> (r: Duration)
        ensures
            r@ == if self@.held.len() == 0 {
                0
            } else {
                elapsed(self@.held[0].queued_at, now)
            },
    {
        match self.buffer.oldest_age(now) {
            Some(age) => age,
            None => Duration::zero(),
        }
    }

    /// Queues a report like any other batch, so that it fails where they fail. Before the clock was
    /// ever good there is none, since its own time would have to be corrected. Says whether there is
    /// one.
    pub fn emit_health(&mut self, clock: &ClockState, now: Sample, boot_id: &str) -> (r: bool)
        ensures
            final(self).caps() == old(self).caps(),
            r == clock.ever_synchronized,
            !r ==> final(self)@ == old(self)@,
            r ==> exists|h: Health| #[trigger]
                old(self).reports(h, *clock, now) && final(self)@ == (InFlightView {
                    outbox: old(self)@.outbox.push(
                        OutgoingView { request: health_request(h, now.realtime, boot_id@), file: None },
                    ),
                    ..old(self)@
                }),
    {
        if !clock.ever_synchronized {
            return false;
        }
        let health = self.health(clock, now);
        let request = to_request(health, now.realtime, boot_id);
        let ghost before = self.outbox@;
        let outgoing = Outgoing { request, file: None };
        self.outbox.push_back(outgoing);
        proof {
            assert(outgoing_views(self.outbox@) =~= outgoing_views(before).push(outgoing.view()));
            assert(self@ =~= InFlightView {
                outbox: old(self)@.outbox.push(
                    OutgoingView { request: health_request(health, now.realtime, boot_id@), file: None },
                ),
                ..old(self)@
            });
            assert(old(self).reports(health, *clock, now));
        }
        true
    }

    /// The counters to publish.
    pub fn stats(&self, now: i64) -> (r: Stats)
        ensures
            r.buffered_records == total_records(self@.held),
            r.buffered_batches == self@.outbox.len(),
            r.oldest_age@ == if self@.held.len() == 0 {
                0
            } else {
                elapsed(self@.held[0].queued_at, now)
            },
            r.exact == self@.totals.exact,
            r.ambiguous == self@.totals.ambiguous,
            r.passthrough == self@.totals.passthrough,
            r.authoritative == self@.totals.authoritative,
            r.forwarded_batches == self@.totals.forwarded_batches,
            r.shed_batches == self@.totals.shed_batches,
    {
        Stats {
            buffered_records: self.buffer.depth(),
            buffered_batches: self.outbox.len() as u64,
            oldest_age: self.oldest(now),
            exact: self.totals.exact,
            ambiguous: self.totals.ambiguous,
            passthrough: self.totals.passthrough,
            authoritative: self.totals.authoritative,
            forwarded_batches: self.totals.forwarded_batches,
            shed_batches: self.totals.shed_batches,
        }
    }
}

/// The batches that were delivered, that wait for delivery, and that were dropped.
pub open spec fn accounted(v: InFlightView) -> int {
    v.totals.forwarded_batches + v.outbox.len() + v.totals.shed_batches
}

/// No batch is lost without being counted: what is corrected is delivered, waits or is counted as
/// dropped, and neither a delivery nor a failure changes how many are accounted for.
pub proof fn law_no_batch_is_lost_silently(
    v: InFlightView,
    spooled: Seq<Spooled>,
    correction: Option<Correction>,
    flush: Flush,
    limit: nat,
    now: i64,
    grace: nat,
    retry_max: nat,
)
    requires
        v.totals.shed_batches + v.outbox.len() + spooled.len() + v.held.len() <= u64::MAX,
        v.totals.forwarded_batches < u64::MAX,
    ensures
        accounted(after_correction(v, spooled, correction, flush, limit)) == accounted(v) + spooled.len()
            + v.held.len(),
        after_correction(v, spooled, correction, flush, limit).outbox.len() <= limit,
        v.outbox.len() > 0 ==> accounted(after_delivery(v)) == accounted(v),
        accounted(after_failure(v, now, grace, retry_max)) == accounted(v),
{
}

/// Whether a file is not forgotten: the disk will be looked at, or its batch is in the outbox.
pub open spec fn remembered(v: InFlightView, f: SpooledView) -> bool {
    v.spool_dirty || in_outbox(v, f)
}

/// A file on disk stays known until its batch was delivered: no step but a delivery of its own batch
/// lets go of it, and one that is chosen to be read comes to be in the outbox, or is looked for again.
pub proof fn law_a_spooled_batch_is_kept_until_it_is_delivered(
    v: InFlightView,
    f: SpooledView,
    pending: Pending,
    spilled: int,
    files: Seq<SpooledView>,
    spooled: Seq<Spooled>,
    correction: Option<Correction>,
    flush: Flush,
    limit: nat,
    now: i64,
    grace: nat,
    retry_max: nat,
)
    requires
        remembered(v, f),
    ensures
        remembered(after_receipt(v, pending, spilled), f),
        remembered(after_failure(v, now, grace, retry_max), f),
        remembered(after_close(v), f),
        files.contains(f) ==> remembered(after_choice(v, files, limit), f) || chosen_files(v, files, limit).contains(
            f,
        ),
        remembered(after_correction(v, spooled, correction, flush, limit), f),
        v.outbox.len() > 0 && !holds_file(v.outbox[0], f) ==> remembered(after_delivery(v), f),
{
    if in_outbox(v, f) {
        let i = choose|i: int| 0 <= i < v.outbox.len() && #[trigger] holds_file(v.outbox[i], f);
        assert(holds_file(after_receipt(v, pending, spilled).outbox[i], f));
        assert(holds_file(after_failure(v, now, grace, retry_max).outbox[i], f));
        assert(holds_file(after_close(v).outbox[i], f));
        assert(holds_file(after_choice(v, files, limit).outbox[i], f));
        lemma_corrected_keeps(v, f, spooled, correction, flush, limit, i);
        if v.outbox.len() > 0 && !holds_file(v.outbox[0], f) {
            assert(after_delivery(v).outbox[i - 1] == v.outbox[i]);
            assert(holds_file(after_delivery(v).outbox[i - 1], f));
        }
    } else if files.contains(f) {
        lemma_waiting_files_wait(v, files, f);
    }
}

proof fn lemma_corrected_keeps(
    v: InFlightView,
    f: SpooledView,
    spooled: Seq<Spooled>,
    correction: Option<Correction>,
    flush: Flush,
    limit: nat,
    i: int,
)
    requires
        ({
            let all = v.outbox + all_spooled_out(spooled, correction, flush) + all_held_out(v.held, correction, flush);
            0 <= i < all.len() && holds_file(all[i], f)
        }) || (0 <= i < v.outbox.len() && holds_file(v.outbox[i], f)),
    ensures
        remembered(after_correction(v, spooled, correction, flush, limit), f),
{
    let all = v.outbox + all_spooled_out(spooled, correction, flush) + all_held_out(v.held, correction, flush);
    let shed = excess(all.len(), limit);
    let after = after_correction(v, spooled, correction, flush, limit);
    if i < v.outbox.len() {
        assert(all[i] == v.outbox[i]);
    }
    if i < shed {
        assert(all[i].file is Some);
        assert(some_filed(all, shed));
    } else {
        assert(after.outbox[i - shed] == all[i]);
        assert(holds_file(after.outbox[i - shed], f));
    }
}

/// A batch that was read from disk waits in the outbox with its file, or its file is looked for again.
pub proof fn law_a_batch_that_was_read_keeps_its_file(
    v: InFlightView,
    spooled: Seq<Spooled>,
    correction: Option<Correction>,
    flush: Flush,
    limit: nat,
    k: int,
)
    requires
        0 <= k < spooled.len(),
    ensures
        remembered(after_correction(v, spooled, correction, flush, limit), spooled[k].file.view()),
{
    let all = v.outbox + all_spooled_out(spooled, correction, flush) + all_held_out(v.held, correction, flush);
    let i = v.outbox.len() + k;
    assert(all[i] == all_spooled_out(spooled, correction, flush)[k]);
    assert(holds_file(all[i], spooled[k].file.view()));
    lemma_corrected_keeps(v, spooled[k].file.view(), spooled, correction, flush, limit, i);
}

proof fn lemma_waiting_files_wait(v: InFlightView, files: Seq<SpooledView>, f: SpooledView)
    requires
        files.contains(f),
        !in_outbox(v, f),
    ensures
        waiting_files(v, files).contains(f),
    decreases files.len(),
{
    let front = files.drop_last();
    let rest = waiting_files(v, front);
    if files.last() == f {
        assert(rest.push(f)[rest.len() as int] == f);
    } else {
        let i = choose|i: int| 0 <= i < files.len() && files[i] == f;
        assert(front[i] == f);
        lemma_waiting_files_wait(v, front, f);
        let k = choose|k: int| 0 <= k < rest.len() && rest[k] == f;
        if !in_outbox(v, files.last()) {
            assert(rest.push(files.last())[k] == f);
        }
    }
}

/// A stop strands nothing: what is still held after the last cycle is given up to the disk, in order,
/// and what is in the outbox keeps its file, if it has one.
pub proof fn law_a_stop_gives_up_all_that_is_held(v: InFlightView)
    ensures
        after_close(v).held.len() == 0,
        after_close(v).outbox == v.outbox,
        v.held.len() > 0 ==> after_close(v).spool_dirty,
        accounted(after_close(v)) == accounted(v),
{
}

/// Whether a wait for the clock is timed exactly while something is held.
pub open spec fn wait_is_timed(v: InFlightView) -> bool {
    v.holding_since is Some <==> v.held.len() > 0
}

proof fn lemma_one_batch_stays(s: Seq<Pending>, limits: Limits)
    requires
        s.len() > 0,
    ensures
        spill_count(s, limits) < s.len(),
    decreases s.len(),
{
    if s.len() > 1 && exceeds(s, limits) {
        lemma_one_batch_stays(s.drop_first(), limits);
    }
}

/// The wait for the clock is timed from the first batch that is held on, and is over once nothing is
/// held: whatever happens, the hold timeout runs exactly while there is something to hold.
pub proof fn law_the_wait_is_timed_while_batches_are_held(
    v: InFlightView,
    pending: Pending,
    limits: Limits,
    spooled: Seq<Spooled>,
    correction: Option<Correction>,
    flush: Flush,
    limit: nat,
)
    requires
        wait_is_timed(v),
    ensures
        ({
            let received = after_receipt(v, pending, spill_count(v.held.push(pending), limits) as int);
            &&& wait_is_timed(received)
            &&& v.held.len() == 0 ==> received.holding_since == Some(pending.queued_at)
            &&& v.held.len() > 0 ==> received.holding_since == v.holding_since
        }),
        wait_is_timed(after_correction(v, spooled, correction, flush, limit)),
        wait_is_timed(after_close(v)),
{
    lemma_one_batch_stays(v.held.push(pending), limits);
}

/// A batch whose delivery failed is sent again as it was, and none overtakes it.
pub proof fn law_failed_batches_are_retried_verbatim(v: InFlightView, now: i64, grace: nat, retry_max: nat)
    ensures
        after_failure(v, now, grace, retry_max).outbox == v.outbox,
{
}

/// A batch that another boot left on disk goes out with the timestamps it was stored with, whatever
/// is known of the clock now.
pub proof fn law_other_boots_keep_their_stamps(
    request: Seq<ResourceLogsView>,
    correction: Option<Correction>,
    flush: Flush,
    i: int,
    j: int,
    k: int,
)
    requires
        0 <= i < request.len(),
        0 <= j < request[i].scope_logs.len(),
        0 <= k < request[i].scope_logs[j].log_records.len(),
    ensures
        ({
            let out = spooled_out(request, false, correction, flush)[i].scope_logs[j].log_records[k];
            let record = request[i].scope_logs[j].log_records[k];
            &&& out.time_unix_nano == record.time_unix_nano
            &&& out.observed_time_unix_nano == record.observed_time_unix_nano
        }),
{
    reveal(corrected_record);
}

} // verus!
