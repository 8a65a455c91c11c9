use monitoring_platform::collector::buffer::{Decision, Limits, Pending};
use monitoring_platform::collector::correct::{resolve_request, Receipt, Tally, ATTR_RESOLUTION, ATTR_UNCERTAIN};
use monitoring_platform::collector::epoch::{Epoch, EpochTable, Source};
use monitoring_platform::collector::metrics::EVENT_NAME;
use monitoring_platform::collector::receive::receive;
use monitoring_platform::collector::runtime::{
    choose_initial_table, status, wants_backfill, ClockState, InFlight, Origin, PollSettings,
};
use monitoring_platform::collector::spool::{file_name, Spooled, SpooledFile};
use monitoring_platform::collector::sync::{Reading, SyncSource};
use monitoring_platform::host::{Sample, STA_UNSYNC};
use monitoring_platform::otlp::compose::record;
use monitoring_platform::otlp::proto::{LogsRequest, LogRecord, ResourceLogs, ScopeLogs};
use monitoring_platform::time::Duration;

const SEC: i64 = 1_000_000_000;
const WALL: i64 = 1_785_924_000 * SEC;
const BOOT: &str = "boot-1";
const OTHER: &str = "boot-0";

fn now() -> Sample {
    Sample { realtime: WALL + 100 * SEC, boottime: 100 * SEC }
}

fn epoch(boot_start: i64, offset: i64, source: Source) -> Epoch {
    Epoch { boot_start, offset, source }
}

#[test]
fn persisted_history_wins() {
    let persisted = EpochTable::new(epoch(0, WALL - 3 * 86_400 * SEC, Source::Journal));
    let ignored = vec![epoch(0, WALL - 999 * SEC, Source::Journal)];

    let (table, origin) = choose_initial_table(Some(persisted), ignored, now());

    assert_eq!(origin, Origin::Persisted);
    assert_eq!(table.epochs()[0].offset, WALL - 3 * 86_400 * SEC, "the journal's value leaked in");
}

#[test]
fn journald_is_used_when_there_is_nothing_on_disk() {
    let backfilled = vec![
        epoch(0, WALL - 3 * 86_400 * SEC, Source::Journal),
        epoch(30 * SEC, WALL, Source::Journal),
    ];

    let (table, origin) = choose_initial_table(None, backfilled, now());

    assert_eq!(origin, Origin::Journal);
    assert_eq!(table.epochs()[0].source, Source::Journal);
    assert_eq!(table.epochs()[0].offset, WALL - 3 * 86_400 * SEC);
}

#[test]
fn a_lone_reading_is_dated_to_boot_not_to_now() {
    let (table, origin) = choose_initial_table(None, Vec::new(), now());

    assert_eq!(origin, Origin::Startup);
    assert_eq!(table.len(), 1);
    assert_eq!(
        table.epochs()[0].boot_start, 0,
        "with no history, this offset has to be assumed to hold since boot — dating it at \
         `now` would leave every earlier record with no epoch to fall in"
    );
}

#[test]
fn an_empty_backfill_falls_through_to_startup() {
    assert_eq!(choose_initial_table(None, Vec::new(), now()).1, Origin::Startup);
}

#[test]
fn the_live_reading_is_appended_whatever_the_source() {
    let stale = WALL - 3 * 86_400 * SEC;
    let cases = [
        (Some(EpochTable::new(epoch(0, stale, Source::Journal))), Vec::new(), Origin::Persisted),
        (None, vec![epoch(0, stale, Source::Journal)], Origin::Journal),
    ];

    for (persisted, backfilled, expected) in cases {
        let (table, origin) = choose_initial_table(persisted, backfilled, now());

        assert_eq!(origin, expected);
        assert_eq!(
            table.current().offset,
            now().offset(),
            "{expected:?}: the collector's own reading must be the active epoch"
        );
        assert_eq!(table.current().boot_start, now().boottime);
        assert_eq!(table.len(), 2, "{expected:?}: the prior history must survive too");
    }
}

#[test]
fn a_restart_on_an_unchanged_clock_does_not_grow_the_table() {
    let persisted = EpochTable::new(epoch(0, now().offset(), Source::Journal));

    let (table, _) = choose_initial_table(Some(persisted), Vec::new(), now());
    assert_eq!(table.len(), 1);
}

fn single(log: LogRecord) -> LogsRequest {
    LogsRequest {
        resource_logs: vec![ResourceLogs {
            scope_logs: vec![ScopeLogs { log_records: vec![log], ..Default::default() }],
            ..Default::default()
        }],
    }
}

fn receipt() -> Receipt {
    Receipt { sender_started: SEC, received: 20 * SEC, tolerance: 0 }
}

fn batch(name: &str, at: i64, offset: i64) -> Pending {
    let table = EpochTable::new(epoch(0, offset, Source::Startup));
    receive(single(record(name, at + offset, 0, None, vec![])), 10, &table, receipt())
}

fn file(boot: &str, seq: u64) -> SpooledFile {
    SpooledFile { boot: boot.to_owned(), file: file_name(seq), same_boot: boot == BOOT }
}

fn spooled(request: LogsRequest, seq: u64) -> Spooled {
    Spooled { request, file: file(BOOT, seq) }
}

fn name_of(request: &LogsRequest) -> &str {
    &log_of(request).event_name
}

fn log_of(request: &LogsRequest) -> &LogRecord {
    &request.resource_logs[0].scope_logs[0].log_records[0]
}

fn settings() -> PollSettings {
    PollSettings { threshold_micros: 1_000, consecutive: 2, resync_threshold_nanos: 200_000_000 }
}

fn limits() -> Limits {
    Limits { max_records: 2, max_bytes: 1_000 }
}

#[test]
fn the_journal_is_asked_only_where_nothing_was_persisted() {
    assert!(wants_backfill(false, true));
    assert!(!wants_backfill(true, true));
    assert!(!wants_backfill(false, false));
}

#[test]
fn a_step_opens_an_epoch_and_is_counted() {
    let mut clock = ClockState::new(EpochTable::new(epoch(0, WALL - 50 * SEC, Source::Startup)));
    clock.on_step(now());
    assert_eq!(clock.steps, 1);
    assert_eq!(clock.last_step, Some(100 * SEC));
    assert_eq!(clock.table.current(), epoch(100 * SEC, WALL, Source::Step));
}

#[test]
fn polls_release_once_and_catch_a_missed_step() {
    let mut clock = ClockState::new(EpochTable::new(epoch(0, WALL, Source::Startup)));
    let good = Reading { max_error_micros: 10, status: STA_UNSYNC };

    let first = clock.on_poll(good, now(), settings(), 0);
    assert_eq!((first.streak, first.released, first.missed), (1, false, false));
    assert!(!clock.ever_synchronized);
    assert!(clock.polls_on(7), "every tick polls until the clock was good");

    let second = clock.on_poll(good, now(), settings(), first.streak);
    assert!(second.newly_synchronized);
    assert_eq!(clock.sync_source, Some(SyncSource::MaxError));
    assert!(clock.polls_on(120) && !clock.polls_on(121));

    let moved = Sample { realtime: WALL + 300 * SEC, boottime: 200 * SEC };
    let bad = Reading { max_error_micros: 16_000_000, status: STA_UNSYNC };
    let third = clock.on_poll(bad, moved, settings(), second.streak);
    assert!(third.missed && !third.newly_synchronized);
    assert!(clock.ever_synchronized, "a clock that was set stays set");
    assert_eq!(clock.sync_source, None);
    assert!(!clock.disciplined);
    assert_eq!(clock.table.current(), epoch(200 * SEC, WALL + 100 * SEC, Source::Resync));
}

#[test]
fn batches_wait_for_the_clock_and_leave_in_order() {
    let stale = WALL - 86_400 * SEC;
    let mut clock = ClockState::new(EpochTable::new(epoch(0, stale, Source::Startup)));
    let mut flight = InFlight::new(limits());
    assert!(flight.received(batch("a", 10 * SEC, stale)).is_empty());
    assert!(flight.received(batch("b", 11 * SEC, stale)).is_empty());
    let spilled = flight.received(batch("c", 12 * SEC, stale));
    assert_eq!(spilled.len(), 1);
    assert_eq!(name_of(&spilled[0].request), "a");

    let timeout = Duration::from_secs(300);
    assert_eq!(flight.decision(&clock, 30 * SEC, timeout), None);
    assert_eq!(flight.decision(&clock, 400 * SEC, timeout), Some(Decision::FlushUncertain));

    clock.on_step(Sample { realtime: WALL + 40 * SEC, boottime: 40 * SEC });
    clock.sync_source = Some(SyncSource::MaxError);
    clock.ever_synchronized = true;
    assert_eq!(flight.decision(&clock, 41 * SEC, timeout), Some(Decision::Flush));

    let chosen = flight.choose_files(vec![file(BOOT, 0)], 10);
    assert_eq!(chosen, [file(BOOT, 0)]);
    let spooled: Vec<_> = spilled.into_iter().map(|p| spooled(p.request, 0)).collect();
    flight.correct_into_outbox(&clock.table, clock.sync_source, Decision::Flush, spooled, 10);
    assert_eq!(flight.decision(&clock, 42 * SEC, timeout), None, "nothing is left to flush");

    let mut seen = Vec::new();
    while let Some(request) = flight.front() {
        seen.push((name_of(request).to_owned(), log_of(request).time_unix_nano));
        let from = flight.delivered();
        assert_eq!(from, (false, (seen.len() == 1).then(|| file(BOOT, 0))));
    }
    let expected: Vec<_> = [("a", 10), ("b", 11), ("c", 12)]
        .iter()
        .map(|(n, s)| ((*n).to_owned(), (WALL + s * SEC) as u64))
        .collect();
    assert_eq!(seen, expected);
    assert_eq!(flight.stats(50 * SEC).forwarded_batches, 3);
    assert_eq!(flight.stats(50 * SEC).exact, 3);
}

#[test]
fn another_boots_batch_keeps_its_stamp_and_is_marked() {
    let table = EpochTable::new(epoch(0, WALL, Source::Startup));
    let mut request = single(record("old", WALL - 5 * SEC, 0, None, vec![]));
    resolve_request(&mut request, &EpochTable::new(epoch(0, WALL - 10 * SEC, Source::Startup)), receipt());
    let mut flight = InFlight::new(limits());
    flight.correct_into_outbox(&table, None, Decision::Flush, vec![Spooled { request, file: file(OTHER, 3) }], 10);

    let out = log_of(flight.front().unwrap());
    assert_eq!(out.time_unix_nano, (WALL - 5 * SEC) as u64);
    let keys: Vec<&str> = out.attributes.iter().map(|kv| kv.key.as_str()).collect();
    assert!(keys.contains(&ATTR_UNCERTAIN) && keys.contains(&ATTR_RESOLUTION), "{keys:?}");
}

#[test]
fn the_oldest_batches_are_shed_and_counted() {
    let table = EpochTable::new(epoch(0, WALL, Source::Startup));
    let mut flight = InFlight::new(limits());
    let spooled = ["a", "b", "c"].iter().zip(0..).map(|(n, i)| spooled(batch(n, 10 * SEC, WALL).request, i)).collect();
    flight.correct_into_outbox(&table, None, Decision::Flush, spooled, 2);
    assert_eq!(name_of(flight.front().unwrap()), "b");
    let stats = flight.stats(0);
    assert_eq!((stats.shed_batches, stats.buffered_batches, stats.forwarded_batches), (1, 2, 0));
}

#[test]
fn a_failed_delivery_backs_off_and_keeps_the_batch() {
    let table = EpochTable::new(epoch(0, WALL, Source::Startup));
    let mut flight = InFlight::new(limits());
    flight.correct_into_outbox(&table, None, Decision::Flush, vec![spooled(batch("a", 10 * SEC, WALL).request, 0)], 9);

    let (grace, cap) = (Duration::from_secs(1), Duration::from_secs(3));
    assert!(flight.is_due(0));
    assert_eq!(flight.failed(10 * SEC, grace, cap), (true, Duration::from_secs(1)));
    assert!(!flight.is_due(11 * SEC - 1) && flight.is_due(11 * SEC));
    assert_eq!(flight.failed(11 * SEC, grace, cap), (false, Duration::from_secs(2)));
    assert_eq!(flight.failed(13 * SEC, grace, cap), (false, Duration::from_secs(3)));
    assert!(!flight.is_due(15 * SEC));
    assert_eq!(name_of(flight.front().unwrap()), "a");
    flight.forget_wait();
    assert!(flight.is_due(13 * SEC));
    assert_eq!(flight.delivered(), (true, Some(file(BOOT, 0))), "delivery had been failing");
    assert!(flight.front().is_none());
}

#[test]
fn health_is_reported_only_once_the_clock_was_good() {
    let mut clock = ClockState::new(EpochTable::new(epoch(0, WALL, Source::Startup)));
    let mut flight = InFlight::new(limits());
    assert!(!flight.emit_health(&clock, now(), "boot-1"));
    assert!(flight.front().is_none());

    clock.ever_synchronized = true;
    clock.last_step = Some(60 * SEC);
    assert!(flight.received(batch("a", 10 * SEC, WALL)).is_empty());
    let health = flight.health(&clock, now());
    assert_eq!(health.since_last_step, Some(Duration::from_secs(40)));
    assert_eq!(health.oldest_buffered, Duration::from_secs(80));
    assert_eq!((health.buffered_records, health.resolved_exact, health.epochs), (1, 1, 1));
    assert!(flight.emit_health(&clock, now(), "boot-1"));
    assert_eq!(name_of(flight.front().unwrap()), EVENT_NAME);

    let report = status(&clock, flight.stats(now().boottime));
    assert_eq!((report.ever_synchronized, report.synchronized, report.buffered_records), (true, false, 1));
}

#[test]
fn a_stop_gives_up_what_the_clock_holds_back() {
    let clock = ClockState::new(EpochTable::new(epoch(0, WALL, Source::Startup)));
    let mut flight = InFlight::new(Limits { max_records: 10, max_bytes: 1_000 });
    for name in ["a", "b"] {
        assert!(flight.received(batch(name, 10 * SEC, WALL)).is_empty());
    }
    flight.forget_wait();
    assert_eq!(flight.decision(&clock, 30 * SEC, Duration::from_secs(300)), None, "the clock was never set");
    assert!(flight.front().is_none());

    let names: Vec<_> = flight.close().iter().map(|p| name_of(&p.request).to_owned()).collect();
    assert_eq!(names, ["a", "b"]);
    assert!(flight.close().is_empty());
    assert_eq!(flight.stats(30 * SEC).buffered_records, 0);
    assert!(!flight.may_retire(), "there is something on disk now");
}

#[test]
fn a_spooled_file_is_handed_out_with_its_delivery_and_not_before() {
    let table = EpochTable::new(epoch(0, WALL, Source::Startup));
    let mut flight = InFlight::new(limits());
    let on_disk = || vec![file(BOOT, 0), file(BOOT, 1), file(OTHER, 0)];

    assert_eq!(flight.choose_files(on_disk(), 2), [file(BOOT, 0), file(BOOT, 1)], "as many as there is room for");
    let read = vec![spooled(batch("a", SEC, WALL).request, 0), spooled(batch("b", SEC, WALL).request, 1)];
    flight.correct_into_outbox(&table, None, Decision::Flush, read, 2);
    assert!(flight.choose_files(on_disk(), 2).is_empty(), "what is in the outbox is not read again");
    assert!(!flight.may_retire());

    flight.failed(0, Duration::from_secs(1), Duration::from_secs(1));
    assert_eq!(flight.delivered().1, Some(file(BOOT, 0)));
    assert_eq!(flight.choose_files(vec![file(BOOT, 1), file(OTHER, 0)], 2), [file(OTHER, 0)]);
    let read = vec![Spooled { request: batch("c", SEC, WALL).request, file: file(OTHER, 0) }];
    flight.correct_into_outbox(&table, None, Decision::Flush, read, 2);
    assert_eq!(flight.delivered().1, Some(file(BOOT, 1)));
    assert!(!flight.may_retire(), "the other boot's batch still waits");
    assert_eq!(flight.delivered().1, Some(file(OTHER, 0)));
    assert!(flight.may_retire());
}

#[test]
fn a_batch_that_is_shed_stays_on_disk_and_is_looked_for_again() {
    let clock = ClockState { ever_synchronized: true, ..ClockState::new(EpochTable::new(epoch(0, WALL, Source::Startup))) };
    let mut flight = InFlight::new(limits());
    assert_eq!(flight.choose_files(vec![file(BOOT, 0)], 1), [file(BOOT, 0)]);
    flight.correct_into_outbox(&clock.table, None, Decision::Flush, vec![spooled(batch("a", SEC, WALL).request, 0)], 1);
    assert_eq!(flight.decision(&clock, 0, Duration::zero()), None);

    assert!(flight.received(batch("b", SEC, WALL)).is_empty());
    flight.correct_into_outbox(&clock.table, None, Decision::Flush, vec![], 1);
    assert_eq!(name_of(flight.front().unwrap()), "b");
    assert_eq!(flight.decision(&clock, 0, Duration::zero()), Some(Decision::Flush));
    assert!(flight.choose_files(vec![file(BOOT, 0)], 1).is_empty(), "no room yet");
    assert_eq!(flight.delivered(), (false, None));
    assert_eq!(flight.choose_files(vec![file(BOOT, 0)], 1), [file(BOOT, 0)]);
}

#[test]
fn the_hold_timeout_starts_anew_with_the_first_batch_behind_a_flush() {
    let clock = ClockState::new(EpochTable::new(epoch(0, WALL, Source::Startup)));
    let mut flight = InFlight::new(Limits { max_records: 10, max_bytes: 1_000 });
    let timeout = Duration::from_secs(300);
    assert!(flight.received(batch("a", 10 * SEC, WALL)).is_empty());
    assert!(flight.received(batch("b", 200 * SEC, WALL)).is_empty());
    assert_eq!(flight.decision(&clock, 309 * SEC, timeout), None);
    assert_eq!(flight.decision(&clock, 310 * SEC, timeout), Some(Decision::FlushUncertain));
    flight.correct_into_outbox(&clock.table, None, Decision::FlushUncertain, vec![], 10);
    assert!(flight.received(batch("c", 320 * SEC, WALL)).is_empty());
    assert_eq!(flight.decision(&clock, 619 * SEC, timeout), None);
    assert_eq!(flight.decision(&clock, 620 * SEC, timeout), Some(Decision::FlushUncertain));
}

#[test]
fn a_batch_is_taken_in_only_where_the_counters_can_say_so() {
    let mut flight = InFlight::new(Limits { max_records: 10, max_bytes: 1_000 });
    assert!(flight.can_receive(&batch("a", SEC, WALL)));
    assert!(!flight.can_receive(&Pending {
        tally: Tally { exact: u64::MAX, ambiguous: 1, passthrough: 0, authoritative: 0 },
        ..batch("a", SEC, WALL)
    }));
    flight.received(batch("a", SEC, WALL));
    assert!(!flight.can_receive(&Pending { bytes: usize::MAX, ..batch("b", SEC, WALL) }));
    let most = Tally { exact: u64::MAX, ambiguous: 0, passthrough: 0, authoritative: 0 };
    assert!(!flight.can_receive(&Pending { tally: most, ..batch("b", SEC, WALL) }));
    assert!(flight.can_correct(&vec![spooled(batch("c", SEC, WALL).request, 0)]));
    assert_eq!(batch("d", SEC, WALL).request.record_count(), Some(1));
    assert_eq!(LogsRequest::default().record_count(), Some(0));
}
