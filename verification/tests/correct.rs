use monitoring_platform::collector::correct::{
    apply_correction, project, resolve_request, split_hints, Correction, Disposition, Flush, Hints, Receipt, Tally,
    ATTR_AUTHORITATIVE, ATTR_BOOTTIME, ATTR_CORRECTED, ATTR_CORRECTION_NS, ATTR_EVENT_BOOTTIME, ATTR_RECEIPT_BOOTTIME,
    ATTR_RESOLUTION, ATTR_SPREAD_NS, ATTR_SYNC_SOURCE, ATTR_UNCERTAIN, NS,
};
use monitoring_platform::collector::epoch::{Epoch, EpochTable, Resolution, Source, DEFAULT_TOLERANCE_NANOS};
use monitoring_platform::collector::sync::SyncSource;
use monitoring_platform::otlp::compose::{kv, kv_int as int_attr, kv_str as string_attr};
use monitoring_platform::otlp::proto::{
    LogsRequest, KeyValue, LogRecord, ResourceLogs, ScopeLogs, Value,
};

const SEC: i64 = 1_000_000_000;
const WALL: i64 = 1_785_924_000 * SEC;

fn bool_attr(key: &str, value: bool) -> KeyValue {
    kv(key, Value::BoolValue(value))
}

fn table(offset: i64) -> EpochTable {
    EpochTable::new(Epoch { boot_start: 0, offset, source: Source::Startup })
}

fn receipt() -> Receipt {
    Receipt { sender_started: 5 * SEC, received: 11 * SEC, tolerance: DEFAULT_TOLERANCE_NANOS }
}

fn request(records: Vec<LogRecord>) -> LogsRequest {
    LogsRequest {
        resource_logs: vec![ResourceLogs {
            scope_logs: vec![ScopeLogs { log_records: records, ..Default::default() }],
            ..Default::default()
        }],
    }
}

fn record(time: i64, attributes: Vec<KeyValue>) -> LogRecord {
    LogRecord {
        time_unix_nano: time as u64,
        event_name: "cpu".to_owned(),
        attributes,
        ..Default::default()
    }
}

fn records(req: &LogsRequest) -> &[LogRecord] {
    &req.resource_logs[0].scope_logs[0].log_records
}

fn attr_of<'a>(r: &'a LogRecord, key: &str) -> Option<&'a Value> {
    r.attributes.iter().rev().find(|kv| kv.key == key)?.value.as_ref()?.value.as_ref()
}
fn clock_attrs(r: &LogRecord) -> Vec<&str> {
    r.attributes.iter().map(|kv| kv.key.as_str()).filter(|k| k.starts_with(NS)).collect()
}
fn no_clock_attrs(r: &LogRecord) -> bool {
    clock_attrs(r).is_empty()
}

#[test]
fn a_stale_stamp_survives_receipt_and_comes_out_corrected() {
    let stale = WALL - 3 * 86_400 * SEC;
    let mut req = request(vec![record(stale + 10 * SEC, vec![])]);

    let tally = resolve_request(&mut req, &table(stale), receipt());
    assert_eq!(tally.exact, 1);
    assert_eq!(
        records(&req)[0].time_unix_nano,
        (stale + 10 * SEC) as u64,
        "the arriving stamp stays put until a flush has an offset to project with"
    );
    assert_eq!(
        attr_of(&records(&req)[0], ATTR_EVENT_BOOTTIME),
        Some(&Value::IntValue(10 * SEC)),
        "the resolved boottime rides alongside"
    );
    apply_correction(&mut req, Some(Correction { offset: WALL }), Flush {
        uncertain: false,
        sync_source: Some(SyncSource::MaxError),
    });

    let out = &records(&req)[0];
    assert_eq!(out.time_unix_nano, (WALL + 10 * SEC) as u64);
    assert!(
        no_clock_attrs(out),
        "an ordinary corrected record must carry no clock attributes: {:?}",
        clock_attrs(out)
    );
    for dropped in [ATTR_CORRECTED, ATTR_CORRECTION_NS, ATTR_RESOLUTION, ATTR_SYNC_SOURCE] {
        assert_eq!(attr_of(out, dropped), None, "{dropped} must not be stamped on a normal record");
    }
    assert!(attr_of(out, ATTR_UNCERTAIN).is_none(), "not a timeout flush");
}

#[test]
fn a_frozen_correction_makes_a_retry_byte_identical() {
    let build = || {
        let mut req = request(vec![record(WALL + 10 * SEC, vec![])]);
        resolve_request(&mut req, &table(WALL), receipt());
        req
    };
    let frozen = Correction { offset: WALL + 1234 };
    let flush = Flush { uncertain: false, sync_source: Some(SyncSource::MaxError) };

    let (mut first, mut retry) = (build(), build());
    apply_correction(&mut first, Some(frozen), flush);
    apply_correction(&mut retry, Some(frozen), flush);
    assert_eq!(first, retry);
    let mut resampled = build();
    apply_correction(&mut resampled, Some(Correction { offset: frozen.offset + 5_000 }), flush);
    assert_ne!(
        records(&resampled)[0].time_unix_nano,
        records(&first)[0].time_unix_nano,
        "a re-sampled offset must be observably different, or this test proves nothing"
    );
}

#[test]
fn a_passthrough_record_is_left_alone() {
    let historical = WALL - 400 * 86_400 * SEC;
    let mut req = request(vec![record(historical, vec![])]);

    let tally = resolve_request(&mut req, &table(WALL), receipt());
    assert_eq!(tally.passthrough, 1);
    assert_eq!(records(&req)[0].time_unix_nano, historical as u64);

    apply_correction(&mut req, Some(Correction { offset: WALL }), Flush {
        uncertain: false,
        sync_source: None,
    });

    let out = &records(&req)[0];
    assert_eq!(out.time_unix_nano, historical as u64, "a foreign frame must survive intact");
    assert_eq!(
        attr_of(out, ATTR_RESOLUTION),
        Some(&Value::StringValue("passthrough".to_owned()))
    );
    assert_eq!(attr_of(out, ATTR_CORRECTED), None);
    assert_eq!(attr_of(out, ATTR_CORRECTION_NS), None);
    assert_eq!(attr_of(out, ATTR_SYNC_SOURCE), None);
}

#[test]
fn an_authoritative_record_is_not_corrected_even_when_resolvable() {
    let mut req = request(vec![record(
        WALL + 10 * SEC,
        vec![bool_attr(ATTR_AUTHORITATIVE, true)],
    )]);

    let tally = resolve_request(&mut req, &table(WALL), receipt());
    assert_eq!(tally.authoritative, 1);

    apply_correction(&mut req, Some(Correction { offset: WALL }), Flush {
        uncertain: false,
        sync_source: None,
    });
    let out = &records(&req)[0];
    assert_eq!(out.time_unix_nano, (WALL + 10 * SEC) as u64);
    assert_eq!(
        attr_of(out, ATTR_RESOLUTION),
        Some(&Value::StringValue("authoritative".to_owned()))
    );
}

#[test]
fn a_boottime_hint_resolves_a_record_the_window_would_reject() {
    let mut req = request(vec![record(
        WALL - 900 * SEC,
        vec![int_attr(ATTR_BOOTTIME, 7 * SEC)],
    )]);

    let tally = resolve_request(&mut req, &table(WALL), receipt());
    assert_eq!(tally.exact, 1);
    assert_eq!(
        attr_of(&records(&req)[0], ATTR_EVENT_BOOTTIME),
        Some(&Value::IntValue(7 * SEC))
    );
}

#[test]
fn hint_attributes_never_reach_the_wire() {
    let mut req = request(vec![record(
        WALL + 10 * SEC,
        vec![
            int_attr(ATTR_BOOTTIME, 7 * SEC),
            bool_attr(ATTR_AUTHORITATIVE, false),
            string_attr("unit", "ratio"),
        ],
    )]);
    resolve_request(&mut req, &table(WALL), receipt());
    apply_correction(&mut req, Some(Correction { offset: WALL }), Flush {
        uncertain: false,
        sync_source: None,
    });

    let keys: Vec<&str> = records(&req)[0].attributes.iter().map(|kv| kv.key.as_str()).collect();
    assert!(!keys.contains(&ATTR_BOOTTIME), "the hint became series identity: {keys:?}");
    assert!(!keys.contains(&ATTR_AUTHORITATIVE), "{keys:?}");
    assert!(keys.contains(&"unit"), "an application attribute was lost: {keys:?}");
}

#[test]
fn internal_attributes_never_reach_the_wire() {
    for correction in [Some(Correction { offset: WALL }), None] {
        let mut req = request(vec![record(WALL + 10 * SEC, vec![])]);
        resolve_request(&mut req, &table(WALL), receipt());
        assert!(
            attr_of(&records(&req)[0], ATTR_EVENT_BOOTTIME).is_some(),
            "precondition: the receipt pass records a boottime"
        );

        apply_correction(&mut req, correction, Flush { uncertain: false, sync_source: None });

        let keys: Vec<&str> =
            records(&req)[0].attributes.iter().map(|kv| kv.key.as_str()).collect();
        assert!(!keys.contains(&ATTR_EVENT_BOOTTIME), "{correction:?}: {keys:?}");
        assert!(!keys.contains(&ATTR_RECEIPT_BOOTTIME), "{correction:?}: {keys:?}");
    }
}

#[test]
fn a_record_spooled_across_a_reboot_ships_with_its_original_stamp() {
    let stale = WALL - 3 * 86_400 * SEC;
    let mut req = request(vec![record(stale + 10 * SEC, vec![])]);
    resolve_request(&mut req, &table(stale), receipt());
    apply_correction(&mut req, None, Flush { uncertain: true, sync_source: None });

    let out = &records(&req)[0];
    assert_eq!(
        out.time_unix_nano,
        (stale + 10 * SEC) as u64,
        "the record must still be shippable OTLP, not a bare boottime"
    );
    assert_eq!(attr_of(out, ATTR_UNCERTAIN), Some(&Value::BoolValue(true)));
    assert!(
        attr_of(out, ATTR_RESOLUTION).is_some(),
        "an uncorrected record keeps its resolution"
    );
    assert_eq!(attr_of(out, ATTR_CORRECTED), None);
    assert_eq!(attr_of(out, ATTR_CORRECTION_NS), None);
}

#[test]
fn the_receipt_time_becomes_the_observed_time() {
    let mut req = request(vec![record(WALL + 10 * SEC, vec![])]);
    resolve_request(&mut req, &table(WALL), receipt());
    apply_correction(&mut req, Some(Correction { offset: WALL }), Flush {
        uncertain: false,
        sync_source: None,
    });
    assert_eq!(records(&req)[0].observed_time_unix_nano, (WALL + 11 * SEC) as u64);
}

#[test]
fn split_hints_reads_and_removes_both_tiers() {
    let (hints, kept) = split_hints(vec![
        string_attr("unit", "ratio"),
        int_attr(ATTR_BOOTTIME, 42),
        bool_attr(ATTR_AUTHORITATIVE, true),
    ]);
    assert_eq!(hints, Hints { boottime: Some(42), authoritative: true });
    assert_eq!(kept.len(), 1);
    assert_eq!(kept[0].key, "unit");
    let (hints, kept) = split_hints(vec![string_attr(ATTR_BOOTTIME, "soon")]);
    assert_eq!(hints, Hints::default());
    assert!(kept.is_empty());
}

#[test]
fn an_observed_only_record_is_corrected_in_place() {
    let mut record = record(0, vec![]);
    record.observed_time_unix_nano = (WALL + 10 * SEC) as u64;
    let mut req = request(vec![record]);

    assert_eq!(resolve_request(&mut req, &table(WALL), receipt()).exact, 1);
    assert_eq!(
        attr_of(&records(&req)[0], ATTR_EVENT_BOOTTIME),
        Some(&Value::IntValue(10 * SEC))
    );

    apply_correction(&mut req, Some(Correction { offset: WALL }), Flush {
        uncertain: false,
        sync_source: None,
    });
    let out = &records(&req)[0];
    assert_eq!(out.observed_time_unix_nano, (WALL + 10 * SEC) as u64);
    assert_eq!(out.time_unix_nano, 0, "an unset field must not be fabricated from the offset");
}

#[test]
fn a_record_with_no_timestamp_at_all_is_left_malformed() {
    let mut req = request(vec![record(0, vec![])]);
    assert_eq!(resolve_request(&mut req, &table(WALL), receipt()).passthrough, 1);
    apply_correction(&mut req, Some(Correction { offset: WALL }), Flush {
        uncertain: false,
        sync_source: None,
    });
    assert_eq!(records(&req)[0].time_unix_nano, 0);
    assert_eq!(records(&req)[0].observed_time_unix_nano, 0);
}

#[test]
fn a_timeout_flush_marks_every_record_uncertain() {
    let mut req = request(vec![record(WALL + 10 * SEC, vec![])]);
    resolve_request(&mut req, &table(WALL), receipt());
    apply_correction(&mut req, Some(Correction { offset: WALL }), Flush {
        uncertain: true,
        sync_source: None,
    });

    let out = &records(&req)[0];
    assert_eq!(attr_of(out, ATTR_UNCERTAIN), Some(&Value::BoolValue(true)));
    assert!(attr_of(out, ATTR_SYNC_SOURCE).is_none(), "nothing said the clock was good");
}

#[test]
fn ambiguity_carries_its_spread() {
    let half = SEC / 2;
    let table = table(WALL).with(Epoch {
        boot_start: 6 * SEC,
        offset: WALL - 4 * SEC - half,
        source: Source::Step,
    });
    let mut req = request(vec![record(WALL + 5 * SEC + half, vec![])]);

    let tally = resolve_request(&mut req, &table, Receipt { received: 13 * SEC, ..receipt() });
    assert_eq!(tally.ambiguous, 1);
    assert_eq!(
        attr_of(&records(&req)[0], ATTR_EVENT_BOOTTIME),
        Some(&Value::IntValue(10 * SEC)),
        "nearest to receipt wins"
    );
    assert_eq!(
        attr_of(&records(&req)[0], ATTR_SPREAD_NS),
        Some(&Value::IntValue(4 * SEC + half))
    );
}

#[test]
fn one_offset_covers_the_whole_batch() {
    let mut req = request(
        (0..5).map(|i| record(WALL + (6 + i) * SEC, vec![])).collect(),
    );
    resolve_request(&mut req, &table(WALL), receipt());
    apply_correction(&mut req, Some(Correction { offset: WALL + 77 }), Flush {
        uncertain: false,
        sync_source: None,
    });

    let times: Vec<u64> = records(&req).iter().map(|r| r.time_unix_nano).collect();
    let expected: Vec<u64> = (0..5).map(|i| (WALL + 77 + (6 + i) * SEC) as u64).collect();
    assert_eq!(times, expected);
    assert!(times.windows(2).all(|w| w[0] < w[1]), "burst ordering broke: {times:?}");
}

#[test]
fn tallies_add_up_across_a_mixed_batch() {
    let mut req = request(vec![
        record(WALL + 10 * SEC, vec![]),
        record(WALL - 400 * 86_400 * SEC, vec![]),
        record(WALL + 9 * SEC, vec![bool_attr(ATTR_AUTHORITATIVE, true)]),
    ]);
    let tally = resolve_request(&mut req, &table(WALL), receipt());
    assert_eq!(tally, Tally { exact: 1, ambiguous: 0, passthrough: 1, authoritative: 1 });
    assert_eq!(tally.total(), 3);
    assert_eq!(tally.correctable(), 1);

    let corrected = apply_correction(&mut req, Some(Correction { offset: WALL }), Flush {
        uncertain: false,
        sync_source: None,
    });
    assert_eq!(corrected, 1);
}

#[test]
fn an_empty_request_is_a_no_op() {
    let mut req = LogsRequest::default();
    assert_eq!(resolve_request(&mut req, &table(WALL), receipt()), Tally::default());
    assert_eq!(
        apply_correction(&mut req, Some(Correction { offset: WALL }), Flush {
            uncertain: false,
            sync_source: None
        }),
        0
    );
}

#[test]
fn an_impossible_projection_yields_no_timestamp_rather_than_a_wrong_one() {
    assert_eq!(project(0, WALL), WALL as u64, "boottime zero is the moment of boot");
    assert_eq!(project(10 * SEC, WALL), (WALL + 10 * SEC) as u64);
    assert_eq!(project(10, -100), 0, "before the epoch is not representable");
    assert_eq!(project(i64::MAX, 1), 0, "overflow must not wrap");
}

#[test]
fn dispositions_round_trip_through_their_label() {
    for d in [
        Disposition::Resolved(Resolution::Exact { boottime: 1 }),
        Disposition::Resolved(Resolution::Ambiguous { boottime: 1, spread: 2 }),
        Disposition::Resolved(Resolution::Passthrough),
        Disposition::Authoritative,
    ] {
        let back = Disposition::from_label(d.label()).expect("label should round-trip");
        assert_eq!(back.label(), d.label());
        assert_eq!(back.is_correctable(), d.is_correctable());
    }
    assert!(Disposition::from_label("nonsense").is_none());
}

#[test]
fn every_emitted_attribute_is_namespaced() {
    for key in [
        ATTR_BOOTTIME,
        ATTR_AUTHORITATIVE,
        ATTR_CORRECTED,
        ATTR_CORRECTION_NS,
        ATTR_RESOLUTION,
        ATTR_SPREAD_NS,
        ATTR_UNCERTAIN,
        ATTR_SYNC_SOURCE,
    ] {
        assert!(key.starts_with(NS), "{key} escapes the {NS} namespace");
    }
}

#[test]
fn the_interval_between_two_records_is_kept() {
    let mut req = request(vec![record(WALL + 7 * SEC, vec![]), record(WALL + 9 * SEC + 5, vec![])]);
    resolve_request(&mut req, &table(WALL), receipt());
    apply_correction(&mut req, Some(Correction { offset: WALL - 123 * SEC }), Flush { uncertain: false, sync_source: None });
    let out = records(&req);
    assert_eq!(out[1].time_unix_nano - out[0].time_unix_nano, (2 * SEC + 5) as u64);
    assert_eq!(out[0].time_unix_nano, (WALL - 116 * SEC) as u64);
}

#[test]
fn a_flush_rewrites_what_the_receipt_pass_counted() {
    let batch = || {
        request(vec![
            record(WALL + 150 * SEC, vec![]),
            record(WALL - 90_000 * SEC, vec![]),
            record(WALL + 150 * SEC, vec![bool_attr(ATTR_AUTHORITATIVE, true)]),
            record(5, vec![int_attr(ATTR_BOOTTIME, 120 * SEC)]),
        ])
    };
    let flush = Flush { uncertain: false, sync_source: None };
    let mut corrected = batch();
    let tally = resolve_request(&mut corrected, &table(WALL), receipt());
    let n = apply_correction(&mut corrected, Some(Correction { offset: WALL }), flush);
    assert_eq!(n, tally.correctable());
    assert!(n > 0 && n < tally.total());
    assert_eq!(records(&corrected)[0].time_unix_nano, (WALL + 150 * SEC) as u64, "its epoch is in force");

    let mut left = batch();
    resolve_request(&mut left, &table(WALL), receipt());
    assert_eq!(apply_correction(&mut left, None, flush), 0);
    assert_eq!(records(&left)[3].time_unix_nano, 5);
}
