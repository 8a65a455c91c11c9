use monitoring_platform::collector::epoch::{
    Epoch, EpochTable, Query, Resolution, Source, DEFAULT_RESYNC_THRESHOLD_NANOS, DEFAULT_TOLERANCE_NANOS,
};

const SEC: i64 = 1_000_000_000;
const WALL: i64 = 1_785_924_000 * SEC;

fn epoch(boot_start: i64, offset: i64) -> Epoch {
    Epoch { boot_start, offset, source: Source::Step }
}

#[test]
fn a_single_epoch_resolves_exactly() {
    let table = EpochTable::new(epoch(0, WALL));
    let q = Query { stamped: WALL + 10 * SEC, sender_started: 5 * SEC, received: 11 * SEC };
    assert_eq!(table.resolve(q, DEFAULT_TOLERANCE_NANOS), Resolution::Exact { boottime: 10 * SEC });
}

#[test]
fn a_record_from_before_the_step_resolves_against_the_old_epoch() {
    let stale = WALL - 3 * 86_400 * SEC; // fake-hwclock: roughly the last shutdown
    let table = EpochTable::new(epoch(0, stale)).with(epoch(30 * SEC, WALL));
    let q = Query { stamped: stale + 10 * SEC, sender_started: 2 * SEC, received: 10 * SEC };
    assert_eq!(table.resolve(q, DEFAULT_TOLERANCE_NANOS), Resolution::Exact { boottime: 10 * SEC });
}

#[test]
fn a_foreign_timestamp_passes_through() {
    let table = EpochTable::new(epoch(0, WALL));
    let q = Query { stamped: WALL - 400 * 86_400 * SEC, sender_started: 5 * SEC, received: 11 * SEC };
    assert_eq!(table.resolve(q, DEFAULT_TOLERANCE_NANOS), Resolution::Passthrough);
}

#[test]
fn the_process_window_bounds_the_answer_at_both_ends() {
    let table = EpochTable::new(epoch(0, WALL));

    let before_start =
        Query { stamped: WALL + SEC, sender_started: 5 * SEC, received: 11 * SEC };
    assert_eq!(table.resolve(before_start, 0), Resolution::Passthrough);

    let after_receipt =
        Query { stamped: WALL + 20 * SEC, sender_started: 5 * SEC, received: 11 * SEC };
    assert_eq!(table.resolve(after_receipt, 0), Resolution::Passthrough);
}

#[test]
fn the_tolerance_admits_a_record_just_outside_the_window() {
    let table = EpochTable::new(epoch(0, WALL));
    let q = Query {
        stamped: WALL + 5 * SEC - 10_000_000,
        sender_started: 5 * SEC,
        received: 11 * SEC,
    };
    assert_eq!(table.resolve(q, 0), Resolution::Passthrough, "no slack, no match");
    assert!(matches!(
        table.resolve(q, DEFAULT_TOLERANCE_NANOS),
        Resolution::Exact { .. }
    ));
}

#[test]
fn two_explanations_are_ambiguous_and_the_spread_is_reported() {
    let half = SEC / 2;
    let table = EpochTable::new(epoch(0, WALL)).with(epoch(6 * SEC, WALL - 4 * SEC - half));

    let q = Query {
        stamped: WALL + 5 * SEC + half,
        sender_started: 5 * SEC,
        received: 13 * SEC,
    };
    assert_eq!(
        table.resolve(q, DEFAULT_TOLERANCE_NANOS),
        Resolution::Ambiguous { boottime: 10 * SEC, spread: 4 * SEC + half }
    );
}

#[test]
fn an_ended_epoch_does_not_explain_a_later_event() {
    let table = EpochTable::new(epoch(0, WALL)).with(epoch(6 * SEC, WALL - 4 * SEC));
    let q = Query { stamped: WALL + 8 * SEC, sender_started: 5 * SEC, received: 13 * SEC };
    assert_eq!(
        table.resolve(q, DEFAULT_TOLERANCE_NANOS),
        Resolution::Exact { boottime: 12 * SEC }
    );
}

#[test]
fn duplicate_boundaries_collapse_rather_than_becoming_ambiguous() {
    let table = EpochTable::from_epochs(vec![
        Epoch { boot_start: 0, offset: WALL, source: Source::Startup },
        Epoch { boot_start: 30 * SEC, offset: WALL + SEC, source: Source::Journal },
        Epoch { boot_start: 30 * SEC, offset: WALL + SEC, source: Source::Step },
    ])
    .unwrap();
    assert_eq!(table.len(), 2, "the same boundary was counted twice: {table:?}");

    let q = Query { stamped: WALL + 10 * SEC, sender_started: 0, received: 40 * SEC };
    assert!(matches!(table.resolve(q, DEFAULT_TOLERANCE_NANOS), Resolution::Exact { .. }));
}

#[test]
fn a_boundary_with_no_offset_change_is_dropped() {
    let table = EpochTable::new(epoch(0, WALL)).with(epoch(10 * SEC, WALL));
    assert_eq!(table.len(), 1);
}

#[test]
fn a_boundary_in_the_past_is_refused() {
    let table = EpochTable::new(epoch(50 * SEC, WALL)).with(epoch(10 * SEC, WALL + SEC));
    assert_eq!(table.len(), 1);
    assert_eq!(table.current().boot_start, 50 * SEC);
}

#[test]
fn from_epochs_sorts_and_rejects_an_empty_history() {
    assert!(EpochTable::from_epochs(vec![]).is_none());

    let table = EpochTable::from_epochs(vec![
        epoch(30 * SEC, WALL + SEC),
        epoch(0, WALL),
        epoch(60 * SEC, WALL + 2 * SEC),
    ])
    .unwrap();
    assert_eq!(
        table.epochs().iter().map(|e| e.boot_start).collect::<Vec<_>>(),
        vec![0, 30 * SEC, 60 * SEC]
    );
    assert_eq!(table.current().offset, WALL + 2 * SEC);
}

#[test]
fn extreme_timestamps_do_not_overflow() {
    let table = EpochTable::new(epoch(0, WALL)).with(epoch(SEC, i64::MIN));
    for stamped in [0, i64::MIN, i64::MAX] {
        let q = Query { stamped, sender_started: 0, received: 10 * SEC };
        let _ = table.resolve(q, DEFAULT_TOLERANCE_NANOS);
    }
}

#[test]
fn a_moved_offset_is_a_missed_boundary() {
    let table = EpochTable::new(epoch(0, WALL));
    let t = DEFAULT_RESYNC_THRESHOLD_NANOS;

    assert!(!table.disagrees_with(WALL, t), "the same offset is no disagreement");
    assert!(!table.disagrees_with(WALL + t, t), "the threshold is exclusive");
    assert!(!table.disagrees_with(WALL - t, t));
    assert!(table.disagrees_with(WALL + t + 1, t), "forwards");
    assert!(table.disagrees_with(WALL - t - 1, t), "backwards");
}

#[test]
fn read_interleave_is_not_mistaken_for_a_boundary() {
    let table = EpochTable::new(epoch(0, WALL));
    for jitter in [-1_000, -500, 0, 500, 1_000] {
        assert!(
            !table.disagrees_with(WALL + jitter, DEFAULT_RESYNC_THRESHOLD_NANOS),
            "{jitter} ns of sampling noise must not manufacture an epoch"
        );
    }
}

#[test]
fn the_comparison_is_against_the_current_epoch() {
    let table = EpochTable::new(epoch(0, WALL)).with(epoch(30 * SEC, WALL + 10 * SEC));

    assert!(!table.disagrees_with(WALL + 10 * SEC, DEFAULT_RESYNC_THRESHOLD_NANOS));
    assert!(
        table.disagrees_with(WALL, DEFAULT_RESYNC_THRESHOLD_NANOS),
        "the superseded offset must now read as a disagreement"
    );
}

#[test]
fn resolution_exposes_its_boottime_and_label() {
    assert_eq!(Resolution::Exact { boottime: 7 }.boottime(), Some(7));
    assert_eq!(Resolution::Ambiguous { boottime: 7, spread: 1 }.boottime(), Some(7));
    assert_eq!(Resolution::Passthrough.boottime(), None);
    assert_eq!(Resolution::Exact { boottime: 7 }.label(), "exact");
    assert_eq!(Resolution::Ambiguous { boottime: 7, spread: 1 }.label(), "ambiguous");
    assert_eq!(Resolution::Passthrough.label(), "passthrough");
}

#[test]
fn a_projected_instant_resolves_back_to_itself() {
    let table = EpochTable::new(epoch(0, WALL)).with(epoch(30 * SEC, WALL + 100 * SEC));
    for at in [2 * SEC, 29 * SEC, 31 * SEC, 50 * SEC] {
        let offset = if at < 30 * SEC { WALL } else { WALL + 100 * SEC };
        let q = Query { stamped: at + offset, sender_started: SEC, received: 60 * SEC };
        assert_eq!(table.resolve(q, DEFAULT_TOLERANCE_NANOS), Resolution::Exact { boottime: at });
    }
}
