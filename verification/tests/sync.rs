use monitoring_platform::collector::sync::{
    decide, evaluate, is_disciplined, next_streak, read, Reading, SyncSource, DEFAULT_CONSECUTIVE, DEFAULT_THRESHOLD_MICROS,
    KERNEL_UNSYNCHRONIZED_CEILING_MICROS,
};
use monitoring_platform::host::{Timex, STA_UNSYNC};

fn unsynced(max_error_micros: i64) -> Reading {
    Reading { max_error_micros, status: STA_UNSYNC }
}

#[test]
fn a_cold_boot_is_not_synchronized() {
    assert_eq!(decide(unsynced(KERNEL_UNSYNCHRONIZED_CEILING_MICROS), DEFAULT_THRESHOLD_MICROS), None);
}

#[test]
fn a_small_maxerror_is_the_primary_signal() {
    assert_eq!(decide(unsynced(2_000), DEFAULT_THRESHOLD_MICROS), Some(SyncSource::MaxError));
}

#[test]
fn a_cleared_status_flag_suffices_when_maxerror_is_still_large() {
    let r = Reading { max_error_micros: KERNEL_UNSYNCHRONIZED_CEILING_MICROS, status: 0 };
    assert_eq!(decide(r, DEFAULT_THRESHOLD_MICROS), Some(SyncSource::StatusFlag));
}

#[test]
fn chrony_with_rtcfile_still_resolves_through_maxerror() {
    assert_eq!(decide(unsynced(300_000), DEFAULT_THRESHOLD_MICROS), Some(SyncSource::MaxError));
}

#[test]
fn sync_the_threshold_is_exclusive() {
    assert_eq!(decide(unsynced(DEFAULT_THRESHOLD_MICROS), DEFAULT_THRESHOLD_MICROS), None);
    assert_eq!(
        decide(unsynced(DEFAULT_THRESHOLD_MICROS - 1), DEFAULT_THRESHOLD_MICROS),
        Some(SyncSource::MaxError)
    );
}

#[test]
fn discipline_is_a_weaker_test_than_synchronization() {
    let sloppy = unsynced(2_000_000);
    assert!(is_disciplined(sloppy));
    assert_eq!(decide(sloppy, 1_000_000), None, "the two questions must be able to disagree");
}

#[test]
fn nothing_disciplining_the_clock_is_visible() {
    assert!(!is_disciplined(unsynced(KERNEL_UNSYNCHRONIZED_CEILING_MICROS)));
    assert!(
        !is_disciplined(unsynced(KERNEL_UNSYNCHRONIZED_CEILING_MICROS + 1_000_000)),
        "the kernel grows maxerror past the ceiling at 500 ppm; still nothing disciplining it"
    );
    assert!(is_disciplined(unsynced(KERNEL_UNSYNCHRONIZED_CEILING_MICROS - 1)));
    assert!(is_disciplined(Reading {
        max_error_micros: KERNEL_UNSYNCHRONIZED_CEILING_MICROS,
        status: 0,
    }));
}

#[test]
fn one_bad_reading_resets_the_streak() {
    let streak = [true, true, false].iter().fold(0, |s, &g| next_streak(s, g));
    assert_eq!(streak, 0, "a bad reading must not leave partial credit behind");
    assert_eq!(next_streak(streak, true), 1);
}

#[test]
fn the_buffer_is_released_only_on_the_third_consecutive_good_reading() {
    let good = unsynced(2_000);
    let mut streak = 0;
    let mut released_at = None;

    for poll in 1..=4 {
        let outcome = evaluate(good, DEFAULT_THRESHOLD_MICROS, DEFAULT_CONSECUTIVE, streak);
        streak = outcome.streak;
        if outcome.released && released_at.is_none() {
            released_at = Some(poll);
            assert_eq!(outcome.source, Some(SyncSource::MaxError), "which condition fired must survive");
        }
    }
    assert_eq!(released_at, Some(3), "DEFAULT_CONSECUTIVE is 3, so the third poll releases");
}

#[test]
fn a_bad_reading_part_way_through_costs_the_whole_run() {
    let good = unsynced(2_000);
    let bad = unsynced(KERNEL_UNSYNCHRONIZED_CEILING_MICROS);

    let mut streak = 0;
    let mut released = Vec::new();
    for reading in [good, good, bad, good, good, good] {
        let outcome = evaluate(reading, DEFAULT_THRESHOLD_MICROS, DEFAULT_CONSECUTIVE, streak);
        streak = outcome.streak;
        released.push(outcome.released);
    }
    assert_eq!(
        released,
        vec![false, false, false, false, false, true],
        "the run should restart after the bad reading, not resume from two"
    );
}

#[test]
fn a_good_reading_below_the_threshold_streak_names_no_source() {
    let outcome = evaluate(unsynced(2_000), DEFAULT_THRESHOLD_MICROS, DEFAULT_CONSECUTIVE, 0);
    assert_eq!(outcome.streak, 1);
    assert!(!outcome.released);
    assert_eq!(outcome.source, None);
}

#[test]
fn sources_are_labelled_for_the_emitted_attribute() {
    assert_eq!(SyncSource::MaxError.label(), "maxerror");
    assert_eq!(SyncSource::StatusFlag.label(), "sta_unsync_cleared");
}

#[test]
fn reads_the_kernel_state() {
    assert_eq!(STA_UNSYNC, libc::STA_UNSYNC);
    let r = read(Timex { max_error_micros: 7, status: 0x41 });
    assert!(r.max_error_micros >= 0, "maxerror should not be negative: {r:?}");
    assert_eq!(r, Reading { max_error_micros: 7, status: 0x41 });
}

#[test]
fn whatever_is_synchronized_is_disciplined() {
    for max_error_micros in [0, 2_000, 4_999_999, 5_000_000, 16_000_000, 20_000_000] {
        for status in [0, STA_UNSYNC] {
            let r = Reading { max_error_micros, status };
            if decide(r, DEFAULT_THRESHOLD_MICROS).is_some() {
                assert!(is_disciplined(r), "{r:?}");
            }
        }
    }
}
