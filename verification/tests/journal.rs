use monitoring_platform::collector::epoch::Source;
use monitoring_platform::collector::journal::{
    entry_of, epochs, foldable, journalctl, same_boot, Entry, RawEntry, DEFAULT_STEP_THRESHOLD_NANOS,
};

const BOOT: &str = "4f2e1c9a8b7d6e5f4a3b2c1d0e9f8a7b";
const DASHED: &str = "4f2e1c9a-8b7d-6e5f-4a3b-2c1d0e9f8a7b";
const WALL_US: i64 = 1_785_924_000_000_000;

fn entry(monotonic_us: i64, realtime_us: i64) -> Entry {
    Entry { realtime_micros: realtime_us, monotonic_micros: monotonic_us, boot_id: BOOT.into() }
}

fn parse(stdout: &str) -> Vec<Entry> {
    let field = |v: &serde_json::Value, name: &str| v.get(name).and_then(|f| f.as_str()).map(String::from);
    stdout
        .lines()
        .filter_map(|line| serde_json::from_str::<serde_json::Value>(line).ok())
        .filter_map(|v| {
            entry_of(RawEntry {
                realtime: field(&v, "__REALTIME_TIMESTAMP"),
                monotonic: field(&v, "__MONOTONIC_TIMESTAMP"),
                boot_id: field(&v, "_BOOT_ID"),
            })
        })
        .collect()
}

#[test]
fn boot_ids_match_across_the_dashed_and_bare_spellings() {
    assert!(same_boot(BOOT, DASHED));
    assert!(same_boot(BOOT, BOOT));
    assert!(same_boot(&BOOT.to_uppercase(), DASHED));
    assert!(!same_boot(BOOT, "0000000000000000000000000000000f"));
    assert!(!same_boot("", DASHED), "an absent id must not match everything");
}

#[test]
fn a_steady_clock_yields_one_epoch_dated_to_boot() {
    let entries: Vec<_> =
        (1..=5).map(|i| entry(i * 1_000_000, WALL_US + i * 1_000_000)).collect();
    let out = epochs(&entries, DASHED, 0, DEFAULT_STEP_THRESHOLD_NANOS);

    assert_eq!(out.len(), 1);
    assert_eq!(out[0].boot_start, 0, "the first epoch must reach back to boot");
    assert_eq!(out[0].offset, WALL_US * 1_000, "realtime - boottime, both at 1 s");
    assert_eq!(out[0].source, Source::Journal);
}

#[test]
fn a_step_opens_a_second_epoch() {
    let stale = WALL_US - 3 * 86_400 * 1_000_000;
    let entries = vec![
        entry(1_000_000, stale + 1_000_000),
        entry(2_000_000, stale + 2_000_000),
        entry(3_000_000, WALL_US + 3_000_000),
        entry(4_000_000, WALL_US + 4_000_000),
    ];
    let out = epochs(&entries, DASHED, 0, DEFAULT_STEP_THRESHOLD_NANOS);

    assert_eq!(out.len(), 2, "expected exactly one boundary: {out:?}");
    assert_eq!(out[0].offset, stale * 1_000);
    assert_eq!(out[1].boot_start, 2_000_000_000);
    assert_eq!(out[1].offset, WALL_US * 1_000);
}

#[test]
fn slew_within_the_threshold_does_not_open_an_epoch() {
    let entries: Vec<_> = (1..=4)
        .map(|i| entry(i * 10_000_000, WALL_US + i * 10_000_000 + i * 2_500))
        .collect();
    let out = epochs(&entries, DASHED, 0, DEFAULT_STEP_THRESHOLD_NANOS);
    assert_eq!(out.len(), 1, "slew was mistaken for steps: {out:?}");
}

#[test]
fn entries_from_another_boot_are_ignored() {
    let mut entries = vec![entry(1_000_000, WALL_US + 1_000_000)];
    entries.push(Entry {
        boot_id: "ffffffffffffffffffffffffffffffff".into(),
        ..entry(500_000, WALL_US - 99 * 86_400 * 1_000_000)
    });
    let out = epochs(&entries, DASHED, 0, DEFAULT_STEP_THRESHOLD_NANOS);
    assert_eq!(out.len(), 1);
    assert_eq!(out[0].offset, WALL_US * 1_000);
}

#[test]
fn an_empty_journal_yields_no_history_rather_than_a_fabricated_epoch() {
    assert!(epochs(&[], DASHED, 0, DEFAULT_STEP_THRESHOLD_NANOS).is_empty());
    let foreign = vec![Entry { boot_id: "aa".into(), ..entry(1, 2) }];
    assert!(epochs(&foreign, DASHED, 0, DEFAULT_STEP_THRESHOLD_NANOS).is_empty());
}

#[test]
fn suspend_time_shifts_the_imported_frame() {
    let entries = vec![entry(1_000_000, WALL_US + 1_000_000)];
    let suspended = 90 * 1_000_000_000; // a minute and a half asleep

    let naive = epochs(&entries, DASHED, 0, DEFAULT_STEP_THRESHOLD_NANOS)[0].offset;
    let corrected = epochs(&entries, DASHED, suspended, DEFAULT_STEP_THRESHOLD_NANOS)[0].offset;
    assert_eq!(naive - corrected, suspended);
}

#[test]
fn parses_journalctl_json_and_skips_unusable_lines() {
    let stdout = format!(
        r#"{{"__REALTIME_TIMESTAMP":"{WALL_US}","__MONOTONIC_TIMESTAMP":"1000000","_BOOT_ID":"{BOOT}","MESSAGE":"hi"}}
not json at all
{{"__REALTIME_TIMESTAMP":"{WALL_US}","_BOOT_ID":"{BOOT}"}}
{{"__REALTIME_TIMESTAMP":"nope","__MONOTONIC_TIMESTAMP":"2000000","_BOOT_ID":"{BOOT}"}}
{{"__REALTIME_TIMESTAMP":"{WALL_US}","__MONOTONIC_TIMESTAMP":"2000000","_BOOT_ID":"{BOOT}"}}
"#
    );
    let entries = parse(&stdout);
    assert_eq!(entries.len(), 2, "expected the two complete lines: {entries:?}");
    assert_eq!(entries[0].monotonic_micros, 1_000_000);
    assert_eq!(entries[1].monotonic_micros, 2_000_000);
    assert_eq!(entries[0].boot_id, BOOT);
}

#[test]
fn parsing_empty_output_is_not_an_error() {
    assert!(parse("").is_empty());
    assert!(parse("\n\n").is_empty());
}

#[test]
fn the_production_invocation_asks_for_what_the_parser_needs() {
    let (program, args) = journalctl();
    assert_eq!(program, "journalctl");
    assert!(args.contains(&"--output=json"), "{args:?}");
    assert!(args.contains(&"--boot"), "another boot's entries are useless here: {args:?}");
    assert!(args.contains(&"--output-fields=_BOOT_ID"), "{args:?}");
    assert!(args.contains(&"--no-pager"), "a pager would hang the startup path: {args:?}");
}

#[test]
fn the_history_does_not_depend_on_the_order_of_the_entries() {
    let stale = WALL_US - 3 * 86_400 * 1_000_000;
    let listed = |order: [usize; 4]| {
        let at = |i: usize| {
            let base = if i < 2 { stale } else { WALL_US };
            entry((i as i64 + 1) * 1_000_000, base + (i as i64 + 1) * 1_000_000)
        };
        let entries: Vec<_> = order.iter().map(|i| at(*i)).collect();
        epochs(&entries, DASHED, 0, DEFAULT_STEP_THRESHOLD_NANOS)
    };
    assert_eq!(listed([0, 1, 2, 3]).len(), 2);
    assert_eq!(listed([3, 1, 0, 2]), listed([0, 1, 2, 3]));
    assert_eq!(listed([2, 3, 1, 0]), listed([0, 1, 2, 3]));
}

#[test]
fn suspended_time_moves_every_epoch_but_the_first_start() {
    let stale = WALL_US - 3 * 86_400 * 1_000_000;
    let entries = vec![entry(1_000_000, stale + 1_000_000), entry(2_000_000, WALL_US + 2_000_000)];
    let asleep = 90 * 1_000_000_000;
    let plain = epochs(&entries, DASHED, 0, DEFAULT_STEP_THRESHOLD_NANOS);
    let moved = epochs(&entries, DASHED, asleep, DEFAULT_STEP_THRESHOLD_NANOS);
    assert_eq!((plain.len(), moved.len()), (2, 2));
    assert_eq!((moved[0].boot_start, moved[0].offset), (0, plain[0].offset - asleep));
    assert_eq!((moved[1].boot_start, moved[1].offset), (plain[1].boot_start + asleep, plain[1].offset - asleep));
}

#[test]
fn dashes_and_case_make_no_difference_beside_other_characters() {
    assert!(same_boot("\u{c9}-AB", "\u{c9}ab"));
    assert!(same_boot("\u{c9}ab", "\u{e9}-a-B"), "Unicode maps the one to the other");
    assert!(!same_boot("\u{c9}ab", "eab"));
    assert!(same_boot("-", "--"));
}

#[test]
fn entries_that_cannot_be_folded_are_told_apart() {
    let good = || entry(10, WALL_US);
    assert!(foldable(&[], DASHED, 0));
    assert!(foldable(&[good(), entry(-5, -7)], DASHED, 3));
    assert!(!foldable(&[good(), entry(10, i64::MAX / 1_000 + 1)], DASHED, 0), "no nanoseconds");
    assert!(!foldable(&[good()], DASHED, i64::MAX), "no boot time");
    let far = i64::MAX / 1_000 - 1;
    assert!(foldable(&[entry(0, far)], DASHED, 0));
    assert!(foldable(&[entry(0, -far)], DASHED, 0));
    assert!(!foldable(&[entry(0, far), entry(0, -far)], DASHED, 0), "the offsets lie too far apart");
    let other = Entry { boot_id: "00".into(), ..entry(i64::MAX, i64::MAX) };
    assert!(foldable(&[good(), other], DASHED, 0), "another boot does not count");
}
