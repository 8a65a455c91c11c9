use monitoring_platform::collector::epoch::{Epoch, EpochTable, Source};
use monitoring_platform::collector::state::{restore, Snapshot, VERSION};

const SEC: i64 = 1_000_000_000;
const WALL: i64 = 1_785_924_000 * SEC;
const BOOT: &str = "4f2e1c9a-8b7d-6e5f-4a3b-2c1d0e9f8a7b";

fn table() -> EpochTable {
    EpochTable::new(Epoch { boot_start: 0, offset: WALL - 99 * SEC, source: Source::Startup })
        .with(Epoch { boot_start: 30 * SEC, offset: WALL, source: Source::Step })
}

#[test]
fn a_table_survives_a_round_trip() {
    let snapshot = Snapshot::new(BOOT.into(), &table());
    assert_eq!(restore(Some(snapshot), BOOT), Some(table()));
}

#[test]
fn history_from_a_previous_boot_is_discarded() {
    let snapshot = Snapshot::new(BOOT.into(), &table());
    assert_eq!(restore(Some(snapshot), "00000000-0000-0000-0000-000000000000"), None);
}

#[test]
fn a_missing_file_is_simply_no_history() {
    assert_eq!(restore(None, BOOT), None);
}

#[test]
fn a_future_version_is_discarded() {
    let snapshot = Snapshot { version: VERSION + 1, boot_id: BOOT.into(), epochs: vec![] };
    assert_eq!(snapshot.table_for(BOOT), None);
}
