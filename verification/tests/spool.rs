use monitoring_platform::collector::spool::{
    file_name, is_batch, listing, next_seq, read_order, retired, temporary_name, BootDir, SpooledFile,
};

const BOOT: &str = "4f2e1c9a-8b7d-6e5f-4a3b-2c1d0e9f8a7b";
const OTHER: &str = "00000000-0000-0000-0000-000000000000";

fn boot_dir(name: &str, files: Vec<String>) -> BootDir {
    BootDir { name: name.to_owned(), is_dir: true, files }
}

fn numbers(spooled: &[SpooledFile]) -> Vec<u64> {
    spooled.iter().map(|f| f.file.trim_end_matches(".pb").parse().unwrap()).collect()
}

#[test]
fn batches_come_back_in_arrival_order_past_ten() {
    let mut files = Vec::new();
    for _ in 0..12 {
        let seq = next_seq(&files);
        files.insert(0, file_name(seq));
    }
    let back = read_order(&vec![boot_dir(BOOT, listing(files))], BOOT);
    assert_eq!(numbers(&back), (0..12).collect::<Vec<u64>>());
    assert!(back.iter().all(|f| f.same_boot));
}

#[test]
fn reopening_resumes_the_sequence() {
    let mut files = Vec::new();
    assert_eq!(next_seq(&files), 0);
    files.push(file_name(0));
    assert_eq!(next_seq(&files), 1);
    files.push(file_name(41));
    files.push("README".to_owned());
    files.push("x.pb".to_owned());
    assert_eq!(next_seq(&files), 42);
}

#[test]
fn a_previous_boots_batches_are_flagged_and_ordered_last() {
    let dirs = vec![boot_dir(OTHER, vec![file_name(0)]), boot_dir(BOOT, vec![file_name(0)])];
    let back = read_order(&dirs, BOOT);
    assert_eq!(
        back.iter().map(|f| (f.boot.as_str(), f.same_boot)).collect::<Vec<_>>(),
        vec![(BOOT, true), (OTHER, false)],
        "correctable data first"
    );
}

#[test]
fn retiring_removes_other_boots_and_keeps_this_one() {
    let dirs = vec![boot_dir(OTHER, vec![file_name(0)]), boot_dir(BOOT, vec![file_name(0)])];
    assert_eq!(retired(&dirs, BOOT), vec![OTHER.to_owned()]);
}

#[test]
fn an_empty_spool_reads_as_nothing() {
    assert!(read_order(&vec![], BOOT).is_empty());
    assert!(read_order(&vec![boot_dir(BOOT, vec![])], BOOT).is_empty());
    assert!(retired(&vec![boot_dir(BOOT, vec![])], BOOT).is_empty());
}

#[test]
fn foreign_files_are_ignored() {
    let stray = BootDir { name: "stray-file".to_owned(), is_dir: false, files: vec![] };
    let dirs = vec![boot_dir(BOOT, vec!["README".to_owned()]), stray];
    assert!(read_order(&dirs, BOOT).is_empty());
    assert!(retired(&dirs, BOOT).is_empty());
}

#[test]
fn names_are_padded_and_told_apart() {
    assert_eq!(file_name(99), "00000000000000000099.pb");
    assert_eq!(file_name(u64::MAX), "18446744073709551615.pb");
    assert!(file_name(9) < file_name(10));
    assert!(is_batch(&file_name(3)));
    assert!(!is_batch(&temporary_name(3)), "a half-written batch is not read");
}
