use monitoring_platform::clock::{
    DEFAULT_CONSECUTIVE, DEFAULT_MAX_POLLS, DEFAULT_POLL_INTERVAL_SECS, DEFAULT_THRESHOLD_MICROS,
};
use monitoring_platform::config::{
    database_path, ApiKeyArgs, Config, ServeArgs, WaitForClockArgs, DEFAULT_MAX_BODY_BYTES, DEFAULT_MAX_DECOMPRESSED_BYTES,
};
use monitoring_platform::time::Duration;

fn env(pairs: &[(&str, &str)]) -> Vec<(String, String)> {
    pairs.iter().map(|(k, v)| ((*k).to_owned(), (*v).to_owned())).collect()
}

#[test]
fn config_falls_back_to_relative_paths_for_development() {
    let c = Config::resolve(&ServeArgs::default(), &env(&[]));
    assert_eq!(c.socket_path, String::from("./monitoring-platform.sock"));
    assert_eq!(c.database_path, String::from("./measurements.db"));
    assert_eq!(c.max_body_bytes, DEFAULT_MAX_BODY_BYTES);
    assert_eq!(c.max_decompressed_bytes, DEFAULT_MAX_DECOMPRESSED_BYTES);
}

#[test]
fn config_uses_systemd_directories_when_present() {
    let c = Config::resolve(
        &ServeArgs::default(),
        &env(&[("RUNTIME_DIRECTORY", "/run/mp"), ("STATE_DIRECTORY", "/var/lib/mp")]),
    );
    assert_eq!(c.socket_path, String::from("/run/mp/monitoring-platform.sock"));
    assert_eq!(c.database_path, String::from("/var/lib/mp/measurements.db"));
}

#[test]
fn config_takes_the_first_of_a_systemd_directory_list() {
    let c = Config::resolve(
        &ServeArgs::default(),
        &env(&[("RUNTIME_DIRECTORY", "/run/mp:/run/other")]),
    );
    assert_eq!(c.socket_path, String::from("/run/mp/monitoring-platform.sock"));
}

#[test]
fn config_explicit_flags_beat_systemd_directories() {
    let args = ServeArgs {
        socket: Some(String::from("/tmp/x.sock")),
        database: Some(String::from("/tmp/x.db")),
        max_body_bytes: Some(1),
        max_decompressed_bytes: Some(2),
        ..Default::default()
    };
    let c = Config::resolve(
        &args,
        &env(&[("RUNTIME_DIRECTORY", "/run/mp"), ("STATE_DIRECTORY", "/var/lib/mp")]),
    );
    assert_eq!(c.socket_path, String::from("/tmp/x.sock"));
    assert_eq!(c.database_path, String::from("/tmp/x.db"));
    assert_eq!(c.max_body_bytes, 1);
    assert_eq!(c.max_decompressed_bytes, 2);
}

#[test]
fn config_empty_systemd_directory_is_ignored() {
    let c = Config::resolve(&ServeArgs::default(), &env(&[("RUNTIME_DIRECTORY", "")]));
    assert_eq!(c.socket_path, String::from("./monitoring-platform.sock"));
}

#[test]
fn clock_gate_defaults_are_the_documented_ones() {
    let s = WaitForClockArgs::default().settings();
    assert_eq!(s.threshold_micros, DEFAULT_THRESHOLD_MICROS);
    assert_eq!(s.poll_interval, Duration::from_secs(DEFAULT_POLL_INTERVAL_SECS));
    assert_eq!(s.max_polls, DEFAULT_MAX_POLLS);
    assert_eq!(s.consecutive, DEFAULT_CONSECUTIVE);
}

#[test]
fn clock_gate_flags_override_the_defaults() {
    let args = WaitForClockArgs {
        threshold_micros: Some(1),
        poll_interval_secs: Some(2),
        max_polls: Some(3),
        consecutive: Some(4),
        ..Default::default()
    };
    let s = args.settings();
    assert_eq!(s.threshold_micros, 1);
    assert_eq!(s.poll_interval, Duration::from_secs(2));
    assert_eq!(s.max_polls, 3);
    assert_eq!(s.consecutive, 4);
}

#[test]
fn the_database_is_found_the_same_way_by_every_command() {
    let here = env(&[("STATE_DIRECTORY", "/var/lib/mp")]);
    let args = ApiKeyArgs { database: None, log_level: "info".to_owned() };
    assert_eq!(args.database_path(&here), "/var/lib/mp/measurements.db");
    assert_eq!(database_path(Some("/tmp/a.db"), &here), "/tmp/a.db");
}
