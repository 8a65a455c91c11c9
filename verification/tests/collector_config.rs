use monitoring_platform::collector::config::{
    parse_target, validate, Cli, Config, Target, TargetRefusal, Unworkable, DEFAULT_FORWARD_TO, LOGS_PATH,
};
use monitoring_platform::time::Duration;

fn env(pairs: &[(&str, &str)]) -> Vec<(String, String)> {
    pairs.iter().map(|(k, v)| ((*k).to_owned(), (*v).to_owned())).collect()
}

fn good_config() -> Config {
    Config::resolve(&Cli::default(), &env(&[])).unwrap()
}

#[test]
fn falls_back_to_relative_paths_for_development() {
    let c = Config::resolve(&Cli::default(), &env(&[])).unwrap();
    assert_eq!(c.socket_path, String::from("./mp-collector.sock"));
    assert_eq!(c.state_dir, String::from("."));
    assert_eq!(c.target, Target::Unix(String::from(DEFAULT_FORWARD_TO)));
}

#[test]
fn uses_systemd_directories_when_present() {
    let c = Config::resolve(
        &Cli::default(),
        &env(&[("RUNTIME_DIRECTORY", "/run/mpc"), ("STATE_DIRECTORY", "/var/lib/mpc")]),
    )
    .unwrap();
    assert_eq!(c.socket_path, String::from("/run/mpc/mp-collector.sock"));
    assert_eq!(c.epochs_path(), String::from("/var/lib/mpc/epochs.json"));
    assert_eq!(c.spool_dir(), String::from("/var/lib/mpc/spool"));
}

#[test]
fn takes_the_first_of_a_systemd_directory_list() {
    let c = Config::resolve(&Cli::default(), &env(&[("RUNTIME_DIRECTORY", "/run/a:/run/b")]))
        .unwrap();
    assert_eq!(c.socket_path, String::from("/run/a/mp-collector.sock"));
}

#[test]
fn empty_systemd_directory_is_ignored() {
    let c = Config::resolve(&Cli::default(), &env(&[("RUNTIME_DIRECTORY", "")])).unwrap();
    assert_eq!(c.socket_path, String::from("./mp-collector.sock"));
}

#[test]
fn explicit_flags_beat_systemd_directories() {
    let args = Cli {
        socket: Some("/tmp/c.sock".into()),
        state_dir: Some("/tmp/state".into()),
        buffer_timeout_secs: Some(7),
        grace_millis: Some(11),
        ..Cli::default()
    };
    let c = Config::resolve(&args, &env(&[("RUNTIME_DIRECTORY", "/run/mpc")])).unwrap();
    assert_eq!(c.socket_path, String::from("/tmp/c.sock"));
    assert_eq!(c.state_dir, String::from("/tmp/state"));
    assert_eq!(c.buffer_timeout, Duration::from_secs(7));
    assert_eq!(c.grace, Duration::from_millis(11));
}

#[test]
fn a_bare_path_is_a_unix_socket() {
    assert_eq!(
        parse_target("/run/monitoring-platform/monitoring-platform.sock").unwrap(),
        Target::Unix(String::from("/run/monitoring-platform/monitoring-platform.sock"))
    );
    assert_eq!(parse_target("./relative.sock").unwrap(), Target::Unix("./relative.sock".into()));
}

#[test]
fn a_url_without_a_path_gets_the_otlp_logs_endpoint() {
    assert_eq!(
        parse_target("http://collector:4318").unwrap(),
        Target::Http { authority: "collector:4318".into(), path: LOGS_PATH.into() }
    );
    assert_eq!(
        parse_target("http://collector:4318/").unwrap(),
        Target::Http { authority: "collector:4318".into(), path: LOGS_PATH.into() }
    );
}

#[test]
fn an_explicit_path_is_kept() {
    assert_eq!(
        parse_target("http://host:1234/otlp/v1/logs").unwrap(),
        Target::Http { authority: "host:1234".into(), path: "/otlp/v1/logs".into() }
    );
}

#[test]
fn https_is_refused_with_an_explanation() {
    let err = parse_target("https://host/v1/logs").unwrap_err().message();
    assert!(err.contains("TLS"), "the reason must be named: {err}");
    assert!(err.contains("http://host/v1/logs"), "the alternative must be spelled out: {err}");
}

#[test]
fn a_url_with_no_host_is_refused() {
    assert!(parse_target("http://").is_err());
    assert!(parse_target("http:///v1/logs").is_err());
    assert!(parse_target("").is_err());
}

#[test]
fn a_zero_health_interval_disables_the_self_metrics() {
    let off = Cli { health_interval_secs: Some(0), ..Cli::default() };
    assert_eq!(Config::resolve(&off, &env(&[])).unwrap().health_interval, None);

    let on = Cli { health_interval_secs: Some(5), ..Cli::default() };
    assert_eq!(
        Config::resolve(&on, &env(&[])).unwrap().health_interval,
        Some(Duration::from_secs(5))
    );
    assert_eq!(
        Config::resolve(&Cli::default(), &env(&[])).unwrap().health_interval,
        Some(Duration::from_secs(60))
    );
}

#[test]
fn the_clock_threshold_matches_the_receivers_gate() {
    let c = Config::resolve(&Cli::default(), &env(&[])).unwrap();
    assert_eq!(c.clock_threshold_micros, 5_000_000);
    assert_eq!(c.clock_consecutive, 3);
    assert_eq!(c.buffer_timeout, Duration::from_secs(300));
}

#[test]
fn a_configuration_that_cannot_work_is_refused_at_startup() {
    let good = Config::resolve(&Cli::default(), &env(&[])).unwrap();
    assert!(validate(&good).is_ok());

    assert!(validate(&Config { buffer_max_records: 0, ..good_config() }).is_err());
    assert!(validate(&Config { buffer_max_bytes: 0, ..good_config() }).is_err());
    assert!(validate(&Config { clock_consecutive: 0, ..good_config() }).is_err());
    assert!(validate(&Config { forward_timeout: Duration::zero(), ..good_config() }).is_err());
    assert!(validate(&Config { retry_max: Duration::zero(), ..good_config() }).is_ok());
}

#[test]
fn the_delivery_defaults_are_a_long_timeout_and_a_short_backoff() {
    let c = Config::resolve(&Cli::default(), &env(&[])).unwrap();
    assert_eq!(c.forward_timeout, Duration::from_secs(30));
    assert_eq!(c.retry_max, Duration::from_secs(10));
    assert!(c.retry_max >= c.grace, "the backoff floor is the grace period");
}

#[test]
fn the_delivery_timings_are_configurable() {
    let args =
        Cli { forward_timeout_secs: Some(3), retry_max_secs: Some(2), ..Cli::default() };
    let c = Config::resolve(&args, &env(&[])).unwrap();
    assert_eq!(c.forward_timeout, Duration::from_secs(3));
    assert_eq!(c.retry_max, Duration::from_secs(2));
}

#[test]
fn each_refusal_names_its_reason() {
    assert_eq!(parse_target("").unwrap_err().refusal, TargetRefusal::Empty);
    assert_eq!(parse_target("https://h").unwrap_err().refusal, TargetRefusal::Tls);
    assert_eq!(
        parse_target("https://h").unwrap_err().message(),
        "--forward-to \"https://h\" requests TLS, which this collector does not implement (it is out of scope). Use a \
         unix socket, or http://h if the hop is genuinely local."
    );
    assert_eq!(parse_target("http:///v1/logs").unwrap_err().refusal, TargetRefusal::NoHost);
    assert_eq!(
        Config::resolve(&Cli { forward_to: Some("https://h".into()), ..Cli::default() }, &env(&[])).unwrap_err().refusal,
        TargetRefusal::Tls
    );
}

#[test]
fn each_unworkable_setting_is_named() {
    let check = |c: Config| validate(&c).unwrap_err();
    assert_eq!(check(Config { buffer_max_bytes: 0, ..good_config() }), Unworkable::ZeroBufferCap);
    assert_eq!(check(Config { clock_consecutive: 0, ..good_config() }), Unworkable::ZeroConsecutive);
    assert_eq!(check(Config { forward_timeout: Duration::zero(), ..good_config() }), Unworkable::ZeroForwardTimeout);
    assert_eq!(
        (Unworkable::ZeroBufferCap.message().is_empty(), Unworkable::ZeroConsecutive.message().is_empty()),
        (false, false)
    );
}
