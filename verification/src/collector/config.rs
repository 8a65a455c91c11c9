//! The collector's configuration: flag, then environment, then service directory, then default.

use vstd::prelude::*;

use crate::collector::epoch::{DEFAULT_RESYNC_THRESHOLD_NANOS, DEFAULT_TOLERANCE_NANOS};
use crate::collector::journal::DEFAULT_STEP_THRESHOLD_NANOS;
use crate::collector::sync::{DEFAULT_CONSECUTIVE, DEFAULT_THRESHOLD_MICROS};
use crate::environment::{directory, join_path, path_in, systemd_dir};
use crate::text::{
    before, begins_with, chars_of, debug_form, debug_text, find_char, has_prefix, same_text,
    tail_from,
};
use crate::time::{Duration, NANOS_PER_SEC};

verus! {

/// Where a corrected batch goes.
#[derive(Debug, PartialEq, Eq)]
pub enum Target {
    /// A local unix socket.
    Unix(String),
    /// Plain HTTP over TCP.
    Http { authority: String, path: String },
}

/// What a [`Target`] says.
pub enum TargetView {
    Unix(Seq<char>),
    Http { authority: Seq<char>, path: Seq<char> },
}

impl Target {
    pub open spec fn view(&self) -> TargetView {
        match *self {
            Target::Unix(path) => TargetView::Unix(path@),
            Target::Http { authority, path } => TargetView::Http { authority: authority@, path: path@ },
        }
    }
}

/// The receiver's default socket.
pub const DEFAULT_FORWARD_TO: &'static str = "/run/monitoring-platform/monitoring-platform.sock";

/// The logs endpoint, for a URL that names no path of its own.
pub const LOGS_PATH: &'static str = "/v1/logs";

/// Why a target is refused.
#[derive(Debug, Clone, Copy, PartialEq, Eq, Structural)]
pub enum TargetRefusal {
    Empty,
    Tls,
    NoHost,
}

/// A target that is refused.
#[derive(Debug, PartialEq, Eq)]
pub struct TargetError {
    pub refusal: TargetRefusal,
    pub raw: String,
}

impl TargetError {
    pub open spec fn text(refusal: TargetRefusal, raw: Seq<char>) -> Seq<char> {
        match refusal {
            TargetRefusal::Empty => "--forward-to is empty; expected a socket path or an http:// URL"@,
            TargetRefusal::Tls => "--forward-to "@ + debug_form(raw)
                + " requests TLS, which this collector does not implement (it is out of scope). Use a unix socket, or http://"@
                + raw.skip("https://"@.len() as int) + " if the hop is genuinely local."@,
            TargetRefusal::NoHost => "--forward-to "@ + debug_form(raw) + " has no host"@,
        }
    }

    /// What to tell the operator.
    pub fn message(&self) -> (r: String)
        requires
            self.refusal is Tls ==> begins_with(self.raw@, "https://"@),
        ensures
            r@ == TargetError::text(self.refusal, self.raw@),
    {
        match self.refusal {
            TargetRefusal::Empty => {
                "--forward-to is empty; expected a socket path or an http:// URL".to_owned()
            },
            TargetRefusal::Tls => {
                let mut out = "--forward-to ".to_owned();
                out.append(debug_text(self.raw.as_str()).as_str());
                out.append(
                    " requests TLS, which this collector does not implement (it is out of scope). Use a unix socket, or http://",
                );
                let n: usize = "https://".unicode_len();
                out.append(tail_from(self.raw.as_str(), n));
                out.append(" if the hop is genuinely local.");
                out
            },
            TargetRefusal::NoHost => {
                let mut out = "--forward-to ".to_owned();
                out.append(debug_text(self.raw.as_str()).as_str());
                out.append(" has no host");
                out
            },
        }
    }
}

/// What a target text means. A leading `http://` means TCP, and anything else a path; `https://`
/// is refused rather than silently downgraded. A URL without a path, or with a bare slash, means
/// the logs endpoint on that host.
pub open spec fn target_of(raw: Seq<char>) -> Result<TargetView, TargetRefusal> {
    if raw.len() == 0 {
        Err(TargetRefusal::Empty)
    } else if begins_with(raw, "https://"@) {
        Err(TargetRefusal::Tls)
    } else if !begins_with(raw, "http://"@) {
        Ok(TargetView::Unix(raw))
    } else {
        let rest = raw.skip("http://"@.len() as int);
        let authority = before(rest, '/');
        let path = rest.skip(authority.len() as int);
        if authority.len() == 0 {
            Err(TargetRefusal::NoHost)
        } else {
            Ok(
                TargetView::Http {
                    authority,
                    path: if path.len() == 0 || path == "/"@ { LOGS_PATH@ } else { path },
                },
            )
        }
    }
}

pub fn parse_target(raw: &str) -> (r: Result<Target, TargetError>)
    ensures
        match target_of(raw@) {
            Ok(target) => r matches Ok(t) && t.view() == target,
            Err(refusal) => r matches Err(e) && e.refusal == refusal && e.raw@ == raw@,
        },
{
    if raw.is_empty() {
        return Err(TargetError { refusal: TargetRefusal::Empty, raw: raw.to_owned() });
    }
    if has_prefix(raw, "https://") {
        return Err(TargetError { refusal: TargetRefusal::Tls, raw: raw.to_owned() });
    }
    if !has_prefix(raw, "http://") {
        return Ok(Target::Unix(raw.to_owned()));
    }
    let n: usize = "http://".unicode_len();
    let rest = tail_from(raw, n);
    let cs = chars_of(rest);
    let slash: usize = find_char(cs.as_slice(), '/');
    let authority = rest.substring_char(0, slash);
    proof {
        assert(rest@.subrange(0, slash as int) =~= before(rest@, '/'));
    }
    let path = tail_from(rest, slash);
    if authority.is_empty() {
        return Err(TargetError { refusal: TargetRefusal::NoHost, raw: raw.to_owned() });
    }
    let path = if path.is_empty() || same_text(path, "/") { LOGS_PATH } else { path };
    Ok(Target::Http { authority: authority.to_owned(), path: path.to_owned() })
}

/// What the command line and its environment variables gave.
#[derive(Debug, PartialEq, Eq)]
pub struct Cli {
    /// The unix socket to listen on.
    pub socket: Option<String>,
    /// Where to send corrected batches.
    pub forward_to: Option<String>,
    /// The directory of the epoch table and the spool.
    pub state_dir: Option<String>,
    /// Records to hold in memory before the oldest are spilled.
    pub buffer_max_records: Option<usize>,
    /// Encoded bytes to hold in memory before the oldest are spilled.
    pub buffer_max_bytes: Option<usize>,
    /// Seconds to wait for the clock.
    pub buffer_timeout_secs: Option<u64>,
    /// Milliseconds to accumulate a batch.
    pub grace_millis: Option<u64>,
    /// Seconds to wait for the receiver to answer.
    pub forward_timeout_secs: Option<u64>,
    /// Seconds to cap the retry backoff at; zero retries every cycle.
    pub retry_max_secs: Option<u64>,
    /// Seconds between health events; zero switches them off.
    pub health_interval_secs: Option<u64>,
    /// The largest kernel clock error to accept, in microseconds.
    pub clock_threshold_micros: Option<i64>,
    /// Good clock readings in a row before the buffer is released.
    pub clock_consecutive: Option<u32>,
    /// Whether to reconstruct history from the journal at startup.
    pub journal_backfill: bool,
    /// The largest request body on the wire, in bytes.
    pub max_body_bytes: Option<usize>,
    /// The largest decompressed request body, in bytes.
    pub max_decompressed_bytes: Option<usize>,
    /// The log filter.
    pub log_level: String,
}

impl Default for Cli {
    fn default() -> (r: Self)
        ensures
            r.socket is None,
            r.forward_to is None,
            r.state_dir is None,
            r.buffer_max_records is None,
            r.buffer_max_bytes is None,
            r.buffer_timeout_secs is None,
            r.grace_millis is None,
            r.forward_timeout_secs is None,
            r.retry_max_secs is None,
            r.health_interval_secs is None,
            r.clock_threshold_micros is None,
            r.clock_consecutive is None,
            r.journal_backfill,
            r.max_body_bytes is None,
            r.max_decompressed_bytes is None,
            r.log_level@ == "info"@,
    {
        Cli {
            socket: None,
            forward_to: None,
            state_dir: None,
            buffer_max_records: None,
            buffer_max_bytes: None,
            buffer_timeout_secs: None,
            grace_millis: None,
            forward_timeout_secs: None,
            retry_max_secs: None,
            health_interval_secs: None,
            clock_threshold_micros: None,
            clock_consecutive: None,
            journal_backfill: true,
            max_body_bytes: None,
            max_decompressed_bytes: None,
            log_level: "info".to_owned(),
        }
    }
}

/// Five minutes: a device that boots without a network may never synchronize.
pub const DEFAULT_BUFFER_TIMEOUT_SECS: u64 = 300;

/// Long enough to gather a burst, short enough that nothing waits on it.
pub const DEFAULT_GRACE_MILLIS: u64 = 500;

pub const DEFAULT_HEALTH_INTERVAL_SECS: u64 = 60;

/// Generous: it bounds a transport that hangs, not one that is slow.
pub const DEFAULT_FORWARD_TIMEOUT_SECS: u64 = 30;

/// The longest a batch can wait after the receiver is back.
pub const DEFAULT_RETRY_MAX_SECS: u64 = 10;

pub const DEFAULT_BUFFER_MAX_RECORDS: usize = 100_000;

pub const DEFAULT_BUFFER_MAX_BYTES: usize = 67_108_864;

pub const DEFAULT_MAX_BODY_BYTES: usize = 4_194_304;

pub const DEFAULT_MAX_DECOMPRESSED_BYTES: usize = 33_554_432;

/// The configuration, resolved.
#[derive(Debug, PartialEq, Eq)]
pub struct Config {
    pub socket_path: String,
    pub target: Target,
    pub state_dir: String,
    pub buffer_max_records: usize,
    pub buffer_max_bytes: usize,
    pub buffer_timeout: Duration,
    pub grace: Duration,
    /// How long one delivery attempt may take.
    pub forward_timeout: Duration,
    /// The ceiling of the retry backoff, whose floor is `grace`.
    pub retry_max: Duration,
    /// Nothing when health events are switched off.
    pub health_interval: Option<Duration>,
    pub clock_threshold_micros: i64,
    pub clock_consecutive: u32,
    pub journal_backfill: bool,
    pub max_body_bytes: usize,
    pub max_decompressed_bytes: usize,
    /// Slack for epoch boundaries in frame resolution.
    pub tolerance_nanos: i64,
    /// How far a sampled offset may sit from the active epoch.
    pub resync_threshold_nanos: i64,
    /// How far the offset must move between journal entries to count as a step.
    pub journal_step_threshold_nanos: i64,
}

/// The value given, else the default.
pub open spec fn given<T>(value: Option<T>, default: T) -> T {
    match value {
        Some(v) => v,
        None => default,
    }
}

/// The socket to listen on.
pub open spec fn socket_of(args: Cli, env: Seq<(String, String)>) -> Seq<char> {
    match args.socket {
        Some(path) => path@,
        None => match directory(env, "RUNTIME_DIRECTORY"@) {
            Some(dir) => path_in(dir, "mp-collector.sock"@),
            None => "./mp-collector.sock"@,
        },
    }
}

/// The directory to keep state in.
pub open spec fn state_dir_of(args: Cli, env: Seq<(String, String)>) -> Seq<char> {
    match args.state_dir {
        Some(path) => path@,
        None => match directory(env, "STATE_DIRECTORY"@) {
            Some(dir) => dir,
            None => "."@,
        },
    }
}

/// The text of the target to forward to.
pub open spec fn forward_to_of(args: Cli) -> Seq<char> {
    match args.forward_to {
        Some(raw) => raw@,
        None => DEFAULT_FORWARD_TO@,
    }
}

impl Config {
    /// Whether this is what the arguments and the environment amount to, the target aside.
    pub open spec fn resolves(self, args: Cli, env: Seq<(String, String)>) -> bool {
        &&& self.socket_path@ == socket_of(args, env)
        &&& self.state_dir@ == state_dir_of(args, env)
        &&& self.buffer_max_records == given(args.buffer_max_records, DEFAULT_BUFFER_MAX_RECORDS)
        &&& self.buffer_max_bytes == given(args.buffer_max_bytes, DEFAULT_BUFFER_MAX_BYTES)
        &&& self.buffer_timeout@ == given(args.buffer_timeout_secs, DEFAULT_BUFFER_TIMEOUT_SECS) * NANOS_PER_SEC
        &&& self.grace@ == given(args.grace_millis, DEFAULT_GRACE_MILLIS) * 1_000_000
        &&& self.forward_timeout@ == given(args.forward_timeout_secs, DEFAULT_FORWARD_TIMEOUT_SECS) * NANOS_PER_SEC
        &&& self.retry_max@ == given(args.retry_max_secs, DEFAULT_RETRY_MAX_SECS) * NANOS_PER_SEC
        &&& match self.health_interval {
            Some(interval) => interval@ == given(args.health_interval_secs, DEFAULT_HEALTH_INTERVAL_SECS)
                * NANOS_PER_SEC && interval@ > 0,
            None => given(args.health_interval_secs, DEFAULT_HEALTH_INTERVAL_SECS) == 0,
        }
        &&& self.clock_threshold_micros == given(args.clock_threshold_micros, DEFAULT_THRESHOLD_MICROS)
        &&& self.clock_consecutive == given(args.clock_consecutive, DEFAULT_CONSECUTIVE)
        &&& self.journal_backfill == args.journal_backfill
        &&& self.max_body_bytes == given(args.max_body_bytes, DEFAULT_MAX_BODY_BYTES)
        &&& self.max_decompressed_bytes == given(args.max_decompressed_bytes, DEFAULT_MAX_DECOMPRESSED_BYTES)
        &&& self.tolerance_nanos == DEFAULT_TOLERANCE_NANOS
        &&& self.resync_threshold_nanos == DEFAULT_RESYNC_THRESHOLD_NANOS
        &&& self.journal_step_threshold_nanos == DEFAULT_STEP_THRESHOLD_NANOS
    }

    /// `env` supplies the service manager's directories.
    pub fn resolve(args: &Cli, env: &Vec<(String, String)>) -> (r: Result<Self, TargetError>)
        ensures
            match target_of(forward_to_of(*args)) {
                Ok(target) => r matches Ok(config) && config.target.view() == target && config.resolves(*args, env@),
                Err(refusal) => r matches Err(e) && e.refusal == refusal && e.raw@ == forward_to_of(*args),
            },
    {
        let socket_path = match &args.socket {
            Some(path) => path.clone(),
            None => match systemd_dir(env, "RUNTIME_DIRECTORY") {
                Some(dir) => join_path(dir.as_str(), "mp-collector.sock"),
                None => "./mp-collector.sock".to_owned(),
            },
        };
        let raw = match &args.forward_to {
            Some(raw) => raw.as_str(),
            None => DEFAULT_FORWARD_TO,
        };
        let target = match parse_target(raw) {
            Ok(target) => target,
            Err(e) => {
                return Err(e);
            },
        };
        let state_dir = match &args.state_dir {
            Some(path) => path.clone(),
            None => match systemd_dir(env, "STATE_DIRECTORY") {
                Some(dir) => dir,
                None => ".".to_owned(),
            },
        };
        let health_secs: u64 = args.health_interval_secs.unwrap_or(DEFAULT_HEALTH_INTERVAL_SECS);
        Ok(
            Config {
                socket_path,
                target,
                state_dir,
                buffer_max_records: args.buffer_max_records.unwrap_or(DEFAULT_BUFFER_MAX_RECORDS),
                buffer_max_bytes: args.buffer_max_bytes.unwrap_or(DEFAULT_BUFFER_MAX_BYTES),
                buffer_timeout: Duration::from_secs(
                    args.buffer_timeout_secs.unwrap_or(DEFAULT_BUFFER_TIMEOUT_SECS),
                ),
                grace: Duration::from_millis(args.grace_millis.unwrap_or(DEFAULT_GRACE_MILLIS)),
                forward_timeout: Duration::from_secs(
                    args.forward_timeout_secs.unwrap_or(DEFAULT_FORWARD_TIMEOUT_SECS),
                ),
                retry_max: Duration::from_secs(args.retry_max_secs.unwrap_or(DEFAULT_RETRY_MAX_SECS)),
                health_interval: if health_secs == 0 { None } else { Some(Duration::from_secs(health_secs)) },
                clock_threshold_micros: args.clock_threshold_micros.unwrap_or(DEFAULT_THRESHOLD_MICROS),
                clock_consecutive: args.clock_consecutive.unwrap_or(DEFAULT_CONSECUTIVE),
                journal_backfill: args.journal_backfill,
                max_body_bytes: args.max_body_bytes.unwrap_or(DEFAULT_MAX_BODY_BYTES),
                max_decompressed_bytes: args.max_decompressed_bytes.unwrap_or(
                    DEFAULT_MAX_DECOMPRESSED_BYTES,
                ),
                tolerance_nanos: DEFAULT_TOLERANCE_NANOS,
                resync_threshold_nanos: DEFAULT_RESYNC_THRESHOLD_NANOS,
                journal_step_threshold_nanos: DEFAULT_STEP_THRESHOLD_NANOS,
            },
        )
    }

    /// Where the epoch table is kept.
    pub fn epochs_path(&self) -> (r: String)
        ensures
            r@ == path_in(self.state_dir@, "epochs.json"@),
    {
        join_path(self.state_dir.as_str(), "epochs.json")
    }

    /// Where batches are spilled.
    pub fn spool_dir(&self) -> (r: String)
        ensures
            r@ == path_in(self.state_dir@, "spool"@),
    {
        join_path(self.state_dir.as_str(), "spool")
    }
}

/// Why a configuration cannot work.
#[derive(Debug, Clone, Copy, PartialEq, Eq, Structural)]
pub enum Unworkable {
    ZeroBufferCap,
    ZeroConsecutive,
    ZeroForwardTimeout,
}

impl Unworkable {
    pub fn message(self) -> (r: &'static str)
        ensures
            r@ == match self {
                Unworkable::ZeroBufferCap => "a zero buffer cap would spill every batch to disk immediately"@,
                Unworkable::ZeroConsecutive => "--clock-consecutive 0 would release the buffer without ever reading the clock"@,
                Unworkable::ZeroForwardTimeout => "--forward-timeout-secs 0 would abandon every batch before the receiver could answer"@,
            },
    {
        match self {
            Unworkable::ZeroBufferCap => "a zero buffer cap would spill every batch to disk immediately",
            Unworkable::ZeroConsecutive => "--clock-consecutive 0 would release the buffer without ever reading the clock",
            Unworkable::ZeroForwardTimeout => "--forward-timeout-secs 0 would abandon every batch before the receiver could answer",
        }
    }
}

/// What is wrong with a configuration, if anything. A `retry_max` of zero is nothing wrong: it
/// means to retry on every cycle.
pub open spec fn fault_of(config: Config) -> Option<Unworkable> {
    if config.buffer_max_records == 0 || config.buffer_max_bytes == 0 {
        Some(Unworkable::ZeroBufferCap)
    } else if config.clock_consecutive == 0 {
        Some(Unworkable::ZeroConsecutive)
    } else if config.forward_timeout@ == 0 {
        Some(Unworkable::ZeroForwardTimeout)
    } else {
        None
    }
}

/// Refuses a configuration that cannot work.
pub fn validate(config: &Config) -> (r: Result<(), Unworkable>)
    ensures
        r == match fault_of(*config) {
            Some(fault) => Err::<(), Unworkable>(fault),
            None => Ok(()),
        },
{
    if config.buffer_max_records == 0 || config.buffer_max_bytes == 0 {
        return Err(Unworkable::ZeroBufferCap);
    }
    if config.clock_consecutive == 0 {
        return Err(Unworkable::ZeroConsecutive);
    }
    if config.forward_timeout.is_zero() {
        return Err(Unworkable::ZeroForwardTimeout);
    }
    Ok(())
}

/// A configuration resolved from no arguments at all can work.
pub proof fn law_defaults_are_workable(config: Config, args: Cli, env: Seq<(String, String)>)
    requires
        config.resolves(args, env),
        args.buffer_max_records is None,
        args.buffer_max_bytes is None,
        args.clock_consecutive is None,
        args.forward_timeout_secs is None,
    ensures
        fault_of(config) is None,
{
}

} // verus!
