//! The configuration of the receiver: a flag, else the environment, else a directory of the service
//! manager, else a relative default.

use vstd::prelude::*;

use crate::clock::{
    GateSettings, DEFAULT_CONSECUTIVE, DEFAULT_MAX_POLLS, DEFAULT_POLL_INTERVAL_SECS,
    DEFAULT_THRESHOLD_MICROS,
};
use crate::collector::config::given;
use crate::environment::{directory, join_path, path_in, systemd_dir};
use crate::time::{Duration, NANOS_PER_SEC};

verus! {

pub const DEFAULT_MAX_BODY_BYTES: usize = 4_194_304;

pub const DEFAULT_MAX_DECOMPRESSED_BYTES: usize = 33_554_432;

pub const DEFAULT_LOG_LEVEL: &'static str = "info";

/// The command line.
#[derive(Debug)]
pub struct Cli {
    pub command: Command,
}

#[derive(Debug)]
pub enum Command {
    /// Run the receiver.
    Serve(ServeArgs),
    /// Block until the clock is synchronized.
    WaitForClock(WaitForClockArgs),
    /// Issue an API key.
    CreateApiKey(CreateApiKeyArgs),
    /// List the API keys.
    ListApiKeys(ApiKeyArgs),
    /// Create a user, reading the password from the standard input.
    CreateUser(CreateUserArgs),
    /// List the users.
    ListUsers(ApiKeyArgs),
    /// List the sessions.
    ListSessions(ApiKeyArgs),
    /// Delete a user and every session that the user holds.
    DeleteUser(DeleteUserArgs),
}

#[derive(Debug)]
pub struct ServeArgs {
    pub socket: Option<String>,
    pub database: Option<String>,
    pub max_body_bytes: Option<usize>,
    pub max_decompressed_bytes: Option<usize>,
    pub log_level: String,
}

impl Default for ServeArgs {
    fn default() -> (r: Self)
        ensures
            r.socket is None,
            r.database is None,
            r.max_body_bytes is None,
            r.max_decompressed_bytes is None,
            r.log_level@ == DEFAULT_LOG_LEVEL@,
    {
        ServeArgs {
            socket: None,
            database: None,
            max_body_bytes: None,
            max_decompressed_bytes: None,
            log_level: DEFAULT_LOG_LEVEL.to_owned(),
        }
    }
}

/// Enough to reach the database.
#[derive(Debug)]
pub struct ApiKeyArgs {
    pub database: Option<String>,
    pub log_level: String,
}

#[derive(Debug)]
pub struct CreateApiKeyArgs {
    pub common: ApiKeyArgs,
    /// What the key is for.
    pub label: String,
}

#[derive(Debug)]
pub struct CreateUserArgs {
    pub common: ApiKeyArgs,
    pub username: String,
}

#[derive(Debug)]
pub struct DeleteUserArgs {
    pub common: ApiKeyArgs,
    pub username: String,
}

#[derive(Debug)]
pub struct WaitForClockArgs {
    pub threshold_micros: Option<i64>,
    pub poll_interval_secs: Option<u64>,
    pub max_polls: Option<u32>,
    pub consecutive: Option<u32>,
    pub log_level: String,
}

impl Default for WaitForClockArgs {
    fn default() -> (r: Self)
        ensures
            r.threshold_micros is None,
            r.poll_interval_secs is None,
            r.max_polls is None,
            r.consecutive is None,
            r.log_level@ == DEFAULT_LOG_LEVEL@,
    {
        WaitForClockArgs {
            threshold_micros: None,
            poll_interval_secs: None,
            max_polls: None,
            consecutive: None,
            log_level: DEFAULT_LOG_LEVEL.to_owned(),
        }
    }
}

impl WaitForClockArgs {
    /// The parameters of the barrier; what was not given has its default.
    pub fn settings(&self) -> (r: GateSettings)
        ensures
            r.threshold_micros == given(self.threshold_micros, DEFAULT_THRESHOLD_MICROS),
            r.poll_interval@ == given(self.poll_interval_secs, DEFAULT_POLL_INTERVAL_SECS) * NANOS_PER_SEC,
            r.max_polls == given(self.max_polls, DEFAULT_MAX_POLLS),
            r.consecutive == given(self.consecutive, DEFAULT_CONSECUTIVE),
    {
        GateSettings {
            threshold_micros: self.threshold_micros.unwrap_or(DEFAULT_THRESHOLD_MICROS),
            poll_interval: Duration::from_secs(
                self.poll_interval_secs.unwrap_or(DEFAULT_POLL_INTERVAL_SECS),
            ),
            max_polls: self.max_polls.unwrap_or(DEFAULT_MAX_POLLS),
            consecutive: self.consecutive.unwrap_or(DEFAULT_CONSECUTIVE),
        }
    }
}

/// The explicit path, else `file` in the directory that the variable names, else `file` here.
pub open spec fn path_of(
    explicit: Option<Seq<char>>,
    env: Seq<(String, String)>,
    variable: Seq<char>,
    file: Seq<char>,
) -> Seq<char> {
    match explicit {
        Some(path) => path,
        None => match directory(env, variable) {
            Some(dir) => path_in(dir, file),
            None => "./"@ + file,
        },
    }
}

/// The text that is there, if any.
pub open spec fn text_given(s: Option<String>) -> Option<Seq<char>> {
    match s {
        Some(t) => Some(t@),
        None => None,
    }
}

fn resolve_path(explicit: Option<&str>, env: &Vec<(String, String)>, variable: &str, file: &str) -> (r: String)
    ensures
        r@ == path_of(
            match explicit {
                Some(path) => Some(path@),
                None => None,
            },
            env@,
            variable@,
            file@,
        ),
{
    match explicit {
        Some(path) => path.to_owned(),
        None => match systemd_dir(env, variable) {
            Some(dir) => join_path(dir.as_str(), file),
            None => {
                let mut out = "./".to_owned();
                out.append(file);
                out
            },
        },
    }
}

/// Where the database is. The commands that write keys and the receiver that reads them resolve it
/// alike, so that a key is never written to another file.
pub fn database_path(explicit: Option<&str>, env: &Vec<(String, String)>) -> (r: String)
    ensures
        r@ == path_of(
            match explicit {
                Some(path) => Some(path@),
                None => None,
            },
            env@,
            "STATE_DIRECTORY"@,
            "measurements.db"@,
        ),
{
    resolve_path(explicit, env, "STATE_DIRECTORY", "measurements.db")
}

fn borrowed(s: &Option<String>) -> (r: Option<&str>)
    ensures
        text_given(*s) == match r {
            Some(t) => Some(t@),
            None => None,
        },
{
    match s {
        Some(t) => Some(t.as_str()),
        None => None,
    }
}

impl ApiKeyArgs {
    pub fn database_path(&self, env: &Vec<(String, String)>) -> (r: String)
        ensures
            r@ == path_of(text_given(self.database), env@, "STATE_DIRECTORY"@, "measurements.db"@),
    {
        database_path(borrowed(&self.database), env)
    }
}

/// The configuration, resolved.
#[derive(Debug, PartialEq, Eq)]
pub struct Config {
    pub socket_path: String,
    pub database_path: String,
    pub max_body_bytes: usize,
    pub max_decompressed_bytes: usize,
}

impl Config {
    /// `env` supplies the directories of the service manager.
    pub fn resolve(args: &ServeArgs, env: &Vec<(String, String)>) -> (r: Self)
        ensures
            r.socket_path@ == path_of(
                text_given(args.socket),
                env@,
                "RUNTIME_DIRECTORY"@,
                "monitoring-platform.sock"@,
            ),
            r.database_path@ == path_of(text_given(args.database), env@, "STATE_DIRECTORY"@, "measurements.db"@),
            r.max_body_bytes == given(args.max_body_bytes, DEFAULT_MAX_BODY_BYTES),
            r.max_decompressed_bytes == given(args.max_decompressed_bytes, DEFAULT_MAX_DECOMPRESSED_BYTES),
    {
        Config {
            socket_path: resolve_path(
                borrowed(&args.socket),
                env,
                "RUNTIME_DIRECTORY",
                "monitoring-platform.sock",
            ),
            database_path: database_path(borrowed(&args.database), env),
            max_body_bytes: args.max_body_bytes.unwrap_or(DEFAULT_MAX_BODY_BYTES),
            max_decompressed_bytes: args.max_decompressed_bytes.unwrap_or(DEFAULT_MAX_DECOMPRESSED_BYTES),
        }
    }
}

} // verus!
