//! The versions of the schema, and how a database comes to the one that this program knows.
//!
//! A version has two components. A minor step only adds what an older program never asks for, so an
//! older program still works on the database that it leaves; anything else is a major step.

use vstd::prelude::*;

use crate::text::{decimal_i64, signed_decimal};

verus! {

/// Both components stay below this; a larger minor one would read as another major one.
pub const COMPONENT_LIMIT: i64 = 1000;

/// A version of the schema. Versions are ordered by major and then by minor component.
#[derive(Debug, Clone, Copy, PartialEq, Eq, PartialOrd, Ord, Structural)]
pub struct Version {
    pub major: i64,
    pub minor: i64,
}

/// The major component of the version that this program knows. Raising it strands every receiver that
/// still runs the one before.
pub const SCHEMA_MAJOR: i64 = 4;

/// The minor component of the version that this program knows.
pub const SCHEMA_MINOR: i64 = 0;

/// The version that this program knows.
pub open spec fn known() -> Version {
    Version { major: SCHEMA_MAJOR, minor: SCHEMA_MINOR }
}

/// The version that this program knows.
pub fn schema_version() -> (r: Version)
    ensures
        r == known(),
{
    Version { major: SCHEMA_MAJOR, minor: SCHEMA_MINOR }
}

/// What a version is stored as. One without a minor component is its bare major one, which is what
/// databases held before there were minor ones.
pub open spec fn encoded(v: Version) -> int {
    if v.minor == 0 {
        v.major as int
    } else {
        v.major * COMPONENT_LIMIT + v.minor
    }
}

/// The version that a stored number denotes; every number denotes one.
pub open spec fn decoded(raw: int) -> (int, int) {
    if raw < COMPONENT_LIMIT {
        (raw, 0)
    } else {
        (raw / COMPONENT_LIMIT as int, raw % COMPONENT_LIMIT as int)
    }
}

impl Version {
    pub open spec fn valid(self) -> bool {
        0 <= self.major < COMPONENT_LIMIT && 0 <= self.minor < COMPONENT_LIMIT
    }

    /// Whether this version is older than the other.
    pub open spec fn older(self, other: Version) -> bool {
        self.major < other.major || (self.major == other.major && self.minor < other.minor)
    }

    pub fn new(major: i64, minor: i64) -> (r: Self)
        requires
            0 <= major < COMPONENT_LIMIT,
            0 <= minor < COMPONENT_LIMIT,
        ensures
            r == (Version { major, minor }),
            r.valid(),
    {
        Version { major, minor }
    }

    /// What the version is stored as.
    pub fn encode(self) -> (r: i64)
        requires
            i64::MIN <= encoded(self) <= i64::MAX,
            self.minor != 0 ==> i64::MIN <= self.major * COMPONENT_LIMIT <= i64::MAX,
        ensures
            r == encoded(self),
    {
        if self.minor == 0 {
            self.major
        } else {
            self.major * COMPONENT_LIMIT + self.minor
        }
    }

    /// The version that a stored number denotes.
    pub fn decode(raw: i64) -> (r: Self)
        ensures
            (r.major as int, r.minor as int) == decoded(raw as int),
    {
        if raw < COMPONENT_LIMIT {
            Version { major: raw, minor: 0 }
        } else {
            Version { major: raw / COMPONENT_LIMIT, minor: raw % COMPONENT_LIMIT }
        }
    }

    pub fn is_older(self, other: Version) -> (r: bool)
        ensures
            r == self.older(other),
    {
        self.major < other.major || (self.major == other.major && self.minor < other.minor)
    }

    pub open spec fn text(self) -> Seq<char> {
        signed_decimal(self.major as int) + "."@ + signed_decimal(self.minor as int)
    }

    /// The version in words: its components with a dot between them.
    pub fn to_text(&self) -> (r: String)
        ensures
            r@ == self.text(),
    {
        let mut out = decimal_i64(self.major);
        out.append(".");
        out.append(decimal_i64(self.minor).as_str());
        out
    }
}

/// The first table, keyed by its row.
pub const MIGRATION_1_0: &'static str = r#"
    CREATE TABLE measurement (
      id             INTEGER PRIMARY KEY,
      event_time     INTEGER NOT NULL,
      processed_time INTEGER NOT NULL,
      type           TEXT    NOT NULL,
      body           TEXT,
      attributes     TEXT    NOT NULL DEFAULT '{}'
    ) STRICT;

    CREATE INDEX measurement_type_event_time_idx ON measurement (type, event_time DESC, id DESC);
    CREATE INDEX measurement_event_time_idx      ON measurement (event_time DESC, id DESC);
    "#;

/// Identities derived from the content, so that storing a measurement again changes nothing.
pub const MIGRATION_2_0: &'static str = r#"
    DROP TABLE measurement;

    CREATE TABLE measurement (
      id             BLOB    PRIMARY KEY,
      event_time     INTEGER NOT NULL,
      processed_time INTEGER NOT NULL,
      type           TEXT    NOT NULL,
      body           TEXT,
      attributes     TEXT    NOT NULL DEFAULT '{}'
    ) STRICT;

    CREATE INDEX measurement_type_event_time_idx ON measurement (type, event_time DESC, id DESC);
    CREATE INDEX measurement_event_time_idx      ON measurement (event_time DESC, id DESC);
    "#;

/// API keys: the public half of a token, and a hash of the secret one.
pub const MIGRATION_3_0: &'static str = r#"
    CREATE TABLE api_key (
      id          TEXT    PRIMARY KEY,
      secret_hash BLOB    NOT NULL,
      label       TEXT    NOT NULL,
      created_at  INTEGER NOT NULL
    ) STRICT;
    "#;

/// Users and sessions. Two new tables, and nothing touched that an older binary knows of.
pub const MIGRATION_3_1: &'static str = r#"
    CREATE TABLE web_user (
      username      TEXT    PRIMARY KEY,
      password_hash BLOB    NOT NULL,
      created_at    INTEGER NOT NULL
    ) STRICT;

    CREATE TABLE web_session (
      id          TEXT    PRIMARY KEY,
      secret_hash BLOB    NOT NULL,
      username    TEXT    NOT NULL,
      created_at  INTEGER NOT NULL,
      expires_at  INTEGER NOT NULL
    ) STRICT;

    CREATE INDEX web_session_expires_at_idx ON web_session (expires_at);
    "#;

/// The series: a type and attributes, once for all the rows that share them.
pub const MIGRATION_3_2: &'static str = r#"
    CREATE TABLE series (
      id                       BLOB    PRIMARY KEY,
      type                     TEXT    NOT NULL,
      attributes               TEXT    NOT NULL,
      added_measurements       INTEGER NOT NULL,
      added_event_time_min     INTEGER NOT NULL,
      added_event_time_max     INTEGER NOT NULL,
      added_processed_time_min INTEGER NOT NULL,
      added_processed_time_max INTEGER NOT NULL
    ) STRICT;

    ALTER TABLE measurement ADD COLUMN series_id BLOB;

    CREATE INDEX measurement_backfill_idx ON measurement (id) WHERE series_id IS NULL;
    CREATE INDEX series_type_attributes_idx ON series (type, attributes);
    "#;

/// The index that reading through the series needs.
pub const MIGRATION_3_3: &'static str = r#"
    CREATE INDEX measurement_series_event_time_idx
      ON measurement (series_id, event_time DESC, id DESC);
    "#;

/// A measurement without type and attributes, which its series has. The reference is checked when a
/// transaction commits, since a row is stored before its series is counted.
pub const MIGRATION_4_0: &'static str = r#"
    CREATE TABLE measurement_new (
      id             BLOB    PRIMARY KEY,
      event_time     INTEGER NOT NULL,
      processed_time INTEGER NOT NULL,
      body           TEXT,
      series_id      BLOB    NOT NULL REFERENCES series(id) DEFERRABLE INITIALLY DEFERRED
    ) STRICT;

    INSERT INTO measurement_new (id, event_time, processed_time, body, series_id)
      SELECT id, event_time, processed_time, body, series_id FROM measurement;

    DROP TABLE measurement;
    ALTER TABLE measurement_new RENAME TO measurement;

    CREATE INDEX measurement_event_time_idx        ON measurement (event_time DESC, id DESC);
    CREATE INDEX measurement_series_event_time_idx ON measurement (series_id, event_time DESC, id DESC);

    CREATE TABLE web_session_new (
      id          TEXT    PRIMARY KEY,
      secret_hash BLOB    NOT NULL,
      username    TEXT    NOT NULL REFERENCES web_user(username) ON DELETE CASCADE,
      created_at  INTEGER NOT NULL,
      expires_at  INTEGER NOT NULL
    ) STRICT;

    INSERT INTO web_session_new (id, secret_hash, username, created_at, expires_at)
      SELECT id, secret_hash, username, created_at, expires_at FROM web_session
      WHERE username IN (SELECT username FROM web_user);

    DROP TABLE web_session;
    ALTER TABLE web_session_new RENAME TO web_session;

    CREATE INDEX web_session_expires_at_idx ON web_session (expires_at);
    "#;

/// One step forward, and the version that it produces.
#[derive(Debug, Clone, Copy, PartialEq, Eq)]
pub struct Migration {
    pub version: Version,
    pub sql: &'static str,
}

/// What the steps are, in order: the version that each produces, and its statements.
pub open spec fn steps() -> Seq<(i64, i64, Seq<char>)> {
    seq![
        (1, 0, MIGRATION_1_0@),
        (2, 0, MIGRATION_2_0@),
        (3, 0, MIGRATION_3_0@),
        (3, 1, MIGRATION_3_1@),
        (3, 2, MIGRATION_3_2@),
        (3, 3, MIGRATION_3_3@),
        (4, 0, MIGRATION_4_0@),
    ]
}

/// What a [`Migration`] says.
pub open spec fn step_of(m: Migration) -> (i64, i64, Seq<char>) {
    (m.version.major, m.version.minor, m.sql@)
}

pub open spec fn steps_of(s: Seq<Migration>) -> Seq<(i64, i64, Seq<char>)> {
    s.map_values(|m: Migration| step_of(m))
}

/// The steps, in order.
pub fn migrations() -> (r: Vec<Migration>)
    ensures
        steps_of(r@) == steps(),
{
    let mut out: Vec<Migration> = Vec::new();
    out.push(Migration { version: Version { major: 1, minor: 0 }, sql: MIGRATION_1_0 });
    out.push(Migration { version: Version { major: 2, minor: 0 }, sql: MIGRATION_2_0 });
    out.push(Migration { version: Version { major: 3, minor: 0 }, sql: MIGRATION_3_0 });
    out.push(Migration { version: Version { major: 3, minor: 1 }, sql: MIGRATION_3_1 });
    out.push(Migration { version: Version { major: 3, minor: 2 }, sql: MIGRATION_3_2 });
    out.push(Migration { version: Version { major: 3, minor: 3 }, sql: MIGRATION_3_3 });
    out.push(Migration { version: Version { major: 4, minor: 0 }, sql: MIGRATION_4_0 });
    assert(steps_of(out@) =~= steps());
    out
}

/// Whether a step leads beyond a version.
pub open spec fn beyond(step: (i64, i64, Seq<char>), major: int, minor: int) -> bool {
    major < step.0 || (major == step.0 && minor < step.1)
}

/// The steps that lead beyond a version, in order.
pub open spec fn pending(s: Seq<(i64, i64, Seq<char>)>, major: int, minor: int) -> Seq<(i64, i64, Seq<char>)>
    decreases s.len(),
{
    if s.len() == 0 {
        Seq::empty()
    } else if beyond(s.last(), major, minor) {
        pending(s.drop_last(), major, minor).push(s.last())
    } else {
        pending(s.drop_last(), major, minor)
    }
}

/// What to do about a database.
#[derive(Debug, PartialEq, Eq)]
pub enum Plan {
    /// Its major version is newer than this program's; the words say so.
    Refuse(String),
    /// Only its minor version is newer: it is used as it is, and not written back.
    NewerMinor(Version),
    /// There is nothing to do, and nothing is written.
    Current,
    /// Take these steps in order, in one transaction, and store the version with them.
    Apply(Vec<Migration>, i64),
}

/// The words with which a newer major version is refused.
pub open spec fn refusal(major: int) -> Seq<char> {
    "database schema major version "@ + signed_decimal(major) + " is newer than this binary supports ("@
        + signed_decimal(SCHEMA_MAJOR as int) + "); refusing to downgrade"@
}

/// What to do about a database, given the number its version is stored as.
pub fn plan(raw: i64) -> (r: Plan)
    ensures
        ({
            let (major, minor) = decoded(raw as int);
            if major > SCHEMA_MAJOR {
                r matches Plan::Refuse(words) && words@ == refusal(major)
            } else if major == SCHEMA_MAJOR && minor > SCHEMA_MINOR {
                r matches Plan::NewerMinor(v) && v.major == major && v.minor == minor
            } else if major == SCHEMA_MAJOR && minor == SCHEMA_MINOR {
                r is Current
            } else {
                r matches Plan::Apply(list, stored) && steps_of(list@) == pending(steps(), major, minor) && stored
                    == encoded(known())
            }
        }),
{
    let current = Version::decode(raw);
    if current.major > SCHEMA_MAJOR {
        let mut words = "database schema major version ".to_owned();
        words.append(decimal_i64(current.major).as_str());
        words.append(" is newer than this binary supports (");
        words.append(decimal_i64(SCHEMA_MAJOR).as_str());
        words.append("); refusing to downgrade");
        return Plan::Refuse(words);
    }
    if schema_version().is_older(current) {
        return Plan::NewerMinor(current);
    }
    if !current.is_older(schema_version()) {
        return Plan::Current;
    }
    let all = migrations();
    let ghost list = steps();
    let mut out: Vec<Migration> = Vec::new();
    let mut i: usize = 0;
    proof {
        assert(list.take(0) =~= Seq::empty());
        assert(steps_of(out@) =~= Seq::empty());
    }
    while i < all.len()
        invariant
            i <= all@.len(),
            list == steps_of(all@),
            steps_of(out@) == pending(list.take(i as int), current.major as int, current.minor as int),
        decreases all.len() - i,
    {
        let ghost before = steps_of(out@);
        proof {
            assert(list.take(i + 1).drop_last() =~= list.take(i as int));
            assert(list.take(i + 1).last() == step_of(all@[i as int]));
        }
        if current.is_older(all[i].version) {
            out.push(all[i]);
            assert(steps_of(out@) =~= before.push(step_of(all@[i as int])));
        }
        i += 1;
    }
    assert(list.take(i as int) =~= list);
    Plan::Apply(out, schema_version().encode())
}

/// A version is read back from what it is stored as.
pub proof fn law_versions_round_trip(v: Version)
    requires
        v.valid(),
        v.major > 0 || v.minor == 0,
    ensures
        decoded(encoded(v)) == (v.major as int, v.minor as int),
{
    if v.minor != 0 {
        assert((v.major * 1000 + v.minor) / 1000 == v.major && (v.major * 1000 + v.minor) % 1000 == v.minor);
    }
}

/// A bare number below the limit is that major version without a minor one, and is stored as such
/// again: what older programs wrote reads the same, and is not rewritten.
pub proof fn law_bare_numbers_are_majors(n: int)
    requires
        0 <= n < COMPONENT_LIMIT,
    ensures
        decoded(n) == (n, 0int),
        encoded(Version { major: n as i64, minor: 0 }) == n,
{
}

/// The steps ascend, and the last one produces the version that this program knows.
pub proof fn law_steps_ascend_to_the_version()
    ensures
        forall|i: int, j: int|
            0 <= i < j < steps().len() ==> beyond(#[trigger] steps()[j], steps()[i].0 as int, (#[trigger] steps()[i]).1 as int),
        steps().len() > 0,
        (steps().last().0, steps().last().1) == (SCHEMA_MAJOR, SCHEMA_MINOR),
{
}

/// The steps that are taken on a database are all that lead beyond its version, in order.
pub proof fn law_pending_steps_are_the_later_ones(s: Seq<(i64, i64, Seq<char>)>, major: int, minor: int)
    ensures
        pending(s, major, minor) == s.filter(
            |step: (i64, i64, Seq<char>)| step.0 > major || step.0 == major && step.1 > minor,
        ),
    decreases s.len(),
{
    reveal(Seq::filter);
    if s.len() > 0 {
        law_pending_steps_are_the_later_ones(s.drop_last(), major, minor);
    } else {
        assert(pending(s, major, minor) =~= s);
    }
}

/// A number that a version is stored as denotes the whole thousands in it and the rest; below a
/// thousand it is all major.
pub proof fn law_stored_versions_are_thousands(raw: int)
    ensures
        raw < 1000 ==> decoded(raw) == (raw, 0int),
        raw >= 1000 ==> decoded(raw).0 * 1000 + decoded(raw).1 == raw && 0 <= decoded(raw).1 < 1000,
{
}

/// A database to which the plan was applied needs nothing more: its version is the one this program
/// knows, and no step leads beyond it.
pub proof fn law_migrating_is_idempotent()
    ensures
        decoded(encoded(known())) == (SCHEMA_MAJOR as int, SCHEMA_MINOR as int),
        pending(steps(), SCHEMA_MAJOR as int, SCHEMA_MINOR as int) == Seq::<(i64, i64, Seq<char>)>::empty(),
{
    lemma_nothing_pending(steps(), SCHEMA_MAJOR as int, SCHEMA_MINOR as int);
}

proof fn lemma_nothing_pending(s: Seq<(i64, i64, Seq<char>)>, major: int, minor: int)
    requires
        forall|i: int| 0 <= i < s.len() ==> !beyond(#[trigger] s[i], major, minor),
    ensures
        pending(s, major, minor) == Seq::<(i64, i64, Seq<char>)>::empty(),
    decreases s.len(),
{
    if s.len() > 0 {
        let front = s.drop_last();
        assert forall|i: int| 0 <= i < front.len() implies !beyond(#[trigger] front[i], major, minor) by {
            assert(front[i] == s[i]);
        }
        lemma_nothing_pending(front, major, minor);
        assert(!beyond(s[s.len() - 1], major, minor));
    }
}

/// A database: the number that its version is stored as, and the steps that were taken on it.
#[verifier::ext_equal]
pub struct Database {
    pub version: int,
    pub taken: Seq<(i64, i64, Seq<char>)>,
}

/// What following the plan of [`plan`] comes to: whether it went well, and the database after it.
/// `succeeds` is whether the transaction of the steps commits, if there is one; if it does not, the
/// database is as it was.
pub open spec fn after_migration(db: Database, succeeds: bool) -> (bool, Database) {
    let (major, minor) = decoded(db.version);
    if major > SCHEMA_MAJOR {
        (false, db)
    } else if major == SCHEMA_MAJOR {
        (true, db)
    } else if succeeds {
        (
            true,
            Database { version: encoded(known()), taken: db.taken + pending(steps(), major, minor) },
        )
    } else {
        (false, db)
    }
}

/// A newer major version is refused and the same one left alone, whatever its minor one; an older one
/// comes to be the known one or stays as it is; and a database that was migrated needs nothing more.
pub proof fn law_migrating_is_all_or_nothing(db: Database, succeeds: bool, again: bool)
    ensures
        ({
            let (major, minor) = decoded(db.version);
            let (ok, after) = after_migration(db, succeeds);
            &&& major > SCHEMA_MAJOR ==> !ok
            &&& major == SCHEMA_MAJOR ==> ok && after == db
            &&& major < SCHEMA_MAJOR && ok ==> after.version == SCHEMA_MAJOR
            &&& !ok ==> after == db
            &&& ok ==> after_migration(after, again) == (true, after)
        }),
{
    law_migrating_is_idempotent();
}

} // verus!
