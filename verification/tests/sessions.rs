use monitoring_platform::auth::{hash_password, Token as SessionToken, TOKEN_BYTES};
use monitoring_platform::store::schema::{plan, Plan};
use monitoring_platform::store::sessions::{self, SessionRecord, StoredSession};
use monitoring_platform::store::users;
use rusqlite::{Connection, OptionalExtension as _};

fn migrate(conn: &Connection) -> Result<(), String> {
    conn.pragma_update(None, "foreign_keys", "ON").map_err(|e| e.to_string())?;
    let raw: i64 = conn.pragma_query_value(None, "user_version", |r| r.get(0)).map_err(|e| e.to_string())?;
    let (steps, stored) = match plan(raw) {
        Plan::Refuse(words) => return Err(words),
        Plan::NewerMinor(_) | Plan::Current => return Ok(()),
        Plan::Apply(steps, stored) => (steps, stored),
    };
    conn.execute_batch("BEGIN").map_err(|e| e.to_string())?;
    let mut result = Ok(());
    for step in &steps {
        result = result.and_then(|()| conn.execute_batch(step.sql));
    }
    result
        .and_then(|()| conn.pragma_update(None, "user_version", stored))
        .and_then(|()| conn.execute_batch("COMMIT"))
        .map_err(|e| {
            let _ = conn.execute_batch("ROLLBACK");
            e.to_string()
        })
}

fn db() -> Connection {
    let conn = Connection::open_in_memory().unwrap();
    migrate(&conn).unwrap();
    for username in ["sashee", "irrelevant"] {
        conn.execute(users::INSERT, (username, &hash_password("pw")[..], 1))
            .expect("seeding the owner of the test sessions");
    }
    conn
}

fn insert(conn: &Connection, id: &str, hash: &[u8; 32], username: &str, at: i64, until: i64) -> rusqlite::Result<usize> {
    conn.execute(sessions::INSERT, (id, &hash[..], username, at, until))
}

fn lookup(conn: &Connection, id: &str) -> rusqlite::Result<Option<SessionRecord>> {
    let row = conn
        .query_row(sessions::SELECT, [id], |r| Ok((r.get(0)?, r.get(1)?, r.get(2)?)))
        .optional()?;
    Ok(sessions::lookup(row))
}

fn token(first: u8) -> SessionToken {
    let mut bytes = [7u8; TOKEN_BYTES];
    bytes[0] = first;
    SessionToken::from_random(&bytes)
}

fn delete(conn: &Connection, id: &str) -> rusqlite::Result<bool> {
    Ok(conn.execute(sessions::DELETE, [id])? > 0)
}

fn delete_expired(conn: &Connection, now: i64) -> rusqlite::Result<usize> {
    conn.execute(sessions::DELETE_EXPIRED, [now])
}

fn list(conn: &Connection) -> rusqlite::Result<Vec<StoredSession>> {
    let mut statement = conn.prepare(sessions::SELECT_ALL)?;
    let rows = statement.query_map([], |r| {
        Ok(StoredSession { id: r.get(0)?, username: r.get(1)?, created_at: r.get(2)?, expires_at: r.get(3)? })
    })?;
    rows.collect()
}

#[test]
fn a_session_cannot_be_created_for_a_user_who_does_not_exist() {
    let conn = db();
    let session = token(9);
    let err = format!(
        "{:#}",
        insert(&conn, session.id(), &session.secret_hash(), "ghost", 10, 100).unwrap_err()
    );
    assert!(err.to_lowercase().contains("foreign key"), "unexpected error: {err}");
}

#[test]
fn a_stored_session_is_found_by_its_id() {
    let conn = db();
    let session = token(1);
    insert(&conn, session.id(), &session.secret_hash(), "sashee", 10, 100).unwrap();

    let found = lookup(&conn, session.id()).unwrap().expect("the session must be found");
    assert_eq!(found.secret_hash, session.secret_hash());
    assert_eq!(found.username, "sashee");
    assert_eq!(found.expires_at, 100);
}

#[test]
fn sessions_an_unissued_id_is_none_rather_than_an_error() {
    assert_eq!(lookup(&db(), "0000000000000000").unwrap(), None);
}

#[test]
fn sessions_no_column_holds_the_secret() {
    let conn = db();
    let session = token(2);
    let cookie = session.to_secret_string();
    insert(&conn, session.id(), &session.secret_hash(), "sashee", 1, 100).unwrap();

    let secret = cookie.split_once('.').unwrap().1;
    let dumped: String = conn
        .query_row("SELECT quote(id) || quote(secret_hash) FROM web_session", [], |r| r.get(0))
        .unwrap();
    assert!(!dumped.contains(secret), "the secret reached the database: {dumped}");
}

#[test]
fn a_session_is_live_strictly_before_its_expiry() {
    let record = SessionRecord {
        secret_hash: hash_password("irrelevant"),
        username: "sashee".into(),
        expires_at: 100,
    };
    assert!(record.is_live(99));
    assert!(!record.is_live(100), "expiry is exclusive");
    assert!(!record.is_live(101));
}

#[test]
fn deleting_a_session_is_what_logging_out_does() {
    let conn = db();
    let session = token(3);
    insert(&conn, session.id(), &session.secret_hash(), "sashee", 1, 100).unwrap();

    assert!(delete(&conn, session.id()).unwrap());
    assert_eq!(lookup(&conn, session.id()).unwrap(), None);
    assert!(!delete(&conn, session.id()).unwrap(), "deleting twice is false, not an error");
}

#[test]
fn expired_sessions_are_swept_and_live_ones_are_not() {
    let conn = db();
    let (old, live) = (token(4), token(5));
    insert(&conn, old.id(), &old.secret_hash(), "sashee", 1, 50).unwrap();
    insert(&conn, live.id(), &live.secret_hash(), "sashee", 1, 500).unwrap();

    assert_eq!(delete_expired(&conn, 100).unwrap(), 1);
    assert_eq!(lookup(&conn, old.id()).unwrap(), None);
    assert!(lookup(&conn, live.id()).unwrap().is_some());
}

#[test]
fn the_sweep_removes_a_session_expiring_exactly_now() {
    let conn = db();
    let session = token(6);
    insert(&conn, session.id(), &session.secret_hash(), "sashee", 1, 100).unwrap();

    assert_eq!(delete_expired(&conn, 100).unwrap(), 1);
}

#[test]
fn sessions_list_newest_first() {
    let conn = db();
    let (old, new) = (token(7), token(8));
    insert(&conn, old.id(), &old.secret_hash(), "sashee", 1_000, 9_000).unwrap();
    insert(&conn, new.id(), &new.secret_hash(), "sashee", 2_000, 9_000).unwrap();

    let listed = list(&conn).unwrap();
    assert_eq!(
        listed,
        vec![
            StoredSession {
                id: new.id().to_owned(),
                username: "sashee".into(),
                created_at: 2_000,
                expires_at: 9_000,
            },
            StoredSession {
                id: old.id().to_owned(),
                username: "sashee".into(),
                created_at: 1_000,
                expires_at: 9_000,
            },
        ]
    );
}

#[test]
fn sessions_an_empty_table_lists_as_nothing() {
    assert!(list(&db()).unwrap().is_empty());
}

#[test]
fn a_hash_of_the_wrong_length_is_not_a_usable_session() {
    let conn = db();
    conn.execute(
        "INSERT INTO web_session (id, secret_hash, username, created_at, expires_at) \
         VALUES ('0000000000000001', x'00', 'sashee', 1, 100)",
        [],
    )
    .unwrap();

    assert_eq!(lookup(&conn, "0000000000000001").unwrap(), None);
}

#[test]
fn a_listed_session_says_whether_it_is_live() {
    let session = StoredSession { id: "a".into(), username: "b".into(), created_at: 1, expires_at: 100 };
    assert_ne!(session.state(99), session.state(100));
    assert_eq!(session.state(100), session.state(101));
}
