use monitoring_platform::auth::hash_password;
use monitoring_platform::store::schema::{plan, Plan};
use monitoring_platform::store::sessions::{self, SessionRecord};
use monitoring_platform::store::users::{self, existed, StoredUser};
use rusqlite::{Connection, OptionalExtension as _};

fn migrate(conn: &Connection) -> Result<(), String> {
    conn.pragma_update(None, "foreign_keys", "ON").map_err(|e| e.to_string())?;
    let raw: i64 = conn.pragma_query_value(None, "user_version", |r| r.get(0)).map_err(|e| e.to_string())?;
    let (steps, stored) = match plan(raw) {
        Plan::Refuse(words) => return Err(words),
        Plan::NewerMinor(_) | Plan::Current => return Ok(()),
        Plan::Apply(steps, stored) => (steps, stored),
    };
    conn.execute_batch("BEGIN").map_err(|e| e.to_string())?;
    let mut result = Ok(());
    for step in &steps {
        result = result.and_then(|()| conn.execute_batch(step.sql));
    }
    result
        .and_then(|()| conn.pragma_update(None, "user_version", stored))
        .and_then(|()| conn.execute_batch("COMMIT"))
        .map_err(|e| {
            let _ = conn.execute_batch("ROLLBACK");
            e.to_string()
        })
}

fn db() -> Connection {
    let conn = Connection::open_in_memory().unwrap();
    migrate(&conn).unwrap();
    conn
}

fn insert(conn: &Connection, username: &str, hash: &[u8; 32], at: i64) -> rusqlite::Result<usize> {
    conn.execute(users::INSERT, (username, &hash[..], at))
}

fn insert_session(conn: &Connection, id: &str, hash: &[u8; 32], username: &str, at: i64, until: i64) -> rusqlite::Result<usize> {
    conn.execute(sessions::INSERT, (id, &hash[..], username, at, until))
}

fn lookup(conn: &Connection, id: &str) -> rusqlite::Result<Option<SessionRecord>> {
    let row = conn
        .query_row(sessions::SELECT, [id], |r| Ok((r.get(0)?, r.get(1)?, r.get(2)?)))
        .optional()?;
    Ok(sessions::lookup(row))
}

fn password_hash(conn: &Connection, username: &str) -> rusqlite::Result<Option<[u8; 32]>> {
    let stored: Option<Vec<u8>> = conn.query_row(users::SELECT_HASH, [username], |r| r.get(0)).optional()?;
    Ok(users::password_hash(stored.as_deref()))
}

fn list(conn: &Connection) -> rusqlite::Result<Vec<StoredUser>> {
    let mut statement = conn.prepare(users::SELECT_ALL)?;
    let rows = statement.query_map([], |r| Ok(StoredUser { username: r.get(0)?, created_at: r.get(1)? }))?;
    rows.collect()
}

fn count(conn: &Connection) -> rusqlite::Result<i64> {
    conn.query_row(users::COUNT, [], |r| r.get(0))
}

fn delete(conn: &Connection, username: &str) -> rusqlite::Result<bool> {
    conn.execute(users::DELETE_SESSIONS, [username])?;
    Ok(existed(conn.execute(users::DELETE, [username])?))
}

#[test]
fn a_stored_user_is_found_by_username() {
    let conn = db();
    insert(&conn, "sashee", &hash_password("correct horse"), 1_000).unwrap();

    assert_eq!(
        password_hash(&conn, "sashee").unwrap(),
        Some(hash_password("correct horse"))
    );
}

#[test]
fn an_unknown_username_is_none_rather_than_an_error() {
    assert_eq!(password_hash(&db(), "nobody").unwrap(), None);
}

#[test]
fn no_column_holds_the_password() {
    let conn = db();
    insert(&conn, "sashee", &hash_password("hunter2-but-longer"), 1).unwrap();

    let dumped: String = conn
        .query_row(
            "SELECT quote(username) || quote(password_hash) || quote(created_at) FROM web_user",
            [],
            |r| r.get(0),
        )
        .unwrap();
    assert!(!dumped.contains("hunter2"), "the password reached the database: {dumped}");
}

#[test]
fn the_same_username_cannot_be_stored_twice() {
    let conn = db();
    insert(&conn, "sashee", &hash_password("a"), 1).unwrap();
    assert!(
        insert(&conn, "sashee", &hash_password("b"), 2).is_err(),
        "the primary key must refuse a duplicate username"
    );
}

#[test]
fn usernames_are_case_sensitive() {
    let conn = db();
    insert(&conn, "sashee", &hash_password("a"), 1).unwrap();
    insert(&conn, "Sashee", &hash_password("b"), 2).expect("a different username");

    assert_eq!(password_hash(&conn, "sashee").unwrap(), Some(hash_password("a")));
    assert_eq!(password_hash(&conn, "Sashee").unwrap(), Some(hash_password("b")));
}

#[test]
fn users_list_oldest_first_without_hashes() {
    let conn = db();
    insert(&conn, "second", &hash_password("b"), 2_000).unwrap();
    insert(&conn, "first", &hash_password("a"), 1_000).unwrap();

    assert_eq!(
        list(&conn).unwrap(),
        vec![
            StoredUser { username: "first".into(), created_at: 1_000 },
            StoredUser { username: "second".into(), created_at: 2_000 },
        ]
    );
}

#[test]
fn users_an_empty_table_lists_as_nothing() {
    assert!(list(&db()).unwrap().is_empty());
    assert_eq!(count(&db()).unwrap(), 0);
}

#[test]
fn deleting_a_user_deletes_their_sessions() {
    let conn = db();
    insert(&conn, "sashee", &hash_password("a"), 1).unwrap();
    insert(&conn, "other", &hash_password("b"), 1).unwrap();
    insert_session(&conn, "aa", &hash_password("s1"), "sashee", 1, 100).unwrap();
    insert_session(&conn, "bb", &hash_password("s2"), "other", 1, 100).unwrap();

    assert!(delete(&conn, "sashee").unwrap());

    assert_eq!(password_hash(&conn, "sashee").unwrap(), None);
    assert!(
        lookup(&conn, "aa").unwrap().is_none(),
        "the deleted user's session must be gone"
    );
    assert!(
        lookup(&conn, "bb").unwrap().is_some(),
        "and nobody else's may be touched"
    );
}

#[test]
fn deleting_a_user_who_does_not_exist_is_false_rather_than_an_error() {
    assert!(!delete(&db(), "nobody").unwrap());
}
