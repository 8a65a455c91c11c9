use monitoring_platform::api::auth::Lookup;
use monitoring_platform::auth::{hash_secret, Token, TOKEN_BYTES};
use monitoring_platform::store::keys::{self, StoredKey};
use monitoring_platform::store::schema::{plan, Plan};
use rusqlite::{Connection, OptionalExtension as _};

fn migrate(conn: &Connection) -> Result<(), String> {
    conn.pragma_update(None, "foreign_keys", "ON").map_err(|e| e.to_string())?;
    let raw: i64 = conn.pragma_query_value(None, "user_version", |r| r.get(0)).map_err(|e| e.to_string())?;
    let (steps, stored) = match plan(raw) {
        Plan::Refuse(words) => return Err(words),
        Plan::NewerMinor(_) | Plan::Current => return Ok(()),
        Plan::Apply(steps, stored) => (steps, stored),
    };
    conn.execute_batch("BEGIN").map_err(|e| e.to_string())?;
    let mut result = Ok(());
    for step in &steps {
        result = result.and_then(|()| conn.execute_batch(step.sql));
    }
    result
        .and_then(|()| conn.pragma_update(None, "user_version", stored))
        .and_then(|()| conn.execute_batch("COMMIT"))
        .map_err(|e| {
            let _ = conn.execute_batch("ROLLBACK");
            e.to_string()
        })
}

fn db() -> Connection {
    let conn = Connection::open_in_memory().unwrap();
    migrate(&conn).unwrap();
    conn
}

fn token(first: u8) -> Token {
    let mut bytes = [7u8; TOKEN_BYTES];
    bytes[0] = first;
    Token::from_random(&bytes)
}

fn insert(conn: &Connection, id: &str, hash: &[u8; 32], label: &str, at: i64) -> rusqlite::Result<usize> {
    conn.execute(keys::INSERT, (id, &hash[..], label, at))
}

fn secret_hash(conn: &Connection, id: &str) -> rusqlite::Result<Option<[u8; 32]>> {
    let stored: Option<Vec<u8>> = conn.query_row(keys::SELECT_HASH, [id], |r| r.get(0)).optional()?;
    Ok(match keys::secret_hash(stored.as_deref()) {
        Lookup::Found(hash) => Some(hash),
        Lookup::NotFound => None,
        Lookup::Failed => panic!("nothing failed"),
    })
}

fn list(conn: &Connection) -> rusqlite::Result<Vec<StoredKey>> {
    let mut statement = conn.prepare(keys::SELECT_ALL)?;
    let rows = statement
        .query_map([], |r| Ok(StoredKey { id: r.get(0)?, label: r.get(1)?, created_at: r.get(2)? }))?;
    rows.collect()
}

fn hex_to_bytes(s: &str) -> Vec<u8> {
    (0..s.len() / 2).map(|i| u8::from_str_radix(&s[i * 2..i * 2 + 2], 16).unwrap()).collect()
}

#[test]
fn a_stored_key_is_found_by_its_id() {
    let conn = db();
    let token = token(1);
    insert(&conn, token.id(), &token.secret_hash(), "pi-7", 1_000).unwrap();

    assert_eq!(secret_hash(&conn, token.id()).unwrap(), Some(token.secret_hash()));
}

#[test]
fn keys_an_unissued_id_is_none_rather_than_an_error() {
    let conn = db();
    assert_eq!(secret_hash(&conn, "0000000000000000").unwrap(), None);
}

#[test]
fn keys_no_column_holds_the_secret() {
    let conn = db();
    let token = token(2);
    let printed = token.to_secret_string();
    insert(&conn, token.id(), &token.secret_hash(), "pi-7", 1_000).unwrap();

    let secret = printed.split_once('.').unwrap().1;
    let dumped: String = conn
        .query_row("SELECT quote(id) || quote(secret_hash) || quote(label) FROM api_key", [], |r| {
            r.get(0)
        })
        .unwrap();
    assert!(!dumped.contains(secret), "the secret reached the database: {dumped}");
}

#[test]
fn the_same_id_cannot_be_stored_twice() {
    let conn = db();
    let token = token(3);
    insert(&conn, token.id(), &token.secret_hash(), "first", 1).unwrap();
    assert!(
        insert(&conn, token.id(), &token.secret_hash(), "second", 2).is_err(),
        "the primary key must refuse a duplicate id"
    );
}

#[test]
fn keys_list_newest_first_without_hashes() {
    let conn = db();
    let (old, new) = (token(4), token(5));
    insert(&conn, old.id(), &old.secret_hash(), "old", 1_000).unwrap();
    insert(&conn, new.id(), &new.secret_hash(), "new", 2_000).unwrap();

    let listed = list(&conn).unwrap();
    assert_eq!(
        listed,
        vec![
            StoredKey { id: new.id().to_owned(), label: "new".into(), created_at: 2_000 },
            StoredKey { id: old.id().to_owned(), label: "old".into(), created_at: 1_000 },
        ]
    );
}

#[test]
fn keys_an_empty_table_lists_as_nothing() {
    assert!(list(&db()).unwrap().is_empty());
}

#[test]
fn a_hash_of_the_wrong_length_is_not_a_usable_key() {
    let conn = db();
    conn.execute(
        "INSERT INTO api_key (id, secret_hash, label, created_at) \
         VALUES ('0000000000000001', x'00', 'hand-written', 1)",
        [],
    )
    .unwrap();

    assert_eq!(secret_hash(&conn, "0000000000000001").unwrap(), None);
}

#[test]
fn the_stored_hash_is_the_domain_separated_one() {
    let conn = db();
    let token = token(6);
    insert(&conn, token.id(), &token.secret_hash(), "pi-7", 1).unwrap();

    let stored = secret_hash(&conn, token.id()).unwrap().unwrap();
    let secret_hex = token.to_secret_string().split_once('.').unwrap().1.to_owned();
    assert_ne!(stored, *blake3::hash(secret_hex.as_bytes()).as_bytes());
    assert_eq!(stored, hash_secret(&hex_to_bytes(&secret_hex)));
}

#[test]
fn keys_are_counted() {
    let conn = db();
    let count = |conn: &Connection| conn.query_row(keys::COUNT, [], |r| r.get::<_, i64>(0)).unwrap();
    assert_eq!(count(&conn), 0);
    let token = token(9);
    insert(&conn, token.id(), &token.secret_hash(), "a", 1).unwrap();
    assert_eq!(count(&conn), 1);
}
