use monitoring_platform::store::schema::{migrations, plan, schema_version, Plan, Version};
use rusqlite::Connection;

fn migrate(conn: &Connection) -> Result<(), String> {
    conn.pragma_update(None, "foreign_keys", "ON").map_err(|e| e.to_string())?;
    let raw: i64 = conn.pragma_query_value(None, "user_version", |r| r.get(0)).map_err(|e| e.to_string())?;
    let (steps, stored) = match plan(raw) {
        Plan::Refuse(words) => return Err(words),
        Plan::NewerMinor(_) | Plan::Current => return Ok(()),
        Plan::Apply(steps, stored) => (steps, stored),
    };
    conn.execute_batch("BEGIN").map_err(|e| e.to_string())?;
    let mut result = Ok(());
    for step in &steps {
        result = result.and_then(|()| conn.execute_batch(step.sql));
    }
    result
        .and_then(|()| conn.pragma_update(None, "user_version", stored))
        .and_then(|()| conn.execute_batch("COMMIT"))
        .map_err(|e| {
            let _ = conn.execute_batch("ROLLBACK");
            e.to_string()
        })
}

fn has_table(conn: &Connection, name: &str) -> bool {
    conn.query_row("SELECT count(*) FROM sqlite_master WHERE name = ?1", [name], |r| r.get::<_, i64>(0))
        .map(|n| n == 1)
        .unwrap_or(false)
}

fn stored_version(conn: &Connection) -> i64 {
    conn.pragma_query_value(None, "user_version", |r| r.get(0)).unwrap()
}

#[test]
fn a_version_round_trips_through_its_stored_form() {
    for version in [
        Version::new(0, 0),
        Version::new(1, 0),
        Version::new(3, 0),
        Version::new(3, 1),
        Version::new(3, 999),
        Version::new(999, 0),
        Version::new(999, 999),
    ] {
        assert_eq!(Version::decode(version.encode()), version, "on {version:?}");
    }
}

#[test]
fn a_bare_integer_is_that_major_at_minor_zero() {
    assert_eq!(Version::decode(3), Version::new(3, 0), "what is deployed today");
    assert_eq!(Version::decode(1), Version::new(1, 0));
    assert_eq!(Version::decode(0), Version::new(0, 0), "an untouched database");
}

#[test]
fn a_zero_minor_is_stored_as_the_bare_major() {
    assert_eq!(Version::new(3, 0).encode(), 3);
    assert_eq!(Version::new(4, 0).encode(), 4);
}

#[test]
fn the_packed_form_of_a_zero_minor_still_decodes() {
    assert_eq!(Version::decode(3000), Version::new(3, 0));
    assert_eq!(Version::decode(3001), Version::new(3, 1));
}

#[test]
fn versions_order_by_major_then_minor() {
    assert!(Version::new(3, 0) < Version::new(3, 1));
    assert!(Version::new(3, 1) < Version::new(4, 0));
    assert!(Version::new(3, 999) < Version::new(4, 0));
    assert!(Version::new(3, 9) < Version::new(3, 10));
}

#[test]
fn migrations_are_sorted_and_end_at_the_declared_version() {
    for pair in migrations().windows(2) {
        assert!(
            pair[0].version < pair[1].version,
            "MIGRATIONS must ascend: {:?} is not before {:?}",
            pair[0].version,
            pair[1].version
        );
    }
    assert_eq!(
        migrations().last().expect("at least one migration").version,
        schema_version(),
        "the last migration must produce exactly the declared version"
    );
}

#[test]
fn a_pre_3_2_database_with_rows_refuses_to_reach_4_0() {
    let conn = Connection::open_in_memory().unwrap();
    conn.execute_batch(migrations()[0].sql).unwrap();
    conn.execute_batch(migrations()[1].sql).unwrap();
    conn.pragma_update(None, "user_version", 2i64).unwrap();
    conn.execute(
        "INSERT INTO measurement (id, event_time, processed_time, type, attributes) \
         VALUES (x'01', 1, 2, 'cpu', '{}')",
        [],
    )
    .unwrap();

    let err = migrate(&conn).unwrap_err();
    assert!(err.contains("NOT NULL"), "the refusal must name the constraint: {err}");
    assert_eq!(stored_version(&conn), 2, "a partial migration would be unrecoverable");
    let rows: i64 =
        conn.query_row("SELECT count(*) FROM measurement", [], |r| r.get(0)).unwrap();
    assert_eq!(rows, 1, "and the measurement is still there");
}

#[test]
fn a_pre_3_2_database_with_no_rows_migrates_all_the_way() {
    let conn = Connection::open_in_memory().unwrap();
    conn.execute_batch(migrations()[0].sql).unwrap();
    conn.execute_batch(migrations()[1].sql).unwrap();
    conn.pragma_update(None, "user_version", 2i64).unwrap();

    migrate(&conn).unwrap();

    assert_eq!(stored_version(&conn), schema_version().encode());
    assert!(has_table(&conn, "series"));
    assert!(has_table(&conn, "api_key"));
}

#[test]
fn migrates_from_empty_and_is_idempotent() {
    let conn = Connection::open_in_memory().unwrap();
    migrate(&conn).unwrap();
    assert_eq!(stored_version(&conn), schema_version().encode());
    migrate(&conn).unwrap();
    let count: i64 = conn
        .query_row("SELECT count(*) FROM sqlite_master WHERE name='measurement'", [], |r| {
            r.get(0)
        })
        .unwrap();
    assert_eq!(count, 1);
}

#[test]
fn migrates_stepwise_from_version_1() {
    let conn = Connection::open_in_memory().unwrap();
    conn.execute_batch(migrations()[0].sql).unwrap();
    conn.pragma_update(None, "user_version", 1i64).unwrap();

    migrate(&conn).unwrap();

    assert_eq!(stored_version(&conn), schema_version().encode());
    assert!(has_table(&conn, "api_key"), "3.0 must have run too");
    let ty: String = conn
        .query_row(
            "SELECT type FROM pragma_table_info('measurement') WHERE name='id'",
            [],
            |r| r.get(0),
        )
        .unwrap();
    assert_eq!(ty, "BLOB");
}

#[test]
fn refuses_a_database_from_a_newer_major_version() {
    let conn = Connection::open_in_memory().unwrap();
    let newer = Version::new(schema_version().major + 1, 0);
    conn.pragma_update(None, "user_version", newer.encode()).unwrap();

    let err = migrate(&conn).unwrap_err();
    assert!(err.contains("newer than this binary"), "unexpected error: {err}");
    let conn = Connection::open_in_memory().unwrap();
    conn.pragma_update(None, "user_version", Version::new(schema_version().major + 1, 7).encode())
        .unwrap();
    assert!(migrate(&conn).is_err());
}

#[test]
fn accepts_a_newer_minor_version_without_migrating_it() {
    let conn = Connection::open_in_memory().unwrap();
    migrate(&conn).unwrap();
    conn.execute_batch("CREATE TABLE from_the_future (x INTEGER) STRICT;").unwrap();
    let future = Version::new(schema_version().major, schema_version().minor + 1);
    conn.pragma_update(None, "user_version", future.encode()).unwrap();

    migrate(&conn).expect("a newer minor version must be accepted, not refused");

    assert_eq!(
        stored_version(&conn),
        future.encode(),
        "the version must be left alone — writing ours back would be a silent downgrade"
    );
    assert!(has_table(&conn, "from_the_future"), "and the newer binary's table must survive");
    assert!(has_table(&conn, "measurement"));
    assert!(has_table(&conn, "api_key"));
}

#[test]
fn a_current_database_is_not_rewritten() {
    let conn = Connection::open_in_memory().unwrap();
    migrate(&conn).unwrap();
    let after_first = stored_version(&conn);

    migrate(&conn).unwrap();

    assert_eq!(stored_version(&conn), after_first);
    assert_eq!(after_first, schema_version().encode());
}

#[test]
fn migrating_from_version_3_0_keeps_the_tables_beside_the_measurements() {
    let conn = Connection::open_in_memory().unwrap();
    for migration in migrations().iter().filter(|m| m.version <= Version::new(3, 0)) {
        conn.execute_batch(migration.sql).unwrap();
    }
    conn.pragma_update(None, "user_version", 3i64).unwrap();
    conn.execute(
        "INSERT INTO api_key (id, secret_hash, label, created_at) \
         VALUES ('0000000000000001', x'00', 'pi-7', 1)",
        [],
    )
    .unwrap();

    migrate(&conn).unwrap();

    assert!(has_table(&conn, "web_user"));
    assert!(has_table(&conn, "web_session"));
    assert!(has_table(&conn, "series"));
    assert_eq!(stored_version(&conn), schema_version().encode());
    let keys: i64 = conn.query_row("SELECT count(*) FROM api_key", [], |r| r.get(0)).unwrap();
    assert_eq!(keys, 1, "an issued key must survive the upgrade");
}

#[test]
fn an_older_binarys_writes_are_refused_by_the_4_0_schema() {
    let conn = Connection::open_in_memory().unwrap();
    migrate(&conn).unwrap();

    let err = conn
        .execute(
            "INSERT OR IGNORE INTO measurement \
             (id, event_time, processed_time, type, body, attributes) \
             VALUES (x'0102030405060708090a0b0c0d0e0f10', 1, 2, 'cpu', '{}', '{}')",
            [],
        )
        .unwrap_err()
        .to_string();
    assert!(
        err.contains("no column named type") || err.contains("has no column named"),
        "a pre-4.0 insert must be refused for naming dropped columns; got: {err}"
    );
    conn.execute(
        "INSERT INTO api_key (id, secret_hash, label, created_at) \
         VALUES ('0000000000000001', x'00', 'pi-7', 1)",
        [],
    )
    .expect("api_key is unchanged");
    conn.execute(
        "INSERT INTO web_user (username, password_hash, created_at) VALUES ('op', x'00', 1)",
        [],
    )
    .expect("web_user is unchanged");
}

#[test]
fn schema_is_strict() {
    let conn = Connection::open_in_memory().unwrap();
    migrate(&conn).unwrap();
    let err = conn
        .execute(
            "INSERT INTO measurement (id, event_time, processed_time, body, series_id) \
             VALUES (x'00', 'not-a-number', 1, '{}', x'00')",
            [],
        )
        .unwrap_err();
    assert!(
        err.to_string().contains("cannot store TEXT value in INTEGER column"),
        "STRICT should have refused the insert; got: {err}"
    );
}

#[test]
fn versions_are_written_with_a_dot() {
    assert_eq!(Version::new(3, 10).to_text(), "3.10");
    assert!(Version::new(3, 9).is_older(Version::new(3, 10)));
    assert!(!Version::new(4, 0).is_older(Version::new(3, 999)));
}

#[test]
fn a_version_without_a_minor_is_stored_as_its_major() {
    assert_eq!(Version { major: i64::MAX, minor: 0 }.encode(), i64::MAX);
    assert_eq!(Version { major: 3, minor: 1 }.encode(), 3_001);
}
