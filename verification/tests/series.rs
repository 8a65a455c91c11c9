use monitoring_platform::content_id::series_id;
use monitoring_platform::json::{Json, Number, Object};
use monitoring_platform::model::Measurement;
use monitoring_platform::store::schema::{plan, Plan};
use monitoring_platform::store::series;
use monitoring_platform::store::write::{row_ids, Batch, INSERT};
use rusqlite::Connection;
use monitoring_platform::store::series::{accumulate, Delta, Deltas};

fn of(value: &serde_json::Value) -> Json {
    match value {
        serde_json::Value::Null => Json::Null,
        serde_json::Value::Bool(b) => Json::Bool(*b),
        serde_json::Value::Number(n) => Json::Number(match (n.as_i64(), n.as_u64()) {
            (Some(i), _) => Number::Int(i),
            (None, Some(u)) => Number::UInt(u),
            (None, None) => Number::Float(n.as_f64().unwrap().to_bits()),
        }),
        serde_json::Value::String(s) => Json::Str(s.clone()),
        serde_json::Value::Array(items) => Json::Array(items.iter().map(of).collect()),
        serde_json::Value::Object(members) => {
            let mut object = Object::new();
            for (key, member) in members {
                object.insert(key.clone(), of(member));
            }
            Json::Object(object)
        }
    }
}

fn json(text: &str) -> Json {
    of(&serde_json::from_str(text).unwrap())
}

fn back(value: &Json) -> serde_json::Value {
    match value {
        Json::Null => serde_json::Value::Null,
        Json::Bool(b) => serde_json::Value::from(*b),
        Json::Number(Number::Int(i)) => serde_json::Value::from(*i),
        Json::Number(Number::UInt(u)) => serde_json::Value::from(*u),
        Json::Number(Number::Float(bits)) => serde_json::Value::from(f64::from_bits(*bits)),
        Json::Str(s) => serde_json::Value::from(s.as_str()),
        Json::Array(items) => serde_json::Value::Array(items.iter().map(back).collect()),
        Json::Object(object) => members(object),
    }
}

fn members(object: &Object) -> serde_json::Value {
    serde_json::Value::Object(object.entries().iter().map(|(k, v)| (k.clone(), back(v))).collect())
}

fn object(text: &str) -> Object {
    match json(text) {
        Json::Object(object) => object,
        other => panic!("expected an object, got {other:?}"),
    }
}

fn migrate(conn: &Connection) -> Result<(), String> {
    conn.pragma_update(None, "foreign_keys", "ON").map_err(|e| e.to_string())?;
    let raw: i64 = conn.pragma_query_value(None, "user_version", |r| r.get(0)).map_err(|e| e.to_string())?;
    let (steps, stored) = match plan(raw) {
        Plan::Refuse(words) => return Err(words),
        Plan::NewerMinor(_) | Plan::Current => return Ok(()),
        Plan::Apply(steps, stored) => (steps, stored),
    };
    conn.execute_batch("BEGIN").map_err(|e| e.to_string())?;
    let mut result = Ok(());
    for step in &steps {
        result = result.and_then(|()| conn.execute_batch(step.sql));
    }
    result
        .and_then(|()| conn.pragma_update(None, "user_version", stored))
        .and_then(|()| conn.execute_batch("COMMIT"))
        .map_err(|e| {
            let _ = conn.execute_batch("ROLLBACK");
            e.to_string()
        })
}

fn insert_batch(conn: &mut Connection, measurements: &[Measurement]) -> rusqlite::Result<usize> {
    let tx = conn.transaction()?;
    let mut batch = Batch::new();
    for m in measurements {
        let body = m.body.as_ref().map(|b| back(b).to_string());
        let (id, series) = row_ids(m);
        let inserted = tx.execute(
            INSERT,
            (&id[..], m.event_time, m.processed_time, body, &series[..]),
        )?;
        batch = batch.record(m, &members(&m.attributes).to_string(), inserted);
    }
    let (stored, deltas) = batch.finish();
    for (id, d) in deltas.entries() {
        tx.execute(
            series::UPSERT,
            (
                &id[..], &d.kind, &d.attributes, d.added, d.event_min, d.event_max, d.processed_min, d.processed_max
            ),
        )?;
    }
    tx.commit()?;
    Ok(stored)
}

fn conn() -> Connection {
    let conn = Connection::open_in_memory().unwrap();
    migrate(&conn).unwrap();
    conn
}

fn measurement(kind: &str, event_time: i64, cell: i64) -> Measurement {
    Measurement {
        event_time,
        processed_time: event_time + 1_000,
        kind: kind.to_owned(),
        body: Some(json(r#"{"v": 1}"#)),
        attributes: object(&format!(r#"{{"record.attributes.cell": {cell}}}"#)),
    }
}

#[test]
fn rows_of_one_series_fold_into_one_delta() {
    let mut deltas = Deltas::new();
    let id = series_id("t", &object(r#"{"a": 1}"#));
    accumulate(&mut deltas, id, "t", "{\"a\":1}", 500, 5_500);
    accumulate(&mut deltas, id, "t", "{\"a\":1}", 100, 1_100);
    accumulate(&mut deltas, id, "t", "{\"a\":1}", 300, 3_300);

    assert_eq!(deltas.len(), 1, "one series, one statement");
    let d = &deltas.entries()[0].1;
    assert_eq!((d.added, d.event_min, d.event_max), (3, 100, 500));
    assert_eq!((d.processed_min, d.processed_max), (1_100, 5_500));
}

#[test]
fn extents_do_not_depend_on_the_order_rows_are_folded() {
    let id = series_id("t", &object(r#"{"a": 1}"#));
    let fold_all = |times: &[(i64, i64)]| {
        let mut deltas = Deltas::new();
        for (e, p) in times {
            accumulate(&mut deltas, id, "t", "{\"a\":1}", *e, *p);
        }
        deltas
    };

    assert_eq!(fold_all(&[(1, 10), (9, 90), (5, 50)]), fold_all(&[(9, 90), (5, 50), (1, 10)]));
}

#[test]
fn different_attributes_fold_into_different_deltas() {
    let mut deltas = Deltas::new();
    let a = object(r#"{"record.attributes.cell": 1}"#);
    let b = object(r#"{"record.attributes.cell": 2}"#);
    accumulate(&mut deltas, series_id("t", &a), "t", "{}", 1, 2);
    accumulate(&mut deltas, series_id("t", &b), "t", "{}", 1, 2);
    assert_eq!(deltas.len(), 2);
}

#[test]
fn a_measurement_cannot_reference_a_series_that_does_not_exist() {
    let c = conn();
    let err = c
        .execute(
            "INSERT INTO measurement (id, event_time, processed_time, body, series_id) \
             VALUES (x'0102030405060708090a0b0c0d0e0f10', 1, 2, '{}', x'ffffffffffffffffffffffffffffffff')",
            [],
        )
        .unwrap_err()
        .to_string();
    assert!(err.to_lowercase().contains("foreign key"), "unexpected error: {err}");
}

#[test]
fn a_measurement_cannot_have_no_series_at_all() {
    let c = conn();
    let err = c
        .execute(
            "INSERT INTO measurement (id, event_time, processed_time, body, series_id) \
             VALUES (x'0102030405060708090a0b0c0d0e0f10', 1, 2, '{}', NULL)",
            [],
        )
        .unwrap_err()
        .to_string();
    assert!(err.contains("NOT NULL"), "unexpected error: {err}");
}

#[test]
fn the_write_path_satisfies_the_deferred_key_despite_inserting_the_measurement_first() {
    let mut c = conn();
    let batch = [measurement("bms.status.cell", 1_000, 3), measurement("bms.status.cell", 2_000, 3)];
    assert_eq!(insert_batch(&mut c, &batch).unwrap(), 2);

    let dangling: i64 = c
        .query_row(
            "SELECT count(*) FROM measurement m LEFT JOIN series s ON s.id = m.series_id \
             WHERE s.id IS NULL",
            [],
            |r| r.get(0),
        )
        .unwrap();
    assert_eq!(dangling, 0);
}

#[test]
fn a_series_still_holding_measurements_cannot_be_deleted() {
    let mut c = conn();
    let m = measurement("bms.status.cell", 1_000, 3);
    insert_batch(&mut c, std::slice::from_ref(&m)).unwrap();

    let err = c.execute("DELETE FROM series", []).unwrap_err().to_string();
    assert!(err.to_lowercase().contains("foreign key"), "unexpected error: {err}");
}

#[test]
fn merging_two_deltas_adds_and_widens() {
    let mut a = Delta::single("t".into(), "{}".into(), 5, 50);
    a.merge(&Delta::single("t".into(), "{}".into(), 2, 90));
    assert_eq!((a.added, a.event_min, a.event_max, a.processed_min, a.processed_max), (2, 2, 5, 50, 90));
}

#[test]
fn rows_of_many_series_fold_the_same_in_any_order() {
    let rows = [("a", 30, 1), ("b", 10, 2), ("a", 20, 5), ("c", 7, 7), ("b", 40, 3), ("a", 25, 4)];
    let fold = |order: [usize; 6]| {
        let mut deltas = Deltas::new();
        for i in order {
            let (kind, event, processed) = rows[i];
            let id = series_id(kind, &Object::new());
            accumulate(&mut deltas, id, kind, "{}", event, processed);
        }
        deltas
    };
    let first = fold([0, 1, 2, 3, 4, 5]);
    assert_eq!(first, fold([5, 4, 3, 2, 1, 0]));
    assert_eq!(first, fold([3, 0, 5, 1, 2, 4]));
    assert_eq!(first.len(), 3);
    let a = series_id("a", &Object::new());
    let (_, delta) = first.entries().iter().find(|(id, _)| *id == a).unwrap();
    assert_eq!((delta.added, delta.event_min, delta.event_max), (3, 20, 30));
    assert_eq!((delta.processed_min, delta.processed_max), (1, 5));
}

#[test]
fn counts_match_the_rows_after_batches_that_overlap() {
    let mut conn = conn();
    let batch = |times: &[i64]| times.iter().map(|t| measurement("t", *t, t % 2)).collect::<Vec<_>>();
    assert_eq!(insert_batch(&mut conn, &batch(&[1, 2, 3])).unwrap(), 3);
    assert_eq!(insert_batch(&mut conn, &batch(&[3, 4, 5])).unwrap(), 2);
    assert_eq!(insert_batch(&mut conn, &batch(&[3, 4, 5])).unwrap(), 0, "a batch is stored once");
    let wrong: i64 = conn
        .query_row(
            "SELECT count(*) FROM series s WHERE added_measurements <> (SELECT count(*) FROM measurement m WHERE m.series_id = s.id)",
            (),
            |r| r.get(0),
        )
        .unwrap();
    assert_eq!(wrong, 0);
}
