use monitoring_platform::content_id::content_id;
use monitoring_platform::json::{Json, Number, Object};
use monitoring_platform::model::Measurement;
use monitoring_platform::store::schema::{plan, Plan};
use monitoring_platform::store::series;
use monitoring_platform::store::write::{row_ids, Batch, INSERT};
use rusqlite::Connection;

fn of(value: &serde_json::Value) -> Json {
    match value {
        serde_json::Value::Null => Json::Null,
        serde_json::Value::Bool(b) => Json::Bool(*b),
        serde_json::Value::Number(n) => Json::Number(match (n.as_i64(), n.as_u64()) {
            (Some(i), _) => Number::Int(i),
            (None, Some(u)) => Number::UInt(u),
            (None, None) => Number::Float(n.as_f64().unwrap().to_bits()),
        }),
        serde_json::Value::String(s) => Json::Str(s.clone()),
        serde_json::Value::Array(items) => Json::Array(items.iter().map(of).collect()),
        serde_json::Value::Object(members) => {
            let mut object = Object::new();
            for (key, member) in members {
                object.insert(key.clone(), of(member));
            }
            Json::Object(object)
        }
    }
}

fn json(text: &str) -> Json {
    of(&serde_json::from_str(text).unwrap())
}

fn back(value: &Json) -> serde_json::Value {
    match value {
        Json::Null => serde_json::Value::Null,
        Json::Bool(b) => serde_json::Value::from(*b),
        Json::Number(Number::Int(i)) => serde_json::Value::from(*i),
        Json::Number(Number::UInt(u)) => serde_json::Value::from(*u),
        Json::Number(Number::Float(bits)) => serde_json::Value::from(f64::from_bits(*bits)),
        Json::Str(s) => serde_json::Value::from(s.as_str()),
        Json::Array(items) => serde_json::Value::Array(items.iter().map(back).collect()),
        Json::Object(object) => members(object),
    }
}

fn members(object: &Object) -> serde_json::Value {
    serde_json::Value::Object(object.entries().iter().map(|(k, v)| (k.clone(), back(v))).collect())
}

fn object(text: &str) -> Object {
    match json(text) {
        Json::Object(object) => object,
        other => panic!("expected an object, got {other:?}"),
    }
}

fn migrate(conn: &Connection) -> Result<(), String> {
    conn.pragma_update(None, "foreign_keys", "ON").map_err(|e| e.to_string())?;
    let raw: i64 = conn.pragma_query_value(None, "user_version", |r| r.get(0)).map_err(|e| e.to_string())?;
    let (steps, stored) = match plan(raw) {
        Plan::Refuse(words) => return Err(words),
        Plan::NewerMinor(_) | Plan::Current => return Ok(()),
        Plan::Apply(steps, stored) => (steps, stored),
    };
    conn.execute_batch("BEGIN").map_err(|e| e.to_string())?;
    let mut result = Ok(());
    for step in &steps {
        result = result.and_then(|()| conn.execute_batch(step.sql));
    }
    result
        .and_then(|()| conn.pragma_update(None, "user_version", stored))
        .and_then(|()| conn.execute_batch("COMMIT"))
        .map_err(|e| {
            let _ = conn.execute_batch("ROLLBACK");
            e.to_string()
        })
}

fn insert_batch(conn: &mut Connection, measurements: &[Measurement]) -> rusqlite::Result<usize> {
    let tx = conn.transaction()?;
    let mut batch = Batch::new();
    for m in measurements {
        let body = m.body.as_ref().map(|b| back(b).to_string());
        let (id, series) = row_ids(m);
        let inserted = tx.execute(
            INSERT,
            (&id[..], m.event_time, m.processed_time, body, &series[..]),
        )?;
        batch = batch.record(m, &members(&m.attributes).to_string(), inserted);
    }
    let (stored, deltas) = batch.finish();
    for (id, d) in deltas.entries() {
        tx.execute(
            series::UPSERT,
            (
                &id[..], &d.kind, &d.attributes, d.added, d.event_min, d.event_max, d.processed_min, d.processed_max
            ),
        )?;
    }
    tx.commit()?;
    Ok(stored)
}

fn conn() -> Connection {
    let conn = Connection::open_in_memory().unwrap();
    migrate(&conn).unwrap();
    conn
}

fn measurement(kind: &str, event_time: i64) -> Measurement {
    Measurement {
        event_time,
        processed_time: 2,
        kind: kind.to_owned(),
        body: Some(json(r#"{"v": 1}"#)),
        attributes: object(r#"{"record.attributes.unit": "c"}"#),
    }
}

fn row_count(c: &Connection) -> i64 {
    c.query_row("SELECT count(*) FROM measurement", [], |r| r.get(0)).unwrap()
}

fn series_row(c: &Connection, id: &[u8; 16]) -> (i64, i64, i64, i64, i64) {
    c.query_row(
        "SELECT added_measurements, added_event_time_min, added_event_time_max, \
         added_processed_time_min, added_processed_time_max FROM series WHERE id = ?1",
        [&id[..]],
        |r| Ok((r.get(0)?, r.get(1)?, r.get(2)?, r.get(3)?, r.get(4)?)),
    )
    .unwrap()
}

fn series_count(c: &Connection) -> i64 {
    c.query_row("SELECT count(*) FROM series", [], |r| r.get(0)).unwrap()
}

#[test]
fn inserts_a_batch_and_reports_the_count() {
    let mut c = conn();
    let n = insert_batch(&mut c, &[measurement("a", 1), measurement("b", 2)]).unwrap();
    assert_eq!(n, 2);
    assert_eq!(row_count(&c), 2);
}

#[test]
fn reinserting_the_same_measurement_is_a_no_op() {
    let mut c = conn();
    let batch = [measurement("a", 1), measurement("b", 2)];

    assert_eq!(insert_batch(&mut c, &batch).unwrap(), 2);
    assert_eq!(insert_batch(&mut c, &batch).unwrap(), 0, "a retry must store nothing");
    assert_eq!(row_count(&c), 2);
}

#[test]
fn overlapping_batches_store_only_what_is_new() {
    let mut c = conn();
    insert_batch(&mut c, &[measurement("a", 1)]).unwrap();

    let stored = insert_batch(&mut c, &[measurement("a", 1), measurement("b", 2)]).unwrap();
    assert_eq!(stored, 1);
    assert_eq!(row_count(&c), 2);
}

#[test]
fn measurements_differing_only_by_one_nanosecond_both_store() {
    let mut c = conn();
    let stored = insert_batch(&mut c, &[measurement("a", 1), measurement("a", 2)]).unwrap();
    assert_eq!(stored, 2);
    assert_eq!(row_count(&c), 2);
}

#[test]
fn a_later_redelivery_does_not_overwrite_the_original_arrival_time() {
    let mut c = conn();
    let mut first = measurement("a", 1);
    first.processed_time = 100;
    let mut again = measurement("a", 1);
    again.processed_time = 999;

    insert_batch(&mut c, &[first]).unwrap();
    assert_eq!(insert_batch(&mut c, &[again]).unwrap(), 0);

    let pt: i64 =
        c.query_row("SELECT processed_time FROM measurement", [], |r| r.get(0)).unwrap();
    assert_eq!(pt, 100, "OR IGNORE keeps the existing row, so first arrival wins");
}

#[test]
fn stored_id_is_the_content_id() {
    let mut c = conn();
    let m = measurement("a", 1);
    insert_batch(&mut c, std::slice::from_ref(&m)).unwrap();

    let id: Vec<u8> = c.query_row("SELECT id FROM measurement", [], |r| r.get(0)).unwrap();
    assert_eq!(id, content_id(&m).to_vec());
}

#[test]
fn measurements_of_one_series_share_one_series_row() {
    let mut c = conn();
    insert_batch(&mut c, &[measurement("a", 1), measurement("a", 2)]).unwrap();

    assert_eq!(series_count(&c), 1);
    let distinct: i64 = c
        .query_row("SELECT count(DISTINCT series_id) FROM measurement", [], |r| r.get(0))
        .unwrap();
    assert_eq!(distinct, 1, "both rows must point at it");
}

#[test]
fn differing_attributes_make_separate_series() {
    let mut c = conn();
    let mut other = measurement("a", 2);
    other.attributes = object(r#"{"record.attributes.unit": "f"}"#);
    insert_batch(&mut c, &[measurement("a", 1), other]).unwrap();
    assert_eq!(series_count(&c), 2);
}

#[test]
fn differing_types_make_separate_series() {
    let mut c = conn();
    insert_batch(&mut c, &[measurement("a", 1), measurement("b", 1)]).unwrap();
    assert_eq!(series_count(&c), 2);
}

#[test]
fn a_series_stores_the_type_and_attributes_verbatim() {
    let mut c = conn();
    let mut m = measurement("gps", 1);
    m.attributes = object(r#"{"z.last": 1, "a.first": 2, "record.attributes.unit": "wgs84"}"#);
    insert_batch(&mut c, std::slice::from_ref(&m)).unwrap();

    let (kind, attributes): (String, String) = c
        .query_row(
            "SELECT s.type, s.attributes FROM measurement m JOIN series s ON s.id = m.series_id",
            [],
            |r| Ok((r.get(0)?, r.get(1)?)),
        )
        .unwrap();
    assert_eq!(kind, "gps");
    assert_eq!(attributes, members(&m.attributes).to_string());
}

#[test]
fn the_stored_series_id_is_the_one_the_pure_function_derives() {
    let mut c = conn();
    let m = measurement("a", 1);
    insert_batch(&mut c, std::slice::from_ref(&m)).unwrap();

    let stored: Vec<u8> =
        c.query_row("SELECT series_id FROM measurement", [], |r| r.get(0)).unwrap();
    assert_eq!(stored, series::id_of(&m).to_vec());
}

#[test]
fn a_reuploaded_batch_does_not_inflate_the_count() {
    let mut c = conn();
    let batch = [measurement("a", 1), measurement("a", 2), measurement("a", 3)];

    insert_batch(&mut c, &batch).unwrap();
    insert_batch(&mut c, &batch).unwrap();

    let id = series::id_of(&batch[0]);
    assert_eq!(series_row(&c, &id).0, 3, "a retry must not be counted");
}

#[test]
fn an_overlapping_batch_counts_only_what_was_stored() {
    let mut c = conn();
    insert_batch(&mut c, &[measurement("a", 1)]).unwrap();
    insert_batch(&mut c, &[measurement("a", 1), measurement("a", 2)]).unwrap();

    assert_eq!(series_row(&c, &series::id_of(&measurement("a", 1))).0, 2);
}

#[test]
fn extents_widen_and_are_never_narrowed() {
    let mut c = conn();
    let at = |event: i64| {
        let mut m = measurement("a", event);
        m.processed_time = event + 1_000;
        m
    };
    let id = series::id_of(&at(5_000));

    insert_batch(&mut c, &[at(5_000)]).unwrap();
    assert_eq!(series_row(&c, &id), (1, 5_000, 5_000, 6_000, 6_000));

    insert_batch(&mut c, &[at(9_000)]).unwrap();
    assert_eq!(series_row(&c, &id), (2, 5_000, 9_000, 6_000, 10_000), "max must extend");

    insert_batch(&mut c, &[at(1_000)]).unwrap();
    assert_eq!(series_row(&c, &id), (3, 1_000, 9_000, 2_000, 10_000), "min must extend");
}

#[test]
fn the_arrival_extents_track_processed_time_not_event_time() {
    let mut c = conn();
    let mut m = measurement("a", 1_000);
    m.processed_time = 999_000_000;
    insert_batch(&mut c, std::slice::from_ref(&m)).unwrap();

    let (_, emin, emax, pmin, pmax) = series_row(&c, &series::id_of(&m));
    assert_eq!((emin, emax), (1_000, 1_000));
    assert_eq!((pmin, pmax), (999_000_000, 999_000_000));
}

#[test]
fn timestamps_are_not_part_of_the_series_key() {
    let mut c = conn();
    let mut later = measurement("a", 90_000);
    later.processed_time = 500_000;
    insert_batch(&mut c, &[measurement("a", 1), later]).unwrap();
    assert_eq!(series_count(&c), 1);
}

#[test]
fn a_batch_spanning_many_series_attributes_each_row_correctly() {
    let mut c = conn();
    let batch: Vec<_> = (0..16)
        .map(|cell| {
            let mut m = measurement("bms.status.cell", 1_000 + cell);
            m.attributes =
                object(&format!(r#"{{"record.attributes.cell":{cell}}}"#));
            m
        })
        .collect();
    insert_batch(&mut c, &batch).unwrap();

    assert_eq!(series_count(&c), 16);
    for m in &batch {
        assert_eq!(series_row(&c, &series::id_of(m)).0, 1);
    }
}

#[test]
fn every_series_count_matches_the_rows_pointing_at_it() {
    let mut c = conn();
    let mut batch = vec![measurement("a", 1), measurement("a", 2), measurement("b", 3)];
    batch[2].attributes = object(r#"{"record.attributes.unit": "k"}"#);
    insert_batch(&mut c, &batch).unwrap();

    let disagreeing: i64 = c
        .query_row(
            "SELECT count(*) FROM series s JOIN \
             (SELECT series_id, count(*) n FROM measurement GROUP BY series_id) m \
             ON m.series_id = s.id WHERE s.added_measurements <> m.n",
            [],
            |r| r.get(0),
        )
        .unwrap();
    assert_eq!(disagreeing, 0);
}

#[test]
fn empty_batch_is_a_no_op() {
    let mut c = conn();
    assert_eq!(insert_batch(&mut c, &[]).unwrap(), 0);
}

#[test]
fn absent_body_is_stored_as_sql_null_distinct_from_json_null() {
    let mut c = conn();
    let mut absent = measurement("a", 1);
    absent.body = None;
    let mut unset = measurement("b", 2);
    unset.body = Some(Json::Null);
    insert_batch(&mut c, &[absent, unset]).unwrap();
    let rows: Vec<Option<String>> = c
        .prepare("SELECT body FROM measurement ORDER BY event_time")
        .unwrap()
        .query_map([], |r| r.get(0))
        .unwrap()
        .collect::<Result<_, _>>()
        .unwrap();
    assert_eq!(rows, vec![None, Some("null".to_owned())]);
}

#[test]
fn full_i64_range_survives_storage_and_json_extract() {
    let mut c = conn();
    for (i, n) in [i64::MIN, i64::MAX, 9_007_199_254_740_993i64].into_iter().enumerate() {
        let mut m = measurement("big", i as i64);
        m.body = Some(json(&format!(r#"{{"n":{n}}}"#)));
        m.attributes = object(&format!(r#"{{"record.attributes.id":{n}}}"#));
        insert_batch(&mut c, &[m]).unwrap();

        let (from_body, from_attr): (i64, i64) = c
            .query_row(
                "SELECT json_extract(m.body,'$.n'), \
                        json_extract(s.attributes,'$.\"record.attributes.id\"') \
                 FROM measurement m JOIN series s ON s.id = m.series_id \
                 ORDER BY m.event_time DESC LIMIT 1",
                [],
                |r| Ok((r.get(0)?, r.get(1)?)),
            )
            .unwrap();
        assert_eq!(from_body, n, "body value changed");
        assert_eq!(from_attr, n, "attribute value changed");
    }
}
