use monitoring_platform::json::{Json, Number, Object};
use monitoring_platform::model::{Measurement, StoredMeasurement};
use monitoring_platform::store::chart::{self, bucket_nanos, build_series_query, Point, Series, SeriesSpec};
use monitoring_platform::store::facets::{
    self, build_facet_query, build_widened_query, AttrFacet, Facets, MAX_FACET_VALUES, SELECT_ATTRS, SELECT_FIELDS, SELECT_SCANNED,
};
use monitoring_platform::store::order::sort_facet_values;
use monitoring_platform::store::read::{
    self, build_extent_query, build_query, json_path, positioned, stored_measurement, TypeCount, DEFAULT_LIMIT, MAX_LIMIT, SELECT_TYPES,
};
use monitoring_platform::store::schema::{plan, Plan};
use monitoring_platform::store::series;
use monitoring_platform::store::sql::SqlValue;
use monitoring_platform::store::write::{row_ids, Batch, INSERT};
use rusqlite::{params_from_iter, Connection};

type QuerySpec = read::QuerySpec<[u8; 16]>;

fn of(value: &serde_json::Value) -> Json {
    match value {
        serde_json::Value::Null => Json::Null,
        serde_json::Value::Bool(b) => Json::Bool(*b),
        serde_json::Value::Number(n) => Json::Number(match (n.as_i64(), n.as_u64()) {
            (Some(i), _) => Number::Int(i),
            (None, Some(u)) => Number::UInt(u),
            (None, None) => Number::Float(n.as_f64().unwrap().to_bits()),
        }),
        serde_json::Value::String(s) => Json::Str(s.clone()),
        serde_json::Value::Array(items) => Json::Array(items.iter().map(of).collect()),
        serde_json::Value::Object(members) => {
            let mut object = Object::new();
            for (key, member) in members {
                object.insert(key.clone(), of(member));
            }
            Json::Object(object)
        }
    }
}

fn json(text: &str) -> Json {
    of(&serde_json::from_str(text).unwrap())
}

fn back(value: &Json) -> serde_json::Value {
    match value {
        Json::Null => serde_json::Value::Null,
        Json::Bool(b) => serde_json::Value::from(*b),
        Json::Number(Number::Int(i)) => serde_json::Value::from(*i),
        Json::Number(Number::UInt(u)) => serde_json::Value::from(*u),
        Json::Number(Number::Float(bits)) => serde_json::Value::from(f64::from_bits(*bits)),
        Json::Str(s) => serde_json::Value::from(s.as_str()),
        Json::Array(items) => serde_json::Value::Array(items.iter().map(back).collect()),
        Json::Object(object) => members(object),
    }
}

fn members(object: &Object) -> serde_json::Value {
    serde_json::Value::Object(object.entries().iter().map(|(k, v)| (k.clone(), back(v))).collect())
}

fn object(text: &str) -> Object {
    match json(text) {
        Json::Object(object) => object,
        other => panic!("expected an object, got {other:?}"),
    }
}

fn migrate(conn: &Connection) -> Result<(), String> {
    conn.pragma_update(None, "foreign_keys", "ON").map_err(|e| e.to_string())?;
    let raw: i64 = conn.pragma_query_value(None, "user_version", |r| r.get(0)).map_err(|e| e.to_string())?;
    let (steps, stored) = match plan(raw) {
        Plan::Refuse(words) => return Err(words),
        Plan::NewerMinor(_) | Plan::Current => return Ok(()),
        Plan::Apply(steps, stored) => (steps, stored),
    };
    conn.execute_batch("BEGIN").map_err(|e| e.to_string())?;
    let mut result = Ok(());
    for step in &steps {
        result = result.and_then(|()| conn.execute_batch(step.sql));
    }
    result
        .and_then(|()| conn.pragma_update(None, "user_version", stored))
        .and_then(|()| conn.execute_batch("COMMIT"))
        .map_err(|e| {
            let _ = conn.execute_batch("ROLLBACK");
            e.to_string()
        })
}

fn insert_batch(conn: &mut Connection, measurements: &[Measurement]) -> rusqlite::Result<usize> {
    let tx = conn.transaction()?;
    let mut batch = Batch::new();
    for m in measurements {
        let body = m.body.as_ref().map(|b| back(b).to_string());
        let (id, series) = row_ids(m);
        let inserted = tx.execute(
            INSERT,
            (&id[..], m.event_time, m.processed_time, body, &series[..]),
        )?;
        batch = batch.record(m, &members(&m.attributes).to_string(), inserted);
    }
    let (stored, deltas) = batch.finish();
    for (id, d) in deltas.entries() {
        tx.execute(
            series::UPSERT,
            (
                &id[..], &d.kind, &d.attributes, d.added, d.event_min, d.event_max, d.processed_min, d.processed_max
            ),
        )?;
    }
    tx.commit()?;
    Ok(stored)
}

fn member<'a>(value: &'a Json, key: &str) -> &'a Json {
    match value {
        Json::Object(object) => object.get(key).unwrap(),
        other => panic!("expected an object, got {other:?}"),
    }
}

fn db_with(measurements: Vec<Measurement>) -> Connection {
    let mut conn = Connection::open_in_memory().unwrap();
    migrate(&conn).unwrap();
    insert_batch(&mut conn, &measurements).unwrap();
    conn
}

fn m(kind: &str, event_time: i64, attrs: Json) -> Measurement {
    mb(kind, event_time, json(&format!(r#"{{"v":{event_time}}}"#)), attrs)
}

fn mb(kind: &str, event_time: i64, body: Json, attrs: Json) -> Measurement {
    Measurement {
        event_time,
        processed_time: event_time + 1,
        kind: kind.to_owned(),
        body: Some(body),
        attributes: match attrs {
            Json::Object(object) => object,
            other => panic!("expected an object, got {other:?}"),
        },
    }
}

fn bound(params: Vec<SqlValue>) -> Vec<rusqlite::types::Value> {
    params
        .into_iter()
        .map(|p| match p {
            SqlValue::Integer(n) => rusqlite::types::Value::Integer(n),
            SqlValue::Text(s) => rusqlite::types::Value::Text(s),
            SqlValue::Blob(b) => rusqlite::types::Value::Blob(b),
        })
        .collect()
}

fn rows<T>(
    conn: &Connection,
    (sql, params): (String, Vec<SqlValue>),
    read: impl FnMut(&rusqlite::Row<'_>) -> rusqlite::Result<T>,
) -> rusqlite::Result<Vec<T>> {
    conn.prepare(&sql)?.query_map(params_from_iter(bound(params)), read)?.collect()
}

fn query(conn: &Connection, spec: &QuerySpec) -> rusqlite::Result<Vec<StoredMeasurement>> {
    rows(conn, build_query(spec), |row| {
        let id: Vec<u8> = row.get(0)?;
        let body: Option<String> = row.get(4)?;
        let attributes: String = row.get(5)?;
        Ok(stored_measurement(&id, row.get(1)?, row.get(2)?, row.get(3)?, body.map(|b| json(&b)), json(&attributes)).unwrap())
    })
}

fn types(conn: &Connection) -> rusqlite::Result<Vec<TypeCount>> {
    rows(conn, (SELECT_TYPES.to_owned(), vec![]), |r| Ok(TypeCount { kind: r.get(0)?, count: r.get(1)? }))
}

fn facets(conn: &Connection, spec: &QuerySpec) -> rusqlite::Result<Facets> {
    let attrs = rows(conn, build_facet_query(spec, SELECT_ATTRS), |r| Ok((r.get(0)?, r.get(1)?)))?;
    let fields = rows(conn, build_facet_query(spec, SELECT_FIELDS), |r| Ok((r.get(0)?, r.get(1)?)))?;
    let scanned = rows(conn, build_facet_query(spec, SELECT_SCANNED), |r| r.get(0))?;
    Ok(facets::facets(attrs, fields, scanned[0]))
}

fn facet_values_excluding(conn: &Connection, spec: &QuerySpec, key: &str) -> rusqlite::Result<AttrFacet> {
    let values = rows(conn, build_widened_query(spec, key), |r| r.get(0))?;
    Ok(facets::facet_values_excluding(key, values))
}

fn charted(conn: &Connection, spec: &SeriesSpec) -> rusqlite::Result<Vec<Series>> {
    let bits = |x: Option<f64>| x.map(f64::to_bits);
    let points = rows(conn, build_series_query(spec), |r| {
        Ok((
            r.get::<_, Option<String>>(0)?,
            Point {
                start: r.get(1)?,
                count: r.get(2)?,
                value_count: r.get(3)?,
                avg: bits(r.get(4)?),
                min: bits(r.get(5)?),
                max: bits(r.get(6)?),
            },
        ))
    })?;
    Ok(chart::series(points, &spec.groups))
}

fn one_series(conn: &Connection, spec: &SeriesSpec) -> Vec<Point> {
    let got = charted(conn, spec).unwrap();
    assert_eq!(got.len(), 1, "expected exactly one series, got {got:?}");
    got.into_iter().next().unwrap().points
}

#[test]
fn json_path_quotes_the_key_as_one_literal_segment() {
    assert_eq!(json_path("record.attributes.unit"), r#"$."record.attributes.unit""#);
}

#[test]
fn json_path_escapes_quotes_and_backslashes() {
    assert_eq!(json_path(r#"we"ird"#), r#"$."we\"ird""#);
    assert_eq!(json_path(r"back\slash"), r#"$."back\\slash""#);
}

#[test]
fn awkward_attribute_keys_are_matchable() {
    let keys = [r#"we"ird"#, r"back\slash", "a.b", "a[0]", "a$b", "a*b"];
    let mut attrs = Object::new();
    for key in keys {
        attrs.insert(key.to_owned(), Json::Str("hit".to_owned()));
    }
    let conn = db_with(vec![m("t", 10, Json::Object(attrs))]);

    for key in keys {
        let spec = QuerySpec {
            attrs: vec![(key.to_owned(), "hit".to_owned())],
            limit: DEFAULT_LIMIT,
            ..Default::default()
        };
        let got = query(&conn, &spec).unwrap();
        assert_eq!(got.len(), 1, "key {key:?} did not match");
    }
}

#[test]
fn literal_dotted_key_does_not_resolve_as_a_nested_path() {
    let conn = db_with(vec![
        m("flat", 20, json(r#"{"a.b": "flat-hit"}"#)),
        m("nested", 10, json(r#"{"a": {"b": "nested-hit"}}"#)),
    ]);
    let spec = QuerySpec {
        attrs: vec![("a.b".to_owned(), "flat-hit".to_owned())],
        limit: DEFAULT_LIMIT,
        ..Default::default()
    };
    let got = query(&conn, &spec).unwrap();
    assert_eq!(got.len(), 1);
    assert_eq!(got[0].kind, "flat");
}

#[test]
fn nested_attribute_values_are_stored_but_never_filterable() {
    let conn = db_with(vec![m("t", 10, json(r#"{"cfg": {"mode": "fast"}, "tags": [1, 2]}"#))]);
    let all = query(&conn, &QuerySpec { limit: DEFAULT_LIMIT, ..Default::default() }).unwrap();
    assert_eq!(*member(&all[0].attributes, "cfg"), json(r#"{"mode": "fast"}"#));
    assert_eq!(*member(&all[0].attributes, "tags"), json(r#"[1, 2]"#));
    for probe in [r#"{"mode":"fast"}"#, r#"{"mode": "fast"}"#, "[1,2]"] {
        let spec = QuerySpec {
            attrs: vec![("cfg".to_owned(), probe.to_owned())],
            limit: DEFAULT_LIMIT,
            ..Default::default()
        };
        assert!(query(&conn, &spec).unwrap().is_empty(), "{probe:?} matched a nested value");
    }
}

#[test]
fn scalar_attribute_filters_of_each_type_match_as_text() {
    let conn =
        db_with(vec![m("t", 10, json(r#"{"unit": "celsius", "idx": 2, "ok": true, "f": 1.02}"#))]);
    for (k, v) in [("unit", "celsius"), ("idx", "2"), ("ok", "1"), ("f", "1.02")] {
        let spec = QuerySpec {
            attrs: vec![(k.to_owned(), v.to_owned())],
            limit: DEFAULT_LIMIT,
            ..Default::default()
        };
        assert_eq!(query(&conn, &spec).unwrap().len(), 1, "{k}={v} did not match");
    }
}

#[test]
fn attribute_filters_still_discriminate() {
    let conn = db_with(vec![m("t", 10, json(r#"{"idx": 2}"#))]);
    let spec = QuerySpec {
        attrs: vec![("idx".to_owned(), "3".to_owned())],
        limit: DEFAULT_LIMIT,
        ..Default::default()
    };
    assert!(query(&conn, &spec).unwrap().is_empty());
}

#[test]
fn type_filter_matches_any_of_the_given_types_and_attrs_are_anded() {
    let conn = db_with(vec![
        m("cpu", 30, json(r#"{"unit": "ratio"}"#)),
        m("gps", 20, json(r#"{"unit": "wgs84"}"#)),
        m("heart", 10, json(r#"{"unit": "bpm"}"#)),
    ]);

    let spec = QuerySpec {
        types: vec!["cpu".into(), "gps".into()],
        limit: DEFAULT_LIMIT,
        ..Default::default()
    };
    assert_eq!(query(&conn, &spec).unwrap().len(), 2);

    let spec = QuerySpec {
        types: vec!["cpu".into()],
        attrs: vec![("unit".to_owned(), "wgs84".to_owned())],
        limit: DEFAULT_LIMIT,
        ..Default::default()
    };
    assert!(query(&conn, &spec).unwrap().is_empty(), "attr filters must AND with type");
}

#[test]
fn time_bounds_are_inclusive_lower_exclusive_upper() {
    let conn = db_with(vec![m("t", 10, json(r#"{}"#)), m("t", 20, json(r#"{}"#)), m("t", 30, json(r#"{}"#))]);
    let spec = QuerySpec { from: Some(10), to: Some(30), limit: DEFAULT_LIMIT, ..Default::default() };
    let got = query(&conn, &spec).unwrap();
    assert_eq!(got.iter().map(|r| r.event_time).collect::<Vec<_>>(), vec![20, 10]);
}

#[test]
fn ordering_is_newest_first_with_id_breaking_ties() {
    let rows: Vec<Measurement> = (0..3).map(|i| m("t", 5, json(&format!(r#"{{"n":{i}}}"#)))).collect();
    let conn = db_with(rows);

    let got = query(&conn, &QuerySpec { limit: DEFAULT_LIMIT, ..Default::default() }).unwrap();
    assert_eq!(got.len(), 3, "distinct content must not deduplicate");

    let ids: Vec<_> = got.iter().map(|r| r.id).collect();
    let mut descending = ids.clone();
    descending.sort_unstable_by(|a, b| b.cmp(a));
    assert_eq!(ids, descending, "ties must break on id descending");
}

#[test]
fn keyset_pagination_covers_every_row_exactly_once() {
    let rows: Vec<Measurement> = (0..10)
        .map(|i| m("t", if i < 5 { 100 } else { 200 }, json(&format!(r#"{{"n":{i}}}"#))))
        .collect();
    let conn = db_with(rows);

    let mut seen = Vec::new();
    let mut cursor = None;
    loop {
        let spec = QuerySpec { limit: 3, cursor, ..Default::default() };
        let page = query(&conn, &spec).unwrap();
        if page.is_empty() {
            break;
        }
        let last = page.last().unwrap();
        cursor = Some((last.event_time, last.id));
        seen.extend(page.iter().map(|r| r.id));
    }

    let mut sorted = seen.clone();
    sorted.sort_unstable();
    sorted.dedup();
    assert_eq!(sorted.len(), 10, "pagination lost or duplicated rows: {seen:?}");
    assert_eq!(seen.len(), 10, "a row was returned twice: {seen:?}");
}

#[test]
fn types_are_listed_by_name_with_their_counts() {
    let conn = db_with(vec![
        m("zebra", 10, json(r#"{}"#)),
        m("zebra", 20, json(r#"{}"#)),
        m("zebra", 25, json(r#"{}"#)),
        m("apple", 30, json(r#"{}"#)),
    ]);
    assert_eq!(
        types(&conn).unwrap(),
        vec![
            TypeCount { kind: "apple".into(), count: 1 },
            TypeCount { kind: "zebra".into(), count: 3 },
        ]
    );
}

#[test]
fn facets_discover_attribute_keys_and_their_values() {
    let conn = db_with(vec![
        mb("s", 10, json(r#"{"c": 1}"#), json(r#"{"cell": "1", "host": "pi"}"#)),
        mb("s", 20, json(r#"{"c": 2}"#), json(r#"{"cell": "2", "host": "pi"}"#)),
    ]);
    let f = facets(&conn, &QuerySpec::default()).unwrap();

    let cell = f.attrs.iter().find(|a| a.key == "cell").expect("cell facet");
    assert_eq!(cell.values, vec!["1", "2"]);
    let host = f.attrs.iter().find(|a| a.key == "host").expect("host facet");
    assert_eq!(host.values, vec!["pi"], "a repeated value is listed once");
    assert_eq!(f.scanned, 2);
    assert!(!f.capped);
}

#[test]
fn facets_are_scoped_to_the_filter() {
    let conn = db_with(vec![
        mb("cpu", 10, json(r#"{"c": 1}"#), json(r#"{"unit": "ratio"}"#)),
        mb("gps", 20, json(r#"{"c": 2}"#), json(r#"{"unit": "wgs84"}"#)),
    ]);
    let spec = QuerySpec { types: vec!["cpu".into()], ..Default::default() };
    let f = facets(&conn, &spec).unwrap();

    let unit = f.attrs.iter().find(|a| a.key == "unit").expect("unit facet");
    assert_eq!(unit.values, vec!["ratio"], "the other type's value must not be offered");
}

#[test]
fn facets_omit_attributes_that_cannot_be_filtered() {
    let conn = db_with(vec![mb("s", 10, json(r#"{"c": 1}"#), json(r#"{"flat": "v", "nested": {"a": 1}}"#))]);
    let f = facets(&conn, &QuerySpec::default()).unwrap();

    assert!(f.attrs.iter().any(|a| a.key == "flat"));
    assert!(
        !f.attrs.iter().any(|a| a.key == "nested"),
        "a nested attribute is not filterable and must not be offered: {:?}",
        f.attrs
    );
}

#[test]
fn a_filtered_key_still_offers_its_other_values() {
    let conn = db_with(vec![
        mb("c", 10, json(r#"{"v": 1}"#), json(r#"{"cell": "1", "pack": "a"}"#)),
        mb("c", 20, json(r#"{"v": 2}"#), json(r#"{"cell": "2", "pack": "a"}"#)),
        mb("c", 30, json(r#"{"v": 3}"#), json(r#"{"cell": "3", "pack": "b"}"#)),
    ]);
    let filtered = QuerySpec {
        attrs: vec![("cell".to_owned(), "2".to_owned())],
        ..Default::default()
    };
    let narrow = facets(&conn, &filtered).unwrap();
    let narrow_cell = narrow.attrs.iter().find(|a| a.key == "cell").expect("cell");
    assert_eq!(narrow_cell.values, vec!["2"], "precondition: this is why the widened query exists");
    let widened = facet_values_excluding(&conn, &filtered, "cell").unwrap();
    assert_eq!(widened.values, vec!["1", "2", "3"]);
}

#[test]
fn widening_one_key_keeps_the_other_filters() {
    let conn = db_with(vec![
        mb("c", 10, json(r#"{"v": 1}"#), json(r#"{"cell": "1", "pack": "a"}"#)),
        mb("c", 20, json(r#"{"v": 2}"#), json(r#"{"cell": "2", "pack": "a"}"#)),
        mb("c", 30, json(r#"{"v": 3}"#), json(r#"{"cell": "3", "pack": "b"}"#)),
    ]);
    let spec = QuerySpec {
        attrs: vec![("cell".to_owned(), "1".to_owned()), ("pack".to_owned(), "a".to_owned())],
        ..Default::default()
    };

    let cells = facet_values_excluding(&conn, &spec, "cell").unwrap();
    assert_eq!(cells.values, vec!["1", "2"], "cell 3 is in pack b, which is filtered out");
}

#[test]
fn a_high_cardinality_attribute_is_marked_truncated() {
    let rows: Vec<Measurement> = (0..(MAX_FACET_VALUES as i64 + 5))
        .map(|i| mb("s", i, json(&format!(r#"{{"c":{i}}}"#)), json(&format!(r#"{{"boot":"boot-{i:03}"}}"#))))
        .collect();
    let conn = db_with(rows);
    let f = facets(&conn, &QuerySpec::default()).unwrap();

    let boot = f.attrs.iter().find(|a| a.key == "boot").expect("boot facet");
    assert_eq!(boot.values.len(), MAX_FACET_VALUES);
    assert!(boot.truncated, "a dropdown must not silently omit options");
}

#[test]
fn field_facets_report_which_leaves_are_numeric() {
    let conn = db_with(vec![
        mb("s", 10, json(r#"{"volts": 3.29, "state": "active", "n": 4}"#), json(r#"{}"#)),
    ]);
    let f = facets(&conn, &QuerySpec::default()).unwrap();

    let numeric = |name: &str| f.fields.iter().find(|x| x.name == name).expect(name).numeric;
    assert!(numeric("volts"));
    assert!(numeric("n"));
    assert!(!numeric("state"));
}

#[test]
fn a_sometimes_null_leaf_is_still_numeric() {
    let conn = db_with(vec![
        mb("u", 10, json(r#"{"ago": null}"#), json(r#"{}"#)),
        mb("u", 20, json(r#"{"ago": 12.5}"#), json(r#"{}"#)),
    ]);
    let f = facets(&conn, &QuerySpec::default()).unwrap();
    assert!(f.fields.iter().find(|x| x.name == "ago").expect("ago").numeric);
}

#[test]
fn bucket_width_is_never_zero() {
    assert_eq!(bucket_nanos(0, 240, 240), 1);
    assert_eq!(bucket_nanos(0, 2400, 240), 10);
    assert_eq!(bucket_nanos(0, 10, 240), 1);
    assert_eq!(bucket_nanos(5, 5, 240), 1, "an empty window still has a usable width");
    assert_eq!(bucket_nanos(0, 240, 0), 240, "a zero target must not divide by zero");
}

#[test]
fn a_series_aggregates_each_bucket() {
    let conn = db_with(vec![
        mb("s", 10, json(r#"{"v": 1.0}"#), json(r#"{}"#)),
        mb("s", 15, json(r#"{"v": 3.0}"#), json(r#"{}"#)),
        mb("s", 30, json(r#"{"v": 5.0}"#), json(r#"{}"#)),
    ]);
    let spec = SeriesSpec {
        filter: QuerySpec { types: vec!["s".into()], ..Default::default() },
        field: Some("v".into()),
        group: None,
        groups: vec![],
        bucket_nanos: 20,
    };
    let points = one_series(&conn, &spec);

    assert_eq!(points.len(), 2, "two buckets: [0,20) and [20,40)");
    assert_eq!(points[0].start, 0);
    assert_eq!(points[0].count, 2);
    assert_eq!(points[0].avg, Some(2.0f64.to_bits()), "mean of 1 and 3");
    assert_eq!(points[0].min, Some(1.0f64.to_bits()));
    assert_eq!(points[0].max, Some(3.0f64.to_bits()));
    assert_eq!(points[1].start, 20);
    assert_eq!(points[1].avg, Some(5.0f64.to_bits()));
}

#[test]
fn a_text_field_yields_no_values_rather_than_zeros() {
    let conn = db_with(vec![
        mb("u", 10, json(r#"{"state": "active"}"#), json(r#"{}"#)),
        mb("u", 20, json(r#"{"state": "inactive"}"#), json(r#"{}"#)),
    ]);
    let spec = SeriesSpec {
        filter: QuerySpec { types: vec!["u".into()], ..Default::default() },
        field: Some("state".into()),
        group: None,
        groups: vec![],
        bucket_nanos: 100,
    };
    let points = one_series(&conn, &spec);

    assert_eq!(points[0].count, 2, "the rows are still counted for the timeline");
    assert_eq!(points[0].value_count, 0, "but none of them carried a number");
    assert_eq!(points[0].avg, None, "and the average must be absent, NOT 0.0");
    assert_eq!(points[0].min, None);
    assert_eq!(points[0].max, None);
}

#[test]
fn nulls_are_skipped_and_counted_separately() {
    let conn = db_with(vec![
        mb("u", 10, json(r#"{"ago": null}"#), json(r#"{}"#)),
        mb("u", 11, json(r#"{"ago": 4.0}"#), json(r#"{}"#)),
        mb("u", 12, json(r#"{"ago": 6.0}"#), json(r#"{}"#)),
    ]);
    let spec = SeriesSpec {
        filter: QuerySpec { types: vec!["u".into()], ..Default::default() },
        field: Some("ago".into()),
        group: None,
        groups: vec![],
        bucket_nanos: 100,
    };
    let points = one_series(&conn, &spec);

    assert_eq!(points[0].count, 3);
    assert_eq!(points[0].value_count, 2);
    assert_eq!(points[0].avg, Some(5.0f64.to_bits()), "mean of 4 and 6, not of 4, 6 and 0");
}

#[test]
fn grouping_splits_into_one_series_per_value_in_the_caller_s_order() {
    let conn = db_with(vec![
        mb("c", 10, json(r#"{"v": 1.0}"#), json(r#"{"cell": "1"}"#)),
        mb("c", 11, json(r#"{"v": 2.0}"#), json(r#"{"cell": "2"}"#)),
        mb("c", 12, json(r#"{"v": 3.0}"#), json(r#"{"cell": "3"}"#)),
    ]);
    let spec = SeriesSpec {
        filter: QuerySpec { types: vec!["c".into()], ..Default::default() },
        field: Some("v".into()),
        group: Some("cell".into()),
        groups: vec!["3".into(), "1".into()],
        bucket_nanos: 100,
    };
    let got = charted(&conn, &spec).unwrap();

    assert_eq!(
        got.iter().map(|s| s.group.clone()).collect::<Vec<_>>(),
        vec![Some("3".to_owned()), Some("1".to_owned())],
        "cell 2 was not requested and must not appear"
    );
    assert_eq!(got[0].points[0].avg, Some(3.0f64.to_bits()));
}

#[test]
fn the_series_query_honours_every_row_filter() {
    let conn = db_with(vec![
        mb("s", 10, json(r#"{"v": 1.0}"#), json(r#"{"unit": "a"}"#)),
        mb("s", 20, json(r#"{"v": 100.0}"#), json(r#"{"unit": "b"}"#)),
        mb("other", 30, json(r#"{"v": 999.0}"#), json(r#"{"unit": "a"}"#)),
    ]);
    let spec = SeriesSpec {
        filter: QuerySpec {
            types: vec!["s".into()],
            attrs: vec![("unit".into(), "a".into())],
            from: Some(0),
            to: Some(50),
            ..Default::default()
        },
        field: Some("v".into()),
        group: None,
        groups: vec![],
        bucket_nanos: 100,
    };
    let points = one_series(&conn, &spec);

    assert_eq!(points[0].count, 1, "only the one row matching type AND attribute");
    assert_eq!(points[0].avg, Some(1.0f64.to_bits()));
}

#[test]
fn no_field_yields_counts_only() {
    let conn = db_with(vec![m("s", 10, json(r#"{}"#)), m("s", 12, json(r#"{}"#)), m("s", 40, json(r#"{}"#))]);
    let spec = SeriesSpec {
        filter: QuerySpec { types: vec!["s".into()], ..Default::default() },
        field: None,
        group: None,
        groups: vec![],
        bucket_nanos: 20,
    };
    let points = one_series(&conn, &spec);

    assert_eq!(points.len(), 2);
    assert_eq!(points[0].count, 2);
    assert_eq!(points[0].avg, None);
    assert_eq!(points[1].count, 1);
}

#[test]
fn limit_is_clamped_to_the_maximum() {
    let (_, params) = build_query(&QuerySpec { limit: 99_999, ..Default::default() });
    assert_eq!(params.last(), Some(&SqlValue::Integer(MAX_LIMIT)));

    let (_, params) = build_query(&QuerySpec { limit: 0, ..Default::default() });
    assert_eq!(params.last(), Some(&SqlValue::Integer(1)));
}

#[test]
fn the_extent_covers_the_filtered_rows() {
    let conn = db_with(vec![m("a", 10, json(r#"{}"#)), m("a", 70, json(r#"{}"#)), m("b", 99, json(r#"{}"#))]);
    let extent = |spec: QuerySpec| {
        read::extent(rows(&conn, build_extent_query(&spec), |r| Ok((r.get(0)?, r.get(1)?))).unwrap().remove(0))
    };
    assert_eq!(extent(QuerySpec { types: vec!["a".into()], ..Default::default() }), Some((10, 70)));
    assert_eq!(extent(QuerySpec { types: vec!["c".into()], ..Default::default() }), None);
}

#[test]
fn a_stored_id_of_the_wrong_width_is_an_error() {
    assert!(stored_measurement(&[1, 2], 0, 0, "t".into(), None, Json::Null).is_err());
}

#[test]
fn values_sort_as_numbers_only_if_all_of_them_are() {
    let sorted = |values: &[&str]| {
        let mut values: Vec<String> = values.iter().map(|v| (*v).to_owned()).collect();
        let parsed = values.iter().map(|v| v.parse::<f64>().ok().map(f64::to_bits)).collect();
        sort_facet_values(&mut values, &parsed);
        values
    };
    assert_eq!(sorted(&["10", "2", "1", "-3", "1.5"]), ["-3", "1", "1.5", "2", "10"]);
    assert_eq!(sorted(&["10", "2", "x"]), ["10", "2", "x"]);
    assert_eq!(sorted(&["10", "2", "inf"]), ["10", "2", "inf"]);
    assert_eq!(sorted(&[]), Vec::<String>::new());
}

#[test]
fn different_keys_have_different_paths() {
    let keys = ["a.b", r#"a"b"#, r#"a\"b"#, r"a\b", "a", ""];
    for (i, a) in keys.iter().enumerate() {
        for b in &keys[i + 1..] {
            assert_ne!(json_path(a), json_path(b));
        }
    }
}

#[test]
fn the_order_does_not_depend_on_how_values_came() {
    let sorted = |values: &[&str]| {
        let mut values: Vec<String> = values.iter().map(|v| (*v).to_owned()).collect();
        let parsed = values.iter().map(|v| v.parse::<f64>().ok().map(f64::to_bits)).collect();
        sort_facet_values(&mut values, &parsed);
        values
    };
    assert_eq!(sorted(&["3", "-1", "20"]), sorted(&["20", "3", "-1"]));
    assert_eq!(sorted(&["b", "a", "10"]), sorted(&["10", "b", "a"]));
    assert_eq!(sorted(&["1", "1.0"]), ["1", "1.0"]);
    assert_eq!(sorted(&["1.0", "1"]), ["1", "1.0"], "two texts of one number");
    assert_eq!(sorted(&["0", "-0", "-1"]), sorted(&["-0", "-1", "0"]));
}

#[test]
fn no_groups_to_draw_means_no_split() {
    let conn = db_with(vec![
        mb("c", 10, json(r#"{"v": 1.0}"#), json(r#"{}"#)),
        mb("c", 11, json(r#"{"v": 2.0}"#), json(r#"{"cell": "2"}"#)),
    ]);
    let spec = |group: Option<&str>| SeriesSpec {
        filter: QuerySpec { types: vec!["c".into()], ..Default::default() },
        field: Some("v".into()),
        group: group.map(Into::into),
        groups: vec![],
        bucket_nanos: 100,
    };
    let points = one_series(&conn, &spec(Some("cell")));
    assert_eq!(points.len(), 1);
    assert_eq!((points[0].count, points[0].value_count), (2, 2));
    assert_eq!(points, one_series(&conn, &spec(None)));
}

#[test]
fn a_position_whose_row_is_gone_goes_on_with_earlier_times() {
    let spec = |cursor| read::QuerySpec::<i64> { types: vec!["t".into()], limit: 7, cursor, ..Default::default() };
    let behind = positioned(spec(Some((50, 3))), Some(vec![9; 16]));
    assert_eq!(behind.cursor, Some((50, [9; 16])));
    assert_eq!((behind.types, behind.limit), (vec!["t".to_owned()], 7));
    assert_eq!(positioned(spec(Some((50, 3))), None).cursor, Some((50, [0; 16])));
    assert_eq!(positioned(spec(Some((50, 3))), Some(vec![1, 2])).cursor, Some((50, [0; 16])));
    assert_eq!(positioned(spec(None), None).cursor, None);
}

/// The numbers of the parameters that a statement refers to.
fn referred(sql: &str) -> std::collections::BTreeSet<usize> {
    sql.split('?')
        .skip(1)
        .map(|rest| rest.chars().take_while(char::is_ascii_digit).collect::<String>().parse().unwrap())
        .collect()
}

#[test]
fn a_statement_refers_to_each_value_and_has_none_in_its_text() {
    let spec = |word: &str, time: i64| SeriesSpec {
        filter: QuerySpec {
            types: vec![word.into(), word.into()],
            from: Some(time),
            to: Some(time),
            attrs: vec![(word.into(), word.into()); 3],
            limit: time,
            cursor: None,
        },
        field: Some(word.into()),
        group: Some(word.into()),
        groups: vec![word.into(); 4],
        bucket_nanos: time,
    };
    let (sql, params) = build_series_query(&spec("x'?1", 5));
    assert_eq!(referred(&sql), (1..=params.len()).collect());
    assert_eq!(params.len(), 17);
    assert_eq!(sql, build_series_query(&spec("other", 77)).0);

    let mut page = spec("x", 5).filter;
    page.cursor = Some((5, [1; 16]));
    let (sql, params) = build_query(&page);
    assert_eq!(referred(&sql), (1..=params.len()).collect());
    let (sql, params) = build_extent_query(&page);
    assert_eq!(referred(&sql), (1..=params.len()).collect());
}

#[test]
fn pages_list_each_row_once_while_rows_are_stored_between_them() {
    let row = |i: i64| m("t", 100 + i / 4, json(&format!(r#"{{"n":{i}}}"#)));
    let mut conn = db_with((0..20).map(row).collect());
    let first: Vec<_> = query(&conn, &QuerySpec { limit: 1000, ..Default::default() }).unwrap();
    assert_eq!(first.len(), 20);

    let mut seen: Vec<(i64, [u8; 16])> = Vec::new();
    let mut cursor = None;
    let mut later = 20;
    loop {
        let page = query(&conn, &QuerySpec { limit: 3, cursor, ..Default::default() }).unwrap();
        seen.extend(page.iter().map(|r| (r.event_time, r.id)));
        if page.len() < 3 {
            break;
        }
        cursor = Some(*seen.last().unwrap());
        insert_batch(&mut conn, &[row(later), m("t", 101, json(&format!(r#"{{"late":{later}}}"#)))]).unwrap();
        later += 1;
    }
    assert!(seen.windows(2).all(|w| w[0] > w[1]), "a row was repeated, or stands out of order: {seen:?}");
    assert!(first.iter().all(|r| seen.contains(&(r.event_time, r.id))), "a row was skipped");
}
