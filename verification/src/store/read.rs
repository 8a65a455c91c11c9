//! Reading measurements: the statements, and what their rows come to.
//!
//! Building a statement is a pure function of what is asked for. There is one builder of predicates,
//! so that a filter means the same on a table and on the chart above it.

use vstd::prelude::*;

use crate::content_id::{from_bytes, ContentId, ID_LEN};
use crate::json::Json;
use crate::model::StoredMeasurement;
use crate::store::sql::{
    bind, bind_all, bound_texts, placeholder, placeholders, sql_views, SqlValue, SqlView,
};
use crate::text::{chars_of, join_with, joined_with, texts};

verus! {

pub const DEFAULT_LIMIT: i64 = 100;

pub const MAX_LIMIT: i64 = 1000;

/// A validated query. `Id` is what a page's position is told by, beside the time.
#[derive(Debug, PartialEq, Eq)]
pub struct QuerySpec<Id> {
    /// No filter where it is empty; else any of them.
    pub types: Vec<String>,
    /// The earliest time, inclusive.
    pub from: Option<i64>,
    /// The latest time, exclusive.
    pub to: Option<i64>,
    /// Attributes that must have these values, all of them. A key is a whole key and no path.
    pub attrs: Vec<(String, String)>,
    pub limit: i64,
    /// The time and the identity of the last row of the page before.
    pub cursor: Option<(i64, Id)>,
}

impl<Id> Default for QuerySpec<Id> {
    fn default() -> (r: Self)
        ensures
            r.types@.len() == 0,
            r.from is None,
            r.to is None,
            r.attrs@.len() == 0,
            r.limit == 0,
            r.cursor is None,
    {
        QuerySpec { types: Vec::new(), from: None, to: None, attrs: Vec::new(), limit: 0, cursor: None }
    }
}

/// The pairs of texts.
pub open spec fn text_pairs(s: Seq<(String, String)>) -> Seq<(Seq<char>, Seq<char>)> {
    Seq::new(s.len(), |i: int| (s[i].0@, s[i].1@))
}

/// What a query asks of a row.
pub struct Filter {
    pub types: Seq<Seq<char>>,
    pub from: Option<i64>,
    pub to: Option<i64>,
    pub attrs: Seq<(Seq<char>, Seq<char>)>,
}

impl<Id> QuerySpec<Id> {
    pub open spec fn filter(self) -> Filter {
        Filter { types: texts(self.types@), from: self.from, to: self.to, attrs: text_pairs(self.attrs@) }
    }
}

/// A key with what a path would take for its end escaped.
pub open spec fn escaped(key: Seq<char>) -> Seq<char>
    decreases key.len(),
{
    if key.len() == 0 {
        Seq::empty()
    } else {
        let front = escaped(key.drop_last());
        if key.last() == '"' || key.last() == '\\' {
            front.push('\\').push(key.last())
        } else {
            front.push(key.last())
        }
    }
}

/// The path to the member with this key, the key being one quoted segment.
pub open spec fn path_to(key: Seq<char>) -> Seq<char> {
    ("$.\""@ + escaped(key)).push('"')
}

/// The path to the member with this key. A key may hold dots, so it is never split; a quote and a
/// backslash are escaped, since a path that does not parse would match nothing without a word.
pub fn json_path(key: &str) -> (r: String)
    ensures
        r@ == path_to(key@),
{
    let cs = chars_of(key);
    let mut out = "$.\"".to_owned();
    let ghost head = out@;
    let mut i: usize = 0;
    proof {
        assert(head + escaped(key@.take(0)) =~= head);
    }
    while i < cs.len()
        invariant
            i <= cs@.len(),
            cs@ == key@,
            out@ == head + escaped(key@.take(i as int)),
        decreases cs.len() - i,
    {
        let ghost before = escaped(key@.take(i as int));
        let c: char = cs[i];
        if c == '"' || c == '\\' {
            out.push('\\');
        }
        out.push(c);
        proof {
            assert(key@.take(i + 1).drop_last() =~= key@.take(i as int));
            assert(key@.take(i + 1).last() == c);
            assert(out@ =~= head + escaped(key@.take(i + 1)));
        }
        i += 1;
    }
    proof {
        assert(key@.take(i as int) =~= key@);
    }
    out.push('"');
    out
}

/// A statement under construction: its predicates and its bound values.
#[verifier::ext_equal]
pub struct Building {
    pub clauses: Seq<Seq<char>>,
    pub params: Seq<SqlView>,
}

pub open spec fn with_types(b: Building, types: Seq<Seq<char>>) -> Building {
    if types.len() == 0 {
        b
    } else {
        Building {
            clauses: b.clauses.push(
                "sr.type IN ("@ + joined_with(placeholders(b.params.len(), types.len()), ", "@) + ")"@,
            ),
            params: b.params + bound_texts(types),
        }
    }
}

pub open spec fn with_from(b: Building, from: Option<i64>) -> Building {
    match from {
        None => b,
        Some(t) => Building {
            clauses: b.clauses.push("m.event_time >= "@ + placeholder(b.params.len() + 1)),
            params: b.params.push(SqlView::Integer(t)),
        },
    }
}

pub open spec fn with_to(b: Building, to: Option<i64>) -> Building {
    match to {
        None => b,
        Some(t) => Building {
            clauses: b.clauses.push("m.event_time < "@ + placeholder(b.params.len() + 1)),
            params: b.params.push(SqlView::Integer(t)),
        },
    }
}

/// Whether an attribute has a value, compared as text. What nests has no text to compare.
pub open spec fn attr_clause(path: Seq<char>, value: Seq<char>) -> Seq<char> {
    "json_type(sr.attributes, "@ + path + ") NOT IN ('object','array') AND CAST(json_extract(sr.attributes, "@
        + path + ") AS TEXT) = "@ + value
}

pub open spec fn with_attrs(b: Building, attrs: Seq<(Seq<char>, Seq<char>)>) -> Building
    decreases attrs.len(),
{
    if attrs.len() == 0 {
        b
    } else {
        let front = with_attrs(b, attrs.drop_last());
        let n = front.params.len();
        Building {
            clauses: front.clauses.push(attr_clause(placeholder(n + 1), placeholder(n + 2))),
            params: front.params.push(SqlView::Text(path_to(attrs.last().0))).push(SqlView::Text(attrs.last().1)),
        }
    }
}

/// A statement under construction with the predicates of a filter.
pub open spec fn filtered(f: Filter) -> Building {
    let empty = Building { clauses: Seq::empty(), params: Seq::empty() };
    with_attrs(with_to(with_from(with_types(empty, f.types), f.from), f.to), f.attrs)
}

/// The statement that has been built so far.
pub open spec fn built(clauses: Seq<String>, params: Seq<SqlValue>) -> Building {
    Building { clauses: texts(clauses), params: sql_views(params) }
}

pub(crate) fn push_clause(clauses: &mut Vec<String>, clause: String)
    ensures
        texts(final(clauses)@) == texts(old(clauses)@).push(clause@),
{
    clauses.push(clause);
    assert(texts(clauses@) =~= texts(old(clauses)@).push(clause@));
}

/// The predicates on type, time and attributes, with their bound values.
pub(crate) fn push_filters<Id>(spec: &QuerySpec<Id>) -> (r: (Vec<String>, Vec<SqlValue>))
    ensures
        built(r.0@, r.1@) == filtered(spec.filter()),
{
    let mut clauses: Vec<String> = Vec::new();
    let mut params: Vec<SqlValue> = Vec::new();
    let ghost f = spec.filter();
    let ghost empty = Building { clauses: Seq::empty(), params: Seq::empty() };
    assert(built(clauses@, params@) =~= empty);

    if spec.types.len() > 0 {
        let list = bind_all(&mut params, &spec.types);
        let mut clause = "sr.type IN (".to_owned();
        clause.append(list.as_str());
        clause.append(")");
        push_clause(&mut clauses, clause);
        assert(sql_views(params@) =~= bound_texts(f.types));
    }
    assert(built(clauses@, params@) =~= with_types(empty, f.types));

    match spec.from {
        None => {},
        Some(t) => {
            let at = bind(&mut params, SqlValue::Integer(t));
            let mut clause = "m.event_time >= ".to_owned();
            clause.append(at.as_str());
            push_clause(&mut clauses, clause);
        },
    }
    assert(built(clauses@, params@) =~= with_from(with_types(empty, f.types), f.from));

    match spec.to {
        None => {},
        Some(t) => {
            let at = bind(&mut params, SqlValue::Integer(t));
            let mut clause = "m.event_time < ".to_owned();
            clause.append(at.as_str());
            push_clause(&mut clauses, clause);
        },
    }
    let ghost base = with_to(with_from(with_types(empty, f.types), f.from), f.to);
    assert(built(clauses@, params@) =~= base);

    let mut i: usize = 0;
    assert(f.attrs.take(0) =~= Seq::<(Seq<char>, Seq<char>)>::empty());
    while i < spec.attrs.len()
        invariant
            i <= spec.attrs@.len(),
            f == spec.filter(),
            built(clauses@, params@) == with_attrs(base, f.attrs.take(i as int)),
        decreases spec.attrs.len() - i,
    {
        let ghost front = with_attrs(base, f.attrs.take(i as int));
        proof {
            assert(f.attrs.take(i + 1).drop_last() =~= f.attrs.take(i as int));
            assert(f.attrs.take(i + 1).last() == f.attrs[i as int]);
            assert(sql_views(params@).len() == params@.len());
        }
        let path = bind(&mut params, SqlValue::Text(json_path(spec.attrs[i].0.as_str())));
        let value = bind(&mut params, SqlValue::Text(spec.attrs[i].1.clone()));
        let mut clause = "json_type(sr.attributes, ".to_owned();
        clause.append(path.as_str());
        clause.append(") NOT IN ('object','array') AND CAST(json_extract(sr.attributes, ");
        clause.append(path.as_str());
        clause.append(") AS TEXT) = ");
        clause.append(value.as_str());
        push_clause(&mut clauses, clause);
        i += 1;
        assert(built(clauses@, params@) =~= with_attrs(base, f.attrs.take(i as int)));
    }
    assert(f.attrs.take(i as int) =~= f.attrs);
    (clauses, params)
}

/// The predicates as the part of a statement that states them; nothing where there are none.
pub open spec fn where_text(clauses: Seq<Seq<char>>) -> Seq<char> {
    if clauses.len() == 0 {
        Seq::empty()
    } else {
        " WHERE "@ + joined_with(clauses, " AND "@)
    }
}

pub(crate) fn push_where(sql: &mut String, clauses: &Vec<String>)
    ensures
        final(sql)@ == old(sql)@ + where_text(texts(clauses@)),
{
    if clauses.len() > 0 {
        let joined = join_with(clauses, " AND ");
        sql.append(" WHERE ");
        sql.append(joined.as_str());
        assert(sql@ =~= old(sql)@ + where_text(texts(clauses@)));
    } else {
        assert(sql@ =~= old(sql)@ + where_text(texts(clauses@)));
    }
}

/// `n` where it lies between `low` and `high`, else the nearer of them.
pub open spec fn clamped(n: i64, low: i64, high: i64) -> i64 {
    if n < low {
        low
    } else if n > high {
        high
    } else {
        n
    }
}

pub fn clamp(n: i64, low: i64, high: i64) -> (r: i64)
    requires
        low <= high,
    ensures
        r == clamped(n, low, high),
{
    if n < low {
        low
    } else if n > high {
        high
    } else {
        n
    }
}

/// The rows with what their series says of them.
pub const SELECT_ROWS: &'static str =
    "SELECT m.id, m.event_time, m.processed_time, sr.type, m.body, sr.attributes FROM measurement m JOIN series sr ON sr.id = m.series_id";

/// A statement under construction with the position of a page.
pub open spec fn with_cursor(b: Building, cursor: Option<(i64, Seq<u8>)>) -> Building {
    match cursor {
        None => b,
        Some((time, id)) => {
            let t = placeholder(b.params.len() + 1);
            Building {
                clauses: b.clauses.push(
                    "(m.event_time < "@ + t + " OR (m.event_time = "@ + t + " AND m.id < "@ + placeholder(
                        b.params.len() + 2,
                    ) + "))"@,
                ),
                params: b.params.push(SqlView::Integer(time)).push(SqlView::Blob(id)),
            }
        },
    }
}

/// The position that a page starts behind.
pub open spec fn cursor_of(spec: QuerySpec<ContentId>) -> Option<(i64, Seq<u8>)> {
    match spec.cursor {
        None => None,
        Some((time, id)) => Some((time, id@)),
    }
}

/// The statement for one page, newest first, the identity breaking ties.
pub open spec fn row_query(f: Filter, cursor: Option<(i64, Seq<u8>)>, limit: i64) -> (Seq<char>, Seq<SqlView>) {
    let b = with_cursor(filtered(f), cursor);
    (
        SELECT_ROWS@ + where_text(b.clauses) + " ORDER BY m.event_time DESC, m.id DESC LIMIT "@ + placeholder(
            b.params.len() + 1,
        ),
        b.params.push(SqlView::Integer(clamped(limit, 1, MAX_LIMIT))),
    )
}

/// The statement for one page and its bound values. A page starts behind the position of the one
/// before, and not at a number of rows, so pages stay right while rows are stored.
pub fn build_query(spec: &QuerySpec<ContentId>) -> (r: (String, Vec<SqlValue>))
    ensures
        (r.0@, sql_views(r.1@)) == row_query(spec.filter(), cursor_of(*spec), spec.limit),
{
    let (mut clauses, mut params) = push_filters(spec);
    let ghost b = filtered(spec.filter());
    match &spec.cursor {
        None => {},
        Some(position) => {
            assert(sql_views(params@).len() == params@.len());
            let time = bind(&mut params, SqlValue::Integer(position.0));
            let id = bind(&mut params, SqlValue::Blob(copied(&position.1)));
            let mut clause = "(m.event_time < ".to_owned();
            clause.append(time.as_str());
            clause.append(" OR (m.event_time = ");
            clause.append(time.as_str());
            clause.append(" AND m.id < ");
            clause.append(id.as_str());
            clause.append("))");
            push_clause(&mut clauses, clause);
        },
    }
    assert(built(clauses@, params@) =~= with_cursor(b, cursor_of(*spec)));
    assert(sql_views(params@).len() == params@.len());
    let limit = bind(&mut params, SqlValue::Integer(clamp(spec.limit, 1, MAX_LIMIT)));
    let mut sql = SELECT_ROWS.to_owned();
    push_where(&mut sql, &clauses);
    sql.append(" ORDER BY m.event_time DESC, m.id DESC LIMIT ");
    sql.append(limit.as_str());
    (sql, params)
}

fn copied(id: &ContentId) -> (r: Vec<u8>)
    ensures
        r@ == id@,
{
    let mut out: Vec<u8> = Vec::new();
    let mut i: usize = 0;
    while i < 16
        invariant
            i <= 16,
            out@ == id@.take(i as int),
        decreases 16 - i,
    {
        out.push(id[i]);
        i += 1;
        assert(out@ =~= id@.take(i as int));
    }
    assert(id@.take(16) =~= id@);
    out
}

/// The least identity there is; no row stands before it.
pub open spec fn least_id() -> Seq<u8> {
    Seq::new(ID_LEN as nat, |i: int| 0u8)
}

/// The identity that a page goes on behind, given that of the row it was told by, where the row is
/// still there. Where it is not, the page goes on with the rows of an earlier time.
pub open spec fn id_behind(found: Option<Seq<u8>>) -> Seq<u8> {
    match found {
        Some(id) => if id.len() == ID_LEN {
            id
        } else {
            least_id()
        },
        None => least_id(),
    }
}

/// A query by the numbers of rows as one by their identities: `found` is the identity of the row that
/// the position names, if it is still there.
pub fn positioned(spec: QuerySpec<i64>, found: Option<Vec<u8>>) -> (r: QuerySpec<ContentId>)
    ensures
        r.filter() == spec.filter(),
        r.limit == spec.limit,
        cursor_of(r) == match spec.cursor {
            None => None::<(i64, Seq<u8>)>,
            Some((time, _)) => Some(
                (
                    time,
                    id_behind(
                        match found {
                            Some(id) => Some(id@),
                            None => None,
                        },
                    ),
                ),
            ),
        },
{
    let known = match found {
        Some(id) => from_bytes(id.as_slice()),
        None => None,
    };
    let id: ContentId = match known {
        Some(id) => id,
        None => [0u8; 16],
    };
    proof {
        if known is None {
            assert(id@ =~= least_id());
        }
    }
    let cursor = match spec.cursor {
        None => None,
        Some((time, _)) => Some((time, id)),
    };
    QuerySpec {
        types: spec.types,
        from: spec.from,
        to: spec.to,
        attrs: spec.attrs,
        limit: spec.limit,
        cursor,
    }
}

/// The identity of a row, by its number.
pub const SELECT_ID: &'static str = "SELECT id FROM measurement WHERE rowid = ?1";

/// The number of a row, by its identity.
pub const SELECT_NUMBER: &'static str = "SELECT rowid FROM measurement WHERE id = ?1";

/// The types and how many rows carry each, in the order of their names.
pub const SELECT_TYPES: &'static str =
    "SELECT sr.type, count(*) FROM measurement m JOIN series sr ON sr.id = m.series_id GROUP BY sr.type ORDER BY sr.type";

/// One type and how many rows carry it.
#[derive(Debug, PartialEq, Eq)]
pub struct TypeCount {
    pub kind: String,
    pub count: i64,
}

/// The earliest and the latest time of the rows that a filter admits.
pub open spec fn extent_query(f: Filter) -> (Seq<char>, Seq<SqlView>) {
    let b = filtered(f);
    (
        "SELECT min(m.event_time), max(m.event_time) FROM measurement m JOIN series sr ON sr.id = m.series_id"@
            + where_text(b.clauses),
        b.params,
    )
}

/// The statement for the earliest and the latest time, and its bound values.
pub fn build_extent_query<Id>(spec: &QuerySpec<Id>) -> (r: (String, Vec<SqlValue>))
    ensures
        (r.0@, sql_views(r.1@)) == extent_query(spec.filter()),
{
    let (clauses, params) = push_filters(spec);
    let ghost b = built(clauses@, params@);
    let mut sql =
        "SELECT min(m.event_time), max(m.event_time) FROM measurement m JOIN series sr ON sr.id = m.series_id".to_owned();
    push_where(&mut sql, &clauses);
    assert(b.clauses == texts(clauses@));
    (sql, params)
}

/// The extent, where there is one: an empty slice has neither bound.
pub fn extent(row: (Option<i64>, Option<i64>)) -> (r: Option<(i64, i64)>)
    ensures
        r == match row {
            (Some(min), Some(max)) => Some((min, max)),
            _ => None,
        },
{
    match row {
        (Some(min), Some(max)) => Some((min, max)),
        _ => None,
    }
}

/// A row as a measurement. An identity of another length was not written by this program.
pub fn stored_measurement(
    id: &[u8],
    event_time: i64,
    processed_time: i64,
    kind: String,
    body: Option<Json>,
    attributes: Json,
) -> (r: Result<StoredMeasurement, String>)
    ensures
        match r {
            Ok(m) => {
                &&& m.id@ == id@
                &&& m.event_time == event_time
                &&& m.processed_time == processed_time
                &&& m.kind == kind
                &&& m.body == body
                &&& m.attributes == attributes
            },
            Err(words) => id@.len() != ID_LEN && words@ == "stored id is not 16 bytes"@,
        },
        r is Ok <==> id@.len() == ID_LEN,
{
    match from_bytes(id) {
        Some(id) => Ok(StoredMeasurement { id, event_time, processed_time, kind, body, attributes }),
        None => Err("stored id is not 16 bytes".to_owned()),
    }
}

/// An escaped key holds its characters in order, and each quote and backslash behind a backslash; so
/// it is read from its front without doubt.
proof fn lemma_escaped_front(key: Seq<char>)
    requires
        key.len() > 0,
    ensures
        escaped(key) == (if key[0] == '"' || key[0] == '\\' {
            seq!['\\', key[0]]
        } else {
            seq![key[0]]
        }) + escaped(key.drop_first()),
    decreases key.len(),
{
    if key.len() == 1 {
        assert(key.drop_last() =~= Seq::<char>::empty());
        assert(key.drop_first() =~= Seq::<char>::empty());
        assert(escaped(key) =~= (if key[0] == '"' || key[0] == '\\' {
            seq!['\\', key[0]]
        } else {
            seq![key[0]]
        }) + escaped(key.drop_first()));
    } else {
        lemma_escaped_front(key.drop_last());
        assert(key.drop_first().drop_last() =~= key.drop_last().drop_first());
        assert(escaped(key) =~= (if key[0] == '"' || key[0] == '\\' {
            seq!['\\', key[0]]
        } else {
            seq![key[0]]
        }) + escaped(key.drop_first()));
    }
}

proof fn lemma_escaped_injective(a: Seq<char>, b: Seq<char>)
    requires
        escaped(a) == escaped(b),
    ensures
        a == b,
    decreases a.len(),
{
    if a.len() == 0 {
        if b.len() > 0 {
            lemma_escaped_front(b);
        }
        assert(a =~= b);
    } else {
        lemma_escaped_front(a);
        if b.len() == 0 {
            assert(escaped(a).len() > 0);
        } else {
            lemma_escaped_front(b);
            let x = escaped(a);
            assert(x[0] == escaped(b)[0]);
            if x[0] == '\\' {
                assert(x[1] == a[0] && x[1] == b[0]);
                assert(escaped(a.drop_first()) =~= x.skip(2));
                assert(escaped(b.drop_first()) =~= x.skip(2));
            } else {
                assert(escaped(a.drop_first()) =~= x.skip(1));
                assert(escaped(b.drop_first()) =~= x.skip(1));
            }
            lemma_escaped_injective(a.drop_first(), b.drop_first());
            assert(a =~= seq![a[0]] + a.drop_first());
            assert(b =~= seq![b[0]] + b.drop_first());
        }
    }
}

/// Every key has a path of its own, whatever characters it is made of.
pub proof fn law_paths_tell_keys_apart(a: Seq<char>, b: Seq<char>)
    ensures
        path_to(a) == path_to(b) <==> a == b,
{
    if path_to(a) == path_to(b) {
        let head = "$.\""@;
        let n = head.len() as int;
        assert(escaped(a) =~= path_to(a).subrange(n, path_to(a).len() - 1));
        assert(escaped(b) =~= path_to(b).subrange(n, path_to(b).len() - 1));
        lemma_escaped_injective(a, b);
    }
}

} // verus!
