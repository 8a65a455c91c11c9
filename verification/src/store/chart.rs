//! The aggregated rows that a chart draws.
//!
//! Aggregating in the database bounds what a chart costs by its number of points, whatever the
//! window. A field is aggregated only where it is a number: a text would count as zero.

use vstd::prelude::*;

use crate::content_id::ContentId;
use crate::store::read::{
    built, filtered, json_path, path_to, push_clause, push_filters, push_where, where_text, Building, Filter,
    QuerySpec,
};
use crate::store::sql::{
    bind, bind_all, bound_texts, placeholder, placeholders, sql_views, SqlValue, SqlView,
};
use crate::text::{joined_with, same_text, texts};
use crate::time::{saturated, saturating_sub};

verus! {

/// The most series that a chart draws.
pub const MAX_SERIES: usize = 8;

/// What to aggregate, and how finely.
#[derive(Debug, PartialEq, Eq)]
pub struct SeriesSpec {
    /// The rows. Their limit and their position are of no account.
    pub filter: QuerySpec<ContentId>,
    /// The leaf of the body to aggregate; only counts where there is none.
    pub field: Option<String>,
    /// The attribute to split into series by.
    pub group: Option<String>,
    /// The values of the group to draw, in the order of their colours; where there are none, the rows
    /// are not split.
    pub groups: Vec<String>,
    /// The width of a bucket in nanoseconds.
    pub bucket_nanos: i64,
}

/// One bucket of one series. Averages and extremes are the bits of doubles.
#[derive(Debug, Clone, Copy, PartialEq, Eq, Structural)]
pub struct Point {
    /// The time at which the bucket starts.
    pub start: i64,
    /// Rows in the bucket.
    pub count: i64,
    /// Rows of which the field was a number.
    pub value_count: i64,
    pub avg: Option<u64>,
    pub min: Option<u64>,
    pub max: Option<u64>,
}

/// One series: a value of the group, or nothing where the rows are not split.
#[derive(Debug, PartialEq, Eq)]
pub struct Series {
    pub group: Option<String>,
    pub points: Vec<Point>,
}

/// What a [`Series`] says.
#[verifier::ext_equal]
pub struct SeriesView {
    pub group: Option<Seq<char>>,
    pub points: Seq<Point>,
}

/// A group as text.
pub open spec fn group_given(g: Option<String>) -> Option<Seq<char>> {
    match g {
        Some(s) => Some(s@),
        None => None,
    }
}

impl Series {
    pub open spec fn view(self) -> SeriesView {
        SeriesView { group: group_given(self.group), points: self.points@ }
    }
}

pub open spec fn series_views(s: Seq<Series>) -> Seq<SeriesView> {
    s.map_values(|x: Series| x.view())
}

/// The width of a bucket: the window over the number of buckets, and never zero.
pub open spec fn bucket_width(from: i64, to: i64, buckets: i64) -> int {
    let difference = saturated(to - from);
    let span = if difference < 1 {
        1
    } else {
        difference as int
    };
    let n = if buckets < 1 {
        1
    } else {
        buckets as int
    };
    if span / n < 1 {
        1
    } else {
        span / n
    }
}

/// The width of a bucket for a window and a number of buckets.
pub fn bucket_nanos(from: i64, to: i64, buckets: i64) -> (r: i64)
    ensures
        r == bucket_width(from, to, buckets),
        r >= 1,
{
    let difference: i64 = saturating_sub(to, from);
    let span: i64 = if difference < 1 { 1 } else { difference };
    let n: i64 = if buckets < 1 { 1 } else { buckets };
    let width: i64 = span / n;
    if width < 1 {
        1
    } else {
        width
    }
}

/// The value of a group as text; nothing where it nests.
pub open spec fn group_text(path: Seq<char>) -> Seq<char> {
    "CASE WHEN json_type(sr.attributes, "@ + path
        + ") IN ('object','array') THEN NULL ELSE CAST(json_extract(sr.attributes, "@ + path + ") AS TEXT) END"@
}

/// A field where it is a number.
pub open spec fn field_text(path: Seq<char>) -> Seq<char> {
    "CASE WHEN json_type(m.body, "@ + path + ") IN ('integer','real') THEN json_extract(m.body, "@ + path + ") END"@
}

/// The predicates and the bound values with those of a group, and the expression of the group. Where
/// no group is to be drawn, the rows are not split.
pub open spec fn with_group(b: Building, group: Option<Seq<char>>, groups: Seq<Seq<char>>) -> (Building, Seq<char>) {
    match group {
        Some(key) => if groups.len() == 0 {
            (b, "NULL"@)
        } else {
            let path = placeholder(b.params.len() + 1);
            let params = b.params.push(SqlView::Text(path_to(key)));
            (
                Building {
                    clauses: b.clauses.push(
                        "CAST(json_extract(sr.attributes, "@ + path + ") AS TEXT) IN ("@ + joined_with(
                            placeholders(params.len(), groups.len()),
                            ", "@,
                        ) + ")"@,
                    ),
                    params: params + bound_texts(groups),
                },
                group_text(path),
            )
        },
        None => (b, "NULL"@),
    }
}

/// The bound values with that of a field, and the expression of the field.
pub open spec fn with_field(params: Seq<SqlView>, field: Option<Seq<char>>) -> (Seq<SqlView>, Seq<char>) {
    match field {
        None => (params, "NULL"@),
        Some(name) => (params.push(SqlView::Text(path_to(name))), field_text(placeholder(params.len() + 1))),
    }
}

/// What is selected: the group, the start of the bucket, the rows, and the values.
pub open spec fn selection(group: Seq<char>, bucket: Seq<char>, value: Seq<char>) -> Seq<char> {
    "SELECT "@ + group + " AS g, (m.event_time / "@ + bucket + ") * "@ + bucket + " AS bucket_start, count(*), count("@
        + value + "), avg("@ + value + "), min("@ + value + "), max("@ + value
        + ") FROM measurement m JOIN series sr ON sr.id = m.series_id"@
}

/// The statement for the points of a chart and its bound values.
pub open spec fn series_query(
    f: Filter,
    field: Option<Seq<char>>,
    group: Option<Seq<char>>,
    groups: Seq<Seq<char>>,
    bucket_nanos: i64,
) -> (Seq<char>, Seq<SqlView>) {
    let (b, group_expr) = with_group(filtered(f), group, groups);
    let (params, value_expr) = with_field(b.params, field);
    (
        selection(group_expr, placeholder(params.len() + 1), value_expr) + where_text(b.clauses)
            + " GROUP BY g, bucket_start ORDER BY g, bucket_start"@,
        params.push(SqlView::Integer(if bucket_nanos < 1 { 1 } else { bucket_nanos })),
    )
}

fn push_group(
    clauses: &mut Vec<String>,
    params: &mut Vec<SqlValue>,
    group: &Option<String>,
    groups: &Vec<String>,
) -> (r: String)
    ensures
        (built(final(clauses)@, final(params)@), r@) == with_group(
            built(old(clauses)@, old(params)@),
            group_given(*group),
            texts(groups@),
        ),
{
    let ghost before = built(clauses@, params@);
    assert(texts(groups@).len() == groups@.len());
    match group {
        None => "NULL".to_owned(),
        Some(key) => {
            if groups.len() == 0 {
                return "NULL".to_owned();
            }
            assert(sql_views(params@).len() == params@.len());
            let path = bind(params, SqlValue::Text(json_path(key.as_str())));
            let list = bind_all(params, groups);
            let mut clause = "CAST(json_extract(sr.attributes, ".to_owned();
            clause.append(path.as_str());
            clause.append(") AS TEXT) IN (");
            clause.append(list.as_str());
            clause.append(")");
            push_clause(clauses, clause);
            let mut expr = "CASE WHEN json_type(sr.attributes, ".to_owned();
            expr.append(path.as_str());
            expr.append(") IN ('object','array') THEN NULL ELSE CAST(json_extract(sr.attributes, ");
            expr.append(path.as_str());
            expr.append(") AS TEXT) END");
            assert(built(clauses@, params@) =~= with_group(before, group_given(*group), texts(groups@)).0);
            expr
        },
    }
}

fn push_field(params: &mut Vec<SqlValue>, field: &Option<String>) -> (r: String)
    ensures
        (sql_views(final(params)@), r@) == with_field(sql_views(old(params)@), group_given(*field)),
{
    match field {
        None => "NULL".to_owned(),
        Some(name) => {
            assert(sql_views(params@).len() == params@.len());
            let path = bind(params, SqlValue::Text(json_path(name.as_str())));
            let mut expr = "CASE WHEN json_type(m.body, ".to_owned();
            expr.append(path.as_str());
            expr.append(") IN ('integer','real') THEN json_extract(m.body, ");
            expr.append(path.as_str());
            expr.append(") END");
            expr
        },
    }
}

fn select(group: &str, bucket: &str, value: &str) -> (r: String)
    ensures
        r@ == selection(group@, bucket@, value@),
{
    let mut sql = "SELECT ".to_owned();
    sql.append(group);
    sql.append(" AS g, (m.event_time / ");
    sql.append(bucket);
    sql.append(") * ");
    sql.append(bucket);
    sql.append(" AS bucket_start, count(*), count(");
    sql.append(value);
    sql.append("), avg(");
    sql.append(value);
    sql.append("), min(");
    sql.append(value);
    sql.append("), max(");
    sql.append(value);
    sql.append(") FROM measurement m JOIN series sr ON sr.id = m.series_id");
    sql
}

/// The statement for the points of a chart and its bound values.
pub fn build_series_query(spec: &SeriesSpec) -> (r: (String, Vec<SqlValue>))
    ensures
        (r.0@, sql_views(r.1@)) == series_query(
            spec.filter.filter(),
            group_given(spec.field),
            group_given(spec.group),
            texts(spec.groups@),
            spec.bucket_nanos,
        ),
{
    let (mut clauses, mut params) = push_filters(&spec.filter);
    let group_expr = push_group(&mut clauses, &mut params, &spec.group, &spec.groups);
    let ghost b = built(clauses@, params@);
    let value_expr = push_field(&mut params, &spec.field);
    assert(sql_views(params@).len() == params@.len());
    let width: i64 = if spec.bucket_nanos < 1 { 1 } else { spec.bucket_nanos };
    let bucket = bind(&mut params, SqlValue::Integer(width));
    let mut sql = select(group_expr.as_str(), bucket.as_str(), value_expr.as_str());
    push_where(&mut sql, &clauses);
    assert(b.clauses == texts(clauses@));
    sql.append(" GROUP BY g, bucket_start ORDER BY g, bucket_start");
    (sql, params)
}

/// The series of rows in which one group's rows follow one another.
pub open spec fn series_of(rows: Seq<(Option<Seq<char>>, Point)>) -> Seq<SeriesView>
    decreases rows.len(),
{
    if rows.len() == 0 {
        Seq::empty()
    } else {
        let front = series_of(rows.drop_last());
        let (group, point) = rows.last();
        if front.len() > 0 && front.last().group == group {
            front.drop_last().push(SeriesView { group, points: front.last().points.push(point) })
        } else {
            front.push(SeriesView { group, points: seq![point] })
        }
    }
}

/// What rows of groups and points say.
pub open spec fn point_rows(rows: Seq<(Option<String>, Point)>) -> Seq<(Option<Seq<char>>, Point)> {
    Seq::new(rows.len(), |i: int| (group_given(rows[i].0), rows[i].1))
}

fn same_group(a: &Option<String>, b: &Option<String>) -> (r: bool)
    ensures
        r == (group_given(*a) == group_given(*b)),
{
    match (a, b) {
        (None, None) => true,
        (Some(x), Some(y)) => same_text(x.as_str(), y.as_str()),
        _ => false,
    }
}

/// Folds the rows of the statement into one series per group.
pub fn fold_series(rows: Vec<(Option<String>, Point)>) -> (r: Vec<Series>)
    ensures
        series_views(r@) == series_of(point_rows(rows@)),
{
    let ghost all = point_rows(rows@);
    let mut out: Vec<Series> = Vec::new();
    proof {
        assert(all.take(0) =~= Seq::empty());
        assert(series_views(out@) =~= Seq::<SeriesView>::empty());
    }
    for row in it: rows.into_iter()
        invariant
            it.seq() == rows@,
            all == point_rows(rows@),
            series_views(out@) == series_of(all.take(it.index())),
    {
        let ghost i = it.index();
        let ghost before = series_views(out@);
        proof {
            assert(all.take(i + 1).drop_last() =~= all.take(i));
            assert(all.take(i + 1).last() == (group_given(row.0), row.1));
            if out@.len() > 0 {
                assert(before.last() == out@.last().view());
            }
        }
        let (group, point) = row;
        let n: usize = out.len();
        let fresh = n == 0 || !same_group(&out[n - 1].group, &group);
        let mut series = if fresh {
            Series { group, points: Vec::new() }
        } else {
            match out.pop() {
                Some(s) => s,
                None => Series { group, points: Vec::new() },
            }
        };
        let ghost rest = series_views(out@);
        let ghost points = series.points@;
        series.points.push(point);
        out.push(series);
        proof {
            assert(series.view() =~= SeriesView { group: group_given(series.group), points: points.push(point) });
            assert(series_views(out@) =~= rest.push(series.view()));
            if fresh {
                assert(points.push(point) =~= seq![point]);
                assert(rest =~= before);
            } else {
                assert(rest =~= before.drop_last());
            }
        }
    }
    assert(all.take(all.len() as int) =~= all);
    out
}

/// The position of the first series of a group, or the number of series where it has none.
pub open spec fn position(s: Seq<SeriesView>, group: Seq<char>) -> int
    decreases s.len(),
{
    if s.len() == 0 || s[0].group == Some(group) {
        0
    } else {
        1 + position(s.drop_first(), group)
    }
}

proof fn lemma_position(s: Seq<SeriesView>, group: Seq<char>)
    ensures
        0 <= position(s, group) <= s.len(),
        position(s, group) < s.len() ==> s[position(s, group)].group == Some(group),
        forall|i: int| 0 <= i < position(s, group) ==> (#[trigger] s[i]).group != Some(group),
    decreases s.len(),
{
    if s.len() > 0 && s[0].group != Some(group) {
        let rest = s.drop_first();
        lemma_position(rest, group);
        assert forall|i: int| 0 <= i < position(s, group) implies (#[trigger] s[i]).group != Some(group) by {
            if i > 0 {
                assert(s[i] == rest[i - 1]);
            }
        }
    }
}

proof fn lemma_position_unique(s: Seq<SeriesView>, group: Seq<char>, at: int)
    requires
        0 <= at <= s.len(),
        at < s.len() ==> s[at].group == Some(group),
        forall|i: int| 0 <= i < at ==> (#[trigger] s[i]).group != Some(group),
    ensures
        position(s, group) == at,
{
    lemma_position(s, group);
    let p = position(s, group);
    if p < at {
        assert(s[p].group != Some(group));
    }
    if at < p {
        assert(s[at].group != Some(group));
    }
}

/// The series in the order of these groups, and behind them those of no named group. A group without
/// rows has no series.
pub open spec fn reordered(s: Seq<SeriesView>, groups: Seq<Seq<char>>) -> Seq<SeriesView>
    decreases groups.len(),
{
    if groups.len() == 0 {
        s
    } else {
        let at = position(s, groups[0]);
        if 0 <= at < s.len() {
            seq![s[at]] + reordered(s.remove(at), groups.drop_first())
        } else {
            reordered(s, groups.drop_first())
        }
    }
}

/// Folds the rows of the statement into series, in the order of the groups asked for, which is the
/// order of their colours.
pub fn series(rows: Vec<(Option<String>, Point)>, groups: &Vec<String>) -> (r: Vec<Series>)
    ensures
        series_views(r@) == reordered(series_of(point_rows(rows@)), texts(groups@)),
{
    let mut rest = fold_series(rows);
    let mut out: Vec<Series> = Vec::new();
    let ghost wanted = texts(groups@);
    let ghost goal = reordered(series_views(rest@), wanted);
    let mut i: usize = 0;
    proof {
        assert(wanted.skip(0) =~= wanted);
        assert(series_views(out@) + goal =~= goal);
    }
    while i < groups.len()
        invariant
            i <= groups@.len(),
            wanted == texts(groups@),
            series_views(out@) + reordered(series_views(rest@), wanted.skip(i as int)) == goal,
        decreases groups.len() - i,
    {
        let ghost views = series_views(rest@);
        let ghost done = series_views(out@);
        let mut at: usize = 0;
        while at < rest.len() && !is_of(&rest[at].group, groups[i].as_str())
            invariant
                at <= rest@.len(),
                i < groups@.len(),
                views == series_views(rest@),
                forall|k: int| 0 <= k < at ==> (#[trigger] views[k]).group != Some(groups@[i as int]@),
            decreases rest.len() - at,
        {
            at += 1;
        }
        proof {
            assert(wanted.skip(i as int)[0] == groups@[i as int]@);
            assert(wanted.skip(i as int).drop_first() =~= wanted.skip(i + 1));
            lemma_position_unique(views, groups@[i as int]@, at as int);
        }
        if at < rest.len() {
            let found = rest.remove(at);
            out.push(found);
            proof {
                assert(series_views(rest@) =~= views.remove(at as int));
                assert(series_views(out@) =~= done.push(views[at as int]));
                let tail = reordered(views.remove(at as int), wanted.skip(i + 1));
                assert(done.push(views[at as int]) + tail =~= done + (seq![views[at as int]] + tail));
            }
        }
        i += 1;
    }
    proof {
        assert(wanted.skip(i as int).len() == 0);
    }
    let ghost left = series_views(rest@);
    let ghost done = series_views(out@);
    out.append(&mut rest);
    assert(series_views(out@) =~= done + left);
    out
}

fn is_of(group: &Option<String>, name: &str) -> (r: bool)
    ensures
        r == (group_given(*group) == Some(name@)),
{
    match group {
        None => false,
        Some(g) => same_text(g.as_str(), name),
    }
}

/// Putting series in order neither loses nor repeats one.
pub proof fn law_every_series_is_kept(s: Seq<SeriesView>, groups: Seq<Seq<char>>)
    ensures
        reordered(s, groups).to_multiset() == s.to_multiset(),
    decreases groups.len(),
{
    if groups.len() > 0 {
        let at = position(s, groups[0]);
        lemma_position(s, groups[0]);
        if at < s.len() {
            let rest = s.remove(at);
            law_every_series_is_kept(rest, groups.drop_first());
            let tail = reordered(rest, groups.drop_first());
            vstd::seq_lib::lemma_multiset_commutative(seq![s[at]], tail);
            vstd::seq_lib::to_multiset_build(Seq::<SeriesView>::empty(), s[at]);
            assert(Seq::<SeriesView>::empty().push(s[at]) =~= seq![s[at]]);
            vstd::seq_lib::to_multiset_remove(s, at);
            broadcast use vstd::seq_lib::group_to_multiset_ensures;

            assert(reordered(s, groups).to_multiset() =~= s.to_multiset());
        } else {
            law_every_series_is_kept(s, groups.drop_first());
        }
    }
}

/// All points of some series, one series after the other.
pub open spec fn all_points(s: Seq<SeriesView>) -> Seq<(Option<Seq<char>>, Point)>
    decreases s.len(),
{
    if s.len() == 0 {
        Seq::empty()
    } else {
        all_points(s.drop_last()) + Seq::new(
            s.last().points.len(),
            |i: int| (s.last().group, s.last().points[i]),
        )
    }
}

/// Folding rows into series neither loses, repeats nor moves a point.
pub proof fn law_every_point_is_kept(rows: Seq<(Option<Seq<char>>, Point)>)
    ensures
        all_points(series_of(rows)) == rows,
    decreases rows.len(),
{
    if rows.len() == 0 {
        assert(all_points(series_of(rows)) =~= rows);
    } else {
        let front = rows.drop_last();
        let (group, point) = rows.last();
        law_every_point_is_kept(front);
        let before = series_of(front);
        let after = series_of(rows);
        if before.len() > 0 && before.last().group == group {
            assert(after.drop_last() =~= before.drop_last());
            assert(all_points(after) =~= all_points(before).push((group, point)));
        } else {
            assert(after.drop_last() =~= before);
            assert(all_points(after) =~= all_points(before).push((group, point)));
        }
        assert(rows =~= front.push((group, point)));
    }
}

} // verus!
