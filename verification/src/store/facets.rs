//! What there is to filter on and to chart within a slice of the rows.
//!
//! Discovery reads a bounded sample, the newest rows of the slice. It fills the controls, and never
//! restricts what a query returns.

use vstd::prelude::*;

use crate::store::read::{
    built, filtered, push_filters, push_where, text_pairs, where_text, Filter, QuerySpec,
};
use crate::store::sql::{bind, placeholder, sql_views, SqlValue, SqlView};
use crate::text::{same_text, texts};

verus! {

/// How many rows discovery reads.
pub const FACET_SCAN_LIMIT: i64 = 2_000;

/// How many values of one attribute are offered.
pub const MAX_FACET_VALUES: usize = 40;

/// One attribute and the values seen for it.
#[derive(Debug, PartialEq, Eq)]
pub struct AttrFacet {
    pub key: String,
    /// At most [`MAX_FACET_VALUES`].
    pub values: Vec<String>,
    /// There are more values than are listed.
    pub truncated: bool,
}

/// What an [`AttrFacet`] says.
#[verifier::ext_equal]
pub struct FacetView {
    pub key: Seq<char>,
    pub values: Seq<Seq<char>>,
    pub truncated: bool,
}

impl AttrFacet {
    pub open spec fn view(self) -> FacetView {
        FacetView { key: self.key@, values: texts(self.values@), truncated: self.truncated }
    }
}

pub open spec fn facet_views(s: Seq<AttrFacet>) -> Seq<FacetView> {
    s.map_values(|f: AttrFacet| f.view())
}

/// One leaf of the body.
#[derive(Debug, PartialEq, Eq)]
pub struct FieldFacet {
    pub name: String,
    /// It was a number in at least one row.
    pub numeric: bool,
}

/// What can be filtered and charted within a slice.
#[derive(Debug, PartialEq, Eq)]
pub struct Facets {
    pub attrs: Vec<AttrFacet>,
    pub fields: Vec<FieldFacet>,
    /// Rows examined.
    pub scanned: i64,
    pub capped: bool,
}

/// The start of every statement on the sample, and its bound values.
pub open spec fn sample(f: Filter) -> (Seq<char>, Seq<SqlView>) {
    let b = filtered(f);
    (
        "WITH sample AS (SELECT sr.attributes AS attributes, m.body AS body FROM measurement m JOIN series sr ON sr.id = m.series_id"@
            + where_text(b.clauses) + " ORDER BY m.event_time DESC, m.id DESC LIMIT "@ + placeholder(
            b.params.len() + 1,
        ) + ")"@,
        b.params.push(SqlView::Integer(FACET_SCAN_LIMIT)),
    )
}

/// The start of every statement on the sample: the newest rows that a filter admits.
pub fn build_facet_sample<Id>(spec: &QuerySpec<Id>) -> (r: (String, Vec<SqlValue>))
    ensures
        (r.0@, sql_views(r.1@)) == sample(spec.filter()),
{
    let (clauses, mut params) = push_filters(spec);
    let ghost b = built(clauses@, params@);
    assert(sql_views(params@).len() == params@.len());
    let mut sql =
        "WITH sample AS (SELECT sr.attributes AS attributes, m.body AS body FROM measurement m JOIN series sr ON sr.id = m.series_id".to_owned();
    push_where(&mut sql, &clauses);
    assert(b.clauses == texts(clauses@));
    let limit = bind(&mut params, SqlValue::Integer(FACET_SCAN_LIMIT));
    sql.append(" ORDER BY m.event_time DESC, m.id DESC LIMIT ");
    sql.append(limit.as_str());
    sql.append(")");
    (sql, params)
}

/// The attributes and their values, in order. What nests cannot be filtered on and is not offered.
pub const SELECT_ATTRS: &'static str =
    " SELECT j.key, CAST(j.value AS TEXT), count(*) FROM sample s, json_each(s.attributes) j WHERE j.type NOT IN ('object','array') GROUP BY 1, 2 ORDER BY 1, 2";

/// The leaves of bodies that are objects, and whether each is ever a number.
pub const SELECT_FIELDS: &'static str =
    " SELECT j.key, max(j.type IN ('integer','real')) FROM sample s, json_each(s.body) j WHERE json_type(s.body) = 'object' GROUP BY 1 ORDER BY 1";

/// How many rows were looked at.
pub const SELECT_SCANNED: &'static str = " SELECT count(*) FROM sample";

/// A statement on the sample; `select` is what it asks.
pub fn build_facet_query<Id>(spec: &QuerySpec<Id>, select: &str) -> (r: (String, Vec<SqlValue>))
    ensures
        (r.0@, sql_views(r.1@)) == (sample(spec.filter()).0 + select@, sample(spec.filter()).1),
{
    let (mut sql, params) = build_facet_sample(spec);
    sql.append(select);
    (sql, params)
}

/// A facet with one more value: listed while there is room. A null is no value to filter on.
pub open spec fn with_value(f: FacetView, value: Option<Seq<char>>) -> FacetView {
    match value {
        None => f,
        Some(v) => if f.values.len() < MAX_FACET_VALUES {
            FacetView { values: f.values.push(v), ..f }
        } else {
            FacetView { truncated: true, ..f }
        },
    }
}

/// The facets with a facet for this key at their end.
pub open spec fn opened(facets: Seq<FacetView>, key: Seq<char>) -> Seq<FacetView> {
    if facets.len() > 0 && facets.last().key == key {
        facets
    } else {
        facets.push(FacetView { key, values: Seq::empty(), truncated: false })
    }
}

/// The facets of rows in which one key's rows follow one another.
pub open spec fn facets_of(rows: Seq<(Seq<char>, Option<Seq<char>>)>) -> Seq<FacetView>
    decreases rows.len(),
{
    if rows.len() == 0 {
        Seq::empty()
    } else {
        let front = opened(facets_of(rows.drop_last()), rows.last().0);
        front.drop_last().push(with_value(front.last(), rows.last().1))
    }
}

/// What a value that may be null says.
pub open spec fn value_given(v: Option<String>) -> Option<Seq<char>> {
    match v {
        Some(s) => Some(s@),
        None => None,
    }
}

/// What rows of keys and values say.
pub open spec fn attr_rows(rows: Seq<(String, Option<String>)>) -> Seq<(Seq<char>, Option<Seq<char>>)> {
    Seq::new(rows.len(), |i: int| (rows[i].0@, value_given(rows[i].1)))
}

impl AttrFacet {
    /// No value seen yet.
    pub fn empty(key: String) -> (r: Self)
        ensures
            r.view() == (FacetView { key: key@, values: Seq::empty(), truncated: false }),
    {
        let r = AttrFacet { key, values: Vec::new(), truncated: false };
        assert(r.view() =~= FacetView { key: key@, values: Seq::empty(), truncated: false });
        r
    }

    /// Takes one more value.
    pub fn add(&mut self, value: Option<String>)
        ensures
            final(self).view() == with_value(old(self).view(), value_given(value)),
    {
        assert(texts(self.values@).len() == self.values@.len());
        match value {
            None => {},
            Some(v) => if self.values.len() < MAX_FACET_VALUES {
                let ghost before = texts(self.values@);
                self.values.push(v);
                assert(texts(self.values@) =~= before.push(v@));
            } else {
                self.truncated = true;
            },
        }
        assert(self.view() =~= with_value(old(self).view(), value_given(value)));
    }
}

/// Folds the rows of [`SELECT_ATTRS`] into one facet per key.
pub fn fold_attr_facets(rows: Vec<(String, Option<String>)>) -> (r: Vec<AttrFacet>)
    ensures
        facet_views(r@) == facets_of(attr_rows(rows@)),
{
    let ghost all = attr_rows(rows@);
    let mut out: Vec<AttrFacet> = Vec::new();
    proof {
        assert(all.take(0) =~= Seq::empty());
        assert(facet_views(out@) =~= Seq::<FacetView>::empty());
    }
    for row in it: rows.into_iter()
        invariant
            it.seq() == rows@,
            all == attr_rows(rows@),
            facet_views(out@) == facets_of(all.take(it.index())),
    {
        let ghost i = it.index();
        let ghost before = facet_views(out@);
        proof {
            assert(all.take(i + 1).drop_last() =~= all.take(i));
            assert(all.take(i + 1).last() == all[i]);
            assert(all[i] == (row.0@, value_given(row.1)));
            if out@.len() > 0 {
                assert(before.last() == out@.last().view());
            }
        }
        let (key, value) = row;
        let n: usize = out.len();
        let fresh = n == 0 || !same_text(out[n - 1].key.as_str(), key.as_str());
        let ghost front = opened(before, key@);
        let mut facet = if fresh {
            AttrFacet::empty(key)
        } else {
            match out.pop() {
                Some(f) => f,
                None => AttrFacet::empty(key),
            }
        };
        proof {
            assert(facet.view() == front.last());
            assert(facet_views(out@) =~= front.drop_last());
        }
        facet.add(value);
        let ghost rest = facet_views(out@);
        out.push(facet);
        assert(facet_views(out@) =~= rest.push(facet.view()));
    }
    assert(all.take(all.len() as int) =~= all);
    out
}

/// Folds the rows of [`SELECT_FIELDS`]: a leaf that is a number anywhere is numeric.
pub fn fold_field_facets(rows: Vec<(String, i64)>) -> (r: Vec<FieldFacet>)
    ensures
        r@.len() == rows@.len(),
        forall|i: int|
            0 <= i < r@.len() ==> (#[trigger] r@[i]).name == rows@[i].0 && r@[i].numeric == (rows@[i].1 != 0),
{
    let mut out: Vec<FieldFacet> = Vec::new();
    for row in it: rows.into_iter()
        invariant
            it.seq() == rows@,
            out@.len() == it.index(),
            forall|i: int|
                0 <= i < out@.len() ==> (#[trigger] out@[i]).name == rows@[i].0 && out@[i].numeric == (rows@[i].1 != 0),
    {
        let (name, numeric) = row;
        out.push(FieldFacet { name, numeric: numeric != 0 });
    }
    out
}

/// What the three statements on the sample come to.
pub fn facets(attrs: Vec<(String, Option<String>)>, fields: Vec<(String, i64)>, scanned: i64) -> (r: Facets)
    ensures
        facet_views(r.attrs@) == facets_of(attr_rows(attrs@)),
        r.fields@.len() == fields@.len(),
        forall|i: int|
            0 <= i < r.fields@.len() ==> (#[trigger] r.fields@[i]).name == fields@[i].0 && r.fields@[i].numeric == (
            fields@[i].1 != 0),
        r.scanned == scanned,
        r.capped == (scanned >= FACET_SCAN_LIMIT),
{
    Facets {
        attrs: fold_attr_facets(attrs),
        fields: fold_field_facets(fields),
        scanned,
        capped: scanned >= FACET_SCAN_LIMIT,
    }
}

/// The filters on other keys than this one.
pub open spec fn others(attrs: Seq<(Seq<char>, Seq<char>)>, key: Seq<char>) -> Seq<(Seq<char>, Seq<char>)>
    decreases attrs.len(),
{
    if attrs.len() == 0 {
        Seq::empty()
    } else if attrs.last().0 == key {
        others(attrs.drop_last(), key)
    } else {
        others(attrs.drop_last(), key).push(attrs.last())
    }
}

/// What is asked of a row, without the filter on one key. A key's own values are offered without it:
/// else the only one left to offer would be the one already chosen.
pub open spec fn widened_filter(f: Filter, key: Seq<char>) -> Filter {
    Filter { attrs: others(f.attrs, key), ..f }
}

/// The query without its filter on one key.
pub fn widened<Id: Copy>(spec: &QuerySpec<Id>, key: &str) -> (r: QuerySpec<Id>)
    ensures
        r.filter() == widened_filter(spec.filter(), key@),
        r.limit == spec.limit,
        r.cursor == spec.cursor,
{
    let mut types: Vec<String> = Vec::new();
    let mut i: usize = 0;
    while i < spec.types.len()
        invariant
            i <= spec.types@.len(),
            texts(types@) == texts(spec.types@).take(i as int),
        decreases spec.types.len() - i,
    {
        let ghost before = texts(types@);
        types.push(spec.types[i].clone());
        i += 1;
        assert(texts(types@) =~= before.push(spec.types@[i - 1]@));
        assert(texts(types@) =~= texts(spec.types@).take(i as int));
    }
    assert(texts(spec.types@).take(i as int) =~= texts(spec.types@));

    let ghost all = text_pairs(spec.attrs@);
    let mut attrs: Vec<(String, String)> = Vec::new();
    let mut k: usize = 0;
    proof {
        assert(all.take(0) =~= Seq::empty());
        assert(text_pairs(attrs@) =~= Seq::empty());
    }
    while k < spec.attrs.len()
        invariant
            k <= spec.attrs@.len(),
            all == text_pairs(spec.attrs@),
            text_pairs(attrs@) == others(all.take(k as int), key@),
        decreases spec.attrs.len() - k,
    {
        let ghost before = text_pairs(attrs@);
        proof {
            assert(all.take(k + 1).drop_last() =~= all.take(k as int));
            assert(all.take(k + 1).last() == all[k as int]);
        }
        if !same_text(spec.attrs[k].0.as_str(), key) {
            attrs.push((spec.attrs[k].0.clone(), spec.attrs[k].1.clone()));
            assert(text_pairs(attrs@) =~= before.push(all[k as int]));
        }
        k += 1;
    }
    assert(all.take(k as int) =~= all);
    QuerySpec { types, from: spec.from, to: spec.to, attrs, limit: spec.limit, cursor: spec.cursor }
}

/// The statement for the values to offer for one key, discovered without that key's own filter.
pub open spec fn widened_query(f: Filter, key: Seq<char>) -> (Seq<char>, Seq<SqlView>) {
    let (prefix, params) = sample(widened_filter(f, key));
    (
        prefix + " SELECT CAST(j.value AS TEXT) FROM sample s, json_each(s.attributes) j WHERE j.key = "@
            + placeholder(params.len() + 1) + " AND j.type NOT IN ('object','array') GROUP BY 1 ORDER BY 1"@,
        params.push(SqlView::Text(key)),
    )
}

/// The statement for the values to offer for one key, and its bound values.
pub fn build_widened_query<Id: Copy>(spec: &QuerySpec<Id>, key: &str) -> (r: (String, Vec<SqlValue>))
    ensures
        (r.0@, sql_views(r.1@)) == widened_query(spec.filter(), key@),
{
    let wide = widened(spec, key);
    let (mut sql, mut params) = build_facet_sample(&wide);
    assert(sql_views(params@).len() == params@.len());
    let at = bind(&mut params, SqlValue::Text(key.to_owned()));
    sql.append(" SELECT CAST(j.value AS TEXT) FROM sample s, json_each(s.attributes) j WHERE j.key = ");
    sql.append(at.as_str());
    sql.append(" AND j.type NOT IN ('object','array') GROUP BY 1 ORDER BY 1");
    (sql, params)
}

/// The facet of one key with these values.
pub open spec fn facet_with(key: Seq<char>, values: Seq<Option<Seq<char>>>) -> FacetView
    decreases values.len(),
{
    if values.len() == 0 {
        FacetView { key, values: Seq::empty(), truncated: false }
    } else {
        with_value(facet_with(key, values.drop_last()), values.last())
    }
}

/// What values that may be null say.
pub open spec fn values_given(values: Seq<Option<String>>) -> Seq<Option<Seq<char>>> {
    Seq::new(values.len(), |i: int| value_given(values[i]))
}

/// Folds the rows of the widened statement into the facet of its key.
pub fn facet_values_excluding(key: &str, values: Vec<Option<String>>) -> (r: AttrFacet)
    ensures
        r.view() == facet_with(key@, values_given(values@)),
{
    let ghost all = values_given(values@);
    let mut facet = AttrFacet::empty(key.to_owned());
    assert(all.take(0) =~= Seq::empty());
    for value in it: values.into_iter()
        invariant
            it.seq() == values@,
            all == values_given(values@),
            facet.view() == facet_with(key@, all.take(it.index())),
    {
        proof {
            let i = it.index();
            assert(all.take(i + 1).drop_last() =~= all.take(i));
            assert(all.take(i + 1).last() == value_given(value));
        }
        facet.add(value);
    }
    assert(all.take(all.len() as int) =~= all);
    facet
}

/// The values that are not null.
pub open spec fn present(values: Seq<Option<Seq<char>>>) -> Seq<Seq<char>>
    decreases values.len(),
{
    if values.len() == 0 {
        Seq::empty()
    } else {
        match values.last() {
            None => present(values.drop_last()),
            Some(v) => present(values.drop_last()).push(v),
        }
    }
}

/// A facet lists the first values that are not null, as many as there is room for, and says so when
/// there are more: a list never omits a value without a word.
pub proof fn law_facets_do_not_omit_silently(key: Seq<char>, values: Seq<Option<Seq<char>>>)
    ensures
        ({
            let all = present(values);
            let facet = facet_with(key, values);
            &&& facet.values == all.take(
                if all.len() < MAX_FACET_VALUES {
                    all.len() as int
                } else {
                    MAX_FACET_VALUES as int
                },
            )
            &&& facet.truncated <==> all.len() > MAX_FACET_VALUES
        }),
    decreases values.len(),
{
    if values.len() == 0 {
        assert(present(values).take(0) =~= Seq::empty());
    } else {
        law_facets_do_not_omit_silently(key, values.drop_last());
        let front = present(values.drop_last());
        let all = present(values);
        let n = if all.len() < MAX_FACET_VALUES { all.len() as int } else { MAX_FACET_VALUES as int };
        assert(facet_with(key, values).values =~= all.take(n));
    }
}

/// The values in the rows with this key.
pub open spec fn values_of(rows: Seq<(Seq<char>, Option<Seq<char>>)>, key: Seq<char>) -> Seq<Option<Seq<char>>>
    decreases rows.len(),
{
    if rows.len() == 0 {
        Seq::empty()
    } else if rows.last().0 == key {
        values_of(rows.drop_last(), key).push(rows.last().1)
    } else {
        values_of(rows.drop_last(), key)
    }
}

/// Whether the rows of one key follow one another.
pub open spec fn consecutive(rows: Seq<(Seq<char>, Option<Seq<char>>)>) -> bool {
    forall|i: int, j: int, k: int|
        0 <= i <= j <= k < rows.len() && (#[trigger] rows[i]).0 == (#[trigger] rows[k]).0 ==> (#[trigger] rows[j]).0
            == rows[i].0
}

/// Whether a row has this key.
pub open spec fn in_rows(rows: Seq<(Seq<char>, Option<Seq<char>>)>, key: Seq<char>) -> bool {
    exists|k: int| 0 <= k < rows.len() && (#[trigger] rows[k]).0 == key
}

/// Whether a facet has this key.
pub open spec fn in_facets(facets: Seq<FacetView>, key: Seq<char>) -> bool {
    exists|i: int| 0 <= i < facets.len() && (#[trigger] facets[i]).key == key
}

/// Whether no key has two facets.
pub open spec fn distinct_facets(facets: Seq<FacetView>) -> bool {
    forall|i: int, j: int| 0 <= i < j < facets.len() ==> (#[trigger] facets[i]).key != (#[trigger] facets[j]).key
}

/// How one more row changes the facets: the last one takes the value, or a new one is opened.
proof fn lemma_step(rows: Seq<(Seq<char>, Option<Seq<char>>)>)
    requires
        rows.len() > 0,
    ensures
        ({
            let before = facets_of(rows.drop_last());
            let after = facets_of(rows);
            let (key, value) = rows.last();
            if before.len() > 0 && before.last().key == key {
                &&& after.len() == before.len()
                &&& forall|i: int| 0 <= i < before.len() - 1 ==> #[trigger] after[i] == before[i]
                &&& after.last() == with_value(before.last(), value)
            } else {
                &&& after.len() == before.len() + 1
                &&& forall|i: int| 0 <= i < before.len() ==> #[trigger] after[i] == before[i]
                &&& after.last() == with_value(FacetView { key, values: Seq::empty(), truncated: false }, value)
            }
        }),
        facets_of(rows).last().key == rows.last().0,
{
}

proof fn lemma_facet_keys(rows: Seq<(Seq<char>, Option<Seq<char>>)>, key: Seq<char>)
    ensures
        in_facets(facets_of(rows), key) <==> in_rows(rows, key),
    decreases rows.len(),
{
    if rows.len() > 0 {
        let front = rows.drop_last();
        let before = facets_of(front);
        let after = facets_of(rows);
        lemma_facet_keys(front, key);
        lemma_step(rows);
        if in_rows(rows, key) {
            let k = choose|k: int| 0 <= k < rows.len() && (#[trigger] rows[k]).0 == key;
            if k < front.len() {
                assert(front[k].0 == key);
                let i = choose|i: int| 0 <= i < before.len() && (#[trigger] before[i]).key == key;
                assert(after[i].key == key);
            } else {
                assert(after[after.len() - 1].key == key);
            }
        }
        if in_facets(after, key) {
            let i = choose|i: int| 0 <= i < after.len() && (#[trigger] after[i]).key == key;
            if i < after.len() - 1 {
                assert(before[i].key == key);
                let k = choose|k: int| 0 <= k < front.len() && (#[trigger] front[k]).0 == key;
                assert(rows[k].0 == key);
            } else {
                assert(rows[rows.len() - 1].0 == key);
            }
        }
    }
}

proof fn lemma_front_consecutive(rows: Seq<(Seq<char>, Option<Seq<char>>)>)
    requires
        rows.len() > 0,
        consecutive(rows),
    ensures
        consecutive(rows.drop_last()),
        rows.len() > 1 && rows[rows.len() - 2].0 != rows.last().0 ==> !in_rows(rows.drop_last(), rows.last().0),
{
    let front = rows.drop_last();
    assert forall|i: int, j: int, k: int|
        0 <= i <= j <= k < front.len() && (#[trigger] front[i]).0 == (#[trigger] front[k]).0 implies (
    #[trigger] front[j]).0 == front[i].0 by {
        assert(rows[i] == front[i] && rows[j] == front[j] && rows[k] == front[k]);
    }
    if rows.len() > 1 && rows[rows.len() - 2].0 != rows.last().0 && in_rows(front, rows.last().0) {
        let k = choose|k: int| 0 <= k < front.len() && (#[trigger] front[k]).0 == rows.last().0;
        assert(rows[k].0 == rows[rows.len() - 1].0);
        assert(rows[rows.len() - 2].0 == rows[k].0);
    }
}

/// Where the last row opens a facet, no row before it has its key.
proof fn lemma_opens(rows: Seq<(Seq<char>, Option<Seq<char>>)>)
    requires
        rows.len() > 0,
        consecutive(rows),
        facets_of(rows.drop_last()).len() == 0 || facets_of(rows.drop_last()).last().key != rows.last().0,
    ensures
        !in_rows(rows.drop_last(), rows.last().0),
{
    let front = rows.drop_last();
    lemma_front_consecutive(rows);
    if front.len() > 0 {
        lemma_step(front);
        assert(front.last() == rows[rows.len() - 2]);
    }
}

proof fn lemma_distinct_facets(rows: Seq<(Seq<char>, Option<Seq<char>>)>)
    requires
        consecutive(rows),
    ensures
        distinct_facets(facets_of(rows)),
    decreases rows.len(),
{
    if rows.len() > 0 {
        let front = rows.drop_last();
        let before = facets_of(front);
        let after = facets_of(rows);
        lemma_front_consecutive(rows);
        lemma_distinct_facets(front);
        lemma_step(rows);
        let opens = before.len() == 0 || before.last().key != rows.last().0;
        if opens {
            lemma_opens(rows);
            lemma_facet_keys(front, rows.last().0);
        }
        assert forall|i: int, j: int| 0 <= i < j < after.len() implies (#[trigger] after[i]).key != (
        #[trigger] after[j]).key by {
            assert(after[i] == before[i]);
            if j < after.len() - 1 {
                assert(after[j] == before[j]);
            } else if opens {
                assert(before[i].key != rows.last().0);
            } else {
                assert(before[i].key != before[before.len() - 1].key);
            }
        }
    }
}

/// The fold of rows in which one key's rows follow one another has one facet for each key that
/// occurs, and that facet is the one of the key's own values.
pub proof fn law_every_key_has_its_facet(rows: Seq<(Seq<char>, Option<Seq<char>>)>, key: Seq<char>)
    requires
        consecutive(rows),
    ensures
        in_facets(facets_of(rows), key) <==> in_rows(rows, key),
        distinct_facets(facets_of(rows)),
        forall|i: int|
            0 <= i < facets_of(rows).len() && (#[trigger] facets_of(rows)[i]).key == key ==> facets_of(rows)[i]
                == facet_with(key, values_of(rows, key)),
    decreases rows.len(),
{
    lemma_facet_keys(rows, key);
    lemma_distinct_facets(rows);
    if rows.len() > 0 {
        let front = rows.drop_last();
        let before = facets_of(front);
        let after = facets_of(rows);
        let (last_key, value) = rows.last();
        lemma_front_consecutive(rows);
        law_every_key_has_its_facet(front, key);
        lemma_step(rows);
        assert forall|i: int| 0 <= i < after.len() && (#[trigger] after[i]).key == key implies after[i] == facet_with(
            key,
            values_of(rows, key),
        ) by {
            if i < after.len() - 1 {
                assert(after[i] == before[i]);
                assert(after[i].key != after[after.len() - 1].key);
            } else if before.len() > 0 && before.last().key == last_key {
                assert(before[before.len() - 1] == facet_with(key, values_of(front, key)));
                assert(values_of(rows, key).drop_last() =~= values_of(front, key));
            } else {
                lemma_opens(rows);
                assert forall|k: int| 0 <= k < front.len() implies (#[trigger] front[k]).0 != key by {}
                lemma_no_values(front, key);
                assert(values_of(rows, key) =~= seq![value]);
                assert(values_of(rows, key).drop_last() =~= Seq::empty());
                assert(facet_with(key, Seq::empty()) == (FacetView { key, values: Seq::empty(), truncated: false }));
            }
        }
    }
}

proof fn lemma_no_values(rows: Seq<(Seq<char>, Option<Seq<char>>)>, key: Seq<char>)
    requires
        forall|k: int| 0 <= k < rows.len() ==> (#[trigger] rows[k]).0 != key,
    ensures
        values_of(rows, key) == Seq::<Option<Seq<char>>>::empty(),
    decreases rows.len(),
{
    if rows.len() > 0 {
        assert forall|k: int| 0 <= k < rows.drop_last().len() implies (#[trigger] rows.drop_last()[k]).0 != key by {
            assert(rows.drop_last()[k] == rows[k]);
        }
        lemma_no_values(rows.drop_last(), key);
        assert(rows[rows.len() - 1].0 != key);
    }
}

/// Widening a key's question drops its own filter, and keeps every other one in its order.
pub proof fn law_widening_keeps_the_other_filters(attrs: Seq<(Seq<char>, Seq<char>)>, key: Seq<char>, pair: (
    Seq<char>,
    Seq<char>,
))
    ensures
        others(attrs, key).contains(pair) <==> attrs.contains(pair) && pair.0 != key,
    decreases attrs.len(),
{
    if attrs.len() > 0 {
        let front = attrs.drop_last();
        law_widening_keeps_the_other_filters(front, key, pair);
        assert(attrs =~= front.push(attrs.last()));
        if attrs.contains(pair) {
            let i = choose|i: int| 0 <= i < attrs.len() && attrs[i] == pair;
            if i < front.len() {
                assert(front[i] == pair);
            }
        }
        if front.contains(pair) {
            let i = choose|i: int| 0 <= i < front.len() && front[i] == pair;
            assert(attrs[i] == pair);
        }
        let o = others(front, key);
        if attrs.last().0 != key {
            let all = o.push(attrs.last());
            assert(all[all.len() - 1] == attrs.last());
            if o.contains(pair) {
                let i = choose|i: int| 0 <= i < o.len() && o[i] == pair;
                assert(all[i] == pair);
            }
            if all.contains(pair) && pair != attrs.last() {
                let i = choose|i: int| 0 <= i < all.len() && all[i] == pair;
                assert(o[i] == pair);
            }
        }
        assert(attrs[attrs.len() - 1] == attrs.last());
    }
}

/// The filters that are left when a key's own is dropped are all the others, in their order; and the
/// values of a key are those of its rows, in theirs.
pub proof fn law_widening_is_a_selection(
    attrs: Seq<(Seq<char>, Seq<char>)>,
    rows: Seq<(Seq<char>, Option<Seq<char>>)>,
    key: Seq<char>,
)
    ensures
        others(attrs, key) == attrs.filter(|pair: (Seq<char>, Seq<char>)| pair.0 != key),
        values_of(rows, key) == rows.filter(|row: (Seq<char>, Option<Seq<char>>)| row.0 == key).map_values(
            |row: (Seq<char>, Option<Seq<char>>)| row.1,
        ),
    decreases attrs.len() + rows.len(),
{
    reveal(Seq::filter);
    let keep = |row: (Seq<char>, Option<Seq<char>>)| row.0 == key;
    let value = |row: (Seq<char>, Option<Seq<char>>)| row.1;
    if attrs.len() > 0 {
        law_widening_is_a_selection(attrs.drop_last(), Seq::empty(), key);
    } else {
        assert(others(attrs, key) =~= attrs);
    }
    if rows.len() > 0 {
        law_widening_is_a_selection(Seq::empty(), rows.drop_last(), key);
        let front = rows.drop_last().filter(keep);
        assert(front.push(rows.last()).map_values(value) =~= front.map_values(value).push(rows.last().1));
    } else {
        assert(values_of(rows, key) =~= rows.filter(keep).map_values(value));
    }
}

/// The values that are present are those that are not null, in their order; forty of them are listed.
pub proof fn law_nulls_are_no_values(values: Seq<Option<Seq<char>>>)
    ensures
        present(values) == values.filter(|v: Option<Seq<char>>| v is Some).map_values(|v: Option<Seq<char>>| v->0),
        MAX_FACET_VALUES == 40,
    decreases values.len(),
{
    reveal(Seq::filter);
    let keep = |v: Option<Seq<char>>| v is Some;
    let value = |v: Option<Seq<char>>| v->0;
    if values.len() > 0 {
        law_nulls_are_no_values(values.drop_last());
        let front = values.drop_last().filter(keep);
        assert(front.push(values.last()).map_values(value) =~= front.map_values(value).push(value(values.last())));
    } else {
        assert(present(values) =~= values.filter(keep).map_values(value));
    }
}

} // verus!
