//! What the statements mean: which rows they admit, and what each part of them is bound to.
//!
//! A statement is read as a list of predicates on a row, each of which refers to bound values by their
//! numbers. What a predicate is written as, and what it asks of a row, stand side by side here.

use vstd::prelude::*;

use crate::bytes::bytes_before;
use crate::store::chart::{series_query, with_field, with_group};
use crate::store::facets::{sample, widened_query};
use crate::store::read::{
    extent_query, filtered, path_to, row_query, with_attrs, with_cursor, with_from, with_to, with_types, Building,
    Filter,
};
use crate::store::sql::{placeholders, SqlView};
use crate::text::{decimal, joined_with};

verus! {

/// A row, as far as the predicates look at it.
pub struct Row {
    pub kind: Seq<char>,
    pub time: i64,
    pub id: Seq<u8>,
    /// The text of the attribute at a path, where there is one.
    pub text: spec_fn(Seq<char>) -> Option<Seq<char>>,
    /// Whether the attribute at a path is an object or an array.
    pub nests: spec_fn(Seq<char>) -> bool,
}

/// A predicate. Its numbers are those of bound values, counted from one.
pub enum Pred {
    /// The type is one of so many, from a number on.
    KindAmong(nat, nat),
    NotBefore(nat),
    Before(nat),
    /// The attribute at a path does not nest, and has a value.
    Attribute(nat, nat),
    /// The attribute at a path is one of so many, from a number on.
    AttributeAmong(nat, nat, nat),
    /// The row lies behind a time and an identity.
    Behind(nat, nat),
}

/// How a statement refers to a bound value.
pub open spec fn numbered(n: nat) -> Seq<char> {
    "?"@ + decimal(n)
}

/// How a statement refers to some bound values, from a number on.
pub open spec fn numbered_from(first: nat, count: nat) -> Seq<char> {
    joined_with(Seq::new(count, |i: int| numbered((first + i) as nat)), ", "@)
}

/// What a predicate is written as.
pub open spec fn written(p: Pred) -> Seq<char> {
    match p {
        Pred::KindAmong(first, count) => "sr.type IN ("@ + numbered_from(first, count) + ")"@,
        Pred::NotBefore(n) => "m.event_time >= "@ + numbered(n),
        Pred::Before(n) => "m.event_time < "@ + numbered(n),
        Pred::Attribute(path, value) => "json_type(sr.attributes, "@ + numbered(path)
            + ") NOT IN ('object','array') AND CAST(json_extract(sr.attributes, "@ + numbered(path) + ") AS TEXT) = "@
            + numbered(value),
        Pred::AttributeAmong(path, first, count) => "CAST(json_extract(sr.attributes, "@ + numbered(path)
            + ") AS TEXT) IN ("@ + numbered_from(first, count) + ")"@,
        Pred::Behind(time, id) => "(m.event_time < "@ + numbered(time) + " OR (m.event_time = "@ + numbered(time)
            + " AND m.id < "@ + numbered(id) + "))"@,
    }
}

/// The bound value of a number.
pub open spec fn bound(params: Seq<SqlView>, n: nat) -> SqlView {
    params[n - 1]
}

/// Whether a text is one of some bound values.
pub open spec fn among(params: Seq<SqlView>, first: nat, count: nat, text: Seq<char>) -> bool {
    exists|i: int| 0 <= i < count && #[trigger] bound(params, (first + i) as nat) == SqlView::Text(text)
}

/// What a predicate asks of a row.
pub open spec fn holds(p: Pred, params: Seq<SqlView>, row: Row) -> bool {
    match p {
        Pred::KindAmong(first, count) => among(params, first, count, row.kind),
        Pred::NotBefore(n) => bound(params, n) matches SqlView::Integer(t) && t <= row.time,
        Pred::Before(n) => bound(params, n) matches SqlView::Integer(t) && row.time < t,
        Pred::Attribute(path, value) => bound(params, path) matches SqlView::Text(at) && !(row.nests)(at) && (
        row.text)(at) is Some && bound(params, value) == SqlView::Text((row.text)(at)->0),
        Pred::AttributeAmong(path, first, count) => bound(params, path) matches SqlView::Text(at) && (row.text)(at) is Some
            && among(params, first, count, (row.text)(at)->0),
        Pred::Behind(time, id) => bound(params, time) matches SqlView::Integer(t) && (row.time < t || (row.time == t
            && (bound(params, id) matches SqlView::Blob(b) && bytes_before(row.id, b)))),
    }
}

/// Whether a predicate refers to bound values that are there.
spec fn within(p: Pred, n: nat) -> bool {
    match p {
        Pred::KindAmong(first, count) => 1 <= first && first + count <= n + 1,
        Pred::NotBefore(a) => 1 <= a <= n,
        Pred::Before(a) => 1 <= a <= n,
        Pred::Attribute(a, b) => 1 <= a <= n && 1 <= b <= n,
        Pred::AttributeAmong(a, first, count) => 1 <= a <= n && 1 <= first && first + count <= n + 1,
        Pred::Behind(a, b) => 1 <= a <= n && 1 <= b <= n,
    }
}

/// What predicates are written as, each by itself.
pub open spec fn all_written(preds: Seq<Pred>) -> Seq<Seq<char>> {
    preds.map_values(|p: Pred| written(p))
}

/// The part of a statement that states predicates; nothing where there are none.
pub open spec fn where_part(preds: Seq<Pred>) -> Seq<char> {
    if preds.len() == 0 {
        Seq::empty()
    } else {
        " WHERE "@ + joined_with(all_written(preds), " AND "@)
    }
}

/// Whether a row meets every predicate.
pub open spec fn admits(preds: Seq<Pred>, params: Seq<SqlView>, row: Row) -> bool {
    forall|i: int| 0 <= i < preds.len() ==> holds(#[trigger] preds[i], params, row)
}

/// Whether a row is what a filter asks for: of one of the types, if any are named, within the bounds,
/// and each attribute with its own value.
pub open spec fn is_asked_for(f: Filter, row: Row) -> bool {
    &&& f.types.len() == 0 || f.types.contains(row.kind)
    &&& f.from matches Some(t) ==> t <= row.time
    &&& f.to matches Some(t) ==> row.time < t
    &&& forall|k: int| 0 <= k < f.attrs.len() ==> #[trigger] has_value(row, f.attrs[k].0, f.attrs[k].1)
}

/// Whether the attribute with this key has this value, and is no object or array.
pub open spec fn has_value(row: Row, key: Seq<char>, value: Seq<char>) -> bool {
    !(row.nests)(path_to(key)) && (row.text)(path_to(key)) == Some(value)
}

/// Whether a row lies behind the position a page starts at.
pub open spec fn lies_behind(cursor: Option<(i64, Seq<u8>)>, row: Row) -> bool {
    cursor matches Some((time, id)) ==> row.time < time || (row.time == time && bytes_before(row.id, id))
}

/// Whether a statement under construction reads as these predicates.
spec fn reads(b: Building, preds: Seq<Pred>) -> bool {
    &&& b.clauses == all_written(preds)
    &&& forall|i: int| 0 <= i < preds.len() ==> within(#[trigger] preds[i], b.params.len())
}

proof fn lemma_more_params(p: Pred, params: Seq<SqlView>, more: Seq<SqlView>, row: Row)
    requires
        within(p, params.len()),
    ensures
        holds(p, params + more, row) == holds(p, params, row),
{
    let all = params + more;
    assert forall|n: nat| 1 <= n <= params.len() implies #[trigger] bound(all, n) == bound(params, n) by {}
    match p {
        Pred::KindAmong(first, count) => {
            lemma_more_among(params, more, first, count, row.kind);
        },
        Pred::AttributeAmong(a, first, count) => {
            assert(bound(all, a) == bound(params, a));
            if let SqlView::Text(at) = bound(params, a) {
                if (row.text)(at) is Some {
                    lemma_more_among(params, more, first, count, (row.text)(at)->0);
                }
            }
        },
        Pred::NotBefore(a) => {
            assert(bound(all, a) == bound(params, a));
        },
        Pred::Before(a) => {
            assert(bound(all, a) == bound(params, a));
        },
        Pred::Attribute(a, b) => {
            assert(bound(all, a) == bound(params, a));
            assert(bound(all, b) == bound(params, b));
        },
        Pred::Behind(a, b) => {
            assert(bound(all, a) == bound(params, a));
            assert(bound(all, b) == bound(params, b));
        },
    }
}

proof fn lemma_more_among(params: Seq<SqlView>, more: Seq<SqlView>, first: nat, count: nat, text: Seq<char>)
    requires
        1 <= first,
        first + count <= params.len() + 1,
    ensures
        among(params + more, first, count, text) == among(params, first, count, text),
{
    let all = params + more;
    if among(all, first, count, text) {
        let i = choose|i: int| 0 <= i < count && #[trigger] bound(all, (first + i) as nat) == SqlView::Text(text);
        assert(bound(params, (first + i) as nat) == SqlView::Text(text));
    }
    if among(params, first, count, text) {
        let i = choose|i: int| 0 <= i < count && #[trigger] bound(params, (first + i) as nat) == SqlView::Text(text);
        assert(bound(all, (first + i) as nat) == SqlView::Text(text));
    }
}

/// One predicate more, with the values that it binds.
proof fn lemma_one_more(b: Building, preds: Seq<Pred>, p: Pred, more: Seq<SqlView>, c: Building)
    requires
        reads(b, preds),
        c.params == b.params + more,
        c.clauses == b.clauses.push(written(p)),
        within(p, c.params.len()),
    ensures
        reads(c, preds.push(p)),
        forall|row: Row| #[trigger]
            admits(preds.push(p), c.params, row) <==> admits(preds, b.params, row) && holds(p, c.params, row),
{
    let all = preds.push(p);
    assert(all_written(all) =~= all_written(preds).push(written(p)));
    assert forall|i: int| 0 <= i < all.len() implies within(#[trigger] all[i], c.params.len()) by {
        if i < preds.len() {
            assert(within(preds[i], b.params.len()));
        }
    }
    assert forall|row: Row| #[trigger] admits(all, c.params, row) <==> admits(preds, b.params, row) && holds(
        p,
        c.params,
        row,
    ) by {
        assert forall|i: int| 0 <= i < preds.len() implies holds(#[trigger] preds[i], c.params, row) == holds(
            preds[i],
            b.params,
            row,
        ) by {
            lemma_more_params(preds[i], b.params, more, row);
        }
        if admits(all, c.params, row) {
            assert(holds(all[preds.len() as int], c.params, row));
            assert forall|i: int| 0 <= i < preds.len() implies holds(#[trigger] preds[i], b.params, row) by {
                assert(holds(all[i], c.params, row));
            }
        }
        if admits(preds, b.params, row) && holds(p, c.params, row) {
            assert forall|i: int| 0 <= i < all.len() implies holds(#[trigger] all[i], c.params, row) by {
                if i < preds.len() {
                    assert(holds(preds[i], b.params, row));
                }
            }
        }
    }
}

proof fn lemma_numbered(bound: nat, count: nat)
    ensures
        forall|n: nat| #[trigger] crate::store::sql::placeholder(n) == numbered(n),
        joined_with(placeholders(bound, count), ", "@) == numbered_from(bound + 1, count),
{
    reveal_strlit("?");
    assert forall|n: nat| #[trigger] crate::store::sql::placeholder(n) == numbered(n) by {
        assert("?"@ =~= seq!['?']);
    }
    assert(placeholders(bound, count) =~= Seq::new(count, |i: int| numbered((bound + 1 + i) as nat)));
}

proof fn lemma_among_texts(params: Seq<SqlView>, texts: Seq<Seq<char>>, text: Seq<char>)
    ensures
        among(params + crate::store::sql::bound_texts(texts), params.len() + 1, texts.len(), text) <==> texts.contains(
            text,
        ),
{
    let all = params + crate::store::sql::bound_texts(texts);
    let first = params.len() + 1;
    assert forall|i: int| 0 <= i < texts.len() implies #[trigger] bound(all, (first + i) as nat) == SqlView::Text(
        texts[i],
    ) by {}
    if texts.contains(text) {
        let i = choose|i: int| 0 <= i < texts.len() && texts[i] == text;
        assert(bound(all, (first + i) as nat) == SqlView::Text(text));
    }
    if among(all, first, texts.len(), text) {
        let i = choose|i: int| 0 <= i < texts.len() && #[trigger] bound(all, (first + i) as nat) == SqlView::Text(text);
        assert(texts[i] == text);
    }
}

proof fn lemma_attributes(b: Building, preds: Seq<Pred>, attrs: Seq<(Seq<char>, Seq<char>)>) -> (all: Seq<Pred>)
    requires
        reads(b, preds),
    ensures
        reads(with_attrs(b, attrs), all),
        forall|row: Row| #[trigger]
            admits(all, with_attrs(b, attrs).params, row) <==> admits(preds, b.params, row) && forall|k: int|
                0 <= k < attrs.len() ==> #[trigger] has_value(row, attrs[k].0, attrs[k].1),
    decreases attrs.len(),
{
    if attrs.len() == 0 {
        preds
    } else {
        let init = attrs.drop_last();
        let (key, value) = attrs.last();
        let front = with_attrs(b, init);
        let some = lemma_attributes(b, preds, init);
        let n = front.params.len();
        let p = Pred::Attribute(n + 1, n + 2);
        let more = seq![SqlView::Text(path_to(key)), SqlView::Text(value)];
        let whole = with_attrs(b, attrs);
        lemma_numbered(0, 0);
        assert(whole.params =~= front.params + more);
        lemma_one_more(front, some, p, more, whole);
        let all = some.push(p);
        assert forall|row: Row| #[trigger] admits(all, whole.params, row) <==> admits(preds, b.params, row) && forall|
            k: int,
        |
            0 <= k < attrs.len() ==> #[trigger] has_value(row, attrs[k].0, attrs[k].1) by {
            assert(bound(whole.params, n + 1) == SqlView::Text(path_to(key)));
            assert(bound(whole.params, n + 2) == SqlView::Text(value));
            assert(holds(p, whole.params, row) == has_value(row, key, value));
            assert(admits(all, whole.params, row) <==> admits(some, front.params, row) && holds(p, whole.params, row));
            if forall|k: int| 0 <= k < attrs.len() ==> #[trigger] has_value(row, attrs[k].0, attrs[k].1) {
                assert(has_value(row, attrs[attrs.len() - 1].0, attrs[attrs.len() - 1].1));
                assert forall|k: int| 0 <= k < init.len() implies #[trigger] has_value(row, init[k].0, init[k].1) by {
                    assert(has_value(row, attrs[k].0, attrs[k].1));
                }
            }
            if admits(all, whole.params, row) {
                assert forall|k: int| 0 <= k < attrs.len() implies #[trigger] has_value(row, attrs[k].0, attrs[k].1) by {
                    if k < init.len() {
                        assert(has_value(row, init[k].0, init[k].1));
                    }
                }
            }
        }
        all
    }
}

/// The predicates that a filter reads as.
proof fn lemma_filter(f: Filter) -> (preds: Seq<Pred>)
    ensures
        reads(filtered(f), preds),
        forall|row: Row| #[trigger] admits(preds, filtered(f).params, row) <==> is_asked_for(f, row),
{
    let empty = Building { clauses: Seq::empty(), params: Seq::empty() };
    let none = Seq::<Pred>::empty();
    assert(all_written(none) =~= Seq::empty());
    assert(reads(empty, none));
    lemma_numbered(0, f.types.len());

    let b1 = with_types(empty, f.types);
    let p1 = Pred::KindAmong(1, f.types.len());
    let preds1 = if f.types.len() == 0 {
        none
    } else {
        none.push(p1)
    };
    if f.types.len() > 0 {
        lemma_one_more(empty, none, p1, crate::store::sql::bound_texts(f.types), b1);
    }
    assert forall|row: Row| #[trigger] admits(preds1, b1.params, row) <==> (f.types.len() == 0 || f.types.contains(
        row.kind,
    )) by {
        if f.types.len() > 0 {
            assert(admits(none, empty.params, row));
            lemma_among_texts(empty.params, f.types, row.kind);
        }
    }

    let b2 = with_from(b1, f.from);
    let p2 = Pred::NotBefore(b1.params.len() + 1);
    let preds2 = if f.from is None {
        preds1
    } else {
        preds1.push(p2)
    };
    if let Some(t) = f.from {
        assert(b2.params =~= b1.params + seq![SqlView::Integer(t)]);
        lemma_one_more(b1, preds1, p2, seq![SqlView::Integer(t)], b2);
        assert(bound(b2.params, b1.params.len() + 1) == SqlView::Integer(t));
    }
    let b3 = with_to(b2, f.to);
    let p3 = Pred::Before(b2.params.len() + 1);
    let preds3 = if f.to is None {
        preds2
    } else {
        preds2.push(p3)
    };
    if let Some(t) = f.to {
        assert(b3.params =~= b2.params + seq![SqlView::Integer(t)]);
        lemma_one_more(b2, preds2, p3, seq![SqlView::Integer(t)], b3);
        assert(bound(b3.params, b2.params.len() + 1) == SqlView::Integer(t));
    }
    let preds = lemma_attributes(b3, preds3, f.attrs);
    assert forall|row: Row| #[trigger] admits(preds, filtered(f).params, row) <==> is_asked_for(f, row) by {
        assert(admits(preds1, b1.params, row) <==> (f.types.len() == 0 || f.types.contains(row.kind)));
        assert(admits(preds2, b2.params, row) <==> admits(preds1, b1.params, row) && (f.from matches Some(t) ==> t
            <= row.time));
        assert(admits(preds3, b3.params, row) <==> admits(preds2, b2.params, row) && (f.to matches Some(t) ==> row.time
            < t));
    }
    preds
}

/// Whether the predicates of a statement, with its bound values, admit the rows of a filter and no other.
pub open spec fn admits_what_is_asked_for(preds: Seq<Pred>, params: Seq<SqlView>, f: Filter) -> bool {
    forall|row: Row| #[trigger] admits(preds, params, row) <==> is_asked_for(f, row)
}

proof fn lemma_where(b: Building, preds: Seq<Pred>)
    requires
        reads(b, preds),
    ensures
        crate::store::read::where_text(b.clauses) == where_part(preds),
{
    assert(b.clauses.len() == preds.len());
}

/// The statement for a page asks for the rows that a filter admits and that lie behind a position, and
/// for no other: each attribute is compared with its own value, each bound with the time it is a bound
/// of. It asks for as many rows as the limit, of which there are at least one and at most so many.
pub proof fn law_a_page_asks_for_what_is_asked(f: Filter, cursor: Option<(i64, Seq<u8>)>, limit: i64)
    ensures
        ({
            let (sql, params) = row_query(f, cursor, limit);
            exists|preds: Seq<Pred>|
                {
                    &&& sql
                        == "SELECT m.id, m.event_time, m.processed_time, sr.type, m.body, sr.attributes FROM measurement m JOIN series sr ON sr.id = m.series_id"@
                        + #[trigger] where_part(preds) + " ORDER BY m.event_time DESC, m.id DESC LIMIT "@ + numbered(
                        params.len(),
                    )
                    &&& forall|row: Row| #[trigger]
                        admits(preds, params, row) <==> is_asked_for(f, row) && lies_behind(cursor, row)
                }
        }),
        ({
            let params = row_query(f, cursor, limit).1;
            &&& params.len() > 0
            &&& 1 <= limit <= 1000 ==> params.last() == SqlView::Integer(limit)
            &&& limit < 1 ==> params.last() == SqlView::Integer(1)
            &&& limit > 1000 ==> params.last() == SqlView::Integer(1000)
        }),
{
    let first = lemma_filter(f);
    let a = filtered(f);
    let b = with_cursor(a, cursor);
    let (sql, params) = row_query(f, cursor, limit);
    lemma_numbered(0, 0);
    let p = Pred::Behind(a.params.len() + 1, a.params.len() + 2);
    let preds = if cursor is None {
        first
    } else {
        first.push(p)
    };
    if let Some((time, id)) = cursor {
        let more = seq![SqlView::Integer(time), SqlView::Blob(id)];
        assert(b.params =~= a.params + more);
        lemma_one_more(a, first, p, more, b);
        assert(bound(b.params, a.params.len() + 1) == SqlView::Integer(time));
        assert(bound(b.params, a.params.len() + 2) == SqlView::Blob(id));
    }
    lemma_where(b, preds);
    let last = seq![params.last()];
    assert(params =~= b.params + last);
    assert forall|row: Row| #[trigger] admits(preds, params, row) <==> is_asked_for(f, row) && lies_behind(
        cursor,
        row,
    ) by {
        assert(admits(first, a.params, row) <==> is_asked_for(f, row));
        assert(admits(preds, b.params, row) <==> is_asked_for(f, row) && lies_behind(cursor, row));
        lemma_admits_more(preds, b.params, last, row);
    }
    assert(sql
        == "SELECT m.id, m.event_time, m.processed_time, sr.type, m.body, sr.attributes FROM measurement m JOIN series sr ON sr.id = m.series_id"@
        + where_part(preds) + " ORDER BY m.event_time DESC, m.id DESC LIMIT "@ + numbered(params.len()));
}

proof fn lemma_admits_more(preds: Seq<Pred>, params: Seq<SqlView>, more: Seq<SqlView>, row: Row)
    requires
        forall|i: int| 0 <= i < preds.len() ==> within(#[trigger] preds[i], params.len()),
    ensures
        admits(preds, params + more, row) <==> admits(preds, params, row),
{
    assert forall|i: int| 0 <= i < preds.len() implies holds(#[trigger] preds[i], params + more, row) == holds(
        preds[i],
        params,
        row,
    ) by {
        lemma_more_params(preds[i], params, more, row);
    }
    if admits(preds, params + more, row) {
        assert forall|i: int| 0 <= i < preds.len() implies holds(#[trigger] preds[i], params, row) by {
            assert(holds(preds[i], params + more, row));
        }
    }
    if admits(preds, params, row) {
        assert forall|i: int| 0 <= i < preds.len() implies holds(#[trigger] preds[i], params + more, row) by {
            assert(holds(preds[i], params, row));
        }
    }
}

/// The statement for the extent takes the least and the greatest time of the rows that a filter admits,
/// and of no other.
pub proof fn law_an_extent_is_of_what_is_asked_for(f: Filter)
    ensures
        ({
            let (sql, params) = extent_query(f);
            exists|preds: Seq<Pred>|
                {
                    &&& sql
                        == "SELECT min(m.event_time), max(m.event_time) FROM measurement m JOIN series sr ON sr.id = m.series_id"@
                        + #[trigger] where_part(preds)
                    &&& admits_what_is_asked_for(preds, params, f)
                }
        }),
{
    let preds = lemma_filter(f);
    lemma_where(filtered(f), preds);
    assert(extent_query(f).0
        == "SELECT min(m.event_time), max(m.event_time) FROM measurement m JOIN series sr ON sr.id = m.series_id"@
        + where_part(preds));
}

/// The sample that facets are discovered in is of the rows that a filter admits, newest first, and of
/// no other; and no more than so many.
pub proof fn law_a_sample_is_of_what_is_asked_for(f: Filter)
    ensures
        ({
            let (sql, params) = sample(f);
            &&& params.len() > 0 && params.last() == SqlView::Integer(2_000)
            &&& exists|preds: Seq<Pred>|
                {
                    &&& sql
                        == "WITH sample AS (SELECT sr.attributes AS attributes, m.body AS body FROM measurement m JOIN series sr ON sr.id = m.series_id"@
                        + #[trigger] where_part(preds) + " ORDER BY m.event_time DESC, m.id DESC LIMIT "@ + numbered(
                        params.len(),
                    ) + ")"@
                    &&& admits_what_is_asked_for(preds, params, f)
                }
        }),
{
    let preds = lemma_filter(f);
    let b = filtered(f);
    let (sql, params) = sample(f);
    lemma_numbered(0, 0);
    lemma_where(b, preds);
    let last = seq![params.last()];
    assert(params =~= b.params + last);
    assert forall|row: Row| #[trigger] admits(preds, params, row) <==> is_asked_for(f, row) by {
        lemma_admits_more(preds, b.params, last, row);
        assert(admits(preds, b.params, row) <==> is_asked_for(f, row));
    }
    assert(sql
        == "WITH sample AS (SELECT sr.attributes AS attributes, m.body AS body FROM measurement m JOIN series sr ON sr.id = m.series_id"@
        + where_part(preds) + " ORDER BY m.event_time DESC, m.id DESC LIMIT "@ + numbered(params.len()) + ")"@);
}

/// The values to offer for a key are discovered among the rows that meet every filter but those on the
/// key itself, and are those of the key.
pub proof fn law_a_key_is_offered_without_its_own_filter(f: Filter, key: Seq<char>)
    ensures
        ({
            let (sql, params) = widened_query(f, key);
            &&& params.len() > 1 && params.last() == SqlView::Text(key)
            &&& exists|preds: Seq<Pred>|
                {
                    &&& sql
                        == "WITH sample AS (SELECT sr.attributes AS attributes, m.body AS body FROM measurement m JOIN series sr ON sr.id = m.series_id"@
                        + #[trigger] where_part(preds) + " ORDER BY m.event_time DESC, m.id DESC LIMIT "@ + numbered(
                        (params.len() - 1) as nat,
                    ) + ")"@
                        + " SELECT CAST(j.value AS TEXT) FROM sample s, json_each(s.attributes) j WHERE j.key = "@
                        + numbered(params.len()) + " AND j.type NOT IN ('object','array') GROUP BY 1 ORDER BY 1"@
                    &&& forall|row: Row| #[trigger]
                        admits(preds, params, row) <==> {
                            &&& f.types.len() == 0 || f.types.contains(row.kind)
                            &&& f.from matches Some(t) ==> t <= row.time
                            &&& f.to matches Some(t) ==> row.time < t
                            &&& forall|k: int|
                                0 <= k < f.attrs.len() && f.attrs[k].0 != key ==> #[trigger] has_value(
                                    row,
                                    f.attrs[k].0,
                                    f.attrs[k].1,
                                )
                        }
                }
        }),
{
    let g = crate::store::facets::widened_filter(f, key);
    let preds = lemma_filter(g);
    let b = filtered(g);
    let (sql, params) = widened_query(f, key);
    lemma_numbered(0, 0);
    lemma_where(b, preds);
    let last = seq![params[params.len() - 2], params.last()];
    assert(params =~= b.params + last);
    assert forall|row: Row| #[trigger] admits(preds, params, row) <==> {
        &&& f.types.len() == 0 || f.types.contains(row.kind)
        &&& f.from matches Some(t) ==> t <= row.time
        &&& f.to matches Some(t) ==> row.time < t
        &&& forall|k: int|
            0 <= k < f.attrs.len() && f.attrs[k].0 != key ==> #[trigger] has_value(row, f.attrs[k].0, f.attrs[k].1)
    } by {
        lemma_admits_more(preds, b.params, last, row);
        assert(admits(preds, b.params, row) <==> is_asked_for(g, row));
        lemma_others(f.attrs, key, row);
    }
    assert(sql
        == "WITH sample AS (SELECT sr.attributes AS attributes, m.body AS body FROM measurement m JOIN series sr ON sr.id = m.series_id"@
        + where_part(preds) + " ORDER BY m.event_time DESC, m.id DESC LIMIT "@ + numbered((params.len() - 1) as nat)
        + ")"@ + " SELECT CAST(j.value AS TEXT) FROM sample s, json_each(s.attributes) j WHERE j.key = "@ + numbered(
        params.len(),
    ) + " AND j.type NOT IN ('object','array') GROUP BY 1 ORDER BY 1"@);
}

proof fn lemma_others(attrs: Seq<(Seq<char>, Seq<char>)>, key: Seq<char>, row: Row)
    ensures
        ({
            let rest = crate::store::facets::others(attrs, key);
            (forall|k: int| 0 <= k < rest.len() ==> #[trigger] has_value(row, rest[k].0, rest[k].1)) <==> (forall|k: int|
                0 <= k < attrs.len() && attrs[k].0 != key ==> #[trigger] has_value(row, attrs[k].0, attrs[k].1))
        }),
{
    let rest = crate::store::facets::others(attrs, key);
    if forall|k: int| 0 <= k < rest.len() ==> #[trigger] has_value(row, rest[k].0, rest[k].1) {
        assert forall|k: int| 0 <= k < attrs.len() && attrs[k].0 != key implies #[trigger] has_value(
            row,
            attrs[k].0,
            attrs[k].1,
        ) by {
            crate::store::facets::law_widening_keeps_the_other_filters(attrs, key, attrs[k]);
            let j = choose|j: int| 0 <= j < rest.len() && rest[j] == attrs[k];
            assert(has_value(row, rest[j].0, rest[j].1));
        }
    }
    if forall|k: int| 0 <= k < attrs.len() && attrs[k].0 != key ==> #[trigger] has_value(row, attrs[k].0, attrs[k].1) {
        assert forall|k: int| 0 <= k < rest.len() implies #[trigger] has_value(row, rest[k].0, rest[k].1) by {
            crate::store::facets::law_widening_keeps_the_other_filters(attrs, key, rest[k]);
            let j = choose|j: int| 0 <= j < attrs.len() && attrs[j] == rest[k];
            assert(has_value(row, attrs[j].0, attrs[j].1));
        }
    }
}

/// What the rows of a chart are split by: the text of the attribute at a path, and nothing where it
/// nests; and nothing at all where no group is to be drawn.
pub open spec fn split_by(path: Option<nat>) -> Seq<char> {
    match path {
        None => "NULL"@,
        Some(n) => "CASE WHEN json_type(sr.attributes, "@ + numbered(n)
            + ") IN ('object','array') THEN NULL ELSE CAST(json_extract(sr.attributes, "@ + numbered(n)
            + ") AS TEXT) END"@,
    }
}

/// What a chart aggregates: the member of the body at a path where it is a number; or nothing.
pub open spec fn aggregated(path: Option<nat>) -> Seq<char> {
    match path {
        None => "NULL"@,
        Some(n) => "CASE WHEN json_type(m.body, "@ + numbered(n)
            + ") IN ('integer','real') THEN json_extract(m.body, "@ + numbered(n) + ") END"@,
    }
}

/// Whether a number is that of the path of a key; there is none where there is no key.
pub open spec fn is_path_of(params: Seq<SqlView>, path: Option<nat>, key: Option<Seq<char>>) -> bool {
    match (path, key) {
        (None, None) => true,
        (Some(n), Some(k)) => 1 <= n <= params.len() && bound(params, n) == SqlView::Text(path_to(k)),
        _ => false,
    }
}

/// The attribute that a chart is split by: none where no group is to be drawn.
pub open spec fn drawn_by(group: Option<Seq<char>>, groups: Seq<Seq<char>>) -> Option<Seq<char>> {
    if groups.len() == 0 {
        None
    } else {
        group
    }
}

/// The statement for a chart counts and aggregates the rows that a filter admits, and of a split chart
/// those of the groups to be drawn. The rows are split by the group's own attribute, the field's own
/// member is aggregated, and a bucket is as wide as was asked for, and never without width.
pub proof fn law_a_chart_is_of_what_is_asked_for(
    f: Filter,
    field: Option<Seq<char>>,
    group: Option<Seq<char>>,
    groups: Seq<Seq<char>>,
    bucket_nanos: i64,
)
    ensures
        ({
            let (sql, params) = series_query(f, field, group, groups, bucket_nanos);
            let drawn = drawn_by(group, groups);
            &&& params.len() > 0
            &&& bucket_nanos >= 1 ==> params.last() == SqlView::Integer(bucket_nanos)
            &&& bucket_nanos < 1 ==> params.last() == SqlView::Integer(1)
            &&& exists|preds: Seq<Pred>, g: Option<nat>, v: Option<nat>|
                {
                    &&& sql == "SELECT "@ + split_by(g) + " AS g, (m.event_time / "@ + numbered(params.len()) + ") * "@
                        + numbered(params.len()) + " AS bucket_start, count(*), count("@ + aggregated(v) + "), avg("@
                        + aggregated(v) + "), min("@ + aggregated(v) + "), max("@ + aggregated(v)
                        + ") FROM measurement m JOIN series sr ON sr.id = m.series_id"@ + where_part(preds)
                        + " GROUP BY g, bucket_start ORDER BY g, bucket_start"@
                    &&& is_path_of(params, g, drawn)
                    &&& is_path_of(params, v, field)
                    &&& #[trigger] is_charted(preds, params, f, drawn, groups, g, v)
                }
        }),
{
    let first = lemma_filter(f);
    let a = filtered(f);
    let (b, group_expr) = with_group(a, group, groups);
    let (bound_so_far, value_expr) = with_field(b.params, field);
    let (sql, params) = series_query(f, field, group, groups, bucket_nanos);
    lemma_numbered(a.params.len() + 1, groups.len());
    let drawn = drawn_by(group, groups);
    let n = a.params.len();
    let p = Pred::AttributeAmong(n + 1, n + 2, groups.len());
    let preds = if drawn is None {
        first
    } else {
        first.push(p)
    };
    let g = if drawn is None {
        None
    } else {
        Some(n + 1)
    };
    let v = if field is None {
        None
    } else {
        Some(b.params.len() + 1)
    };
    if let Some(key) = drawn {
        let more = seq![SqlView::Text(path_to(key))] + crate::store::sql::bound_texts(groups);
        assert(b.params =~= a.params + more);
        lemma_one_more(a, first, p, more, b);
    }
    lemma_where(b, preds);
    let rest = params.skip(b.params.len() as int);
    assert(params =~= b.params + rest);
    assert forall|row: Row| #[trigger] admits(preds, params, row) <==> is_asked_for(f, row) && (drawn matches Some(key)
        ==> (row.text)(path_to(key)) is Some && groups.contains((row.text)(path_to(key))->0)) by {
        lemma_admits_more(preds, b.params, rest, row);
        assert(admits(first, a.params, row) <==> is_asked_for(f, row));
        if let Some(key) = drawn {
            assert(bound(b.params, n + 1) == SqlView::Text(path_to(key)));
            let start = a.params.push(SqlView::Text(path_to(key)));
            assert(b.params =~= start + crate::store::sql::bound_texts(groups));
            if (row.text)(path_to(key)) is Some {
                lemma_among_texts(start, groups, (row.text)(path_to(key))->0);
            }
        }
    }
    assert(is_charted(preds, params, f, drawn, groups, g, v));
    assert(sql == "SELECT "@ + split_by(g) + " AS g, (m.event_time / "@ + numbered(params.len()) + ") * "@ + numbered(
        params.len(),
    ) + " AS bucket_start, count(*), count("@ + aggregated(v) + "), avg("@ + aggregated(v) + "), min("@ + aggregated(v)
        + "), max("@ + aggregated(v) + ") FROM measurement m JOIN series sr ON sr.id = m.series_id"@ + where_part(preds)
        + " GROUP BY g, bucket_start ORDER BY g, bucket_start"@);
    assert(is_path_of(params, g, drawn));
    assert(is_path_of(params, v, field));
}

/// Whether the predicates of a chart admit the rows of a filter, and of a split chart those of the
/// groups to be drawn, and no other.
pub open spec fn is_charted(
    preds: Seq<Pred>,
    params: Seq<SqlView>,
    f: Filter,
    drawn: Option<Seq<char>>,
    groups: Seq<Seq<char>>,
    g: Option<nat>,
    v: Option<nat>,
) -> bool {
    forall|row: Row| #[trigger]
        admits(preds, params, row) <==> is_asked_for(f, row) && (drawn matches Some(key) ==> (row.text)(path_to(key)) is Some
            && groups.contains((row.text)(path_to(key))->0))
}

} // verus!
