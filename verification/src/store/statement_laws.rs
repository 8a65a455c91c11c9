//! What holds of every statement that is built: its text depends on how much is asked for and not on
//! what, and it refers to each of its bound values and to nothing else.

use vstd::prelude::*;

use crate::store::chart::{field_text, group_text, selection, series_query, with_field, with_group};
use crate::store::read::{
    attr_clause, extent_query, filtered, path_to, row_query, where_text, with_attrs, with_cursor, with_from, with_to,
    with_types, Building, Filter, SELECT_ROWS,
};
use crate::store::sql::{bound_texts, placeholder, placeholders, SqlView};
use crate::text::{decimal, digit, is_digit, joined_with};

verus! {

/// Whether the number `n` of a parameter stands at `i` in a text: a question mark, the digits, and no
/// further digit.
pub open spec fn stands_at(text: Seq<char>, n: nat, i: int) -> bool {
    let end = i + 1 + decimal(n).len();
    &&& 0 <= i < text.len()
    &&& text[i] == '?'
    &&& end <= text.len()
    &&& text.subrange(i + 1, end) == decimal(n)
    &&& end < text.len() ==> !is_digit(text[end])
}

/// Whether a text refers to the parameter number `n`.
pub open spec fn refers_to(text: Seq<char>, n: nat) -> bool {
    exists|i: int| #[trigger] stands_at(text, n, i)
}

/// Whether a text has no question mark, and starts with no digit.
spec fn plain(text: Seq<char>) -> bool {
    &&& starts_well(text)
    &&& forall|i: int| 0 <= i < text.len() ==> #[trigger] text[i] != '?'
}

/// Whether a text starts, and with no digit: so that it does not go on with a number before it.
spec fn starts_well(text: Seq<char>) -> bool {
    text.len() > 0 && !is_digit(text[0])
}

proof fn lemma_decimal(n: nat)
    ensures
        decimal(n).len() > 0,
        forall|i: int| 0 <= i < decimal(n).len() ==> is_digit(#[trigger] decimal(n)[i]),
    decreases n,
{
    if n >= 10 {
        lemma_decimal(n / 10);
    }
}

proof fn lemma_decimals_differ(a: nat, b: nat)
    requires
        decimal(a) == decimal(b),
    ensures
        a == b,
    decreases a,
{
    lemma_decimal(a / 10);
    lemma_decimal(b / 10);
    assert(decimal(a).last() == digit(a % 10));
    assert(decimal(b).last() == digit(b % 10));
    if a >= 10 && b >= 10 {
        assert(decimal(a).drop_last() =~= decimal(a / 10));
        assert(decimal(b).drop_last() =~= decimal(b / 10));
        lemma_decimals_differ(a / 10, b / 10);
    }
}

proof fn lemma_add(a: Seq<char>, b: Seq<char>, n: nat)
    requires
        starts_well(b) || b.len() == 0,
    ensures
        refers_to(a + b, n) <==> refers_to(a, n) || refers_to(b, n),
{
    let t = a + b;
    let d = decimal(n);
    lemma_decimal(n);
    if refers_to(t, n) {
        let i = choose|i: int| #[trigger] stands_at(t, n, i);
        let end = i + 1 + d.len();
        if i >= a.len() {
            let k = i - a.len();
            assert(b.subrange(k + 1, k + 1 + d.len()) =~= t.subrange(i + 1, end));
            assert(stands_at(b, n, k));
        } else {
            if end > a.len() {
                let k = a.len() - (i + 1);
                assert(t.subrange(i + 1, end)[k] == b[0]);
                assert(is_digit(d[k]));
            }
            assert(a.subrange(i + 1, end) =~= t.subrange(i + 1, end));
            assert(stands_at(a, n, i));
        }
    }
    if refers_to(a, n) {
        let i = choose|i: int| #[trigger] stands_at(a, n, i);
        assert(t.subrange(i + 1, i + 1 + d.len()) =~= a.subrange(i + 1, i + 1 + d.len()));
        assert(stands_at(t, n, i));
    }
    if refers_to(b, n) {
        let i = choose|i: int| #[trigger] stands_at(b, n, i);
        let k = i + a.len();
        assert(t.subrange(k + 1, k + 1 + d.len()) =~= b.subrange(i + 1, i + 1 + d.len()));
        assert(stands_at(t, n, k));
    }
}

proof fn lemma_plain(text: Seq<char>, n: nat)
    requires
        plain(text) || text.len() == 0,
    ensures
        !refers_to(text, n),
{
}

proof fn lemma_placeholder(m: nat, n: nat)
    ensures
        refers_to(placeholder(m), n) <==> m == n,
        starts_well(placeholder(m)),
{
    let t = placeholder(m);
    lemma_decimal(m);
    lemma_decimal(n);
    assert(t.subrange(1, t.len() as int) =~= decimal(m));
    if m == n {
        assert(stands_at(t, n, 0));
    }
    if refers_to(t, n) {
        let i = choose|i: int| #[trigger] stands_at(t, n, i);
        if i > 0 {
            assert(t[i] == decimal(m)[i - 1]);
        }
        let end = i + 1 + decimal(n).len();
        if end < t.len() {
            assert(t[end] == decimal(m)[end - 1]);
        }
        lemma_decimals_differ(m, n);
    }
}

/// A text between two others.
proof fn lemma_between(a: Seq<char>, b: Seq<char>, c: Seq<char>, n: nat)
    requires
        starts_well(b),
        starts_well(c) || c.len() == 0,
    ensures
        refers_to(a + b + c, n) <==> refers_to(a, n) || refers_to(b, n) || refers_to(c, n),
{
    lemma_add(a, b, n);
    lemma_add(a + b, c, n);
}

/// Whether one of some texts refers to a parameter.
spec fn one_refers(parts: Seq<Seq<char>>, n: nat) -> bool {
    exists|k: int| 0 <= k < parts.len() && #[trigger] refers_to(parts[k], n)
}

spec fn all_start_well(parts: Seq<Seq<char>>) -> bool {
    forall|k: int| 0 <= k < parts.len() ==> starts_well(#[trigger] parts[k])
}

proof fn lemma_one_more(parts: Seq<Seq<char>>, last: Seq<char>, n: nat)
    ensures
        one_refers(parts.push(last), n) <==> one_refers(parts, n) || refers_to(last, n),
{
    let all = parts.push(last);
    if one_refers(all, n) {
        let k = choose|k: int| 0 <= k < all.len() && #[trigger] refers_to(all[k], n);
        if k < parts.len() {
            assert(refers_to(parts[k], n));
        }
    }
    if one_refers(parts, n) {
        let k = choose|k: int| 0 <= k < parts.len() && #[trigger] refers_to(parts[k], n);
        assert(refers_to(all[k], n));
    }
    if refers_to(last, n) {
        assert(refers_to(all[parts.len() as int], n));
    }
}

proof fn lemma_joined(parts: Seq<Seq<char>>, separator: Seq<char>, n: nat)
    requires
        all_start_well(parts),
        plain(separator),
    ensures
        refers_to(joined_with(parts, separator), n) <==> one_refers(parts, n),
        parts.len() > 0 ==> starts_well(joined_with(parts, separator)),
    decreases parts.len(),
{
    if parts.len() == 0 {
        lemma_plain(joined_with(parts, separator), n);
    } else {
        let front = parts.drop_last();
        assert(parts =~= front.push(parts.last()));
        lemma_one_more(front, parts.last(), n);
        assert(starts_well(parts[parts.len() - 1]));
        if parts.len() == 1 {
            assert(!one_refers(front, n));
        } else {
            assert forall|k: int| 0 <= k < front.len() implies starts_well(#[trigger] front[k]) by {
                assert(front[k] == parts[k]);
            }
            lemma_joined(front, separator, n);
            lemma_between(joined_with(front, separator), separator, parts.last(), n);
            lemma_plain(separator, n);
        }
    }
}

proof fn lemma_list(bound: nat, count: nat, n: nat)
    ensures
        refers_to(joined_with(placeholders(bound, count), ", "@), n) <==> bound < n <= bound + count,
        count > 0 ==> starts_well(joined_with(placeholders(bound, count), ", "@)),
{
    let parts = placeholders(bound, count);
    assert(plain(", "@)) by {
        reveal_strlit(", ");
    }
    assert forall|k: int| 0 <= k < parts.len() implies starts_well(#[trigger] parts[k]) by {
        lemma_placeholder((bound + 1 + k) as nat, n);
    }
    lemma_joined(parts, ", "@, n);
    if one_refers(parts, n) {
        let k = choose|k: int| 0 <= k < parts.len() && #[trigger] refers_to(parts[k], n);
        lemma_placeholder((bound + 1 + k) as nat, n);
    }
    if bound < n <= bound + count {
        let k = n - bound - 1;
        lemma_placeholder(n, n);
        assert(parts[k] == placeholder(n));
        assert(refers_to(parts[k], n));
    }
}

proof fn lemma_words()
    ensures
        plain("sr.type IN ("@),
        plain(")"@),
        plain("m.event_time >= "@),
        plain("m.event_time < "@),
        plain("json_type(sr.attributes, "@),
        plain(") NOT IN ('object','array') AND CAST(json_extract(sr.attributes, "@),
        plain(") AS TEXT) = "@),
        plain(" WHERE "@),
        plain(" AND "@),
{
    assert(plain("sr.type IN ("@)) by {
        reveal_strlit("sr.type IN (");
    }
    assert(plain(")"@)) by {
        reveal_strlit(")");
    }
    assert(plain("m.event_time >= "@)) by {
        reveal_strlit("m.event_time >= ");
    }
    assert(plain("m.event_time < "@)) by {
        reveal_strlit("m.event_time < ");
    }
    assert(plain("json_type(sr.attributes, "@)) by {
        reveal_strlit("json_type(sr.attributes, ");
    }
    assert(plain(") NOT IN ('object','array') AND CAST(json_extract(sr.attributes, "@)) by {
        reveal_strlit(") NOT IN ('object','array') AND CAST(json_extract(sr.attributes, ");
    }
    assert(plain(") AS TEXT) = "@)) by {
        reveal_strlit(") AS TEXT) = ");
    }
    assert(plain(" WHERE "@)) by {
        reveal_strlit(" WHERE ");
    }
    assert(plain(" AND "@)) by {
        reveal_strlit(" AND ");
    }
}

/// Whether the predicates of a statement refer to just the values that are bound.
spec fn complete(b: Building) -> bool {
    &&& all_start_well(b.clauses)
    &&& forall|n: nat| #[trigger] one_refers(b.clauses, n) <==> 1 <= n <= b.params.len()
}

/// A predicate more, which refers to the values that are bound with it.
proof fn lemma_clause(b: Building, clause: Seq<char>, params: Seq<SqlView>)
    requires
        complete(b),
        starts_well(clause),
        b.params.len() <= params.len(),
        forall|n: nat| #[trigger] refers_to(clause, n) <==> b.params.len() < n <= params.len(),
    ensures
        complete(Building { clauses: b.clauses.push(clause), params }),
{
    let clauses = b.clauses.push(clause);
    assert forall|k: int| 0 <= k < clauses.len() implies starts_well(#[trigger] clauses[k]) by {
        if k < b.clauses.len() {
            assert(clauses[k] == b.clauses[k]);
        }
    }
    assert forall|n: nat| #[trigger] one_refers(clauses, n) <==> 1 <= n <= params.len() by {
        lemma_one_more(b.clauses, clause, n);
        assert(one_refers(b.clauses, n) <==> 1 <= n <= b.params.len());
        assert(refers_to(clause, n) <==> b.params.len() < n <= params.len());
    }
}

proof fn lemma_with_types(b: Building, types: Seq<Seq<char>>)
    requires
        complete(b),
    ensures
        complete(with_types(b, types)),
{
    if types.len() > 0 {
        lemma_words();
        let list = joined_with(placeholders(b.params.len(), types.len()), ", "@);
        let clause = "sr.type IN ("@ + list + ")"@;
        assert forall|n: nat| #[trigger] refers_to(clause, n) <==> b.params.len() < n <= b.params.len()
            + types.len() by {
            lemma_list(b.params.len(), types.len(), n);
            lemma_between("sr.type IN ("@, list, ")"@, n);
            lemma_plain("sr.type IN ("@, n);
            lemma_plain(")"@, n);
        }
        lemma_clause(b, clause, b.params + bound_texts(types));
    }
}

/// A predicate of a text and one bound value.
proof fn lemma_bounded(b: Building, words: Seq<char>, value: SqlView)
    requires
        complete(b),
        plain(words),
    ensures
        complete(
            Building {
                clauses: b.clauses.push(words + placeholder(b.params.len() + 1)),
                params: b.params.push(value),
            },
        ),
{
    let clause = words + placeholder(b.params.len() + 1);
    assert forall|n: nat| #[trigger] refers_to(clause, n) <==> b.params.len() < n <= b.params.len() + 1 by {
        lemma_placeholder(b.params.len() + 1, n);
        lemma_add(words, placeholder(b.params.len() + 1), n);
        lemma_plain(words, n);
    }
    lemma_clause(b, clause, b.params.push(value));
}

proof fn lemma_with_attrs(b: Building, attrs: Seq<(Seq<char>, Seq<char>)>)
    requires
        complete(b),
    ensures
        complete(with_attrs(b, attrs)),
    decreases attrs.len(),
{
    if attrs.len() > 0 {
        lemma_words();
        let front = with_attrs(b, attrs.drop_last());
        lemma_with_attrs(b, attrs.drop_last());
        let k = front.params.len();
        let path = placeholder(k + 1);
        let value = placeholder(k + 2);
        let one = "json_type(sr.attributes, "@;
        let two = ") NOT IN ('object','array') AND CAST(json_extract(sr.attributes, "@;
        let three = ") AS TEXT) = "@;
        let clause = attr_clause(path, value);
        assert forall|n: nat| #[trigger] refers_to(clause, n) <==> k < n <= k + 2 by {
            lemma_placeholder(k + 1, n);
            lemma_placeholder(k + 2, n);
            lemma_between(one, path, two, n);
            lemma_between(one + path + two, path, three, n);
            lemma_add(one + path + two + path + three, value, n);
            lemma_plain(one, n);
            lemma_plain(two, n);
            lemma_plain(three, n);
        }
        lemma_clause(
            front,
            clause,
            front.params.push(SqlView::Text(path_to(attrs.last().0))).push(SqlView::Text(attrs.last().1)),
        );
    }
}

proof fn lemma_filtered(f: Filter)
    ensures
        complete(filtered(f)),
{
    lemma_words();
    let empty = Building { clauses: Seq::empty(), params: Seq::empty() };
    assert(complete(empty));
    let typed = with_types(empty, f.types);
    lemma_with_types(empty, f.types);
    if f.from is Some {
        lemma_bounded(typed, "m.event_time >= "@, SqlView::Integer(f.from->0));
    }
    let from = with_from(typed, f.from);
    if f.to is Some {
        lemma_bounded(from, "m.event_time < "@, SqlView::Integer(f.to->0));
    }
    lemma_with_attrs(with_to(from, f.to), f.attrs);
}

proof fn lemma_where(b: Building, n: nat)
    requires
        all_start_well(b.clauses),
    ensures
        refers_to(where_text(b.clauses), n) <==> one_refers(b.clauses, n),
        starts_well(where_text(b.clauses)) || where_text(b.clauses).len() == 0,
{
    lemma_words();
    lemma_joined(b.clauses, " AND "@, n);
    if b.clauses.len() > 0 {
        lemma_add(" WHERE "@, joined_with(b.clauses, " AND "@), n);
        lemma_plain(" WHERE "@, n);
    } else {
        lemma_plain(where_text(b.clauses), n);
    }
}

proof fn lemma_chart_words()
    ensures
        plain("CASE WHEN json_type(sr.attributes, "@),
        plain(") IN ('object','array') THEN NULL ELSE CAST(json_extract(sr.attributes, "@),
        plain(") AS TEXT) END"@),
        plain("CASE WHEN json_type(m.body, "@),
        plain(") IN ('integer','real') THEN json_extract(m.body, "@),
        plain(") END"@),
        plain("NULL"@),
        plain("CAST(json_extract(sr.attributes, "@),
        plain(") AS TEXT) IN ("@),
{
    assert(plain("CASE WHEN json_type(sr.attributes, "@)) by {
        reveal_strlit("CASE WHEN json_type(sr.attributes, ");
    }
    assert(plain(") IN ('object','array') THEN NULL ELSE CAST(json_extract(sr.attributes, "@)) by {
        reveal_strlit(") IN ('object','array') THEN NULL ELSE CAST(json_extract(sr.attributes, ");
    }
    assert(plain(") AS TEXT) END"@)) by {
        reveal_strlit(") AS TEXT) END");
    }
    assert(plain("CASE WHEN json_type(m.body, "@)) by {
        reveal_strlit("CASE WHEN json_type(m.body, ");
    }
    assert(plain(") IN ('integer','real') THEN json_extract(m.body, "@)) by {
        reveal_strlit(") IN ('integer','real') THEN json_extract(m.body, ");
    }
    assert(plain(") END"@)) by {
        reveal_strlit(") END");
    }
    assert(plain("NULL"@)) by {
        reveal_strlit("NULL");
    }
    assert(plain("CAST(json_extract(sr.attributes, "@)) by {
        reveal_strlit("CAST(json_extract(sr.attributes, ");
    }
    assert(plain(") AS TEXT) IN ("@)) by {
        reveal_strlit(") AS TEXT) IN (");
    }
}

proof fn lemma_select_words()
    ensures
        plain("SELECT "@),
        plain(" AS g, (m.event_time / "@),
        plain(") * "@),
        plain(" AS bucket_start, count(*), count("@),
        plain("), avg("@),
        plain("), min("@),
        plain("), max("@),
        plain(") FROM measurement m JOIN series sr ON sr.id = m.series_id"@),
        plain(" GROUP BY g, bucket_start ORDER BY g, bucket_start"@),
{
    assert(plain("SELECT "@)) by {
        reveal_strlit("SELECT ");
    }
    assert(plain(" AS g, (m.event_time / "@)) by {
        reveal_strlit(" AS g, (m.event_time / ");
    }
    assert(plain(") * "@)) by {
        reveal_strlit(") * ");
    }
    assert(plain(" AS bucket_start, count(*), count("@)) by {
        reveal_strlit(" AS bucket_start, count(*), count(");
    }
    assert(plain("), avg("@)) by {
        reveal_strlit("), avg(");
    }
    assert(plain("), min("@)) by {
        reveal_strlit("), min(");
    }
    assert(plain("), max("@)) by {
        reveal_strlit("), max(");
    }
    assert(plain(") FROM measurement m JOIN series sr ON sr.id = m.series_id"@)) by {
        reveal_strlit(") FROM measurement m JOIN series sr ON sr.id = m.series_id");
    }
    assert(plain(" GROUP BY g, bucket_start ORDER BY g, bucket_start"@)) by {
        reveal_strlit(" GROUP BY g, bucket_start ORDER BY g, bucket_start");
    }
}

proof fn lemma_group_text(k: nat, n: nat)
    ensures
        refers_to(group_text(placeholder(k)), n) <==> n == k,
        starts_well(group_text(placeholder(k))),
{
    lemma_chart_words();
    let path = placeholder(k);
    let one = "CASE WHEN json_type(sr.attributes, "@;
    let two = ") IN ('object','array') THEN NULL ELSE CAST(json_extract(sr.attributes, "@;
    let three = ") AS TEXT) END"@;
    lemma_placeholder(k, n);
    lemma_between(one, path, two, n);
    lemma_between(one + path + two, path, three, n);
    lemma_plain(one, n);
    lemma_plain(two, n);
    lemma_plain(three, n);
}

proof fn lemma_field_text(k: nat, n: nat)
    ensures
        refers_to(field_text(placeholder(k)), n) <==> n == k,
        starts_well(field_text(placeholder(k))),
{
    lemma_chart_words();
    let path = placeholder(k);
    let one = "CASE WHEN json_type(m.body, "@;
    let two = ") IN ('integer','real') THEN json_extract(m.body, "@;
    let three = ") END"@;
    lemma_placeholder(k, n);
    lemma_between(one, path, two, n);
    lemma_between(one + path + two, path, three, n);
    lemma_plain(one, n);
    lemma_plain(two, n);
    lemma_plain(three, n);
}

/// The predicates and the expression of a group together refer to just the values that are bound.
proof fn lemma_with_group(b: Building, group: Option<Seq<char>>, groups: Seq<Seq<char>>, n: nat)
    requires
        complete(b),
    ensures
        ({
            let (after, expr) = with_group(b, group, groups);
            &&& all_start_well(after.clauses)
            &&& starts_well(expr)
            &&& one_refers(after.clauses, n) || refers_to(expr, n) <==> 1 <= n <= after.params.len()
        }),
{
    lemma_chart_words();
    assert(one_refers(b.clauses, n) <==> 1 <= n <= b.params.len());
    match group {
        None => {
            lemma_plain("NULL"@, n);
        },
        Some(key) => {
            let k = b.params.len() + 1;
            let path = placeholder(k);
            if groups.len() == 0 {
                lemma_plain("NULL"@, n);
            } else {
                lemma_group_text(k, n);
                let list = joined_with(placeholders(k, groups.len()), ", "@);
                let one = "CAST(json_extract(sr.attributes, "@;
                let two = ") AS TEXT) IN ("@;
                let clause = one + path + two + list + ")"@;
                lemma_words();
                lemma_placeholder(k, n);
                lemma_list(k, groups.len(), n);
                lemma_between(one, path, two, n);
                lemma_between(one + path + two, list, ")"@, n);
                lemma_plain(one, n);
                lemma_plain(two, n);
                lemma_plain(")"@, n);
                lemma_one_more(b.clauses, clause, n);
                let after = b.clauses.push(clause);
                assert forall|x: int| 0 <= x < after.len() implies starts_well(#[trigger] after[x]) by {
                    if x < b.clauses.len() {
                        assert(after[x] == b.clauses[x]);
                    }
                }
            }
        },
    }
}

proof fn lemma_with_field(params: Seq<SqlView>, field: Option<Seq<char>>, n: nat)
    ensures
        ({
            let (after, expr) = with_field(params, field);
            &&& starts_well(expr)
            &&& refers_to(expr, n) <==> params.len() < n <= after.len()
        }),
{
    lemma_chart_words();
    match field {
        None => {
            lemma_plain("NULL"@, n);
        },
        Some(_) => {
            lemma_field_text(params.len() + 1, n);
        },
    }
}

proof fn lemma_selection(group: Seq<char>, k: nat, value: Seq<char>, n: nat)
    requires
        starts_well(group),
        starts_well(value),
    ensures
        refers_to(selection(group, placeholder(k), value), n) <==> refers_to(group, n) || refers_to(value, n) || n
            == k,
{
    lemma_select_words();
    let bucket = placeholder(k);
    lemma_placeholder(k, n);
    let a = "SELECT "@;
    let b = " AS g, (m.event_time / "@;
    let c = ") * "@;
    let d = " AS bucket_start, count(*), count("@;
    let e = "), avg("@;
    let f = "), min("@;
    let g = "), max("@;
    let h = ") FROM measurement m JOIN series sr ON sr.id = m.series_id"@;
    lemma_plain(a, n);
    lemma_plain(b, n);
    lemma_plain(c, n);
    lemma_plain(d, n);
    lemma_plain(e, n);
    lemma_plain(f, n);
    lemma_plain(g, n);
    lemma_plain(h, n);
    let t1 = a + group + b;
    lemma_between(a, group, b, n);
    let t2 = t1 + bucket + c;
    lemma_between(t1, bucket, c, n);
    let t3 = t2 + bucket + d;
    lemma_between(t2, bucket, d, n);
    let t4 = t3 + value + e;
    lemma_between(t3, value, e, n);
    let t5 = t4 + value + f;
    lemma_between(t4, value, f, n);
    let t6 = t5 + value + g;
    lemma_between(t5, value, g, n);
    lemma_between(t6, value, h, n);
}

/// The statement for a chart refers to each of its bound values, numbered from one, and to no other.
pub proof fn law_a_chart_refers_to_what_is_bound(
    f: Filter,
    field: Option<Seq<char>>,
    group: Option<Seq<char>>,
    groups: Seq<Seq<char>>,
    bucket_nanos: i64,
    n: nat,
)
    ensures
        ({
            let (sql, params) = series_query(f, field, group, groups, bucket_nanos);
            refers_to(sql, n) <==> 1 <= n <= params.len()
        }),
{
    lemma_select_words();
    let (b, group_expr) = with_group(filtered(f), group, groups);
    let (params, value_expr) = with_field(b.params, field);
    lemma_filtered(f);
    lemma_with_group(filtered(f), group, groups, n);
    lemma_with_field(b.params, field, n);
    let k = params.len() + 1;
    let head = selection(group_expr, placeholder(k), value_expr);
    let tail = " GROUP BY g, bucket_start ORDER BY g, bucket_start"@;
    lemma_selection(group_expr, k, value_expr, n);
    lemma_where(b, n);
    lemma_plain(tail, n);
    lemma_add(head, where_text(b.clauses), n);
    lemma_add(head + where_text(b.clauses), tail, n);
}

/// Whether two queries ask for as much: as many types, attributes and groups, and the same bounds.
pub open spec fn same_shape(a: Filter, b: Filter) -> bool {
    &&& a.types.len() == b.types.len()
    &&& a.from is Some == b.from is Some
    &&& a.to is Some == b.to is Some
    &&& a.attrs.len() == b.attrs.len()
}

/// Whether two statements under construction have the same predicates, and as many bound values.
spec fn alike(a: Building, b: Building) -> bool {
    a.clauses == b.clauses && a.params.len() == b.params.len()
}

proof fn lemma_attrs_alike(a: Building, b: Building, x: Seq<(Seq<char>, Seq<char>)>, y: Seq<(Seq<char>, Seq<char>)>)
    requires
        alike(a, b),
        x.len() == y.len(),
    ensures
        alike(with_attrs(a, x), with_attrs(b, y)),
    decreases x.len(),
{
    if x.len() > 0 {
        lemma_attrs_alike(a, b, x.drop_last(), y.drop_last());
    }
}

proof fn lemma_filtered_alike(a: Filter, b: Filter)
    requires
        same_shape(a, b),
    ensures
        alike(filtered(a), filtered(b)),
{
    let empty = Building { clauses: Seq::empty(), params: Seq::empty() };
    let x = with_to(with_from(with_types(empty, a.types), a.from), a.to);
    let y = with_to(with_from(with_types(empty, b.types), b.from), b.to);
    assert(alike(with_types(empty, a.types), with_types(empty, b.types)));
    assert(alike(x, y));
    lemma_attrs_alike(x, y, a.attrs, b.attrs);
}

/// The text of a statement for a chart depends on how much is asked for and not on what: no key, value
/// or time is ever part of it.
pub proof fn law_a_charts_text_depends_on_its_shape(
    f: Filter,
    g: Filter,
    fields: (Option<Seq<char>>, Option<Seq<char>>),
    group: (Option<Seq<char>>, Option<Seq<char>>),
    groups: (Seq<Seq<char>>, Seq<Seq<char>>),
    widths: (i64, i64),
)
    requires
        same_shape(f, g),
        fields.0 is Some == fields.1 is Some,
        group.0 is Some == group.1 is Some,
        groups.0.len() == groups.1.len(),
    ensures
        series_query(f, fields.0, group.0, groups.0, widths.0).0 == series_query(
            g,
            fields.1,
            group.1,
            groups.1,
            widths.1,
        ).0,
        series_query(f, fields.0, group.0, groups.0, widths.0).1.len() == series_query(
            g,
            fields.1,
            group.1,
            groups.1,
            widths.1,
        ).1.len(),
{
    lemma_filtered_alike(f, g);
    let (a, x) = with_group(filtered(f), group.0, groups.0);
    let (b, y) = with_group(filtered(g), group.1, groups.1);
    assert(alike(a, b) && x == y);
}

/// The statement for a page refers to each of its bound values, numbered from one, and to no other.
pub proof fn law_a_page_refers_to_what_is_bound(f: Filter, cursor: Option<(i64, Seq<u8>)>, limit: i64, n: nat)
    ensures
        ({
            let (sql, params) = row_query(f, cursor, limit);
            refers_to(sql, n) <==> 1 <= n <= params.len()
        }),
{
    let b = with_cursor(filtered(f), cursor);
    lemma_filtered(f);
    if let Some((time, id)) = cursor {
        lemma_with_cursor(filtered(f), time, id);
    }
    assert(complete(b));
    assert(one_refers(b.clauses, n) <==> 1 <= n <= b.params.len());
    let k = b.params.len() + 1;
    let order = " ORDER BY m.event_time DESC, m.id DESC LIMIT "@;
    assert(plain(order)) by {
        reveal_strlit(" ORDER BY m.event_time DESC, m.id DESC LIMIT ");
    }
    assert(plain(SELECT_ROWS@)) by {
        reveal_strlit(
            "SELECT m.id, m.event_time, m.processed_time, sr.type, m.body, sr.attributes FROM measurement m JOIN series sr ON sr.id = m.series_id",
        );
    }
    lemma_where(b, n);
    lemma_placeholder(k, n);
    lemma_plain(order, n);
    lemma_plain(SELECT_ROWS@, n);
    lemma_add(SELECT_ROWS@, where_text(b.clauses), n);
    lemma_between(SELECT_ROWS@ + where_text(b.clauses), order, placeholder(k), n);
}

proof fn lemma_with_cursor(b: Building, time: i64, id: Seq<u8>)
    requires
        complete(b),
    ensures
        complete(with_cursor(b, Some((time, id)))),
{
    let k = b.params.len();
    let t = placeholder(k + 1);
    let i = placeholder(k + 2);
    let one = "(m.event_time < "@;
    let two = " OR (m.event_time = "@;
    let three = " AND m.id < "@;
    let four = "))"@;
    assert(plain(one)) by {
        reveal_strlit("(m.event_time < ");
    }
    assert(plain(two)) by {
        reveal_strlit(" OR (m.event_time = ");
    }
    assert(plain(three)) by {
        reveal_strlit(" AND m.id < ");
    }
    assert(plain(four)) by {
        reveal_strlit("))");
    }
    let clause = one + t + two + t + three + i + four;
    assert forall|n: nat| #[trigger] refers_to(clause, n) <==> k < n <= k + 2 by {
        lemma_placeholder(k + 1, n);
        lemma_placeholder(k + 2, n);
        lemma_between(one, t, two, n);
        lemma_between(one + t + two, t, three, n);
        lemma_between(one + t + two + t + three, i, four, n);
        lemma_plain(one, n);
        lemma_plain(two, n);
        lemma_plain(three, n);
        lemma_plain(four, n);
    }
    lemma_clause(b, clause, b.params.push(SqlView::Integer(time)).push(SqlView::Blob(id)));
}

/// The statement for the extent refers to each of its bound values, numbered from one, and to no other.
pub proof fn law_an_extent_refers_to_what_is_bound(f: Filter, n: nat)
    ensures
        ({
            let (sql, params) = extent_query(f);
            refers_to(sql, n) <==> 1 <= n <= params.len()
        }),
{
    let b = filtered(f);
    lemma_filtered(f);
    assert(one_refers(b.clauses, n) <==> 1 <= n <= b.params.len());
    let head =
        "SELECT min(m.event_time), max(m.event_time) FROM measurement m JOIN series sr ON sr.id = m.series_id"@;
    assert(plain(head)) by {
        reveal_strlit(
            "SELECT min(m.event_time), max(m.event_time) FROM measurement m JOIN series sr ON sr.id = m.series_id",
        );
    }
    lemma_where(b, n);
    lemma_plain(head, n);
    lemma_add(head, where_text(b.clauses), n);
}

} // verus!
