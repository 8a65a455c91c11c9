//! What a query asks, told by the parameters it was made of.

use vstd::prelude::*;

use crate::api::query::{
    answers, decoded_cursor, is_number, parsed_query, rfc3339_nanos, rfc3339_of, time_of, with_parameter,
    MeasurementJson, QueryView,
};
use crate::json::Value;
use crate::model::StoredMeasurement;
use crate::text::{begins_with, is_digit, parsed_i64, signed_decimal};
use crate::text_laws::{lemma_decimal_value, law_numbers_are_read_back};

verus! {

/// A number of nanoseconds is read as just that time, whatever it might be in RFC 3339; any other text
/// is the time it is there, as far as that fits.
pub proof fn law_times_are_read_as_written(n: i64, s: Seq<char>, rfc3339: Option<i128>)
    ensures
        time_of(signed_decimal(n as int), rfc3339) == Ok::<i64, Seq<char>>(n),
        (exists|i: int| 0 < i < s.len() && !('0' <= #[trigger] s[i] <= '9')) ==> (time_of(s, rfc3339) is Ok
            <==> rfc3339 is Some && i64::MIN <= rfc3339->0 <= i64::MAX),
        (exists|i: int| 0 < i < s.len() && !('0' <= #[trigger] s[i] <= '9')) && time_of(s, rfc3339) is Ok
            ==> time_of(s, rfc3339)->Ok_0 == rfc3339->0,
{
    law_numbers_are_read_back(0, n);
    let text = signed_decimal(n as int);
    if n < 0 {
        lemma_decimal_value((-n) as nat);
        assert(text.drop_first() =~= crate::text::decimal((-n) as nat));
    } else {
        lemma_decimal_value(n as nat);
        assert(is_digit(text[0]));
    }
    assert(is_number(text));
    if exists|i: int| 0 < i < s.len() && !('0' <= #[trigger] s[i] <= '9') {
        let i = choose|i: int| 0 < i < s.len() && !('0' <= #[trigger] s[i] <= '9');
        assert(!is_number(s)) by {
            if s[0] == '-' {
                assert(s.drop_first()[i - 1] == s[i]);
                assert(!is_digit(s.drop_first()[i - 1]));
            } else {
                assert(!is_digit(s[i]));
            }
        }
    }
}

/// The values of the parameters with one name, in order.
pub open spec fn values_of(raw: Seq<(Seq<char>, Seq<char>)>, key: Seq<char>) -> Seq<Seq<char>> {
    raw.filter(|p: (Seq<char>, Seq<char>)| p.0 == key).map_values(|p: (Seq<char>, Seq<char>)| p.1)
}

/// Whether a name is that of an attribute filter: `attr.`, and something behind it.
pub open spec fn names_attribute(key: Seq<char>) -> bool {
    key.len() > 5 && key[0] == 'a' && key[1] == 't' && key[2] == 't' && key[3] == 'r' && key[4] == '.'
}

/// The attribute filters among some parameters, in order.
pub open spec fn attributes_of(raw: Seq<(Seq<char>, Seq<char>)>) -> Seq<(Seq<char>, Seq<char>)> {
    raw.filter(|p: (Seq<char>, Seq<char>)| names_attribute(p.0)).map_values(
        |p: (Seq<char>, Seq<char>)| (p.0.skip(5), p.1),
    )
}

/// Whether a parameter can be taken.
pub open spec fn is_sound(p: (Seq<char>, Seq<char>)) -> bool {
    ||| p.0 == "type"@
    ||| (p.0 == "from"@ || p.0 == "to"@) && time_of(p.1, rfc3339_nanos(p.1)) is Ok
    ||| p.0 == "limit"@ && parsed_i64(p.1) is Some
    ||| p.0 == "cursor"@ && decoded_cursor(p.1) is Ok
    ||| names_attribute(p.0)
}

/// Whether a bound is the last of those given, and none where none is given.
pub open spec fn is_last_time(bound: Option<i64>, values: Seq<Seq<char>>) -> bool {
    if values.len() == 0 {
        bound is None
    } else {
        bound is Some && time_of(values.last(), rfc3339_nanos(values.last())) == Ok::<i64, Seq<char>>(bound->0)
    }
}

/// Whether a position is the one of the last cursor given, and none where none is given.
pub open spec fn is_last_cursor(cursor: Option<(i64, i64)>, values: Seq<Seq<char>>) -> bool {
    if values.len() == 0 {
        cursor is None
    } else {
        cursor is Some && decoded_cursor(values.last()) == Ok::<(i64, i64), Seq<char>>(cursor->0)
    }
}

/// Whether a limit is the last given, moved to between one and a thousand; a hundred where none is.
pub open spec fn is_last_limit(limit: i64, values: Seq<Seq<char>>) -> bool {
    if values.len() == 0 {
        limit == 100
    } else {
        let asked = parsed_i64(values.last());
        &&& asked is Some
        &&& 1 <= asked->0 <= 1000 ==> limit == asked->0
        &&& asked->0 < 1 ==> limit == 1
        &&& asked->0 > 1000 ==> limit == 1000
    }
}

/// Whether a query is what some parameters ask: every type and every attribute that is named, in order,
/// and of each bound, of the limit and of the cursor the last.
pub open spec fn is_asked(q: QueryView, raw: Seq<(Seq<char>, Seq<char>)>) -> bool {
    &&& q.types == values_of(raw, "type"@)
    &&& q.attrs == attributes_of(raw)
    &&& is_last_time(q.from, values_of(raw, "from"@))
    &&& is_last_time(q.to, values_of(raw, "to"@))
    &&& is_last_limit(q.limit, values_of(raw, "limit"@))
    &&& is_last_cursor(q.cursor, values_of(raw, "cursor"@))
}

proof fn lemma_names()
    ensures
        "type"@ != "from"@ && "type"@ != "to"@ && "type"@ != "limit"@ && "type"@ != "cursor"@,
        "from"@ != "to"@ && "from"@ != "limit"@ && "from"@ != "cursor"@,
        "to"@ != "limit"@ && "to"@ != "cursor"@ && "limit"@ != "cursor"@,
        "attr."@.len() == 5,
        forall|key: Seq<char>|
            begins_with(key, "attr."@) && key.len() > 5 <==> #[trigger] names_attribute(key),
        !names_attribute("type"@) && !names_attribute("from"@) && !names_attribute("to"@),
        !names_attribute("limit"@) && !names_attribute("cursor"@),
{
    reveal_strlit("type");
    reveal_strlit("from");
    reveal_strlit("to");
    reveal_strlit("limit");
    reveal_strlit("cursor");
    reveal_strlit("attr.");
    assert("type"@.len() == 4 && "from"@.len() == 4 && "to"@.len() == 2 && "limit"@.len() == 5 && "cursor"@.len() == 6);
    assert("type"@[0] == 't' && "from"@[0] == 'f' && "cursor"@[0] == 'c');
    assert forall|key: Seq<char>|
        begins_with(key, "attr."@) && key.len() > 5 <==> #[trigger] names_attribute(key) by {
        let a = "attr."@;
        assert(a.len() == 5 && a[0] == 'a' && a[1] == 't' && a[2] == 't' && a[3] == 'r' && a[4] == '.');
        if key.len() > 5 {
            let t = key.take(5);
            assert(t[0] == key[0] && t[1] == key[1] && t[2] == key[2] && t[3] == key[3] && t[4] == key[4]);
            if names_attribute(key) {
                assert(t =~= a);
            }
        }
    }
}

proof fn lemma_values_push(raw: Seq<(Seq<char>, Seq<char>)>, key: Seq<char>)
    requires
        raw.len() > 0,
    ensures
        raw.last().0 == key ==> values_of(raw, key) == values_of(raw.drop_last(), key).push(raw.last().1),
        raw.last().0 != key ==> values_of(raw, key) == values_of(raw.drop_last(), key),
{
    reveal(Seq::filter);
    let keep = |p: (Seq<char>, Seq<char>)| p.0 == key;
    let value = |p: (Seq<char>, Seq<char>)| p.1;
    let front = raw.drop_last().filter(keep);
    assert(front.push(raw.last()).map_values(value) =~= front.map_values(value).push(raw.last().1));
}

proof fn lemma_attributes_push(raw: Seq<(Seq<char>, Seq<char>)>)
    requires
        raw.len() > 0,
    ensures
        names_attribute(raw.last().0) ==> attributes_of(raw) == attributes_of(raw.drop_last()).push(
            (raw.last().0.skip(5), raw.last().1),
        ),
        !names_attribute(raw.last().0) ==> attributes_of(raw) == attributes_of(raw.drop_last()),
{
    reveal(Seq::filter);
    let keep = |p: (Seq<char>, Seq<char>)| names_attribute(p.0);
    let filter = |p: (Seq<char>, Seq<char>)| (p.0.skip(5), p.1);
    let front = raw.drop_last().filter(keep);
    assert(front.push(raw.last()).map_values(filter) =~= front.map_values(filter).push(filter(raw.last())));
}

proof fn lemma_one_more(q: QueryView, raw: Seq<(Seq<char>, Seq<char>)>)
    requires
        raw.len() > 0,
        is_asked(q, raw.drop_last()),
    ensures
        match with_parameter(q, raw.last().0, raw.last().1) {
            Ok(w) => is_sound(raw.last()) && is_asked(w, raw),
            Err(e) => !is_sound(raw.last()) && e.status == 400,
        },
{
    lemma_names();
    lemma_values_push(raw, "type"@);
    lemma_values_push(raw, "from"@);
    lemma_values_push(raw, "to"@);
    lemma_values_push(raw, "limit"@);
    lemma_values_push(raw, "cursor"@);
    lemma_attributes_push(raw);
    assert(names_attribute(raw.last().0) || !names_attribute(raw.last().0));
}

/// A query is what its parameters ask, and is refused, as a bad request, exactly where one of them
/// cannot be taken: one that is not known, a filter on an attribute without a name, or a value that is
/// no time, no number or no cursor.
pub proof fn law_a_query_is_what_is_asked(raw: Seq<(Seq<char>, Seq<char>)>)
    ensures
        match parsed_query(raw) {
            Ok(q) => is_asked(q, raw) && forall|i: int| 0 <= i < raw.len() ==> is_sound(#[trigger] raw[i]),
            Err(e) => e.status == 400 && exists|i: int| 0 <= i < raw.len() && !is_sound(#[trigger] raw[i]),
        },
    decreases raw.len(),
{
    reveal(Seq::filter);
    if raw.len() > 0 {
        let front = raw.drop_last();
        law_a_query_is_what_is_asked(front);
        match parsed_query(front) {
            Ok(q) => {
                lemma_one_more(q, raw);
                assert(raw[raw.len() - 1] == raw.last());
                if parsed_query(raw) is Ok {
                    assert forall|i: int| 0 <= i < raw.len() implies is_sound(#[trigger] raw[i]) by {
                        if i < front.len() {
                            assert(front[i] == raw[i]);
                        }
                    }
                }
            },
            Err(_) => {
                let i = choose|i: int| 0 <= i < front.len() && !is_sound(#[trigger] front[i]);
                assert(raw[i] == front[i]);
            },
        }
    } else {
        assert(values_of(raw, "type"@) =~= Seq::<Seq<char>>::empty());
        assert(values_of(raw, "from"@) =~= Seq::<Seq<char>>::empty());
        assert(values_of(raw, "to"@) =~= Seq::<Seq<char>>::empty());
        assert(values_of(raw, "limit"@) =~= Seq::<Seq<char>>::empty());
        assert(values_of(raw, "cursor"@) =~= Seq::<Seq<char>>::empty());
        assert(attributes_of(raw) =~= Seq::<(Seq<char>, Seq<char>)>::empty());
    }
}

/// An answer says of a measurement what is stored of it: both times can be read back from it to the
/// nanosecond, and are shown in RFC 3339 where they can be; kind, body and attributes are those stored.
pub proof fn law_an_answer_says_what_is_stored(j: MeasurementJson, m: StoredMeasurement)
    requires
        answers(j, m),
    ensures
        parsed_i64(j.event_time_unix_nano@) == Some(m.event_time),
        parsed_i64(j.processed_time_unix_nano@) == Some(m.processed_time),
        rfc3339_of(m.event_time) matches Some(text) ==> j.event_time@ == text,
        rfc3339_of(m.processed_time) matches Some(text) ==> j.processed_time@ == text,
        rfc3339_of(m.event_time) is None ==> parsed_i64(j.event_time@) == Some(m.event_time),
        rfc3339_of(m.processed_time) is None ==> parsed_i64(j.processed_time@) == Some(m.processed_time),
        j.kind@ == m.kind@,
        m.body matches Some(body) ==> j.body.view() == body.view(),
        m.body is None ==> j.body.view() == Value::Null,
        j.attributes.view() == m.attributes.view(),
{
    law_numbers_are_read_back(0, m.event_time);
    law_numbers_are_read_back(0, m.processed_time);
}

} // verus!
