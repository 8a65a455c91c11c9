//! What a request to read measurements asks, and the page it is answered with.

use vstd::prelude::*;
use vstd::utf8::encode_utf8;

use base64::Engine;

use crate::content_id::to_hex;
use crate::hex::hex_text;
use crate::json::{Json, Value};
use crate::model::StoredMeasurement;
use crate::sextets::{all_url_safe, base64_url_of, law_base64_is_url_safe, law_base64_tells_bytes_apart};
use crate::store::read::{clamp, clamped, text_pairs, QuerySpec, DEFAULT_LIMIT, MAX_LIMIT};
use crate::text::{
    all_digits, begins_with, chars_of, debug_form, debug_text, decimal_i64, has_prefix, is_digit, parse_i64,
    parsed_i64, same_text, signed_decimal, tail_from, texts,
};
use crate::wire::{FailureView, BAD_REQUEST};

verus! {

/// A request that is refused.
#[derive(Debug, PartialEq, Eq)]
pub struct ApiError {
    pub status: u16,
    pub message: String,
}

impl ApiError {
    pub open spec fn view(self) -> FailureView {
        FailureView { status: self.status, message: self.message@ }
    }

    pub fn bad_request(message: String) -> (r: Self)
        ensures
            r.view() == (FailureView { status: BAD_REQUEST, message: message@ }),
    {
        ApiError { status: BAD_REQUEST, message }
    }
}

/// A time in RFC 3339, in UTC, with nine digits behind the point; nothing for a time that cannot be
/// written so.
pub uninterp spec fn rfc3339_of(nanos: i64) -> Option<Seq<char>>;

/// `jiff::Timestamp::from_nanosecond` and `jiff::fmt::temporal::DateTimePrinter::print_timestamp` at
/// precision nine: the time in RFC 3339, or nothing where either refuses it.
#[verifier::external_body]
fn rfc3339(nanos: i64) -> (r: Option<String>)
    ensures
        match rfc3339_of(nanos) {
            Some(text) => r matches Some(s) && s@ == text,
            None => r is None,
        },
{
    let ts = jiff::Timestamp::from_nanosecond(nanos as i128).ok()?;
    let mut out = String::new();
    jiff::fmt::temporal::DateTimePrinter::new().precision(Some(9)).print_timestamp(&ts, &mut out).ok()?;
    Some(out)
}

/// A time as it is shown.
pub open spec fn shown(nanos: i64, text: Option<Seq<char>>) -> Seq<char> {
    match text {
        Some(t) => t,
        None => signed_decimal(nanos as int),
    }
}

/// A time as it is shown: its text, or the bare number where it has none.
pub fn text_or_number(nanos: i64, text: Option<String>) -> (r: String)
    ensures
        r@ == shown(
            nanos,
            match text {
                Some(t) => Some(t@),
                None => None,
            },
        ),
{
    match text {
        Some(t) => t,
        None => decimal_i64(nanos),
    }
}

/// A time in RFC 3339 with a fixed number of digits, so that its width does not vary.
pub fn format_nanos(nanos: i64) -> (r: String)
    ensures
        r@ == shown(nanos, rfc3339_of(nanos)),
{
    text_or_number(nanos, rfc3339(nanos))
}

/// The text inside a cursor: a JSON object with the time and the number of a row.
pub open spec fn cursor_text(event_time: i64, id: i64) -> Seq<char> {
    "{\"i\":"@ + signed_decimal(id as int) + ",\"t\":"@ + signed_decimal(event_time as int) + "}"@
}

/// `base64`'s `URL_SAFE_NO_PAD.encode`: the bytes in base64, with the alphabet that is safe in a URL and
/// without padding.
#[verifier::external_body]
fn base64_url(bytes: &[u8]) -> (r: String)
    ensures
        r@ == base64_url_of(bytes@),
{
    base64::engine::general_purpose::URL_SAFE_NO_PAD.encode(bytes)
}

/// The bytes that a text writes in base64, if it does.
pub open spec fn base64_url_decoded(s: Seq<char>) -> Option<Seq<u8>> {
    if exists|bytes: Seq<u8>| s == #[trigger] base64_url_of(bytes) {
        Some(choose|bytes: Seq<u8>| s == #[trigger] base64_url_of(bytes))
    } else {
        None
    }
}

/// `base64`'s `URL_SAFE_NO_PAD.decode`: the bytes that are encoded as just this text, or nothing where
/// none are. Padding, another alphabet, and bits behind the last byte that are not zero are refused.
#[verifier::external_body]
fn base64_url_bytes(s: &str) -> (r: Option<Vec<u8>>)
    ensures
        match r {
            Some(v) => s@ == base64_url_of(v@),
            None => forall|bytes: Seq<u8>| s@ != #[trigger] base64_url_of(bytes),
        },
{
    base64::engine::general_purpose::URL_SAFE_NO_PAD.decode(s).ok()
}

/// The integer under a key of a JSON object: nothing where the bytes are no JSON, and an inner
/// nothing where there is no such integer.
pub uninterp spec fn json_integer_of(bytes: Seq<u8>, key: Seq<char>) -> Option<Option<i64>>;

/// Whether what is read under a key is what a cursor's text holds under it.
pub open spec fn reads_cursor(bytes: Seq<u8>, key: Seq<char>, r: Option<Option<i64>>) -> bool {
    forall|t: i64, i: i64|
        bytes == encode_utf8(#[trigger] cursor_text(t, i)) ==> (key == "t"@ ==> r == Some(Some(t))) && (key == "i"@
            ==> r == Some(Some(i)))
}

/// `serde_json::from_slice` into a `Value`, `Value::get` and `Value::as_i64`: the integer under the
/// key. From an object of two integers, each is read under its key.
#[verifier::external_body]
fn json_integer(bytes: &[u8], key: &str) -> (r: Option<Option<i64>>)
    ensures
        r == json_integer_of(bytes@, key@),
        reads_cursor(bytes@, key@, r),
{
    match serde_json::from_slice::<serde_json::Value>(bytes) {
        Ok(v) => Some(v.get(key).and_then(serde_json::Value::as_i64)),
        Err(_) => None,
    }
}

/// A cursor that a client can hand back.
pub fn encode_cursor(event_time: i64, id: i64) -> (r: String)
    ensures
        r@ == base64_url_of(encode_utf8(cursor_text(event_time, id))),
        all_url_safe(r@),
{
    let mut text = "{\"i\":".to_owned();
    text.append(decimal_i64(id).as_str());
    text.append(",\"t\":");
    text.append(decimal_i64(event_time).as_str());
    text.append("}");
    let cursor = base64_url(text.as_str().as_bytes());
    proof {
        law_base64_is_url_safe(encode_utf8(cursor_text(event_time, id)));
    }
    cursor
}

/// What reading a cursor comes to, given whether it was base64 and what was read under its keys.
pub open spec fn cursor_read(
    base64: bool,
    t: Option<Option<i64>>,
    i: Option<Option<i64>>,
) -> Result<(i64, i64), Seq<char>> {
    if !base64 {
        Err("cursor is not valid base64"@)
    } else {
        match (t, i) {
            (None, _) => Err("cursor is not valid JSON"@),
            (Some(None), _) => Err("cursor is missing 't'"@),
            (Some(Some(t)), Some(Some(i))) => Ok((t, i)),
            (Some(Some(_)), _) => Err("cursor is missing 'i'"@),
        }
    }
}

/// Takes what was read of a cursor.
pub fn read_cursor(base64: bool, t: Option<Option<i64>>, i: Option<Option<i64>>) -> (r: Result<(i64, i64), String>)
    ensures
        match cursor_read(base64, t, i) {
            Ok(position) => r == Ok::<(i64, i64), String>(position),
            Err(words) => r matches Err(e) && e@ == words,
        },
{
    if !base64 {
        return Err("cursor is not valid base64".to_owned());
    }
    match (t, i) {
        (None, _) => Err("cursor is not valid JSON".to_owned()),
        (Some(None), _) => Err("cursor is missing 't'".to_owned()),
        (Some(Some(t)), Some(Some(i))) => Ok((t, i)),
        (Some(Some(_)), _) => Err("cursor is missing 'i'".to_owned()),
    }
}

/// What decoding a cursor comes to.
pub open spec fn decoded_cursor(s: Seq<char>) -> Result<(i64, i64), Seq<char>> {
    match base64_url_decoded(s) {
        None => cursor_read(false, None, None),
        Some(bytes) => cursor_read(true, json_integer_of(bytes, "t"@), json_integer_of(bytes, "i"@)),
    }
}

/// The position that a cursor holds. A cursor that was encoded is decoded to what it was made of.
pub fn decode_cursor(s: &str) -> (r: Result<(i64, i64), String>)
    ensures
        match decoded_cursor(s@) {
            Ok(position) => r == Ok::<(i64, i64), String>(position),
            Err(words) => r matches Err(e) && e@ == words,
        },
        forall|t: i64, i: i64|
            s@ == base64_url_of(encode_utf8(#[trigger] cursor_text(t, i))) ==> r == Ok::<(i64, i64), String>((t, i)),
{
    match base64_url_bytes(s) {
        None => read_cursor(false, None, None),
        Some(bytes) => {
            proof {
                assert forall|other: Seq<u8>| s@ == #[trigger] base64_url_of(other) implies other == bytes@ by {
                    law_base64_tells_bytes_apart(other, bytes@);
                }
            }
            let t = json_integer(bytes.as_slice(), "t");
            let i = json_integer(bytes.as_slice(), "i");
            read_cursor(true, t, i)
        },
    }
}

/// Nanoseconds since the epoch that a text writes in RFC 3339.
pub uninterp spec fn rfc3339_nanos(s: Seq<char>) -> Option<i128>;

/// `<jiff::Timestamp as FromStr>::from_str` and `as_nanosecond`: the time that the text writes, in
/// nanoseconds since the epoch.
#[verifier::external_body]
fn timestamp_nanos(s: &str) -> (r: Option<i128>)
    ensures
        r == rfc3339_nanos(s@),
{
    s.parse::<jiff::Timestamp>().ok().map(|ts| ts.as_nanosecond())
}

/// Whether a text is a number and so no RFC 3339, which has separators: digits behind at most a minus
/// sign.
pub open spec fn is_number(s: Seq<char>) -> bool {
    let digits = if s.len() > 0 && s[0] == '-' {
        s.drop_first()
    } else {
        s
    };
    digits.len() > 0 && all_digits(digits)
}

/// The time that a text writes, given what it is in RFC 3339.
pub open spec fn time_of(s: Seq<char>, rfc3339: Option<i128>) -> Result<i64, Seq<char>> {
    if is_number(s) {
        match parsed_i64(s) {
            Some(n) => Ok(n),
            None => Err(debug_form(s) + " is not a valid nanosecond count"@),
        }
    } else {
        match rfc3339 {
            None => Err(debug_form(s) + " is neither RFC 3339 nor an integer nanosecond count"@),
            Some(n) => if i64::MIN <= n <= i64::MAX {
                Ok(n as i64)
            } else {
                Err(debug_form(s) + " is outside the representable range"@)
            },
        }
    }
}

fn looks_like_number(s: &str) -> (r: bool)
    ensures
        r == is_number(s@),
{
    let cs = chars_of(s);
    let from: usize = if cs.len() > 0 && cs[0] == '-' { 1 } else { 0 };
    let ghost digits = if s@.len() > 0 && s@[0] == '-' {
        s@.drop_first()
    } else {
        s@
    };
    assert(digits =~= s@.skip(from as int));
    if cs.len() == from {
        return false;
    }
    let mut i: usize = from;
    while i < cs.len()
        invariant
            from <= i <= cs@.len(),
            cs@ == s@,
            digits == s@.skip(from as int),
            digits == if s@.len() > 0 && s@[0] == '-' {
                s@.drop_first()
            } else {
                s@
            },
            forall|k: int| 0 <= k < i - from ==> is_digit(#[trigger] digits[k]),
        decreases cs.len() - i,
    {
        if !('0' <= cs[i] && cs[i] <= '9') {
            assert(!is_digit(digits[i - from]));
            return false;
        }
        i += 1;
    }
    true
}

fn complaint(s: &str, words: &str) -> (r: String)
    ensures
        r@ == debug_form(s@) + words@,
{
    let mut out = debug_text(s);
    out.append(words);
    out
}

/// The time that a text writes, given what it is in RFC 3339.
pub fn time_from(s: &str, rfc3339: Option<i128>) -> (r: Result<i64, String>)
    ensures
        match time_of(s@, rfc3339) {
            Ok(n) => r == Ok::<i64, String>(n),
            Err(words) => r matches Err(e) && e@ == words,
        },
{
    if looks_like_number(s) {
        return match parse_i64(s) {
            Some(n) => Ok(n),
            None => Err(complaint(s, " is not a valid nanosecond count")),
        };
    }
    match rfc3339 {
        None => Err(complaint(s, " is neither RFC 3339 nor an integer nanosecond count")),
        Some(n) => if i64::MIN as i128 <= n && n <= i64::MAX as i128 {
            Ok(n as i64)
        } else {
            Err(complaint(s, " is outside the representable range"))
        },
    }
}

/// The time that a text writes: in RFC 3339, or a number of nanoseconds.
pub fn parse_time(s: &str) -> (r: Result<i64, String>)
    ensures
        match time_of(s@, rfc3339_nanos(s@)) {
            Ok(n) => r == Ok::<i64, String>(n),
            Err(words) => r matches Err(e) && e@ == words,
        },
{
    time_from(s, timestamp_nanos(s))
}

/// What a query asks.
#[verifier::ext_equal]
pub struct QueryView {
    pub types: Seq<Seq<char>>,
    pub from: Option<i64>,
    pub to: Option<i64>,
    pub attrs: Seq<(Seq<char>, Seq<char>)>,
    pub limit: i64,
    pub cursor: Option<(i64, i64)>,
}

pub open spec fn query_view(q: QuerySpec<i64>) -> QueryView {
    QueryView {
        types: texts(q.types@),
        from: q.from,
        to: q.to,
        attrs: text_pairs(q.attrs@),
        limit: q.limit,
        cursor: q.cursor,
    }
}

pub open spec fn refused(words: Seq<char>) -> FailureView {
    FailureView { status: BAD_REQUEST, message: words }
}

/// A query with one parameter more. One that is not known is refused: a typing error in the name of a
/// filter must not widen what is returned.
pub open spec fn with_parameter(q: QueryView, key: Seq<char>, value: Seq<char>) -> Result<QueryView, FailureView> {
    if key == "type"@ {
        Ok(QueryView { types: q.types.push(value), ..q })
    } else if key == "from"@ {
        match time_of(value, rfc3339_nanos(value)) {
            Ok(t) => Ok(QueryView { from: Some(t), ..q }),
            Err(words) => Err(refused(words)),
        }
    } else if key == "to"@ {
        match time_of(value, rfc3339_nanos(value)) {
            Ok(t) => Ok(QueryView { to: Some(t), ..q }),
            Err(words) => Err(refused(words)),
        }
    } else if key == "limit"@ {
        match parsed_i64(value) {
            Some(n) => Ok(QueryView { limit: clamped(n, 1, MAX_LIMIT), ..q }),
            None => Err(refused("limit "@ + debug_form(value) + " is not an integer"@)),
        }
    } else if key == "cursor"@ {
        match decoded_cursor(value) {
            Ok(position) => Ok(QueryView { cursor: Some(position), ..q }),
            Err(words) => Err(refused(words)),
        }
    } else if begins_with(key, "attr."@) {
        if key.len() == "attr."@.len() {
            Err(refused("attr. filter is missing a key"@))
        } else {
            Ok(QueryView { attrs: q.attrs.push((key.skip("attr."@.len() as int), value)), ..q })
        }
    } else {
        Err(
            refused(
                "unknown query parameter "@ + debug_form(key)
                    + "; expected type, from, to, limit, cursor or attr.<key>"@,
            ),
        )
    }
}

/// The query that some parameters make, or why the first wrong one is refused.
pub open spec fn parsed_query(raw: Seq<(Seq<char>, Seq<char>)>) -> Result<QueryView, FailureView>
    decreases raw.len(),
{
    if raw.len() == 0 {
        Ok(
            QueryView {
                types: Seq::empty(),
                from: None,
                to: None,
                attrs: Seq::empty(),
                limit: DEFAULT_LIMIT,
                cursor: None,
            },
        )
    } else {
        match parsed_query(raw.drop_last()) {
            Err(e) => Err(e),
            Ok(q) => with_parameter(q, raw.last().0, raw.last().1),
        }
    }
}

proof fn lemma_first_error_stays(raw: Seq<(Seq<char>, Seq<char>)>, n: int)
    requires
        0 <= n <= raw.len(),
        parsed_query(raw.take(n)) is Err,
    ensures
        parsed_query(raw) == parsed_query(raw.take(n)),
    decreases raw.len(),
{
    if n == raw.len() {
        assert(raw.take(n) =~= raw);
    } else {
        assert(raw.drop_last().take(n) =~= raw.take(n));
        lemma_first_error_stays(raw.drop_last(), n);
    }
}

fn apply(q: &mut QuerySpec<i64>, key: &str, value: &str) -> (r: Result<(), ApiError>)
    ensures
        match with_parameter(query_view(*old(q)), key@, value@) {
            Ok(view) => r is Ok && query_view(*final(q)) == view,
            Err(e) => r matches Err(f) && f.view() == e,
        },
{
    let ghost before = query_view(*q);
    if same_text(key, "type") {
        q.types.push(value.to_owned());
        assert(texts(q.types@) =~= before.types.push(value@));
        return Ok(());
    }
    if same_text(key, "from") {
        return match parse_time(value) {
            Ok(t) => {
                q.from = Some(t);
                Ok(())
            },
            Err(words) => Err(ApiError::bad_request(words)),
        };
    }
    if same_text(key, "to") {
        return match parse_time(value) {
            Ok(t) => {
                q.to = Some(t);
                Ok(())
            },
            Err(words) => Err(ApiError::bad_request(words)),
        };
    }
    if same_text(key, "limit") {
        return match parse_i64(value) {
            Some(n) => {
                q.limit = clamp(n, 1, MAX_LIMIT);
                Ok(())
            },
            None => {
                let mut words = "limit ".to_owned();
                words.append(debug_text(value).as_str());
                words.append(" is not an integer");
                Err(ApiError::bad_request(words))
            },
        };
    }
    if same_text(key, "cursor") {
        return match decode_cursor(value) {
            Ok(position) => {
                q.cursor = Some(position);
                Ok(())
            },
            Err(words) => Err(ApiError::bad_request(words)),
        };
    }
    if has_prefix(key, "attr.") {
        let prefix_len: usize = "attr.".unicode_len();
        if key.unicode_len() == prefix_len {
            return Err(ApiError::bad_request("attr. filter is missing a key".to_owned()));
        }
        let name = tail_from(key, prefix_len);
        q.attrs.push((name.to_owned(), value.to_owned()));
        assert(text_pairs(q.attrs@) =~= before.attrs.push((name@, value@)));
        return Ok(());
    }
    let mut words = "unknown query parameter ".to_owned();
    words.append(debug_text(key).as_str());
    words.append("; expected type, from, to, limit, cursor or attr.<key>");
    Err(ApiError::bad_request(words))
}

/// The query that the parameters of a request make.
pub fn parse_query(raw: &[(String, String)]) -> (r: Result<QuerySpec<i64>, ApiError>)
    ensures
        match parsed_query(text_pairs(raw@)) {
            Ok(view) => r matches Ok(q) && query_view(q) == view,
            Err(e) => r matches Err(f) && f.view() == e,
        },
{
    let ghost all = text_pairs(raw@);
    let mut q: QuerySpec<i64> = QuerySpec::default();
    q.limit = DEFAULT_LIMIT;
    let mut i: usize = 0;
    proof {
        assert(all.take(0) =~= Seq::empty());
        assert(texts(q.types@) =~= Seq::empty());
        assert(text_pairs(q.attrs@) =~= Seq::empty());
    }
    while i < raw.len()
        invariant
            i <= raw@.len(),
            all == text_pairs(raw@),
            parsed_query(all.take(i as int)) == Ok::<QueryView, FailureView>(query_view(q)),
        decreases raw.len() - i,
    {
        proof {
            assert(all.take(i + 1).drop_last() =~= all.take(i as int));
            assert(all.take(i + 1).last() == all[i as int]);
        }
        match apply(&mut q, raw[i].0.as_str(), raw[i].1.as_str()) {
            Ok(()) => {},
            Err(e) => {
                proof {
                    lemma_first_error_stays(all, i + 1);
                }
                return Err(e);
            },
        }
        i += 1;
    }
    assert(all.take(i as int) =~= all);
    Ok(q)
}

/// A measurement in an answer. Times are texts: a client whose numbers are doubles would round them.
#[derive(Debug, PartialEq, Eq)]
pub struct MeasurementJson {
    pub id: String,
    pub event_time: String,
    pub event_time_unix_nano: String,
    pub processed_time: String,
    pub processed_time_unix_nano: String,
    pub kind: String,
    pub body: Json,
    pub attributes: Json,
}

/// Whether this is what an answer says of a measurement.
pub open spec fn answers(j: MeasurementJson, m: StoredMeasurement) -> bool {
    &&& j.id@ == hex_text(m.id@)
    &&& j.event_time@ == shown(m.event_time, rfc3339_of(m.event_time))
    &&& j.event_time_unix_nano@ == signed_decimal(m.event_time as int)
    &&& j.processed_time@ == shown(m.processed_time, rfc3339_of(m.processed_time))
    &&& j.processed_time_unix_nano@ == signed_decimal(m.processed_time as int)
    &&& j.kind == m.kind
    &&& j.body.view() == match m.body {
        Some(body) => body.view(),
        None => Value::Null,
    }
    &&& j.attributes == m.attributes
}

/// What an answer says of a measurement; an absent body is null there.
pub fn to_json(m: StoredMeasurement) -> (r: MeasurementJson)
    ensures
        answers(r, m),
{
    let body = match m.body {
        Some(body) => body,
        None => Json::Null,
    };
    MeasurementJson {
        id: to_hex(&m.id),
        event_time: format_nanos(m.event_time),
        event_time_unix_nano: decimal_i64(m.event_time),
        processed_time: format_nanos(m.processed_time),
        processed_time_unix_nano: decimal_i64(m.processed_time),
        kind: m.kind,
        body,
        attributes: m.attributes,
    }
}

/// A page of measurements.
#[derive(Debug, PartialEq, Eq)]
pub struct Page {
    pub measurements: Vec<MeasurementJson>,
    pub next_cursor: Option<String>,
}

/// The page of the rows that a query gave. A full page may have another behind it; a short one is the
/// last. `last_row` is the number of the last row.
pub fn page(rows: Vec<StoredMeasurement>, last_row: i64, limit: i64) -> (r: Page)
    ensures
        r.measurements@.len() == rows@.len(),
        forall|i: int| 0 <= i < rows@.len() ==> answers(#[trigger] r.measurements@[i], rows@[i]),
        r.next_cursor is Some <==> rows@.len() > 0 && rows@.len() == limit,
        r.next_cursor matches Some(cursor) ==> cursor@ == base64_url_of(
            encode_utf8(cursor_text(rows@.last().event_time, last_row)),
        ),
{
    let n: usize = rows.len();
    let full = n > 0 && limit >= 0 && n as u64 == limit as u64;
    let next_cursor = if full {
        Some(encode_cursor(rows[n - 1].event_time, last_row))
    } else {
        None
    };
    let mut measurements: Vec<MeasurementJson> = Vec::new();
    for row in it: rows.into_iter()
        invariant
            it.seq() == rows@,
            measurements@.len() == it.index(),
            forall|i: int| 0 <= i < measurements@.len() ==> answers(#[trigger] measurements@[i], rows@[i]),
    {
        measurements.push(to_json(row));
    }
    Page { measurements, next_cursor }
}

} // verus!
