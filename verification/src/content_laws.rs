//! What the canonical bytes of [`content_id`](crate::content_id) tell apart, and what they do not.

use vstd::prelude::*;
use vstd::utf8::encode_utf8;

use crate::bytes::{be64, big_endian_value, lemma_be64};
use crate::content_id::{
    canonical, encode, encode_items, encode_members, encode_number, encode_object, lemma_sorted_keys,
    normalized, prefixed, series_bytes, sorted_keys, DOMAIN, SERIES_DOMAIN, TAG_ARRAY, TAG_BODY_ABSENT,
    TAG_BODY_PRESENT, TAG_BOOL, TAG_F64, TAG_I64, TAG_NULL, TAG_OBJECT, TAG_STR, TAG_U64,
};
use crate::json::{distinct_keys, lemma_members, members, Json, Number, Value};
use crate::model::MeasurementView;
use crate::text::lemma_utf8_injective;

verus! {

/// Whether two values say the same: numbers up to their normal form, objects whatever the order of
/// their members, all else exactly.
pub open spec fn same_content(v: Value, w: Value) -> bool
    decreases v,
{
    match (v, w) {
        (Value::Null, Value::Null) => true,
        (Value::Bool(a), Value::Bool(b)) => a == b,
        (Value::Number(a), Value::Number(b)) => normalized(a) == normalized(b),
        (Value::Str(a), Value::Str(b)) => a == b,
        (Value::Array(a), Value::Array(b)) => {
            &&& a.len() == b.len()
            &&& forall|i: int| 0 <= i < a.len() ==> same_content(#[trigger] a[i], b[i])
        },
        (Value::Object(a), Value::Object(b)) => {
            &&& a.dom() == b.dom()
            &&& a.dom().finite()
            &&& forall|k: Seq<char>| a.dom().finite() && a.contains_key(k) ==> same_content(#[trigger] a[k], b[k])
        },
        _ => false,
    }
}

/// Whether the lengths in a value can be written in 64 bits.
pub open spec fn fits(v: Value) -> bool
    decreases v,
{
    match v {
        Value::Str(s) => encode_utf8(s).len() <= u64::MAX,
        Value::Array(items) => {
            &&& items.len() <= u64::MAX
            &&& forall|i: int| 0 <= i < items.len() ==> fits(#[trigger] items[i])
        },
        Value::Object(m) => object_fits(m),
        _ => true,
    }
}

/// Whether the lengths in an object can be written in 64 bits.
pub open spec fn object_fits(m: Map<Seq<char>, Value>) -> bool
    decreases m,
{
    &&& m.dom().finite()
    &&& m.dom().len() <= u64::MAX
    &&& forall|k: Seq<char>| m.dom().finite() && m.contains_key(k) ==> encode_utf8(k).len() <= u64::MAX && fits(#[trigger] m[k])
}

/// Taking equal heads off equal sequences leaves equal tails.
proof fn lemma_cut(a: Seq<u8>, x: Seq<u8>, b: Seq<u8>, y: Seq<u8>)
    requires
        a + x == b + y,
        a.len() == b.len(),
    ensures
        a == b,
        x == y,
{
    assert(a =~= (a + x).take(a.len() as int));
    assert(b =~= (b + y).take(b.len() as int));
    assert(x =~= (a + x).skip(a.len() as int));
    assert(y =~= (b + y).skip(b.len() as int));
}

proof fn lemma_be64_equal(a: u64, b: u64)
    requires
        be64(a) == be64(b),
    ensures
        a == b,
{
    lemma_be64(a);
    lemma_be64(b);
}

/// Bytes behind their number can be told from what follows them.
proof fn lemma_prefixed_cut(a: Seq<u8>, x: Seq<u8>, b: Seq<u8>, y: Seq<u8>)
    requires
        prefixed(a) + x == prefixed(b) + y,
        a.len() <= u64::MAX,
        b.len() <= u64::MAX,
    ensures
        a == b,
        x == y,
{
    lemma_be64(a.len() as u64);
    lemma_be64(b.len() as u64);
    assert(prefixed(a) + x =~= be64(a.len() as u64) + (a + x));
    assert(prefixed(b) + y =~= be64(b.len() as u64) + (b + y));
    lemma_cut(be64(a.len() as u64), a + x, be64(b.len() as u64), b + y);
    lemma_be64_equal(a.len() as u64, b.len() as u64);
    lemma_cut(a, x, b, y);
}

proof fn lemma_i64_bits(a: i64, b: i64)
    requires
        a as u64 == b as u64,
    ensures
        a == b,
{
    assert(a as u64 == b as u64 ==> a == b) by (bit_vector);
}

/// The tag a value's bytes begin with.
spec fn tag_of(v: Value) -> u8 {
    match v {
        Value::Null => TAG_NULL,
        Value::Bool(_) => TAG_BOOL,
        Value::Number(n) => match normalized(n) {
            Number::Int(_) => TAG_I64,
            Number::UInt(_) => TAG_U64,
            Number::Float(_) => TAG_F64,
        },
        Value::Str(_) => TAG_STR,
        Value::Array(_) => TAG_ARRAY,
        Value::Object(_) => TAG_OBJECT,
    }
}

proof fn lemma_tag(v: Value)
    ensures
        encode(v).len() > 0,
        encode(v)[0] == tag_of(v),
{
}

/// The bytes of a value can be told from what follows them, and say what the value says.
proof fn lemma_encode_cut(v: Value, x: Seq<u8>, w: Value, y: Seq<u8>)
    requires
        fits(v),
        fits(w),
        encode(v) + x == encode(w) + y,
    ensures
        same_content(v, w),
        x == y,
    decreases v, 0int,
{
    lemma_tag(v);
    lemma_tag(w);
    assert((encode(v) + x)[0] == tag_of(v));
    assert((encode(w) + y)[0] == tag_of(w));
    assert(tag_of(v) == tag_of(w));
    match v {
        Value::Null => {
            assert(w is Null);
            lemma_cut(encode(v), x, encode(w), y);
        },
        Value::Bool(_) => {
            assert(w is Bool);
            lemma_cut(encode(v), x, encode(w), y);
            assert(encode(v)[1] == encode(w)[1]);
        },
        Value::Number(a) => {
            assert(w is Number);
            lemma_number_cut(a, x, w->Number_0, y);
        },
        Value::Str(a) => {
            assert(w is Str);
            let b = w->Str_0;
            let p = prefixed(encode_utf8(a));
            let q = prefixed(encode_utf8(b));
            assert(encode(v) + x =~= seq![TAG_STR] + (p + x));
            assert(encode(w) + y =~= seq![TAG_STR] + (q + y));
            lemma_cut(seq![TAG_STR], p + x, seq![TAG_STR], q + y);
            lemma_prefixed_cut(encode_utf8(a), x, encode_utf8(b), y);
            lemma_utf8_injective(a, b);
        },
        Value::Array(a) => {
            assert(w is Array);
            let b = w->Array_0;
            let n = be64(a.len() as u64);
            let m = be64(b.len() as u64);
            lemma_be64(a.len() as u64);
            lemma_be64(b.len() as u64);
            assert(encode(v) + x =~= (seq![TAG_ARRAY] + n) + (encode_items(a) + x));
            assert(encode(w) + y =~= (seq![TAG_ARRAY] + m) + (encode_items(b) + y));
            lemma_cut(seq![TAG_ARRAY] + n, encode_items(a) + x, seq![TAG_ARRAY] + m, encode_items(b) + y);
            lemma_cut(seq![TAG_ARRAY], n, seq![TAG_ARRAY], m);
            lemma_be64_equal(a.len() as u64, b.len() as u64);
            lemma_items_cut(a, x, b, y);
        },
        Value::Object(a) => {
            assert(w is Object);
            lemma_object_cut(a, x, w->Object_0, y);
        },
    }
}

proof fn lemma_number_cut(a: Number, x: Seq<u8>, b: Number, y: Seq<u8>)
    requires
        encode_number(a) + x == encode_number(b) + y,
    ensures
        normalized(a) == normalized(b),
        x == y,
{
    let p = match normalized(a) {
        Number::Int(i) => (TAG_I64, i as u64),
        Number::UInt(u) => (TAG_U64, u),
        Number::Float(bits) => (TAG_F64, bits),
    };
    let q = match normalized(b) {
        Number::Int(i) => (TAG_I64, i as u64),
        Number::UInt(u) => (TAG_U64, u),
        Number::Float(bits) => (TAG_F64, bits),
    };
    lemma_be64(p.1);
    lemma_be64(q.1);
    lemma_cut(encode_number(a), x, encode_number(b), y);
    lemma_cut(seq![p.0], be64(p.1), seq![q.0], be64(q.1));
    assert(seq![p.0][0] == seq![q.0][0]);
    lemma_be64_equal(p.1, q.1);
    if normalized(a) is Int {
        lemma_i64_bits(normalized(a)->Int_0, normalized(b)->Int_0);
    }
}

proof fn lemma_items_cut(a: Seq<Value>, x: Seq<u8>, b: Seq<Value>, y: Seq<u8>)
    requires
        a.len() == b.len(),
        forall|i: int| 0 <= i < a.len() ==> fits(#[trigger] a[i]),
        forall|i: int| 0 <= i < b.len() ==> fits(#[trigger] b[i]),
        encode_items(a) + x == encode_items(b) + y,
    ensures
        forall|i: int| 0 <= i < a.len() ==> same_content(#[trigger] a[i], b[i]),
        x == y,
    decreases a, 1int,
{
    if a.len() == 0 {
        assert(encode_items(a) + x =~= x);
        assert(encode_items(b) + y =~= y);
    } else {
        let s = a.drop_first();
        let t = b.drop_first();
        assert(encode_items(a) + x =~= encode(a[0]) + (encode_items(s) + x));
        assert(encode_items(b) + y =~= encode(b[0]) + (encode_items(t) + y));
        lemma_encode_cut(a[0], encode_items(s) + x, b[0], encode_items(t) + y);
        assert forall|i: int| 0 <= i < s.len() implies fits(#[trigger] s[i]) by {
            assert(s[i] == a[i + 1]);
        }
        assert forall|i: int| 0 <= i < t.len() implies fits(#[trigger] t[i]) by {
            assert(t[i] == b[i + 1]);
        }
        lemma_items_cut(s, x, t, y);
        assert forall|i: int| 0 <= i < a.len() implies same_content(#[trigger] a[i], b[i]) by {
            if i > 0 {
                assert(a[i] == s[i - 1] && b[i] == t[i - 1]);
            }
        }
    }
}

proof fn lemma_object_cut(a: Map<Seq<char>, Value>, x: Seq<u8>, b: Map<Seq<char>, Value>, y: Seq<u8>)
    requires
        object_fits(a),
        object_fits(b),
        encode_object(a) + x == encode_object(b) + y,
    ensures
        same_content(Value::Object(a), Value::Object(b)),
        x == y,
    decreases a, 2int,
{
    let n = be64(a.dom().len() as u64);
    let m = be64(b.dom().len() as u64);
    let s = sorted_keys(a.dom());
    let t = sorted_keys(b.dom());
    lemma_be64(a.dom().len() as u64);
    lemma_be64(b.dom().len() as u64);
    assert(encode_object(a) + x =~= (seq![TAG_OBJECT] + n) + (encode_members(a, s) + x));
    assert(encode_object(b) + y =~= (seq![TAG_OBJECT] + m) + (encode_members(b, t) + y));
    lemma_cut(seq![TAG_OBJECT] + n, encode_members(a, s) + x, seq![TAG_OBJECT] + m, encode_members(b, t) + y);
    lemma_cut(seq![TAG_OBJECT], n, seq![TAG_OBJECT], m);
    lemma_be64_equal(a.dom().len() as u64, b.dom().len() as u64);
    lemma_keys_enumerate(a.dom());
    lemma_keys_enumerate(b.dom());
    lemma_members_cut(a, s, x, b, t, y);
    assert(a.dom() =~= b.dom());
    assert forall|k: Seq<char>| a.contains_key(k) implies same_content(#[trigger] a[k], b[k]) by {
        assert(s.to_set().contains(k));
        let i = choose|i: int| 0 <= i < s.len() && s[i] == k;
        assert(same_content(a[s[i]], b[s[i]]));
    }
}

/// The ordered keys of a set are as many as the set has, and all of them its own.
proof fn lemma_keys_enumerate(keys: Set<Seq<char>>)
    requires
        keys.finite(),
    ensures
        sorted_keys(keys).len() == keys.len(),
        sorted_keys(keys).to_set() == keys,
        forall|i: int| 0 <= i < sorted_keys(keys).len() ==> keys.contains(#[trigger] sorted_keys(keys)[i]),
{
    lemma_sorted_keys(keys);
    let ks = sorted_keys(keys);
    assert(ks.no_duplicates()) by {
        assert forall|i: int, j: int| 0 <= i < ks.len() && 0 <= j < ks.len() && i != j implies ks[i] != ks[j] by {
            crate::content_id::lemma_sorted_keys_differ(ks, i, j);
        }
    }
    ks.unique_seq_to_set();
    assert forall|i: int| 0 <= i < ks.len() implies keys.contains(#[trigger] ks[i]) by {
        assert(ks.to_set().contains(ks[i]));
    }
}

proof fn lemma_members_cut(
    a: Map<Seq<char>, Value>,
    s: Seq<Seq<char>>,
    x: Seq<u8>,
    b: Map<Seq<char>, Value>,
    t: Seq<Seq<char>>,
    y: Seq<u8>,
)
    requires
        object_fits(a),
        object_fits(b),
        s.len() == t.len(),
        forall|i: int| 0 <= i < s.len() ==> a.contains_key(#[trigger] s[i]),
        forall|i: int| 0 <= i < t.len() ==> b.contains_key(#[trigger] t[i]),
        encode_members(a, s) + x == encode_members(b, t) + y,
    ensures
        s == t,
        forall|i: int| 0 <= i < s.len() ==> same_content(a[#[trigger] s[i]], b[s[i]]),
        x == y,
    decreases a, 1int, s.len(),
{
    if s.len() == 0 {
        assert(encode_members(a, s) + x =~= x);
        assert(encode_members(b, t) + y =~= y);
        assert(s =~= t);
    } else {
        let k = s[0];
        let l = t[0];
        assert(a.contains_key(s[0]) && b.contains_key(t[0]));
        let s1 = s.drop_first();
        let t1 = t.drop_first();
        let x1 = encode_members(a, s1) + x;
        let y1 = encode_members(b, t1) + y;
        assert(encode_members(a, s) + x =~= prefixed(encode_utf8(k)) + (encode(a[k]) + x1));
        assert(encode_members(b, t) + y =~= prefixed(encode_utf8(l)) + (encode(b[l]) + y1));
        assert(fits(a[k]) && fits(b[l]));
        lemma_prefixed_cut(encode_utf8(k), encode(a[k]) + x1, encode_utf8(l), encode(b[l]) + y1);
        lemma_utf8_injective(k, l);
        lemma_encode_cut(a[k], x1, b[l], y1);
        assert forall|i: int| 0 <= i < s1.len() implies a.contains_key(#[trigger] s1[i]) by {
            assert(s1[i] == s[i + 1]);
        }
        assert forall|i: int| 0 <= i < t1.len() implies b.contains_key(#[trigger] t1[i]) by {
            assert(t1[i] == t[i + 1]);
        }
        lemma_members_cut(a, s1, x, b, t1, y);
        assert(s =~= seq![k] + s1);
        assert(t =~= seq![l] + t1);
        assert forall|i: int| 0 <= i < s.len() implies same_content(a[#[trigger] s[i]], b[s[i]]) by {
            if i > 0 {
                assert(s[i] == s1[i - 1]);
            }
        }
    }
}

/// Values that say the same have the same bytes.
proof fn lemma_same_encodes(v: Value, w: Value)
    requires
        same_content(v, w),
    ensures
        encode(v) == encode(w),
    decreases v, 0int,
{
    match (v, w) {
        (Value::Array(a), Value::Array(b)) => {
            lemma_same_items(a, b);
        },
        (Value::Object(a), Value::Object(b)) => {
            lemma_keys_enumerate(a.dom());
            lemma_same_members(a, b, sorted_keys(a.dom()));
        },
        _ => {},
    }
}

proof fn lemma_same_items(a: Seq<Value>, b: Seq<Value>)
    requires
        a.len() == b.len(),
        forall|i: int| 0 <= i < a.len() ==> same_content(#[trigger] a[i], b[i]),
    ensures
        encode_items(a) == encode_items(b),
    decreases a, 1int,
{
    if a.len() > 0 {
        let s = a.drop_first();
        let t = b.drop_first();
        assert(same_content(a[0], b[0]));
        lemma_same_encodes(a[0], b[0]);
        assert forall|i: int| 0 <= i < s.len() implies same_content(#[trigger] s[i], t[i]) by {
            assert(s[i] == a[i + 1] && t[i] == b[i + 1]);
        }
        lemma_same_items(s, t);
    }
}

proof fn lemma_same_members(a: Map<Seq<char>, Value>, b: Map<Seq<char>, Value>, ks: Seq<Seq<char>>)
    requires
        a.dom() == b.dom(),
        a.dom().finite(),
        forall|k: Seq<char>| a.contains_key(k) ==> same_content(#[trigger] a[k], b[k]),
        forall|i: int| 0 <= i < ks.len() ==> a.contains_key(#[trigger] ks[i]),
    ensures
        encode_members(a, ks) == encode_members(b, ks),
    decreases a, 1int, ks.len(),
{
    if ks.len() > 0 {
        let rest = ks.drop_first();
        assert(a.contains_key(ks[0]));
        assert(b.contains_key(ks[0]));
        lemma_same_encodes(a[ks[0]], b[ks[0]]);
        assert forall|i: int| 0 <= i < rest.len() implies a.contains_key(#[trigger] rest[i]) by {
            assert(rest[i] == ks[i + 1]);
        }
        lemma_same_members(a, b, rest);
    }
}

/// Two values have the same canonical bytes exactly when they say the same. In particular an
/// integer, a double, a text and a list of one are told apart, and so are two lists whose items
/// stand in another order.
pub proof fn law_bytes_identify_values(v: Value, w: Value)
    requires
        fits(v),
        fits(w),
    ensures
        encode(v) == encode(w) <==> same_content(v, w),
{
    if encode(v) == encode(w) {
        lemma_encode_cut(v, Seq::empty(), w, Seq::empty());
    }
    if same_content(v, w) {
        lemma_same_encodes(v, w);
    }
}

/// Whether two measurements are the same measurement, however often they were delivered: all but
/// the time the server processed them says the same.
pub open spec fn same_measurement(m: MeasurementView, n: MeasurementView) -> bool {
    &&& m.event_time == n.event_time
    &&& m.kind == n.kind
    &&& match (m.body, n.body) {
        (None, None) => true,
        (Some(v), Some(w)) => same_content(v, w),
        _ => false,
    }
    &&& same_content(Value::Object(m.attributes), Value::Object(n.attributes))
}

/// Whether the lengths in a measurement can be written in 64 bits.
pub open spec fn measurement_fits(m: MeasurementView) -> bool {
    &&& encode_utf8(m.kind).len() <= u64::MAX
    &&& m.body is Some ==> fits(m.body->0)
    &&& object_fits(m.attributes)
}

/// How a body is written: a tag that says whether there is one, and then the value.
spec fn body_bytes(body: Option<Value>) -> Seq<u8> {
    match body {
        None => seq![TAG_BODY_ABSENT],
        Some(v) => seq![TAG_BODY_PRESENT] + encode(v),
    }
}

/// The bytes that are hashed are the same for two deliveries of one measurement, and different for
/// two different measurements: the boundaries between the fields are never in doubt, and an absent
/// body is not a null one.
pub proof fn law_canonical_bytes_identify_measurements(m: MeasurementView, n: MeasurementView)
    requires
        measurement_fits(m),
        measurement_fits(n),
    ensures
        canonical(m) == canonical(n) <==> same_measurement(m, n),
{
    if canonical(m) == canonical(n) {
        lemma_canonical_cut(m, n);
    }
    if same_measurement(m, n) {
        if m.body is Some {
            lemma_same_encodes(m.body->0, n.body->0);
        }
        lemma_same_encodes(Value::Object(m.attributes), Value::Object(n.attributes));
    }
}

proof fn lemma_canonical_cut(m: MeasurementView, n: MeasurementView)
    requires
        measurement_fits(m),
        measurement_fits(n),
        canonical(m) == canonical(n),
    ensures
        same_measurement(m, n),
{
    let rest_m = body_bytes(m.body) + encode_object(m.attributes);
    let rest_n = body_bytes(n.body) + encode_object(n.attributes);
    lemma_canonical_parts(m);
    lemma_canonical_parts(n);
    lemma_fields_cut(m.event_time, m.kind, rest_m, n.event_time, n.kind, rest_n);
    lemma_bodies_cut(m.body, encode_object(m.attributes), n.body, encode_object(n.attributes));
    lemma_attributes_cut(m.attributes, n.attributes);
}

/// What stands before the body.
spec fn leading_bytes(event_time: i64, kind: Seq<char>) -> Seq<u8> {
    encode_utf8(DOMAIN@) + be64(event_time as u64) + prefixed(encode_utf8(kind))
}

proof fn lemma_canonical_parts(m: MeasurementView)
    ensures
        canonical(m) == leading_bytes(m.event_time, m.kind) + (body_bytes(m.body) + encode_object(
            m.attributes,
        )),
{
    let leading = leading_bytes(m.event_time, m.kind);
    let body = body_bytes(m.body);
    let object = encode_object(m.attributes);
    assert(canonical(m) == leading + body + object);
    assert(leading + body + object =~= leading + (body + object));
}

proof fn lemma_fields_cut(
    time_m: i64,
    kind_m: Seq<char>,
    x: Seq<u8>,
    time_n: i64,
    kind_n: Seq<char>,
    y: Seq<u8>,
)
    requires
        leading_bytes(time_m, kind_m) + x == leading_bytes(time_n, kind_n) + y,
        encode_utf8(kind_m).len() <= u64::MAX,
        encode_utf8(kind_n).len() <= u64::MAX,
    ensures
        time_m == time_n,
        kind_m == kind_n,
        x == y,
{
    let head = encode_utf8(DOMAIN@);
    let a = be64(time_m as u64);
    let b = be64(time_n as u64);
    let k = prefixed(encode_utf8(kind_m));
    let l = prefixed(encode_utf8(kind_n));
    lemma_be64(time_m as u64);
    lemma_be64(time_n as u64);
    assert(head + a + k + x =~= head + (a + (k + x)));
    assert(head + b + l + y =~= head + (b + (l + y)));
    lemma_cut(head, a + (k + x), head, b + (l + y));
    lemma_cut(a, k + x, b, l + y);
    lemma_be64_equal(time_m as u64, time_n as u64);
    lemma_i64_bits(time_m, time_n);
    lemma_prefixed_cut(encode_utf8(kind_m), x, encode_utf8(kind_n), y);
    lemma_utf8_injective(kind_m, kind_n);
}

proof fn lemma_attributes_cut(a: Map<Seq<char>, Value>, b: Map<Seq<char>, Value>)
    requires
        object_fits(a),
        object_fits(b),
        encode_object(a) == encode_object(b),
    ensures
        same_content(Value::Object(a), Value::Object(b)),
{
    lemma_encode_cut(Value::Object(a), Seq::empty(), Value::Object(b), Seq::empty());
}

proof fn lemma_bodies_cut(a: Option<Value>, x: Seq<u8>, b: Option<Value>, y: Seq<u8>)
    requires
        a is Some ==> fits(a->0),
        b is Some ==> fits(b->0),
        body_bytes(a) + x == body_bytes(b) + y,
    ensures
        a is Some == b is Some,
        a is Some ==> same_content(a->0, b->0),
        x == y,
{
    let p = body_bytes(a);
    let q = body_bytes(b);
    assert((p + x)[0] == p[0]);
    assert((q + y)[0] == q[0]);
    if a is Some {
        assert(b is Some);
        assert(p + x =~= seq![TAG_BODY_PRESENT] + (encode(a->0) + x));
        assert(q + y =~= seq![TAG_BODY_PRESENT] + (encode(b->0) + y));
        lemma_cut(seq![TAG_BODY_PRESENT], encode(a->0) + x, seq![TAG_BODY_PRESENT], encode(b->0) + y);
        lemma_encode_cut(a->0, x, b->0, y);
    } else {
        assert(b is None);
        lemma_cut(p, x, q, y);
    }
}

/// The time the server processed a measurement is no part of its identity.
pub proof fn law_processed_time_is_not_hashed(m: MeasurementView, processed_time: i64)
    ensures
        canonical(MeasurementView { processed_time, ..m }) == canonical(m),
{
}

/// The order in which the members of an object were inserted makes no difference to what it says,
/// and so none to its bytes.
pub proof fn law_member_order_is_irrelevant(a: Seq<(String, Json)>, b: Seq<(String, Json)>)
    requires
        distinct_keys(a),
        distinct_keys(b),
        a.to_multiset() == b.to_multiset(),
    ensures
        members(a) == members(b),
        encode_object(members(a)) == encode_object(members(b)),
{
    lemma_members(a);
    lemma_members(b);
    assert forall|k: Seq<char>| #[trigger] members(a).contains_key(k) <==> members(b).contains_key(k) by {
        if members(a).contains_key(k) {
            let i = choose|i: int| 0 <= i < a.len() && (#[trigger] a[i]).0@ == k;
            lemma_same_entry(a, b, i);
        }
        if members(b).contains_key(k) {
            let i = choose|i: int| 0 <= i < b.len() && (#[trigger] b[i]).0@ == k;
            lemma_same_entry(b, a, i);
        }
    }
    assert forall|k: Seq<char>| #[trigger] members(a).contains_key(k) implies members(a)[k] == members(b)[k] by {
        let i = choose|i: int| 0 <= i < a.len() && (#[trigger] a[i]).0@ == k;
        lemma_same_entry(a, b, i);
    }
    assert(members(a) =~= members(b));
}

proof fn lemma_same_entry(a: Seq<(String, Json)>, b: Seq<(String, Json)>, i: int)
    requires
        a.to_multiset() == b.to_multiset(),
        0 <= i < a.len(),
    ensures
        exists|j: int| 0 <= j < b.len() && #[trigger] b[j] == a[i],
{
    broadcast use vstd::seq_lib::group_to_multiset_ensures;

    assert(a.contains(a[i]));
    assert(a.to_multiset().count(a[i]) > 0);
    assert(b.to_multiset().count(a[i]) > 0);
    assert(b.contains(a[i]));
}

/// Whether two numbers are one to an identity: integers of one value, however they are kept, and
/// doubles of the same bits, or both a zero. An integer and a double never are.
pub open spec fn same_number(a: Number, b: Number) -> bool {
    match (a, b) {
        (Number::Int(x), Number::Int(y)) => x == y,
        (Number::Int(x), Number::UInt(y)) => x == y,
        (Number::UInt(x), Number::Int(y)) => x == y,
        (Number::UInt(x), Number::UInt(y)) => x == y,
        (Number::Float(x), Number::Float(y)) => {
            ||| x == y
            ||| (x == 0 || x == 0x8000_0000_0000_0000) && (y == 0 || y == 0x8000_0000_0000_0000)
        },
        _ => false,
    }
}

/// Two numbers have the same bytes exactly where they are one to an identity.
pub proof fn law_bytes_identify_numbers(a: Number, b: Number)
    ensures
        encode_number(a) == encode_number(b) <==> same_number(a, b),
        normalized(a) == normalized(b) <==> same_number(a, b),
{
    if encode_number(a) == encode_number(b) {
        assert(encode_number(a) + Seq::<u8>::empty() == encode_number(b) + Seq::<u8>::empty());
        lemma_number_cut(a, Seq::empty(), b, Seq::empty());
    }
}

/// A number of eight bytes is written with the most significant first.
pub proof fn law_numbers_are_written_big_end_first(n: u64)
    ensures
        be64(n).len() == 8,
        be64(n)[0] * 0x100_0000_0000_0000 + be64(n)[1] * 0x1_0000_0000_0000 + be64(n)[2] * 0x100_0000_0000 + be64(n)[3]
            * 0x1_0000_0000 + be64(n)[4] * 0x100_0000 + be64(n)[5] * 0x1_0000 + be64(n)[6] * 0x100 + be64(n)[7] == n,
{
    lemma_be64(n);
    reveal_with_fuel(big_endian_value, 9);
    let b = be64(n);
    assert(b.drop_last().drop_last().drop_last().drop_last().drop_last().drop_last().drop_last().drop_last()
        =~= Seq::<u8>::empty());
}

/// What is hashed is laid out in one way: a tag before each value, lengths before what they measure, and
/// the name of the layout before all of it.
pub proof fn law_content_is_laid_out_in_one_way(
    m: MeasurementView,
    b: bool,
    i: i64,
    u: u64,
    bits: u64,
    text: Seq<char>,
    items: Seq<Value>,
    item: Value,
)
    requires
        u > i64::MAX,
        bits != 0x8000_0000_0000_0000,
    ensures
        encode(Value::Null) == seq![0u8],
        encode(Value::Bool(b)) == seq![1u8, if b { 1u8 } else { 0u8 }],
        encode(Value::Number(Number::Int(i))) == seq![2u8] + be64(i as u64),
        encode(Value::Number(Number::UInt(u))) == seq![3u8] + be64(u),
        encode(Value::Number(Number::Float(bits))) == seq![4u8] + be64(bits),
        encode(Value::Str(text)) == seq![5u8] + be64(encode_utf8(text).len() as u64) + encode_utf8(text),
        encode(Value::Array(items)) == seq![6u8] + be64(items.len() as u64) + encode_items(items),
        encode_object(m.attributes) == seq![7u8] + be64(m.attributes.dom().len() as u64) + encode_members(
            m.attributes,
            sorted_keys(m.attributes.dom()),
        ),
        encode_items(Seq::<Value>::empty()) == Seq::<u8>::empty(),
        encode_items(seq![item] + items) == encode(item) + encode_items(items),
        m.body is None ==> canonical(m) == encode_utf8("monitoring-platform/measurement/v1"@) + be64(
            m.event_time as u64,
        ) + be64(encode_utf8(m.kind).len() as u64) + encode_utf8(m.kind) + seq![8u8] + encode_object(m.attributes),
        m.body matches Some(v) ==> canonical(m) == encode_utf8("monitoring-platform/measurement/v1"@) + be64(
            m.event_time as u64,
        ) + be64(encode_utf8(m.kind).len() as u64) + encode_utf8(m.kind) + seq![9u8] + encode(v) + encode_object(
            m.attributes,
        ),
        series_bytes(m.kind, m.attributes) == encode_utf8("monitoring-platform/series/v1"@) + be64(
            encode_utf8(m.kind).len() as u64,
        ) + encode_utf8(m.kind) + encode_object(m.attributes),
{
    assert((seq![item] + items).drop_first() =~= items);
    let length = be64(encode_utf8(m.kind).len() as u64);
    let kind = encode_utf8(m.kind);
    assert(encode(Value::Str(text)) =~= seq![5u8] + be64(encode_utf8(text).len() as u64) + encode_utf8(text));
    let head = encode_utf8("monitoring-platform/measurement/v1"@) + be64(m.event_time as u64);
    assert(head + (length + kind) =~= head + length + kind);
    if m.body is Some {
        let v = encode(m.body->0);
        assert(head + length + kind + (seq![9u8] + v) =~= head + length + kind + seq![9u8] + v);
    }
    let series = encode_utf8("monitoring-platform/series/v1"@);
    assert(series + (length + kind) =~= series + length + kind);
}

/// Two measurements have the same series bytes exactly where they have one type and say the same in
/// their attributes.
pub proof fn law_series_bytes_identify_series(
    kind: Seq<char>,
    attributes: Map<Seq<char>, Value>,
    other_kind: Seq<char>,
    other_attributes: Map<Seq<char>, Value>,
)
    requires
        encode_utf8(kind).len() <= u64::MAX,
        encode_utf8(other_kind).len() <= u64::MAX,
        object_fits(attributes),
        object_fits(other_attributes),
    ensures
        series_bytes(kind, attributes) == series_bytes(other_kind, other_attributes) <==> kind == other_kind
            && same_content(Value::Object(attributes), Value::Object(other_attributes)),
{
    let head = encode_utf8(SERIES_DOMAIN@);
    let k = prefixed(encode_utf8(kind));
    let l = prefixed(encode_utf8(other_kind));
    let a = encode_object(attributes);
    let b = encode_object(other_attributes);
    if series_bytes(kind, attributes) == series_bytes(other_kind, other_attributes) {
        assert(head + k + a =~= head + (k + a));
        assert(head + l + b =~= head + (l + b));
        lemma_cut(head, k + a, head, l + b);
        lemma_prefixed_cut(encode_utf8(kind), a, encode_utf8(other_kind), b);
        lemma_utf8_injective(kind, other_kind);
        lemma_attributes_cut(attributes, other_attributes);
    }
    if same_content(Value::Object(attributes), Value::Object(other_attributes)) {
        lemma_same_encodes(Value::Object(attributes), Value::Object(other_attributes));
    }
}

} // verus!
