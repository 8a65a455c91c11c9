//! OTLP values as JSON.

use vstd::prelude::*;

use base64::Engine;

use crate::json::{values, Json, Number, Object, Value as JsonView};
use crate::otlp::proto::{any_views, attr_views, AnyValue, AnyView, AttrView, KeyValue, Value};
use crate::sextets::{base64_text, Alphabet};

verus! {

/// The bytes in padded base64, with the standard alphabet.
pub open spec fn base64_of(bytes: Seq<u8>) -> Seq<char> {
    base64_text(bytes, Alphabet::Standard, true)
}

/// `base64`'s `STANDARD.encode`: the bytes in padded base64, with the standard alphabet.
#[verifier::external_body]
fn base64_encode(bytes: &[u8]) -> (r: String)
    ensures
        r@ == base64_of(bytes@),
{
    base64::engine::general_purpose::STANDARD.encode(bytes)
}

/// The bits of a double without its sign.
pub open spec fn magnitude(bits: u64) -> u64 {
    bits % 0x8000_0000_0000_0000
}

/// The magnitude of an infinite double; those above it are not a number.
pub const INFINITE: u64 = 0x7ff0_0000_0000_0000;

/// A double as JSON: those that JSON cannot write are named, and not lost in a null.
pub open spec fn double_view(bits: u64) -> JsonView {
    if magnitude(bits) < INFINITE {
        JsonView::Number(Number::Float(bits))
    } else if magnitude(bits) > INFINITE {
        JsonView::Str("NaN"@)
    } else if bits < 0x8000_0000_0000_0000 {
        JsonView::Str("Infinity"@)
    } else {
        JsonView::Str("-Infinity"@)
    }
}

/// A double, given by its bits, as JSON.
pub fn double_to_json(bits: u64) -> (r: Json)
    ensures
        r.view() == double_view(bits),
{
    let m: u64 = bits % 0x8000_0000_0000_0000;
    if m < INFINITE {
        Json::Number(Number::Float(bits))
    } else if m > INFINITE {
        Json::Str("NaN".to_owned())
    } else if bits < 0x8000_0000_0000_0000 {
        Json::Str("Infinity".to_owned())
    } else {
        Json::Str("-Infinity".to_owned())
    }
}

/// What a value says as JSON. An unset value and an index into a string table are null, bytes are
/// base64, and nothing that nests is flattened.
pub open spec fn json_of(v: AnyView) -> JsonView
    decreases v,
{
    match v {
        AnyView::Unset => JsonView::Null,
        AnyView::Text(s) => JsonView::Str(s),
        AnyView::Bool(b) => JsonView::Bool(b),
        AnyView::Int(i) => JsonView::Number(Number::Int(i)),
        AnyView::Double(bits) => double_view(bits),
        AnyView::Array(items) => JsonView::Array(json_items(items)),
        AnyView::List(attrs) => JsonView::Object(json_members(attrs)),
        AnyView::Bytes(b) => JsonView::Str(base64_of(b)),
        AnyView::Strindex(_) => JsonView::Null,
    }
}

/// Item by item.
pub open spec fn json_items(items: Seq<AnyView>) -> Seq<JsonView>
    decreases items,
{
    if items.len() == 0 {
        Seq::empty()
    } else {
        json_items(items.drop_last()).push(json_of(items.last()))
    }
}

/// Member by member; where a key comes twice, the last one stays.
pub open spec fn json_members(attrs: Seq<AttrView>) -> Map<Seq<char>, JsonView>
    decreases attrs,
{
    if attrs.len() == 0 {
        Map::empty()
    } else {
        json_members(attrs.drop_last()).insert(attrs.last().key, json_of_attr(attrs.last()))
    }
}

/// What an attribute says as JSON; null where it has no value.
pub open spec fn json_of_attr(attr: AttrView) -> JsonView
    decreases attr,
{
    match attr.value {
        None => JsonView::Null,
        Some(v) => json_of(v),
    }
}

/// A value as JSON; null where it is unset.
pub fn any_value_to_json(v: &AnyValue) -> (r: Json)
    ensures
        r.view() == json_of(v.view()),
    decreases v,
{
    match &v.value {
        None => Json::Null,
        Some(inner) => otlp_value_to_json(inner),
    }
}

/// A value that may be absent, which is null too.
pub open spec fn json_of_opt(v: Option<AnyView>) -> JsonView {
    match v {
        None => JsonView::Null,
        Some(v) => json_of(v),
    }
}

/// A value as JSON; null where it is absent.
pub fn opt_any_value_to_json(v: Option<&AnyValue>) -> (r: Json)
    ensures
        r.view() == json_of_opt(
            match v {
                None => None,
                Some(v) => Some(v.view()),
            },
        ),
{
    match v {
        None => Json::Null,
        Some(v) => any_value_to_json(v),
    }
}

fn otlp_value_to_json(v: &Value) -> (r: Json)
    ensures
        r.view() == json_of(v.view()),
    decreases v,
{
    match v {
        Value::StringValue(s) => Json::Str(s.clone()),
        Value::BoolValue(b) => Json::Bool(*b),
        Value::IntValue(i) => Json::Number(Number::Int(*i)),
        Value::DoubleValue(bits) => double_to_json(*bits),
        Value::ArrayValue(a) => {
            let mut out: Vec<Json> = Vec::new();
            let mut i: usize = 0;
            assert(a.values@.take(0) =~= Seq::<AnyValue>::empty());
            while i < a.values.len()
                invariant
                    i <= a.values@.len(),
                    v == Value::ArrayValue(*a),
                    values(out@) == json_items(any_views(a.values@.take(i as int))),
                decreases a.values.len() - i,
            {
                assert(*a == v->ArrayValue_0);
                assert(decreases_to!(v => v->ArrayValue_0.values@[i as int]));
                let item = any_value_to_json(&a.values[i]);
                proof {
                    let front = a.values@.take(i as int);
                    assert(a.values@.take(i + 1).drop_last() =~= front);
                    assert(any_views(a.values@.take(i + 1)).drop_last() =~= any_views(front));
                    assert(out@.push(item).drop_last() =~= out@);
                }
                out.push(item);
                i += 1;
            }
            proof {
                assert(a.values@.take(i as int) =~= a.values@);
            }
            Json::Array(out)
        },
        Value::KvlistValue(l) => {
            let mut out = Object::new();
            let mut i: usize = 0;
            assert(l.values@.take(0) =~= Seq::<KeyValue>::empty());
            while i < l.values.len()
                invariant
                    i <= l.values@.len(),
                    v == Value::KvlistValue(*l),
                    out.view() == json_members(attr_views(l.values@.take(i as int))),
                decreases l.values.len() - i,
            {
                assert(*l == v->KvlistValue_0);
                assert(decreases_to!(v => v->KvlistValue_0.values@[i as int]));
                let item = match &l.values[i].value {
                    None => Json::Null,
                    Some(inner) => {
                        assert(decreases_to!(v->KvlistValue_0.values@[i as int] => v->KvlistValue_0.values@[i as int].value->0));
                        any_value_to_json(inner)
                    },
                };
                proof {
                    let front = l.values@.take(i as int);
                    assert(l.values@.take(i + 1).drop_last() =~= front);
                    assert(attr_views(l.values@.take(i + 1)).drop_last() =~= attr_views(front));
                    assert(json_of_attr(l.values@[i as int].view()) == item.view());
                }
                out.insert(l.values[i].key.clone(), item);
                i += 1;
            }
            proof {
                assert(l.values@.take(i as int) =~= l.values@);
            }
            Json::Object(out)
        },
        Value::BytesValue(b) => Json::Str(base64_encode(b.as_slice())),
        Value::StringValueStrindex(_) => Json::Null,
    }
}

/// Integers are exact over their whole range, and never become doubles; finite doubles keep their
/// bits; and no double is lost in a null.
pub proof fn law_numbers_are_exact(i: i64, bits: u64)
    ensures
        json_of(AnyView::Int(i)) == JsonView::Number(Number::Int(i)),
        magnitude(bits) < INFINITE ==> json_of(AnyView::Double(bits)) == JsonView::Number(Number::Float(bits)),
        json_of(AnyView::Double(bits)) != JsonView::Null,
{
}

} // verus!
