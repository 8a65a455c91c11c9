//! The identity of a measurement, derived from what it says.
//!
//! The identity is a hash of everything the device sent, and not of the time the server processed
//! it: a measurement sent again hashes the same, so that storing it again changes nothing. The
//! bytes that are hashed are canonical: the members of an object are ordered by their keys, every
//! value carries a tag of its type, and everything of variable length carries its length.

use vstd::prelude::*;
use vstd::utf8::encode_utf8;

use crate::bytes::{
    be64, bytes_before, is_before, lemma_bytes_order_total,
    lemma_bytes_order_transitive, put, to_be64,
};
use crate::hex::{hex, hex_text, lemma_hex_bytes, lemma_hex_text};
use crate::json::{
    distinct_keys, lemma_members, lemma_values, members, values, Json, Number, Object, Value,
};
use crate::model::{Measurement, MeasurementView};
use crate::text::lemma_utf8_injective;

verus! {

/// The length of an identity, in bytes.
pub const ID_LEN: usize = 16;

pub type ContentId = [u8; 16];

/// Goes first, so that another encoding makes other identities.
pub const DOMAIN: &'static str = "monitoring-platform/measurement/v1";

pub const TAG_NULL: u8 = 0;

pub const TAG_BOOL: u8 = 1;

pub const TAG_I64: u8 = 2;

pub const TAG_U64: u8 = 3;

pub const TAG_F64: u8 = 4;

pub const TAG_STR: u8 = 5;

pub const TAG_ARRAY: u8 = 6;

pub const TAG_OBJECT: u8 = 7;

pub const TAG_BODY_ABSENT: u8 = 8;

pub const TAG_BODY_PRESENT: u8 = 9;

/// The bits of the double `-0.0`.
pub const NEGATIVE_ZERO: u64 = 0x8000_0000_0000_0000;

/// Whether the key `a` goes before the key `b`: by their bytes.
pub open spec fn key_before(a: Seq<char>, b: Seq<char>) -> bool {
    bytes_before(encode_utf8(a), encode_utf8(b))
}

pub open spec fn strictly_sorted(ks: Seq<Seq<char>>) -> bool {
    forall|i: int, j: int| 0 <= i < j < ks.len() ==> key_before(#[trigger] ks[i], #[trigger] ks[j])
}

/// The keys of a finite set in order.
pub open spec fn sorted_keys(keys: Set<Seq<char>>) -> Seq<Seq<char>> {
    choose|ks: Seq<Seq<char>>| strictly_sorted(ks) && #[trigger] ks.to_set() == keys
}

/// Bytes behind their number.
pub open spec fn prefixed(b: Seq<u8>) -> Seq<u8> {
    be64(b.len() as u64) + b
}

/// A number as an identity sees it: an unsigned one that fits is signed, and the two zeros of a
/// double are one.
pub open spec fn normalized(n: Number) -> Number {
    match n {
        Number::Int(i) => Number::Int(i),
        Number::UInt(u) => if u <= i64::MAX {
            Number::Int(u as i64)
        } else {
            Number::UInt(u)
        },
        Number::Float(bits) => Number::Float(if bits == NEGATIVE_ZERO { 0 } else { bits }),
    }
}

pub open spec fn encode_number(n: Number) -> Seq<u8> {
    match normalized(n) {
        Number::Int(i) => seq![TAG_I64] + be64(i as u64),
        Number::UInt(u) => seq![TAG_U64] + be64(u),
        Number::Float(bits) => seq![TAG_F64] + be64(bits),
    }
}

/// The canonical bytes of a value.
pub open spec fn encode(v: Value) -> Seq<u8>
    decreases v,
{
    match v {
        Value::Null => seq![TAG_NULL],
        Value::Bool(b) => seq![TAG_BOOL, if b { 1u8 } else { 0u8 }],
        Value::Number(n) => encode_number(n),
        Value::Str(s) => seq![TAG_STR] + prefixed(encode_utf8(s)),
        Value::Array(items) => seq![TAG_ARRAY] + be64(items.len() as u64) + encode_items(items),
        Value::Object(m) => seq![TAG_OBJECT] + be64(m.dom().len() as u64) + encode_members(
            m,
            sorted_keys(m.dom()),
        ),
    }
}

pub open spec fn encode_items(items: Seq<Value>) -> Seq<u8>
    decreases items,
{
    if items.len() == 0 {
        Seq::empty()
    } else {
        encode(items[0]) + encode_items(items.drop_first())
    }
}

/// The members of `m` under the keys `ks`, in their order.
pub open spec fn encode_members(m: Map<Seq<char>, Value>, ks: Seq<Seq<char>>) -> Seq<u8>
    decreases m, ks.len(),
{
    if ks.len() == 0 || !m.dom().finite() || !m.contains_key(ks[0]) {
        Seq::empty()
    } else {
        prefixed(encode_utf8(ks[0])) + encode(m[ks[0]]) + encode_members(m, ks.drop_first())
    }
}

/// The canonical bytes of an object.
pub open spec fn encode_object(m: Map<Seq<char>, Value>) -> Seq<u8> {
    encode(Value::Object(m))
}

/// The bytes of which a measurement's identity is the hash.
pub open spec fn canonical(m: MeasurementView) -> Seq<u8> {
    let body = match m.body {
        None => seq![TAG_BODY_ABSENT],
        Some(v) => seq![TAG_BODY_PRESENT] + encode(v),
    };
    encode_utf8(DOMAIN@) + be64(m.event_time as u64) + prefixed(encode_utf8(m.kind)) + body + encode_object(m.attributes)
}

/// The BLAKE3 hash of `data`, 32 bytes.
pub uninterp spec fn blake3_of(data: Seq<u8>) -> Seq<u8>;

/// `blake3::hash`: the 32-byte BLAKE3 hash of the bytes.
#[verifier::external_body]
pub(crate) fn blake3_hash(data: &[u8]) -> (r: [u8; 32])
    ensures
        r@ == blake3_of(data@),
{
    *blake3::hash(data).as_bytes()
}

proof fn lemma_key_order(a: Seq<char>, b: Seq<char>)
    ensures
        key_before(a, b) || key_before(b, a) || a == b,
        !(key_before(a, b) && key_before(b, a)),
        !key_before(a, a),
{
    lemma_bytes_order_total(encode_utf8(a), encode_utf8(b));
    if encode_utf8(a) == encode_utf8(b) {
        lemma_utf8_injective(a, b);
    }
}

/// A set of keys has one order.
pub proof fn lemma_sorted_unique(a: Seq<Seq<char>>, b: Seq<Seq<char>>)
    requires
        strictly_sorted(a),
        strictly_sorted(b),
        a.to_set() == b.to_set(),
    ensures
        a == b,
    decreases a.len(),
{
    if a.len() == 0 {
        if b.len() > 0 {
            assert(b.to_set().contains(b[0]));
            assert(a.to_set().contains(b[0]));
        }
        assert(a =~= b);
    } else {
        assert(a.to_set().contains(a[0]));
        assert(b.to_set().contains(a[0]));
        assert(b.len() > 0);
        let x = a.last();
        let y = b.last();
        assert(a.to_set().contains(x));
        assert(b.to_set().contains(y));
        let i = choose|i: int| 0 <= i < b.len() && b[i] == x;
        let j = choose|j: int| 0 <= j < a.len() && a[j] == y;
        lemma_key_order(x, y);
        assert(x == y);
        let fa = a.drop_last();
        let fb = b.drop_last();
        lemma_front_of_sorted(a);
        lemma_front_of_sorted(b);
        assert(fa.to_set() =~= fb.to_set());
        lemma_sorted_unique(fa, fb);
        assert(a =~= fa.push(x));
        assert(b =~= fb.push(y));
    }
}

/// No key stands twice among ordered ones.
pub proof fn lemma_sorted_keys_differ(ks: Seq<Seq<char>>, i: int, j: int)
    requires
        strictly_sorted(ks),
        0 <= i < ks.len(),
        0 <= j < ks.len(),
        i != j,
    ensures
        ks[i] != ks[j],
{
    lemma_key_order(ks[i], ks[j]);
    if i < j {
        assert(key_before(ks[i], ks[j]));
    } else {
        assert(key_before(ks[j], ks[i]));
    }
}

proof fn lemma_front_of_sorted(a: Seq<Seq<char>>)
    requires
        strictly_sorted(a),
        a.len() > 0,
    ensures
        strictly_sorted(a.drop_last()),
        a.drop_last().to_set() == a.to_set().remove(a.last()),
{
    let f = a.drop_last();
    assert forall|i: int, j: int| 0 <= i < j < f.len() implies key_before(#[trigger] f[i], #[trigger] f[j]) by {
        assert(f[i] == a[i] && f[j] == a[j]);
    }
    assert forall|k: Seq<char>| f.to_set().contains(k) <==> a.to_set().remove(a.last()).contains(k) by {
        if f.to_set().contains(k) {
            let i = choose|i: int| 0 <= i < f.len() && f[i] == k;
            assert(a[i] == k);
            assert(key_before(a[i], a[a.len() - 1]));
            lemma_key_order(k, a.last());
        }
        if a.to_set().contains(k) && k != a.last() {
            let i = choose|i: int| 0 <= i < a.len() && a[i] == k;
            assert(f[i] == k);
        }
    }
    assert(f.to_set() =~= a.to_set().remove(a.last()));
}

/// `x` put among the ordered keys `ks` at `at`.
proof fn lemma_insert_key(ks: Seq<Seq<char>>, x: Seq<char>, at: int)
    requires
        strictly_sorted(ks),
        0 <= at <= ks.len(),
        at > 0 ==> key_before(ks[at - 1], x),
        at < ks.len() ==> key_before(x, ks[at]),
    ensures
        strictly_sorted(ks.insert(at, x)),
        ks.insert(at, x).to_set() == ks.to_set().insert(x),
{
    let t = ks.insert(at, x);
    assert forall|i: int, j: int| 0 <= i < j < t.len() implies key_before(#[trigger] t[i], #[trigger] t[j]) by {
        if i == at {
            if j > at + 1 {
                lemma_bytes_order_transitive(encode_utf8(x), encode_utf8(ks[at]), encode_utf8(ks[j - 1]));
            }
        } else if j == at {
            if i < at - 1 {
                lemma_bytes_order_transitive(encode_utf8(ks[i]), encode_utf8(ks[at - 1]), encode_utf8(x));
            }
        } else {
            let a = if i > at { i - 1 } else { i };
            let b = if j > at { j - 1 } else { j };
            assert(t[i] == ks[a] && t[j] == ks[b]);
        }
    }
    assert forall|k: Seq<char>| t.to_set().contains(k) <==> ks.to_set().insert(x).contains(k) by {
        if t.to_set().contains(k) {
            let i = choose|i: int| 0 <= i < t.len() && t[i] == k;
            if i != at {
                let a = if i > at { i - 1 } else { i };
                assert(ks[a] == k);
            }
        }
        if ks.to_set().contains(k) {
            let a = choose|a: int| 0 <= a < ks.len() && ks[a] == k;
            let i = if a >= at { a + 1 } else { a };
            assert(t[i] == k);
        }
        if k == x {
            assert(t[at] == k);
        }
    }
    assert(t.to_set() =~= ks.to_set().insert(x));
}

/// The position among the ordered keys `ks` before which all are smaller than `x`.
spec fn rank(ks: Seq<Seq<char>>, x: Seq<char>) -> int
    decreases ks.len(),
{
    if ks.len() == 0 || key_before(ks.last(), x) {
        ks.len() as int
    } else {
        rank(ks.drop_last(), x)
    }
}

proof fn lemma_rank(ks: Seq<Seq<char>>, x: Seq<char>)
    requires
        strictly_sorted(ks),
        !ks.to_set().contains(x),
    ensures
        0 <= rank(ks, x) <= ks.len(),
        rank(ks, x) > 0 ==> key_before(ks[rank(ks, x) - 1], x),
        rank(ks, x) < ks.len() ==> key_before(x, ks[rank(ks, x)]),
    decreases ks.len(),
{
    if ks.len() > 0 && !key_before(ks.last(), x) {
        assert(ks.to_set().contains(ks.last()));
        lemma_key_order(ks.last(), x);
        lemma_front_of_sorted(ks);
        let f = ks.drop_last();
        lemma_rank(f, x);
        let at = rank(f, x);
        if at < f.len() {
            assert(f[at] == ks[at]);
        } else {
            assert(ks[at] == ks.last());
        }
    }
}

/// A finite set of keys can be put in order.
pub proof fn lemma_sorted_keys(keys: Set<Seq<char>>)
    requires
        keys.finite(),
    ensures
        strictly_sorted(sorted_keys(keys)),
        sorted_keys(keys).to_set() == keys,
    decreases keys.len(),
{
    if keys.len() == 0 {
        let none = Seq::<Seq<char>>::empty();
        assert(none.to_set() =~= keys);
        assert(strictly_sorted(none));
    } else {
        let x = keys.choose();
        let rest = keys.remove(x);
        lemma_sorted_keys(rest);
        let ks = sorted_keys(rest);
        lemma_rank(ks, x);
        lemma_insert_key(ks, x, rank(ks, x));
        assert(ks.insert(rank(ks, x), x).to_set() =~= keys);
    }
}

/// The keys of the entries that `order` names.
spec fn ordered_keys(entries: Seq<(String, Json)>, order: Seq<usize>) -> Seq<Seq<char>> {
    Seq::new(order.len(), |i: int| entries[order[i] as int].0@)
}

/// The keys of the first `n` entries.
spec fn first_keys(entries: Seq<(String, Json)>, n: int) -> Set<Seq<char>> {
    Set::new(|k: Seq<char>| exists|i: int| 0 <= i < n && (#[trigger] entries[i]).0@ == k)
}

/// The positions of the entries in the order of their keys.
fn order_of(entries: &Vec<(String, Json)>) -> (r: Vec<usize>)
    requires
        distinct_keys(entries@),
    ensures
        r@.len() == entries@.len(),
        forall|i: int| 0 <= i < r@.len() ==> (#[trigger] r@[i]) < entries@.len(),
        ordered_keys(entries@, r@) == sorted_keys(members(entries@).dom()),
{
    let mut order: Vec<usize> = Vec::new();
    let mut n: usize = 0;
    proof {
        assert(ordered_keys(entries@, order@).to_set() =~= first_keys(entries@, 0));
    }
    while n < entries.len()
        invariant
            n <= entries@.len(),
            distinct_keys(entries@),
            order@.len() == n,
            forall|i: int| 0 <= i < order@.len() ==> (#[trigger] order@[i]) < n,
            strictly_sorted(ordered_keys(entries@, order@)),
            ordered_keys(entries@, order@).to_set() == first_keys(entries@, n as int),
        decreases entries.len() - n,
    {
        let ghost ks = ordered_keys(entries@, order@);
        let ghost x = entries@[n as int].0@;
        let mut at: usize = order.len();
        while at > 0 && !is_before(entries[order[at - 1]].0.as_str().as_bytes(), entries[n].0.as_str().as_bytes())
            invariant
                at <= order@.len(),
                n < entries@.len(),
                forall|i: int| 0 <= i < order@.len() ==> (#[trigger] order@[i]) < n,
                ks == ordered_keys(entries@, order@),
                x == entries@[n as int].0@,
                at < ks.len() ==> !key_before(ks[at as int], x),
            decreases at,
        {
            at -= 1;
        }
        proof {
            if at > 0 {
                assert(ks[at - 1] == entries@[order@[at - 1] as int].0@);
            }
            if at < ks.len() {
                lemma_key_order(ks[at as int], x);
                assert(order@[at as int] < n);
                assert(entries@[order@[at as int] as int].0@ != entries@[n as int].0@);
            }
            lemma_insert_key(ks, x, at as int);
        }
        let ghost before = order@;
        order.insert(at, n);
        proof {
            assert(ordered_keys(entries@, order@) =~= ks.insert(at as int, x));
            assert forall|k: Seq<char>| ks.to_set().insert(x).contains(k) <==> first_keys(entries@, n + 1).contains(k) by {
                if first_keys(entries@, n + 1).contains(k) {
                    let i = choose|i: int| 0 <= i < n + 1 && (#[trigger] entries@[i]).0@ == k;
                    if i < n {
                        assert(first_keys(entries@, n as int).contains(k));
                    }
                }
                if first_keys(entries@, n as int).contains(k) {
                    let i = choose|i: int| 0 <= i < n && (#[trigger] entries@[i]).0@ == k;
                    assert(0 <= i < n + 1 && entries@[i].0@ == k);
                }
            }
            assert(ks.to_set().insert(x) =~= first_keys(entries@, n + 1));
            assert forall|i: int| 0 <= i < order@.len() implies (#[trigger] order@[i]) < n + 1 by {
                if i != at {
                    let a = if i > at { i - 1 } else { i };
                    assert(order@[i] == before[a]);
                }
            }
        }
        n += 1;
    }
    proof {
        lemma_members(entries@);
        assert(first_keys(entries@, n as int) =~= members(entries@).dom());
        lemma_sorted_keys(members(entries@).dom());
        lemma_sorted_unique(ordered_keys(entries@, order@), sorted_keys(members(entries@).dom()));
    }
    order
}

/// Appends bytes behind their number.
fn put_bytes(out: &mut Vec<u8>, b: &[u8])
    ensures
        final(out)@ == old(out)@ + prefixed(b@),
{
    put(out, to_be64(b.len() as u64).as_slice());
    put(out, b);
    assert(out@ =~= old(out)@ + prefixed(b@));
}

fn put_number(out: &mut Vec<u8>, n: Number)
    ensures
        final(out)@ == old(out)@ + encode_number(n),
{
    let (tag, bits): (u8, u64) = match n {
        Number::Int(i) => (TAG_I64, i as u64),
        Number::UInt(u) => if u <= i64::MAX as u64 {
            (TAG_I64, (u as i64) as u64)
        } else {
            (TAG_U64, u)
        },
        Number::Float(bits) => (TAG_F64, if bits == NEGATIVE_ZERO { 0 } else { bits }),
    };
    out.push(tag);
    put(out, to_be64(bits).as_slice());
    assert(out@ =~= old(out)@ + (seq![tag] + be64(bits)));
}

/// Appends the canonical bytes of a value.
fn put_value(out: &mut Vec<u8>, v: &Json)
    ensures
        final(out)@ == old(out)@ + encode(v.view()),
    decreases v,
{
    match v {
        Json::Null => {
            out.push(TAG_NULL);
            assert(out@ =~= old(out)@ + seq![TAG_NULL]);
        },
        Json::Bool(b) => {
            out.push(TAG_BOOL);
            out.push(if *b { 1 } else { 0 });
            assert(out@ =~= old(out)@ + seq![TAG_BOOL, if *b { 1u8 } else { 0u8 }]);
        },
        Json::Number(n) => put_number(out, *n),
        Json::Str(s) => {
            out.push(TAG_STR);
            put_bytes(out, s.as_str().as_bytes());
            assert(out@ =~= old(out)@ + (seq![TAG_STR] + prefixed(encode_utf8(s@))));
        },
        Json::Array(items) => {
            proof {
                lemma_values(items@);
            }
            out.push(TAG_ARRAY);
            put(out, to_be64(items.len() as u64).as_slice());
            let ghost head = out@;
            let ghost all = values(items@);
            assert(head =~= old(out)@ + (seq![TAG_ARRAY] + be64(all.len() as u64)));
            let mut i: usize = 0;
            assert(all.skip(0) =~= all);
            while i < items.len()
                invariant
                    i <= items@.len(),
                    *v == Json::Array(*items),
                    all == values(items@),
                    all.len() == items@.len(),
                    forall|j: int| 0 <= j < items@.len() ==> #[trigger] all[j] == items@[j].view(),
                    out@ + encode_items(all.skip(i as int)) == head + encode_items(all),
                decreases items.len() - i,
            {
                assert(*items == v->Array_0);
                assert(decreases_to!(v => v->Array_0@[i as int]));
                let ghost before = out@;
                let ghost rest = all.skip(i as int);
                proof {
                    assert(rest[0] == items@[i as int].view());
                    assert(rest.drop_first() =~= all.skip(i + 1));
                }
                put_value(out, &items[i]);
                proof {
                    assert(out@ + encode_items(all.skip(i + 1)) =~= before + encode_items(rest));
                }
                i += 1;
            }
            proof {
                assert(all.skip(i as int) =~= Seq::<Value>::empty());
                assert(out@ + Seq::<u8>::empty() =~= out@);
                assert(out@ =~= old(out)@ + encode(v.view()));
            }
        },
        Json::Object(o) => {
            assert(*o == v->Object_0);
            assert(decreases_to!(v => v->Object_0));
            put_map(out, o);
        },
    }
}

/// Appends the canonical bytes of an object, its members ordered by their keys.
fn put_map(out: &mut Vec<u8>, o: &Object)
    ensures
        final(out)@ == old(out)@ + encode_object(o.view()),
    decreases o,
{
    let n: usize = o.len();
    let entries = o.entries();
    let ghost m = o.view();
    let order = order_of(entries);
    proof {
        lemma_members(entries@);
    }
    out.push(TAG_OBJECT);
    put(out, to_be64(n as u64).as_slice());
    let ghost head = out@;
    let ghost ks = ordered_keys(entries@, order@);
    assert(head =~= old(out)@ + (seq![TAG_OBJECT] + be64(m.dom().len() as u64)));
    let mut i: usize = 0;
    assert(ks.skip(0) =~= ks);
    while i < order.len()
        invariant
            i <= order@.len(),
            entries@ == o.listed(),
            m == o.view(),
            m == members(entries@),
            m.dom().finite(),
            ks == ordered_keys(entries@, order@),
            forall|j: int| 0 <= j < order@.len() ==> (#[trigger] order@[j]) < entries@.len(),
            forall|j: int|
                0 <= j < entries@.len() ==> m.contains_key((#[trigger] entries@[j]).0@) && m[entries@[j].0@]
                    == entries@[j].1.view(),
            out@ + encode_members(m, ks.skip(i as int)) == head + encode_members(m, ks),
        decreases order.len() - i,
    {
        let at: usize = order[i];
        let ghost before = out@;
        let ghost rest = ks.skip(i as int);
        let ghost key = entries@[at as int].0@;
        proof {
            assert(order@[i as int] < entries@.len());
            assert(rest[0] == key);
            assert(rest.drop_first() =~= ks.skip(i + 1));
            o.lemma_listed_decreases(at as int);
        }
        put_bytes(out, entries[at].0.as_str().as_bytes());
        put_value(out, &entries[at].1);
        proof {
            assert(out@ + encode_members(m, ks.skip(i + 1)) =~= before + encode_members(m, rest));
        }
        i += 1;
    }
    proof {
        assert(ks.skip(i as int) =~= Seq::<Seq<char>>::empty());
        assert(out@ + Seq::<u8>::empty() =~= out@);
        assert(out@ =~= old(out)@ + encode_object(m));
    }
}

/// The bytes of which a measurement's identity is the hash.
pub fn canonical_bytes(m: &Measurement) -> (r: Vec<u8>)
    ensures
        r@ == canonical(m.view()),
{
    let mut out: Vec<u8> = Vec::new();
    put(&mut out, DOMAIN.as_bytes());
    put(&mut out, to_be64(m.event_time as u64).as_slice());
    put_bytes(&mut out, m.kind.as_str().as_bytes());
    let ghost head = out@;
    match &m.body {
        None => {
            out.push(TAG_BODY_ABSENT);
            assert(out@ =~= head + seq![TAG_BODY_ABSENT]);
        },
        Some(v) => {
            out.push(TAG_BODY_PRESENT);
            put_value(&mut out, v);
            assert(out@ =~= head + (seq![TAG_BODY_PRESENT] + encode(v.view())));
        },
    }
    put_map(&mut out, &m.attributes);
    assert(out@ =~= canonical(m.view()));
    out
}

/// The identity that a hash makes: its first bytes.
pub fn id_of_hash(hash: &[u8; 32]) -> (r: ContentId)
    ensures
        r@ == hash@.take(ID_LEN as int),
{
    let mut id: [u8; 16] = [0u8; 16];
    let mut i: usize = 0;
    while i < ID_LEN
        invariant
            i <= ID_LEN,
            forall|j: int| 0 <= j < i ==> #[trigger] id@[j] == hash@[j],
        decreases ID_LEN - i,
    {
        id[i] = hash[i];
        i += 1;
    }
    assert(id@ =~= hash@.take(ID_LEN as int));
    id
}

/// Goes first in the bytes of a series, so that no series has the identity of a measurement.
pub const SERIES_DOMAIN: &'static str = "monitoring-platform/series/v1";

/// The bytes of which a series' identity is the hash.
pub open spec fn series_bytes(kind: Seq<char>, attributes: Map<Seq<char>, Value>) -> Seq<u8> {
    encode_utf8(SERIES_DOMAIN@) + prefixed(encode_utf8(kind)) + encode_object(attributes)
}

/// The identity of the series with this type and these attributes.
pub fn series_id(kind: &str, attributes: &Object) -> (r: ContentId)
    ensures
        r@ == blake3_of(series_bytes(kind@, attributes.view())).take(ID_LEN as int),
{
    let mut out: Vec<u8> = Vec::new();
    put(&mut out, SERIES_DOMAIN.as_bytes());
    put_bytes(&mut out, kind.as_bytes());
    put_map(&mut out, attributes);
    assert(out@ =~= series_bytes(kind@, attributes.view()));
    id_of_hash(&blake3_hash(out.as_slice()))
}

/// The identity of a measurement.
pub fn content_id(m: &Measurement) -> (r: ContentId)
    ensures
        r@ == blake3_of(canonical(m.view())).take(ID_LEN as int),
{
    let bytes = canonical_bytes(m);
    id_of_hash(&blake3_hash(bytes.as_slice()))
}

/// An identity in lower-case hexadecimal.
pub fn to_hex(id: &ContentId) -> (r: String)
    ensures
        r@ == hex_text(id@),
{
    hex(id.as_slice())
}

/// The value of a hexadecimal digit in either case.
pub open spec fn any_nibble(c: u8) -> Option<u8> {
    if 48 <= c <= 57 {
        Some((c - 48) as u8)
    } else if 97 <= c <= 102 {
        Some((c - 87) as u8)
    } else if 65 <= c <= 70 {
        Some((c - 55) as u8)
    } else {
        None
    }
}

/// The byte that two characters write: two hexadecimal digits in either case, or a plus sign and
/// one digit.
pub open spec fn pair_value(a: u8, b: u8) -> Option<u8> {
    if a == 43 {
        any_nibble(b)
    } else {
        match (any_nibble(a), any_nibble(b)) {
            (Some(x), Some(y)) => Some((x * 16 + y) as u8),
            _ => None,
        }
    }
}

/// The identity that `s` writes: sixteen pairs of characters, each of which writes a byte.
pub open spec fn id_of_hex(s: Seq<char>) -> Option<Seq<u8>> {
    let b = encode_utf8(s);
    if b.len() == 2 * ID_LEN && (forall|i: int| 0 <= i < ID_LEN ==> #[trigger] pair_value(b[2 * i], b[2 * i + 1]) is Some) {
        Some(Seq::new(ID_LEN as nat, |i: int| pair_value(b[2 * i], b[2 * i + 1])->0))
    } else {
        None
    }
}

fn hex_value(c: u8) -> (r: Option<u8>)
    ensures
        r == any_nibble(c),
{
    if 48 <= c && c <= 57 {
        Some(c - 48)
    } else if 97 <= c && c <= 102 {
        Some(c - 87)
    } else if 65 <= c && c <= 70 {
        Some(c - 55)
    } else {
        None
    }
}

fn byte_of(a: u8, b: u8) -> (r: Option<u8>)
    ensures
        r == pair_value(a, b),
{
    if a == 43 {
        return hex_value(b);
    }
    match (hex_value(a), hex_value(b)) {
        (Some(x), Some(y)) => Some(x * 16 + y),
        _ => None,
    }
}

/// The identity that `s` writes in hexadecimal.
pub fn from_hex(s: &str) -> (r: Option<ContentId>)
    ensures
        match id_of_hex(s@) {
            Some(bytes) => r matches Some(id) && id@ == bytes,
            None => r is None,
        },
{
    let b = s.as_bytes();
    if b.len() != 2 * ID_LEN {
        return None;
    }
    let mut id: [u8; 16] = [0u8; 16];
    let mut i: usize = 0;
    while i < ID_LEN
        invariant
            b@ == encode_utf8(s@),
            b@.len() == 2 * ID_LEN,
            i <= ID_LEN,
            forall|j: int| 0 <= j < i ==> (#[trigger] pair_value(b@[2 * j], b@[2 * j + 1])) == Some(id@[j]),
        decreases ID_LEN - i,
    {
        match byte_of(b[2 * i], b[2 * i + 1]) {
            Some(byte) => {
                id[i] = byte;
            },
            None => {
                assert(pair_value(b@[2 * i], b@[2 * i + 1]) is None);
                return None;
            },
        }
        i += 1;
    }
    assert(id@ =~= Seq::new(ID_LEN as nat, |i: int| pair_value(b@[2 * i], b@[2 * i + 1])->0));
    Some(id)
}

/// The identity that is exactly these bytes.
pub fn from_bytes(b: &[u8]) -> (r: Option<ContentId>)
    ensures
        r is Some <==> b@.len() == ID_LEN,
        r matches Some(id) ==> id@ == b@,
{
    if b.len() != ID_LEN {
        return None;
    }
    let mut id: [u8; 16] = [0u8; 16];
    let mut i: usize = 0;
    while i < ID_LEN
        invariant
            i <= ID_LEN,
            b@.len() == ID_LEN,
            forall|j: int| 0 <= j < i ==> #[trigger] id@[j] == b@[j],
        decreases ID_LEN - i,
    {
        id[i] = b[i];
        i += 1;
    }
    assert(id@ =~= b@);
    Some(id)
}

/// An identity written in hexadecimal reads back as itself.
pub proof fn law_hex_ids_round_trip(id: Seq<u8>)
    requires
        id.len() == ID_LEN,
    ensures
        id_of_hex(hex_text(id)) == Some(id),
{
    lemma_hex_text(id);
    lemma_hex_bytes(id);
    let b = encode_utf8(hex_text(id));
    assert forall|i: int| 0 <= i < ID_LEN implies #[trigger] pair_value(b[2 * i], b[2 * i + 1]) == Some(id[i]) by {
        assert(b[2 * i] == hex_text(id)[2 * i] as u8);
        assert(b[2 * i + 1] == hex_text(id)[2 * i + 1] as u8);
    }
    assert(Seq::new(ID_LEN as nat, |i: int| pair_value(b[2 * i], b[2 * i + 1])->0) =~= id);
}

} // verus!
