//! JSON values.

use vstd::prelude::*;

use crate::text::same_text;

verus! {

/// A number, kept apart by the kind it was written as.
#[derive(Debug, Clone, Copy, PartialEq, Eq, Structural)]
pub enum Number {
    Int(i64),
    UInt(u64),
    /// The bits of a finite IEEE 754 double.
    Float(u64),
}

#[derive(Debug, PartialEq, Eq)]
pub enum Json {
    Null,
    Bool(bool),
    Number(Number),
    Str(String),
    Array(Vec<Json>),
    Object(Object),
}

/// An object: its members in the order they were first inserted, no key twice.
#[derive(Debug, PartialEq, Eq)]
pub struct Object {
    entries: Vec<(String, Json)>,
}

/// What a [`Json`] says. The members of an object have no order.
pub enum Value {
    Null,
    Bool(bool),
    Number(Number),
    Str(Seq<char>),
    Array(Seq<Value>),
    Object(Map<Seq<char>, Value>),
}

impl Json {
    pub open spec fn view(self) -> Value
        decreases self,
    {
        match self {
            Json::Null => Value::Null,
            Json::Bool(b) => Value::Bool(b),
            Json::Number(n) => Value::Number(n),
            Json::Str(s) => Value::Str(s@),
            Json::Array(items) => Value::Array(values(items@)),
            Json::Object(o) => Value::Object(o.view()),
        }
    }
}

impl Object {
    pub closed spec fn view(self) -> Map<Seq<char>, Value>
        decreases self,
    {
        members(self.entries@)
    }

    /// The members, in the order they were inserted.
    pub closed spec fn listed(self) -> Seq<(String, Json)> {
        self.entries@
    }

    #[verifier::type_invariant]
    spec fn well_formed(self) -> bool {
        distinct_keys(self.entries@)
    }
}

pub open spec fn values(items: Seq<Json>) -> Seq<Value>
    decreases items,
{
    if items.len() == 0 {
        Seq::empty()
    } else {
        values(items.drop_last()).push(items.last().view())
    }
}

pub open spec fn members(entries: Seq<(String, Json)>) -> Map<Seq<char>, Value>
    decreases entries,
{
    if entries.len() == 0 {
        Map::empty()
    } else {
        members(entries.drop_last()).insert(entries.last().0@, entries.last().1.view())
    }
}

/// Whether no key occurs twice.
pub open spec fn distinct_keys(entries: Seq<(String, Json)>) -> bool {
    forall|i: int, j: int| 0 <= i < j < entries.len() ==> (#[trigger] entries[i]).0@ != (#[trigger] entries[j]).0@
}

pub proof fn lemma_values(items: Seq<Json>)
    ensures
        values(items).len() == items.len(),
        forall|i: int| 0 <= i < items.len() ==> #[trigger] values(items)[i] == items[i].view(),
    decreases items.len(),
{
    if items.len() > 0 {
        lemma_values(items.drop_last());
    }
}

/// The members of a list with distinct keys: each entry is one, and there are no others.
pub proof fn lemma_members(entries: Seq<(String, Json)>)
    requires
        distinct_keys(entries),
    ensures
        members(entries).dom().finite(),
        members(entries).dom().len() == entries.len(),
        forall|i: int|
            0 <= i < entries.len() ==> members(entries).contains_key((#[trigger] entries[i]).0@) && members(entries)[entries[i].0@]
                == entries[i].1.view(),
        forall|k: Seq<char>|
            #[trigger] members(entries).contains_key(k) ==> exists|i: int|
                0 <= i < entries.len() && (#[trigger] entries[i]).0@ == k,
    decreases entries.len(),
{
    if entries.len() > 0 {
        let front = entries.drop_last();
        assert forall|i: int, j: int| 0 <= i < j < front.len() implies (#[trigger] front[i]).0@ != (#[trigger] front[j]).0@ by {
            assert(front[i] == entries[i] && front[j] == entries[j]);
        }
        lemma_members(front);
        let last = entries.last();
        assert(!members(front).contains_key(last.0@)) by {
            if members(front).contains_key(last.0@) {
                let i = choose|i: int| 0 <= i < front.len() && (#[trigger] front[i]).0@ == last.0@;
                assert(entries[i].0@ != entries[entries.len() - 1].0@);
            }
        }
        assert forall|i: int| 0 <= i < entries.len() implies members(entries).contains_key((#[trigger] entries[i]).0@)
            && members(entries)[entries[i].0@] == entries[i].1.view() by {
            if i < front.len() {
                assert(entries[i] == front[i]);
            }
        }
        assert forall|k: Seq<char>| #[trigger] members(entries).contains_key(k) implies exists|i: int|
            0 <= i < entries.len() && (#[trigger] entries[i]).0@ == k by {
            if k == last.0@ {
                assert(entries[entries.len() - 1].0@ == k);
            } else {
                assert(members(front).contains_key(k));
                let i = choose|i: int| 0 <= i < front.len() && (#[trigger] front[i]).0@ == k;
                assert(entries[i].0@ == k);
            }
        }
    }
}

impl Object {
    pub fn new() -> (r: Self)
        ensures
            r.view() == Map::<Seq<char>, Value>::empty(),
    {
        Object { entries: Vec::new() }
    }

    /// Sets a member; what stood under the key is gone.
    pub fn insert(&mut self, key: String, value: Json)
        ensures
            final(self).view() == old(self).view().insert(key@, value.view()),
    {
        proof {
            use_type_invariant(&*self);
        }
        let mut entries: Vec<(String, Json)> = Vec::new();
        std::mem::swap(&mut entries, &mut self.entries);
        let ghost before = entries@;
        let mut i: usize = 0;
        while i < entries.len() && !same_text(entries[i].0.as_str(), key.as_str())
            invariant
                i <= entries@.len(),
                entries@ == before,
                forall|j: int| 0 <= j < i ==> (#[trigger] before[j]).0@ != key@,
            decreases entries.len() - i,
        {
            i += 1;
        }
        if i < entries.len() {
            let _replaced = entries.remove(i);
        }
        let ghost rest = entries@;
        proof {
            assert forall|j: int| 0 <= j < rest.len() implies (#[trigger] rest[j]).0@ != key@ by {
                if i < before.len() && j >= i {
                    assert(rest[j] == before[j + 1]);
                    assert(before[i as int].0@ != before[j + 1].0@);
                } else {
                    assert(rest[j] == before[j]);
                }
            }
            assert forall|a: int, b: int| 0 <= a < b < rest.len() implies (#[trigger] rest[a]).0@ != (#[trigger] rest[b]).0@ by {
                if i < before.len() {
                    let x = if a >= i { a + 1 } else { a };
                    let y = if b >= i { b + 1 } else { b };
                    assert(rest[a] == before[x] && rest[b] == before[y]);
                }
            }
        }
        entries.push((key, value));
        proof {
            let after = entries@;
            assert(after.drop_last() =~= rest);
            assert(distinct_keys(after));
            lemma_members(before);
            lemma_members(rest);
            assert(members(rest).insert(key@, value.view()) =~= members(before).insert(key@, value.view())) by {
                lemma_members_without(before, rest, key@, i as int);
            }
        }
        self.entries = entries;
    }

    pub fn len(&self) -> (r: usize)
        ensures
            r == self.listed().len(),
            self.view().dom().finite(),
            r == self.view().dom().len(),
    {
        proof {
            use_type_invariant(self);
            lemma_members(self.entries@);
        }
        self.entries.len()
    }

    /// The members, in the order they were inserted.
    pub fn entries(&self) -> (r: &Vec<(String, Json)>)
        ensures
            r@ == self.listed(),
            distinct_keys(r@),
            self.view() == members(r@),
    {
        proof {
            use_type_invariant(self);
        }
        &self.entries
    }

    /// A member is smaller than the object that holds it.
    pub proof fn lemma_listed_decreases(&self, i: int)
        requires
            0 <= i < self.listed().len(),
        ensures
            decreases_to!(self => self.listed()[i].1),
    {
        assert(decreases_to!(self => self.entries@[i].1));
    }

    /// The member under a key.
    pub fn get(&self, key: &str) -> (r: Option<&Json>)
        ensures
            r is Some <==> self.view().contains_key(key@),
            r matches Some(v) ==> v.view() == self.view()[key@],
    {
        proof {
            use_type_invariant(self);
            lemma_members(self.entries@);
        }
        let mut i: usize = 0;
        while i < self.entries.len()
            invariant
                i <= self.entries@.len(),
                forall|j: int| 0 <= j < i ==> (#[trigger] self.entries@[j]).0@ != key@,
                forall|j: int|
                    0 <= j < self.entries@.len() ==> members(self.entries@).contains_key((#[trigger] self.entries@[j]).0@)
                        && members(self.entries@)[self.entries@[j].0@] == self.entries@[j].1.view(),
            decreases self.entries.len() - i,
        {
            if same_text(self.entries[i].0.as_str(), key) {
                return Some(&self.entries[i].1);
            }
            i += 1;
        }
        None
    }
}

/// Taking the entry at `at` out takes its member out.
proof fn lemma_members_without(before: Seq<(String, Json)>, rest: Seq<(String, Json)>, key: Seq<char>, at: int)
    requires
        distinct_keys(before),
        0 <= at <= before.len(),
        at < before.len() ==> before[at].0@ == key && rest == before.remove(at),
        at == before.len() ==> rest == before,
        distinct_keys(rest),
        forall|j: int| 0 <= j < rest.len() ==> (#[trigger] rest[j]).0@ != key,
    ensures
        forall|v: Value| members(rest).insert(key, v) =~= #[trigger] members(before).insert(key, v),
{
    lemma_members(before);
    lemma_members(rest);
    assert forall|v: Value| members(rest).insert(key, v) =~= #[trigger] members(before).insert(key, v) by {
        let a = members(rest).insert(key, v);
        let b = members(before).insert(key, v);
        assert forall|k: Seq<char>| #[trigger] a.contains_key(k) <==> b.contains_key(k) by {
            if k != key {
                if members(rest).contains_key(k) {
                    let j = choose|j: int| 0 <= j < rest.len() && (#[trigger] rest[j]).0@ == k;
                    let x = if at < before.len() && j >= at { j + 1 } else { j };
                    assert(before[x] == rest[j]);
                }
                if members(before).contains_key(k) {
                    let x = choose|x: int| 0 <= x < before.len() && (#[trigger] before[x]).0@ == k;
                    let j = if at < before.len() && x > at { x - 1 } else { x };
                    assert(before[x] == rest[j]);
                }
            }
        }
        assert forall|k: Seq<char>| #[trigger] a.contains_key(k) implies a[k] == b[k] by {
            if k != key {
                let j = choose|j: int| 0 <= j < rest.len() && (#[trigger] rest[j]).0@ == k;
                let x = if at < before.len() && j >= at { j + 1 } else { j };
                assert(before[x] == rest[j]);
            }
        }
    }
}

impl Json {
    /// The same value again.
    pub fn duplicate(&self) -> (r: Self)
        ensures
            r.view() == self.view(),
        decreases self,
    {
        match self {
            Json::Null => Json::Null,
            Json::Bool(b) => Json::Bool(*b),
            Json::Number(n) => Json::Number(*n),
            Json::Str(s) => Json::Str(s.clone()),
            Json::Array(items) => {
                let mut out: Vec<Json> = Vec::new();
                let mut i: usize = 0;
                assert(items@.take(0) =~= Seq::<Json>::empty());
                while i < items.len()
                    invariant
                        i <= items@.len(),
                        self == Json::Array(*items),
                        values(out@) == values(items@.take(i as int)),
                    decreases items.len() - i,
                {
                    assert(*items == self->Array_0);
                    assert(decreases_to!(self => self->Array_0@[i as int]));
                    let item = items[i].duplicate();
                    proof {
                        assert(items@.take(i + 1).drop_last() =~= items@.take(i as int));
                        assert(out@.push(item).drop_last() =~= out@);
                    }
                    out.push(item);
                    i += 1;
                }
                proof {
                    assert(items@.take(i as int) =~= items@);
                }
                Json::Array(out)
            },
            Json::Object(o) => Json::Object(o.duplicate()),
        }
    }
}

impl Object {
    /// The same members again.
    pub fn duplicate(&self) -> (r: Self)
        ensures
            r.view() == self.view(),
        decreases self,
    {
        proof {
            use_type_invariant(self);
        }
        let mut out: Vec<(String, Json)> = Vec::new();
        let mut i: usize = 0;
        assert(self.entries@.take(0) =~= Seq::<(String, Json)>::empty());
        while i < self.entries.len()
            invariant
                i <= self.entries@.len(),
                distinct_keys(self.entries@),
                out@.len() == i,
                forall|j: int| 0 <= j < i ==> (#[trigger] out@[j]).0@ == self.entries@[j].0@,
                members(out@) == members(self.entries@.take(i as int)),
            decreases self.entries.len() - i,
        {
            assert(decreases_to!(self => self.entries@[i as int].1));
            let key = self.entries[i].0.clone();
            let item = self.entries[i].1.duplicate();
            proof {
                assert(self.entries@.take(i + 1).drop_last() =~= self.entries@.take(i as int));
                assert(out@.push((key, item)).drop_last() =~= out@);
            }
            out.push((key, item));
            i += 1;
        }
        proof {
            assert(self.entries@.take(i as int) =~= self.entries@);
        }
        Object { entries: out }
    }
}

} // verus!
