//! Values bound to a statement, and the text that refers to them.

use vstd::prelude::*;

use crate::text::{decimal, decimal_u64, join_with, joined_with, texts};

verus! {

/// A value bound to a parameter of a statement.
#[derive(Debug, PartialEq, Eq)]
pub enum SqlValue {
    Integer(i64),
    Text(String),
    Blob(Vec<u8>),
}

/// What a [`SqlValue`] says.
pub enum SqlView {
    Integer(i64),
    Text(Seq<char>),
    Blob(Seq<u8>),
}

impl SqlValue {
    pub open spec fn view(self) -> SqlView {
        match self {
            SqlValue::Integer(i) => SqlView::Integer(i),
            SqlValue::Text(s) => SqlView::Text(s@),
            SqlValue::Blob(b) => SqlView::Blob(b@),
        }
    }
}

/// What bound values say.
pub open spec fn sql_views(s: Seq<SqlValue>) -> Seq<SqlView> {
    s.map_values(|v: SqlValue| v.view())
}

/// How a statement refers to its parameter number `n`, counted from one.
pub open spec fn placeholder(n: nat) -> Seq<char> {
    seq!['?'] + decimal(n)
}

/// The placeholders of `count` parameters behind the first `bound`.
pub open spec fn placeholders(bound: nat, count: nat) -> Seq<Seq<char>> {
    Seq::new(count, |i: int| placeholder((bound + 1 + i) as nat))
}

/// Texts as bound values.
pub open spec fn bound_texts(values: Seq<Seq<char>>) -> Seq<SqlView> {
    Seq::new(values.len(), |i: int| SqlView::Text(values[i]))
}

/// Binds a value; what comes back refers to it.
pub fn bind(params: &mut Vec<SqlValue>, value: SqlValue) -> (r: String)
    ensures
        sql_views(final(params)@) == sql_views(old(params)@).push(value.view()),
        final(params)@.len() == old(params)@.len() + 1,
        r@ == placeholder(final(params)@.len()),
{
    params.push(value);
    proof {
        assert(sql_views(params@) =~= sql_views(old(params)@).push(value.view()));
    }
    let mut out = String::new();
    out.push('?');
    out.append(decimal_u64(params.len() as u64).as_str());
    assert(out@ =~= placeholder(params@.len()));
    out
}

/// Binds each of the texts; what comes back refers to all of them, separated by commas.
pub fn bind_all(params: &mut Vec<SqlValue>, values: &Vec<String>) -> (r: String)
    ensures
        sql_views(final(params)@) == sql_views(old(params)@) + bound_texts(texts(values@)),
        final(params)@.len() == old(params)@.len() + values@.len(),
        r@ == joined_with(placeholders(old(params)@.len(), values@.len()), ", "@),
{
    let ghost before = sql_views(params@);
    let ghost n = params@.len();
    let mut parts: Vec<String> = Vec::new();
    let mut i: usize = 0;
    proof {
        assert(before + bound_texts(texts(values@.take(0))) =~= before);
    }
    while i < values.len()
        invariant
            i <= values@.len(),
            n == old(params)@.len(),
            before == sql_views(old(params)@),
            params@.len() == n + i,
            sql_views(params@) == before + bound_texts(texts(values@.take(i as int))),
            texts(parts@) == placeholders(n, i as nat),
        decreases values.len() - i,
    {
        let ghost bound = sql_views(params@);
        let ghost earlier = texts(parts@);
        let part = bind(params, SqlValue::Text(values[i].clone()));
        parts.push(part);
        i += 1;
        proof {
            assert(texts(parts@) =~= earlier.push(part@));
            assert(texts(parts@) =~= placeholders(n, i as nat));
            assert(bound_texts(texts(values@.take(i as int))) =~= bound_texts(texts(values@.take(i - 1))).push(
                SqlView::Text(values@[i - 1]@),
            ));
            assert(sql_views(params@) =~= before + bound_texts(texts(values@.take(i as int))));
        }
    }
    proof {
        assert(values@.take(i as int) =~= values@);
    }
    join_with(&parts, ", ")
}

} // verus!
