//! The order in which the values of an attribute are offered.
//!
//! The order decides which series a chart draws and in which colours. Numbers stand in the order of
//! their values, since the order of their texts would put 10 before 2.

use vstd::prelude::*;
use vstd::relations::{sorted_by, total_ordering};
use vstd::seq_lib::lemma_sorted_unique;
use vstd::utf8::encode_utf8;

use crate::bytes::{bytes_before, is_before, lemma_bytes_order_total, lemma_bytes_order_transitive};
use crate::otlp::anyvalue::{magnitude, INFINITE};
use crate::perms::{lemma_same_contents, lemma_same_mapped, same_elements};
use crate::text::{lemma_utf8_injective, texts};

verus! {

/// The rank of a finite double among the finite doubles, given its bits; the two zeros have one rank.
pub open spec fn rank_of(bits: u64) -> int {
    if bits < 0x8000_0000_0000_0000 {
        bits as int
    } else {
        -magnitude(bits)
    }
}

fn rank(bits: u64) -> (r: i64)
    requires
        magnitude(bits) < INFINITE,
    ensures
        r == rank_of(bits),
{
    if bits < 0x8000_0000_0000_0000 {
        bits as i64
    } else {
        -((bits % 0x8000_0000_0000_0000) as i64)
    }
}

/// Whether every value was read as a finite number.
pub open spec fn all_finite(parsed: Seq<Option<u64>>) -> bool {
    forall|i: int| 0 <= i < parsed.len() ==> (#[trigger] parsed[i]) is Some && magnitude(parsed[i]->0) < INFINITE
}

/// The values with their ranks, where all of them are numbers.
pub open spec fn ranked(values: Seq<Seq<char>>, parsed: Seq<Option<u64>>) -> Seq<(int, Seq<char>)> {
    Seq::new(
        values.len(),
        |i: int|
            (
                if all_finite(parsed) {
                    rank_of(parsed[i]->0)
                } else {
                    0
                },
                values[i],
            ),
    )
}

/// Whether `a` belongs before `b`: by value among numbers, else by text. Two texts of one number stand
/// in the order of the texts.
pub open spec fn stands_before(numeric: bool, a: (int, Seq<char>), b: (int, Seq<char>)) -> bool {
    if numeric && a.0 != b.0 {
        a.0 < b.0
    } else {
        bytes_before(encode_utf8(a.1), encode_utf8(b.1))
    }
}

/// `s` with `e` behind what does not belong after it.
pub open spec fn inserted(numeric: bool, s: Seq<(int, Seq<char>)>, e: (int, Seq<char>)) -> Seq<(int, Seq<char>)>
    decreases s.len(),
{
    if s.len() == 0 || !stands_before(numeric, e, s.last()) {
        s.push(e)
    } else {
        inserted(numeric, s.drop_last(), e).push(s.last())
    }
}

/// `s` in order.
pub open spec fn in_order(numeric: bool, s: Seq<(int, Seq<char>)>) -> Seq<(int, Seq<char>)>
    decreases s.len(),
{
    if s.len() == 0 {
        s
    } else {
        inserted(numeric, in_order(numeric, s.drop_last()), s.last())
    }
}

/// The texts of ranked values.
pub open spec fn texts_of(s: Seq<(int, Seq<char>)>) -> Seq<Seq<char>> {
    Seq::new(s.len(), |i: int| s[i].1)
}

/// The values in the order they are offered in.
pub open spec fn offered(values: Seq<Seq<char>>, parsed: Seq<Option<u64>>) -> Seq<Seq<char>> {
    texts_of(in_order(all_finite(parsed), ranked(values, parsed)))
}

proof fn lemma_inserted_at(numeric: bool, s: Seq<(int, Seq<char>)>, e: (int, Seq<char>), at: int)
    requires
        0 <= at <= s.len(),
        at > 0 ==> !stands_before(numeric, e, s[at - 1]),
        forall|k: int| at <= k < s.len() ==> stands_before(numeric, e, #[trigger] s[k]),
    ensures
        inserted(numeric, s, e) == s.insert(at, e),
    decreases s.len(),
{
    if at == s.len() {
        assert(s.insert(at, e) =~= s.push(e));
    } else {
        let front = s.drop_last();
        assert(stands_before(numeric, e, s[s.len() - 1]));
        assert forall|k: int| at <= k < front.len() implies stands_before(numeric, e, #[trigger] front[k]) by {
            assert(front[k] == s[k]);
        }
        lemma_inserted_at(numeric, front, e, at);
        assert(front.insert(at, e).push(s.last()) =~= s.insert(at, e));
    }
}

fn finite(parsed: &Vec<Option<u64>>) -> (r: bool)
    ensures
        r == all_finite(parsed@),
{
    let mut i: usize = 0;
    while i < parsed.len()
        invariant
            i <= parsed@.len(),
            forall|k: int| 0 <= k < i ==> (#[trigger] parsed@[k]) is Some && magnitude(parsed@[k]->0) < INFINITE,
        decreases parsed.len() - i,
    {
        let good = match parsed[i] {
            None => false,
            Some(bits) => bits % 0x8000_0000_0000_0000 < INFINITE,
        };
        if !good {
            assert(!(parsed@[i as int] is Some && magnitude(parsed@[i as int]->0) < INFINITE));
            return false;
        }
        i += 1;
    }
    true
}

/// The pairs of ranks and texts.
spec fn paired(ranks: Seq<i64>, values: Seq<String>) -> Seq<(int, Seq<char>)> {
    Seq::new(values.len(), |i: int| (ranks[i] as int, values[i]@))
}

fn belongs_before(numeric: bool, rank: i64, text: &str, other_rank: i64, other: &str) -> (r: bool)
    ensures
        r == stands_before(numeric, (rank as int, text@), (other_rank as int, other@)),
{
    if numeric && rank != other_rank {
        rank < other_rank
    } else {
        is_before(text.as_bytes(), other.as_bytes())
    }
}

/// Orders values by number where every one of them is a finite number, else by text. `parsed` holds
/// for each value the bits of the double it was read as, if it was.
pub fn sort_facet_values(values: &mut Vec<String>, parsed: &Vec<Option<u64>>)
    requires
        old(values)@.len() == parsed@.len(),
    ensures
        texts(final(values)@) == offered(texts(old(values)@), parsed@),
{
    let numeric = finite(parsed);
    let n: usize = parsed.len();
    let mut taken: Vec<String> = Vec::new();
    std::mem::swap(values, &mut taken);
    let ghost given = taken@;
    let ghost all = ranked(texts(given), parsed@);
    let mut out: Vec<String> = Vec::new();
    let mut ranks: Vec<i64> = Vec::new();
    let mut i: usize = 0;
    proof {
        assert(all.take(0) =~= Seq::empty());
        assert(paired(ranks@, out@) =~= Seq::empty());
    }
    for value in it: taken.into_iter()
        invariant
            it.seq() == given,
            i == it.index(),
            given.len() == parsed@.len(),
            n == parsed@.len(),
            numeric == all_finite(parsed@),
            all == ranked(texts(given), parsed@),
            ranks@.len() == out@.len(),
            paired(ranks@, out@) == in_order(numeric, all.take(i as int)),
    {
        let own: i64 = if numeric {
            assert(parsed@[i as int] is Some);
            match parsed[i] {
                Some(bits) => rank(bits),
                None => 0,
            }
        } else {
            0
        };
        let ghost e = (own as int, value@);
        let ghost before = paired(ranks@, out@);
        proof {
            assert(all[i as int] == e);
            assert(all.take(i + 1).drop_last() =~= all.take(i as int));
            assert(all.take(i + 1).last() == e);
        }
        let mut at: usize = out.len();
        while at > 0 && belongs_before(numeric, own, value.as_str(), ranks[at - 1], out[at - 1].as_str())
            invariant
                at <= out@.len(),
                ranks@.len() == out@.len(),
                before == paired(ranks@, out@),
                e == (own as int, value@),
                forall|k: int| at <= k < before.len() ==> stands_before(numeric, e, #[trigger] before[k]),
            decreases at,
        {
            at -= 1;
        }
        proof {
            lemma_inserted_at(numeric, before, e, at as int);
        }
        out.insert(at, value);
        ranks.insert(at, own);
        assert(paired(ranks@, out@) =~= before.insert(at as int, e));
        i += 1;
    }
    proof {
        assert(all.take(all.len() as int) =~= all);
        assert(texts(out@) =~= texts_of(paired(ranks@, out@)));
    }
    *values = out;
}

/// Texts in the order of their bytes.
pub open spec fn alphabetical(values: Seq<Seq<char>>) -> Seq<Seq<char>> {
    texts_of(in_order(false, Seq::new(values.len(), |i: int| (0int, values[i]))))
}

/// Orders texts by their bytes.
pub fn sort_texts(values: &mut Vec<String>)
    ensures
        texts(final(values)@) == alphabetical(texts(old(values)@)),
{
    let mut parsed: Vec<Option<u64>> = Vec::new();
    let n: usize = values.len();
    while parsed.len() < n
        invariant
            parsed@.len() <= n,
            forall|i: int| 0 <= i < parsed@.len() ==> #[trigger] parsed@[i] == None::<u64>,
        decreases n - parsed.len(),
    {
        parsed.push(None);
    }
    let ghost given = texts(values@);
    sort_facet_values(values, &parsed);
    proof {
        let unranked = Seq::new(given.len(), |i: int| (0int, given[i]));
        if n > 0 {
            assert(parsed@[0] is None);
            assert(ranked(given, parsed@) =~= unranked);
        } else {
            assert(ranked(given, parsed@) =~= unranked);
            assert(in_order(true, unranked) =~= in_order(false, unranked));
        }
    }
}

/// Whether nothing stands behind what it belongs before.
pub open spec fn ordered(numeric: bool, s: Seq<(int, Seq<char>)>) -> bool {
    forall|i: int, j: int| 0 <= i < j < s.len() ==> !stands_before(numeric, #[trigger] s[j], #[trigger] s[i])
}

proof fn lemma_order_transitive(numeric: bool, a: (int, Seq<char>), b: (int, Seq<char>), c: (int, Seq<char>))
    ensures
        !stands_before(numeric, b, a) && !stands_before(numeric, c, b) ==> !stands_before(numeric, c, a),
        !(stands_before(numeric, a, b) && stands_before(numeric, b, a)),
{
    let x = encode_utf8(a.1);
    let y = encode_utf8(b.1);
    let z = encode_utf8(c.1);
    lemma_bytes_order_total(x, y);
    lemma_bytes_order_total(y, z);
    lemma_bytes_order_total(x, z);
    if bytes_before(x, y) && bytes_before(y, z) {
        lemma_bytes_order_transitive(x, y, z);
    }
}

proof fn lemma_inserted_ordered(numeric: bool, s: Seq<(int, Seq<char>)>, e: (int, Seq<char>))
    requires
        ordered(numeric, s),
    ensures
        ordered(numeric, inserted(numeric, s, e)),
        inserted(numeric, s, e).to_multiset() == s.to_multiset().insert(e),
        inserted(numeric, s, e).len() == s.len() + 1,
        forall|k: int|
            0 <= k <= s.len() ==> (#[trigger] inserted(numeric, s, e)[k] == e || s.contains(
                inserted(numeric, s, e)[k],
            )),
    decreases s.len(),
{
    let r = inserted(numeric, s, e);
    if s.len() == 0 || !stands_before(numeric, e, s.last()) {
        vstd::seq_lib::to_multiset_build(s, e);
        assert forall|i: int, j: int| 0 <= i < j < r.len() implies !stands_before(
            numeric,
            #[trigger] r[j],
            #[trigger] r[i],
        ) by {
            if j == s.len() {
                assert(r[i] == s[i]);
                lemma_order_transitive(numeric, s[i], s.last(), e);
                if i < s.len() - 1 {
                    assert(!stands_before(numeric, s[s.len() - 1], s[i]));
                }
            } else {
                assert(r[i] == s[i] && r[j] == s[j]);
            }
        }
        assert forall|k: int| 0 <= k <= s.len() implies (#[trigger] r[k] == e || s.contains(r[k])) by {
            if k < s.len() {
                assert(s[k] == r[k]);
            }
        }
    } else {
        let front = s.drop_last();
        let last = s.last();
        assert forall|i: int, j: int| 0 <= i < j < front.len() implies !stands_before(
            numeric,
            #[trigger] front[j],
            #[trigger] front[i],
        ) by {
            assert(front[i] == s[i] && front[j] == s[j]);
        }
        lemma_inserted_ordered(numeric, front, e);
        let t = inserted(numeric, front, e);
        vstd::seq_lib::to_multiset_build(t, last);
        vstd::seq_lib::to_multiset_build(front, last);
        assert(front.push(last) =~= s);
        assert(t.to_multiset().insert(last) =~= s.to_multiset().insert(e));
        assert forall|i: int, j: int| 0 <= i < j < r.len() implies !stands_before(
            numeric,
            #[trigger] r[j],
            #[trigger] r[i],
        ) by {
            if j == r.len() - 1 {
                assert(r[i] == t[i]);
                if t[i] == e {
                    lemma_order_transitive(numeric, e, last, last);
                } else {
                    let k = choose|k: int| 0 <= k < front.len() && front[k] == t[i];
                    assert(s[k] == t[i]);
                    assert(!stands_before(numeric, s[s.len() - 1], s[k]));
                }
            } else {
                assert(r[i] == t[i] && r[j] == t[j]);
            }
        }
        assert forall|k: int| 0 <= k <= s.len() implies (#[trigger] r[k] == e || s.contains(r[k])) by {
            if k < s.len() {
                assert(r[k] == t[k]);
                if t[k] != e {
                    let i = choose|i: int| 0 <= i < front.len() && front[i] == t[k];
                    assert(s[i] == t[k]);
                }
            } else {
                assert(s[s.len() - 1] == last);
            }
        }
    }
}

/// Ordering values puts each where it belongs, and neither loses nor repeats one.
pub proof fn law_values_are_put_in_order(numeric: bool, s: Seq<(int, Seq<char>)>)
    ensures
        ordered(numeric, in_order(numeric, s)),
        in_order(numeric, s).to_multiset() == s.to_multiset(),
    decreases s.len(),
{
    if s.len() > 0 {
        law_values_are_put_in_order(numeric, s.drop_last());
        lemma_inserted_ordered(numeric, in_order(numeric, s.drop_last()), s.last());
        vstd::seq_lib::to_multiset_build(s.drop_last(), s.last());
        assert(s.drop_last().push(s.last()) =~= s);
    }
}

/// The order by rank and then by text.
spec fn at_most(a: (int, Seq<char>), b: (int, Seq<char>)) -> bool {
    a.0 < b.0 || (a.0 == b.0 && !bytes_before(encode_utf8(b.1), encode_utf8(a.1)))
}

proof fn lemma_at_most_is_total()
    ensures
        total_ordering(|a: (int, Seq<char>), b: (int, Seq<char>)| at_most(a, b)),
{
    assert forall|a: (int, Seq<char>)| at_most(a, a) by {
        lemma_bytes_order_total(encode_utf8(a.1), encode_utf8(a.1));
    }
    assert forall|a: (int, Seq<char>), b: (int, Seq<char>)| #[trigger] at_most(a, b) && #[trigger] at_most(b, a) implies a
        == b by {
        lemma_bytes_order_total(encode_utf8(a.1), encode_utf8(b.1));
        lemma_utf8_injective(a.1, b.1);
    }
    assert forall|a: (int, Seq<char>), b: (int, Seq<char>), c: (int, Seq<char>)| #[trigger]
        at_most(a, b) && #[trigger] at_most(b, c) implies at_most(a, c) by {
        lemma_order_transitive(false, a, b, c);
    }
    assert forall|a: (int, Seq<char>), b: (int, Seq<char>)| #[trigger] at_most(a, b) || #[trigger] at_most(b, a) by {
        lemma_bytes_order_total(encode_utf8(a.1), encode_utf8(b.1));
    }
}

proof fn lemma_ordered_is_sorted(numeric: bool, s: Seq<(int, Seq<char>)>, given: Seq<(int, Seq<char>)>)
    requires
        ordered(numeric, s),
        same_elements(s, given),
        numeric || forall|i: int| 0 <= i < given.len() ==> (#[trigger] given[i]).0 == 0,
    ensures
        sorted_by(s, |a: (int, Seq<char>), b: (int, Seq<char>)| at_most(a, b)),
{
    lemma_same_contents(s, given);
    assert forall|i: int, j: int| 0 <= i < j < s.len() implies #[trigger] at_most(s[i], s[j]) by {
        assert(!stands_before(numeric, s[j], s[i]));
        assert(s.contains(s[i]) && s.contains(s[j]));
        assert(given.contains(s[i]) && given.contains(s[j]));
        lemma_bytes_order_total(encode_utf8(s[i].1), encode_utf8(s[j].1));
    }
}

/// What each value was read as, where one text is always read as the same.
pub open spec fn read_as(values: Seq<Seq<char>>, parse: spec_fn(Seq<char>) -> Option<u64>) -> Seq<Option<u64>> {
    values.map_values(parse)
}

proof fn lemma_same_finite(s: Seq<Option<u64>>, t: Seq<Option<u64>>)
    requires
        same_elements(s, t),
    ensures
        all_finite(s) ==> all_finite(t),
{
    lemma_same_contents(s, t);
    if all_finite(s) {
        assert forall|i: int| 0 <= i < t.len() implies (#[trigger] t[i]) is Some && magnitude(t[i]->0)
            < INFINITE by {
            assert(t.contains(t[i]));
            assert(s.contains(t[i]));
            let k = choose|k: int| 0 <= k < s.len() && s[k] == t[i];
            assert(s[k] is Some && magnitude(s[k]->0) < INFINITE);
        }
    }
}

/// The same values are offered in the same order, however they came: so a group keeps its colour.
pub proof fn law_the_order_is_determined(
    values: Seq<Seq<char>>,
    others: Seq<Seq<char>>,
    parse: spec_fn(Seq<char>) -> Option<u64>,
)
    requires
        same_elements(values, others),
    ensures
        offered(values, read_as(values, parse)) == offered(others, read_as(others, parse)),
{
    let p = read_as(values, parse);
    let q = read_as(others, parse);
    lemma_same_mapped(values, others, parse);
    lemma_same_finite(p, q);
    lemma_same_finite(q, p);
    let numeric = all_finite(p);
    let pair = |v: Seq<char>|
        (
            if numeric {
                rank_of(parse(v)->0)
            } else {
                0
            },
            v,
        );
    let s = ranked(values, p);
    let t = ranked(others, q);
    assert(s =~= values.map_values(pair));
    assert(t =~= others.map_values(pair));
    lemma_same_mapped(values, others, pair);
    law_values_are_put_in_order(numeric, s);
    law_values_are_put_in_order(numeric, t);
    lemma_ordered_is_sorted(numeric, in_order(numeric, s), s);
    lemma_ordered_is_sorted(numeric, in_order(numeric, t), t);
    lemma_at_most_is_total();
    lemma_sorted_unique(
        in_order(numeric, s),
        in_order(numeric, t),
        |a: (int, Seq<char>), b: (int, Seq<char>)| at_most(a, b),
    );
}

} // verus!
