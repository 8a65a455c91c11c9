//! What many rows come to, whatever their order.

use vstd::prelude::*;

use crate::perms::{lemma_same_contents, lemma_same_len, lemma_same_mapped, lemma_take_one_out, same_elements};
use crate::store::series::{
    firsts, folded, is_greatest, is_least, law_extents_do_not_depend_on_order, seconds, single, with_row, DeltaView,
};

verus! {

/// One row that is added to a series.
pub struct Row {
    pub id: Seq<u8>,
    pub kind: Seq<char>,
    pub attributes: Seq<char>,
    pub event_time: i64,
    pub processed_time: i64,
}

/// What rows add, one after the other.
pub open spec fn accumulated(rows: Seq<Row>) -> Map<Seq<u8>, DeltaView>
    decreases rows.len(),
{
    if rows.len() == 0 {
        Map::empty()
    } else {
        let r = rows.last();
        with_row(
            accumulated(rows.drop_last()),
            r.id,
            single(r.kind, r.attributes, r.event_time, r.processed_time),
        )
    }
}

/// Whether rows of one series agree on its type and its attributes.
pub open spec fn consistent(rows: Seq<Row>) -> bool {
    forall|i: int, j: int|
        0 <= i < rows.len() && 0 <= j < rows.len() && (#[trigger] rows[i]).id == (#[trigger] rows[j]).id
            ==> rows[i].kind == rows[j].kind && rows[i].attributes == rows[j].attributes
}

/// The times of the rows of one series.
pub open spec fn times_of(rows: Seq<Row>, id: Seq<u8>) -> Seq<(i64, i64)>
    decreases rows.len(),
{
    if rows.len() == 0 {
        Seq::empty()
    } else {
        let front = times_of(rows.drop_last(), id);
        if rows.last().id == id {
            front.push((rows.last().event_time, rows.last().processed_time))
        } else {
            front
        }
    }
}

/// Whether an addition counts these rows: their number, and the least and the greatest of their times.
pub open spec fn sums_up(d: DeltaView, times: Seq<(i64, i64)>) -> bool {
    &&& d.added == times.len()
    &&& is_least(d.event_min, firsts(times))
    &&& is_greatest(d.event_max, firsts(times))
    &&& is_least(d.processed_min, seconds(times))
    &&& is_greatest(d.processed_max, seconds(times))
}

proof fn lemma_accumulated(rows: Seq<Row>)
    requires
        consistent(rows),
    ensures
        forall|id: Seq<u8>| #[trigger] accumulated(rows).contains_key(id) <==> times_of(rows, id).len() > 0,
        forall|i: int|
            0 <= i < rows.len() ==> times_of(rows, (#[trigger] rows[i]).id).len() > 0 && accumulated(rows)[rows[i].id]
                == folded(rows[i].kind, rows[i].attributes, times_of(rows, rows[i].id)),
        forall|id: Seq<u8>| #[trigger]
            times_of(rows, id).len() > 0 ==> exists|i: int| 0 <= i < rows.len() && (#[trigger] rows[i]).id == id,
    decreases rows.len(),
{
    if rows.len() > 0 {
        let front = rows.drop_last();
        let r = rows.last();
        assert forall|i: int, j: int|
            0 <= i < front.len() && 0 <= j < front.len() && (#[trigger] front[i]).id == (#[trigger] front[j]).id implies front[i].kind
            == front[j].kind && front[i].attributes == front[j].attributes by {
            assert(front[i] == rows[i] && front[j] == rows[j]);
        }
        lemma_accumulated(front);
        assert(rows[rows.len() - 1] == r);
        let before = times_of(front, r.id);
        let t = (r.event_time, r.processed_time);
        assert(before.push(t).drop_last() =~= before);
        assert(accumulated(rows)[r.id] == folded(r.kind, r.attributes, before.push(t))) by {
            if before.len() > 0 {
                let k = choose|k: int| 0 <= k < front.len() && (#[trigger] front[k]).id == r.id;
                assert(rows[k] == front[k]);
                assert(rows[k].kind == r.kind && rows[k].attributes == r.attributes);
            }
        }
        assert forall|i: int| 0 <= i < rows.len() implies times_of(rows, (#[trigger] rows[i]).id).len() > 0
            && accumulated(rows)[rows[i].id] == folded(
            rows[i].kind,
            rows[i].attributes,
            times_of(rows, rows[i].id),
        ) by {
            if rows[i].id == r.id {
                assert(rows[i].kind == rows[rows.len() - 1].kind);
            } else {
                assert(front[i] == rows[i]);
            }
        }
        assert forall|id: Seq<u8>| #[trigger] times_of(rows, id).len() > 0 implies exists|i: int|
            0 <= i < rows.len() && (#[trigger] rows[i]).id == id by {
            if r.id == id {
                assert(rows[rows.len() - 1].id == id);
            } else {
                assert(times_of(front, id).len() > 0);
                let k = choose|k: int| 0 <= k < front.len() && (#[trigger] front[k]).id == id;
                assert(rows[k].id == id);
            }
        }
    }
}

/// Adding rows one by one gives each series that has a row its type and attributes, the number of its
/// rows, and the least and the greatest of their times, and gives nothing to any other series.
pub proof fn law_every_series_gets_its_rows(rows: Seq<Row>)
    requires
        consistent(rows),
    ensures
        forall|id: Seq<u8>| #[trigger]
            accumulated(rows).contains_key(id) <==> exists|i: int| 0 <= i < rows.len() && (#[trigger] rows[i]).id == id,
        forall|i: int|
            0 <= i < rows.len() ==> {
                let d = accumulated(rows)[(#[trigger] rows[i]).id];
                &&& d.kind == rows[i].kind
                &&& d.attributes == rows[i].attributes
                &&& sums_up(d, times_of(rows, rows[i].id))
            },
{
    lemma_accumulated(rows);
    assert forall|id: Seq<u8>| #[trigger]
        accumulated(rows).contains_key(id) <==> exists|i: int| 0 <= i < rows.len() && (#[trigger] rows[i]).id == id by {
        if accumulated(rows).contains_key(id) {
            assert(times_of(rows, id).len() > 0);
        }
    }
    assert forall|i: int| 0 <= i < rows.len() implies {
        let d = accumulated(rows)[(#[trigger] rows[i]).id];
        &&& d.kind == rows[i].kind
        &&& d.attributes == rows[i].attributes
        &&& sums_up(d, times_of(rows, rows[i].id))
    } by {
        law_extents_do_not_depend_on_order(rows[i].kind, rows[i].attributes, times_of(rows, rows[i].id));
    }
}

proof fn lemma_times_without(rows: Seq<Row>, id: Seq<u8>, at: int)
    requires
        0 <= at < rows.len(),
    ensures
        times_of(rows, id).to_multiset() == if rows[at].id == id {
            times_of(rows.remove(at), id).to_multiset().insert((rows[at].event_time, rows[at].processed_time))
        } else {
            times_of(rows.remove(at), id).to_multiset()
        },
    decreases rows.len(),
{
    let front = rows.drop_last();
    let last = rows.last();
    let t = (last.event_time, last.processed_time);
    vstd::seq_lib::to_multiset_build(times_of(front, id), t);
    if at == rows.len() - 1 {
        assert(rows.remove(at) =~= front);
    } else {
        lemma_times_without(front, id, at);
        let rest = rows.remove(at);
        assert(rest.drop_last() =~= front.remove(at));
        assert(rest.last() == last);
        let some = times_of(front.remove(at), id);
        vstd::seq_lib::to_multiset_build(some, t);
        let u = (rows[at].event_time, rows[at].processed_time);
        assert(some.to_multiset().insert(u).insert(t) =~= some.to_multiset().insert(t).insert(u));
    }
}

proof fn lemma_same_times(s: Seq<Row>, t: Seq<Row>, id: Seq<u8>)
    requires
        same_elements(s, t),
    ensures
        same_elements(times_of(s, id), times_of(t, id)),
    decreases s.len(),
{
    lemma_same_len(s, t);
    if s.len() > 0 {
        let at = lemma_take_one_out(s, t);
        lemma_same_times(s.drop_last(), t.remove(at), id);
        lemma_times_without(t, id, at);
        vstd::seq_lib::to_multiset_build(
            times_of(s.drop_last(), id),
            (s.last().event_time, s.last().processed_time),
        );
    }
}

proof fn lemma_same_extremes(s: Seq<i64>, t: Seq<i64>, a: i64, b: i64)
    requires
        same_elements(s, t),
    ensures
        is_least(a, s) && is_least(b, t) ==> a == b,
        is_greatest(a, s) && is_greatest(b, t) ==> a == b,
{
    lemma_same_contents(s, t);
    if is_least(a, s) && is_least(b, t) {
        assert(t.contains(a) && s.contains(b));
    }
    if is_greatest(a, s) && is_greatest(b, t) {
        assert(t.contains(a) && s.contains(b));
    }
}

proof fn lemma_same_sum(d: DeltaView, e: DeltaView, s: Seq<(i64, i64)>, t: Seq<(i64, i64)>)
    requires
        same_elements(s, t),
        sums_up(d, s),
        sums_up(e, t),
        d.kind == e.kind,
        d.attributes == e.attributes,
    ensures
        d == e,
{
    lemma_same_len(s, t);
    lemma_same_mapped(s, t, |r: (i64, i64)| r.0);
    lemma_same_mapped(s, t, |r: (i64, i64)| r.1);
    lemma_same_extremes(firsts(s), firsts(t), d.event_min, e.event_min);
    lemma_same_extremes(firsts(s), firsts(t), d.event_max, e.event_max);
    lemma_same_extremes(seconds(s), seconds(t), d.processed_min, e.processed_min);
    lemma_same_extremes(seconds(s), seconds(t), d.processed_max, e.processed_max);
}

/// The same rows add the same, in whatever order they are added.
pub proof fn law_rows_add_the_same_in_any_order(rows: Seq<Row>, others: Seq<Row>)
    requires
        consistent(rows),
        same_elements(rows, others),
    ensures
        accumulated(rows) == accumulated(others),
{
    lemma_same_contents(rows, others);
    assert forall|i: int, j: int|
        0 <= i < others.len() && 0 <= j < others.len() && (#[trigger] others[i]).id == (#[trigger] others[j]).id implies others[i].kind
        == others[j].kind && others[i].attributes == others[j].attributes by {
        assert(others.contains(others[i]) && others.contains(others[j]));
        assert(rows.contains(others[i]) && rows.contains(others[j]));
        let x = choose|x: int| 0 <= x < rows.len() && rows[x] == others[i];
        let y = choose|y: int| 0 <= y < rows.len() && rows[y] == others[j];
        assert(rows[x].id == rows[y].id);
    }
    law_every_series_gets_its_rows(rows);
    law_every_series_gets_its_rows(others);
    let a = accumulated(rows);
    let b = accumulated(others);
    assert forall|id: Seq<u8>| #[trigger] a.contains_key(id) <==> b.contains_key(id) by {
        if a.contains_key(id) {
            let i = choose|i: int| 0 <= i < rows.len() && (#[trigger] rows[i]).id == id;
            assert(rows.contains(rows[i]));
            assert(others.contains(rows[i]));
            let j = choose|j: int| 0 <= j < others.len() && others[j] == rows[i];
            assert(others[j].id == id);
        }
        if b.contains_key(id) {
            let j = choose|j: int| 0 <= j < others.len() && (#[trigger] others[j]).id == id;
            assert(others.contains(others[j]));
            assert(rows.contains(others[j]));
            let i = choose|i: int| 0 <= i < rows.len() && rows[i] == others[j];
            assert(rows[i].id == id);
        }
    }
    assert forall|id: Seq<u8>| #[trigger] a.contains_key(id) implies a[id] == b[id] by {
        let i = choose|i: int| 0 <= i < rows.len() && (#[trigger] rows[i]).id == id;
        assert(rows.contains(rows[i]));
        assert(others.contains(rows[i]));
        let j = choose|j: int| 0 <= j < others.len() && others[j] == rows[i];
        assert(others[j].id == id);
        lemma_same_times(rows, others, id);
        lemma_same_sum(a[id], b[id], times_of(rows, id), times_of(others, id));
    }
    assert(a =~= b);
}

} // verus!
