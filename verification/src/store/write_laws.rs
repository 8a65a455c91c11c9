//! What holds of the stored tables after any number of batches.
//!
//! The tables are modelled as maps by identity. One statement stores a row unless its identity is
//! taken, as [`crate::store::write::INSERT`] asks, and one adds to a series or creates it, as
//! [`crate::store::series::UPSERT`] asks; [`crate::store::write::Batch`] keeps the count in between.

use vstd::prelude::*;

use crate::model::MeasurementView;
use crate::store::series::{merged, single, with_row, DeltaView};
use crate::store::write::{measurement_id, series_of};

verus! {

/// What is stored: measurements by their identities, and series by theirs.
#[verifier::ext_equal]
pub struct Tables {
    pub rows: Map<Seq<u8>, MeasurementView>,
    pub series: Map<Seq<u8>, DeltaView>,
}

/// A batch while it is stored.
#[verifier::ext_equal]
pub struct Running {
    pub rows: Map<Seq<u8>, MeasurementView>,
    pub stored: nat,
    pub added: Map<Seq<u8>, DeltaView>,
}

/// One measurement more, with the text of its attributes: it is stored, and counted, unless it was
/// stored before.
pub open spec fn after_row(r: Running, m: MeasurementView, attributes: Seq<char>) -> Running {
    let id = measurement_id(m);
    if r.rows.contains_key(id) {
        r
    } else {
        Running {
            rows: r.rows.insert(id, m),
            stored: r.stored + 1,
            added: with_row(
                r.added,
                series_of(m),
                single(m.kind, attributes, m.event_time, m.processed_time),
            ),
        }
    }
}

/// All measurements of a batch, one after the other.
pub open spec fn after_rows(rows: Map<Seq<u8>, MeasurementView>, batch: Seq<(MeasurementView, Seq<char>)>) -> Running
    decreases batch.len(),
{
    if batch.len() == 0 {
        Running { rows, stored: 0, added: Map::empty() }
    } else {
        after_row(after_rows(rows, batch.drop_last()), batch.last().0, batch.last().1)
    }
}

/// The series with what a batch adds to them.
pub open spec fn upserted(series: Map<Seq<u8>, DeltaView>, added: Map<Seq<u8>, DeltaView>) -> Map<
    Seq<u8>,
    DeltaView,
> {
    Map::new(
        |id: Seq<u8>| series.contains_key(id) || added.contains_key(id),
        |id: Seq<u8>|
            if !added.contains_key(id) {
                series[id]
            } else if series.contains_key(id) {
                merged(series[id], added[id])
            } else {
                added[id]
            },
    )
}

/// The tables once a batch is stored.
pub open spec fn after_batch(t: Tables, batch: Seq<(MeasurementView, Seq<char>)>) -> Tables {
    let r = after_rows(t.rows, batch);
    Tables { rows: r.rows, series: upserted(t.series, r.added) }
}

/// How many rows storing a batch stores.
pub open spec fn stored_by(t: Tables, batch: Seq<(MeasurementView, Seq<char>)>) -> nat {
    after_rows(t.rows, batch).stored
}

/// The tables after some batches, which were empty at first.
pub open spec fn after_batches(batches: Seq<Seq<(MeasurementView, Seq<char>)>>) -> Tables
    decreases batches.len(),
{
    if batches.len() == 0 {
        Tables { rows: Map::empty(), series: Map::empty() }
    } else {
        after_batch(after_batches(batches.drop_last()), batches.last())
    }
}

/// The identities of the rows of a series.
pub open spec fn rows_in(rows: Map<Seq<u8>, MeasurementView>, series: Seq<u8>) -> Set<Seq<u8>> {
    rows.dom().filter(|id: Seq<u8>| series_of(rows[id]) == series)
}

/// How many rows a batch adds to a series.
pub open spec fn added_to(added: Map<Seq<u8>, DeltaView>, series: Seq<u8>) -> int {
    if added.contains_key(series) {
        added[series].added
    } else {
        0
    }
}

/// Whether every row is stored under its own identity, and every series counts its rows, no more and
/// no fewer.
pub open spec fn sound(t: Tables) -> bool {
    &&& t.rows.dom().finite()
    &&& forall|id: Seq<u8>| #[trigger] t.rows.contains_key(id) ==> id == measurement_id(t.rows[id])
    &&& forall|s: Seq<u8>| #[trigger] t.series.contains_key(s) <==> rows_in(t.rows, s).len() > 0
    &&& forall|s: Seq<u8>| #[trigger] t.series.contains_key(s) ==> t.series[s].added == rows_in(t.rows, s).len()
}

proof fn lemma_one_row_more(rows: Map<Seq<u8>, MeasurementView>, id: Seq<u8>, m: MeasurementView, s: Seq<u8>)
    requires
        rows.dom().finite(),
        !rows.contains_key(id),
    ensures
        rows_in(rows.insert(id, m), s).len() == rows_in(rows, s).len() + if series_of(m) == s {
            1int
        } else {
            0
        },
{
    let after = rows.insert(id, m);
    rows.dom().lemma_len_filter(|k: Seq<u8>| series_of(rows[k]) == s);
    if series_of(m) == s {
        assert(rows_in(after, s) =~= rows_in(rows, s).insert(id));
    } else {
        assert(rows_in(after, s) =~= rows_in(rows, s));
    }
}

proof fn lemma_after_rows(rows: Map<Seq<u8>, MeasurementView>, batch: Seq<(MeasurementView, Seq<char>)>)
    requires
        rows.dom().finite(),
        forall|id: Seq<u8>| #[trigger] rows.contains_key(id) ==> id == measurement_id(rows[id]),
    ensures
        ({
            let r = after_rows(rows, batch);
            &&& r.rows.dom().finite()
            &&& r.rows.dom().len() == rows.dom().len() + r.stored
            &&& forall|id: Seq<u8>| #[trigger] r.rows.contains_key(id) ==> id == measurement_id(r.rows[id])
            &&& forall|id: Seq<u8>| #[trigger] rows.contains_key(id) ==> r.rows.contains_key(id) && r.rows[id] == rows[id]
            &&& forall|i: int|
                0 <= i < batch.len() ==> r.rows.contains_key(measurement_id((#[trigger] batch[i]).0))
            &&& forall|s: Seq<u8>| #[trigger]
                rows_in(r.rows, s).len() == rows_in(rows, s).len() + added_to(r.added, s)
            &&& forall|s: Seq<u8>| #[trigger] r.added.contains_key(s) ==> r.added[s].added >= 1
        }),
    decreases batch.len(),
{
    if batch.len() > 0 {
        let front = batch.drop_last();
        lemma_after_rows(rows, front);
        let b = after_rows(rows, front);
        let r = after_rows(rows, batch);
        let m = batch.last().0;
        let id = measurement_id(m);
        if !b.rows.contains_key(id) {
            assert forall|s: Seq<u8>| #[trigger] rows_in(r.rows, s).len() == rows_in(rows, s).len() + added_to(
                r.added,
                s,
            ) by {
                lemma_one_row_more(b.rows, id, m, s);
                assert(rows_in(b.rows, s).len() == rows_in(rows, s).len() + added_to(b.added, s));
            }
        }
        assert forall|i: int| 0 <= i < batch.len() implies r.rows.contains_key(
            measurement_id((#[trigger] batch[i]).0),
        ) by {
            if i < front.len() {
                assert(front[i] == batch[i]);
            }
        }
    }
}

proof fn lemma_batch_keeps_sound(t: Tables, batch: Seq<(MeasurementView, Seq<char>)>)
    requires
        sound(t),
    ensures
        sound(after_batch(t, batch)),
{
    let r = after_rows(t.rows, batch);
    let u = after_batch(t, batch);
    lemma_after_rows(t.rows, batch);
    assert forall|s: Seq<u8>| #[trigger] u.series.contains_key(s) <==> rows_in(u.rows, s).len() > 0 by {
        assert(rows_in(r.rows, s).len() == rows_in(t.rows, s).len() + added_to(r.added, s));
        assert(t.series.contains_key(s) <==> rows_in(t.rows, s).len() > 0);
        if r.added.contains_key(s) {
            assert(r.added[s].added >= 1);
        }
    }
    assert forall|s: Seq<u8>| #[trigger] u.series.contains_key(s) implies u.series[s].added == rows_in(
        u.rows,
        s,
    ).len() by {
        assert(rows_in(r.rows, s).len() == rows_in(t.rows, s).len() + added_to(r.added, s));
        if t.series.contains_key(s) {
            assert(t.series[s].added == rows_in(t.rows, s).len());
        } else {
            assert(rows_in(t.rows, s).len() == 0);
        }
    }
}

/// After any number of batches, every row is stored under the identity of what it says, and every
/// series counts exactly the rows that belong to it.
pub proof fn law_counts_match_the_rows(batches: Seq<Seq<(MeasurementView, Seq<char>)>>)
    ensures
        sound(after_batches(batches)),
    decreases batches.len(),
{
    if batches.len() == 0 {
        let t = after_batches(batches);
        assert forall|s: Seq<u8>| #[trigger] t.series.contains_key(s) <==> rows_in(t.rows, s).len() > 0 by {
            assert(rows_in(t.rows, s) =~= Set::empty());
        }
    } else {
        law_counts_match_the_rows(batches.drop_last());
        lemma_batch_keeps_sound(after_batches(batches.drop_last()), batches.last());
    }
}

proof fn lemma_nothing_new(rows: Map<Seq<u8>, MeasurementView>, batch: Seq<(MeasurementView, Seq<char>)>)
    requires
        forall|i: int| 0 <= i < batch.len() ==> rows.contains_key(measurement_id((#[trigger] batch[i]).0)),
    ensures
        after_rows(rows, batch) == (Running { rows, stored: 0, added: Map::empty() }),
    decreases batch.len(),
{
    if batch.len() > 0 {
        let front = batch.drop_last();
        assert forall|i: int| 0 <= i < front.len() implies rows.contains_key(
            measurement_id((#[trigger] front[i]).0),
        ) by {
            assert(front[i] == batch[i]);
        }
        lemma_nothing_new(rows, front);
        assert(rows.contains_key(measurement_id(batch[batch.len() - 1].0)));
    }
}

/// A batch that is stored again stores nothing and changes nothing, not even when a row was processed.
pub proof fn law_a_batch_is_stored_once(
    batches: Seq<Seq<(MeasurementView, Seq<char>)>>,
    batch: Seq<(MeasurementView, Seq<char>)>,
)
    ensures
        ({
            let t = after_batches(batches.push(batch));
            stored_by(t, batch) == 0 && after_batch(t, batch) == t
        }),
{
    let before = after_batches(batches);
    let t = after_batches(batches.push(batch));
    assert(batches.push(batch).drop_last() =~= batches);
    law_counts_match_the_rows(batches);
    lemma_after_rows(before.rows, batch);
    lemma_nothing_new(t.rows, batch);
    assert(upserted(t.series, Map::empty()) =~= t.series);
    assert(after_batch(t, batch) =~= t);
}

/// What is stored stays as it is: later batches neither change a row nor remove one.
pub proof fn law_rows_stay_as_they_are(
    batches: Seq<Seq<(MeasurementView, Seq<char>)>>,
    batch: Seq<(MeasurementView, Seq<char>)>,
    id: Seq<u8>,
)
    requires
        after_batches(batches).rows.contains_key(id),
    ensures
        after_batches(batches.push(batch)).rows.contains_key(id),
        after_batches(batches.push(batch)).rows[id] == after_batches(batches).rows[id],
{
    assert(batches.push(batch).drop_last() =~= batches);
    law_counts_match_the_rows(batches);
    lemma_after_rows(after_batches(batches).rows, batch);
}

} // verus!
