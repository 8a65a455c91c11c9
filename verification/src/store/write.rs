//! Storing a batch of measurements.

use vstd::prelude::*;

use crate::content_id::{blake3_of, canonical, content_id, series_bytes, ContentId, ID_LEN};
use crate::model::{Measurement, MeasurementView};
use crate::store::series::{accumulate, id_of, single, with_row, DeltaView, Deltas};

verus! {

/// Stores a measurement unless it is stored already.
pub const INSERT: &'static str =
    "INSERT OR IGNORE INTO measurement (id, event_time, processed_time, body, series_id) VALUES (?1, ?2, ?3, ?4, ?5)";

/// The identities with which a measurement is stored: its own, and that of its series.
pub fn row_ids(m: &Measurement) -> (r: (ContentId, ContentId))
    ensures
        r.0@ == measurement_id(m.view()),
        r.1@ == series_of(m.view()),
{
    (content_id(m), id_of(m))
}

/// The identity of a measurement.
pub open spec fn measurement_id(m: MeasurementView) -> Seq<u8> {
    blake3_of(canonical(m)).take(ID_LEN as int)
}

/// The identity of the series of a measurement.
pub open spec fn series_of(m: MeasurementView) -> Seq<u8> {
    blake3_of(series_bytes(m.kind, m.attributes)).take(ID_LEN as int)
}

/// A batch while it is stored: how many rows were stored, and what they add to their series. A row
/// counts only once it is stored, so that a batch sent again does not count again.
pub struct Batch {
    stored: usize,
    deltas: Deltas,
}

impl Batch {
    /// How many rows were stored.
    pub closed spec fn count(self) -> nat {
        self.stored as nat
    }

    /// What the stored rows add to their series.
    pub closed spec fn added(self) -> Map<Seq<u8>, DeltaView> {
        self.deltas.view()
    }

    #[verifier::type_invariant]
    spec fn inv(self) -> bool {
        self.deltas.total() == self.stored
    }

    pub fn new() -> (r: Batch)
        ensures
            r.count() == 0,
            r.added() == Map::<Seq<u8>, DeltaView>::empty(),
    {
        Batch { stored: 0, deltas: Deltas::new() }
    }

    /// Takes what storing one measurement came to: `inserted` rows, one or none. `attributes_json` is
    /// the text of its attributes.
    pub fn record(self, m: &Measurement, attributes_json: &str, inserted: usize) -> (r: Batch)
        requires
            inserted <= 1,
            self.count() < usize::MAX,
            self.count() < i64::MAX,
        ensures
            r.count() == self.count() + inserted,
            r.added() == if inserted == 0 {
                self.added()
            } else {
                with_row(
                    self.added(),
                    series_of(m.view()),
                    single(m.view().kind, attributes_json@, m.event_time, m.processed_time),
                )
            },
    {
        proof {
            use_type_invariant(&self);
        }
        if inserted == 0 {
            return self;
        }
        let Batch { stored, deltas } = self;
        let mut deltas = deltas;
        accumulate(
            &mut deltas,
            id_of(m),
            m.kind.as_str(),
            attributes_json,
            m.event_time,
            m.processed_time,
        );
        Batch { stored: stored + 1, deltas }
    }

    /// How many rows were stored, and what they add to their series: as many rows as were stored are
    /// counted, no more and no fewer.
    pub fn finish(self) -> (r: (usize, Deltas))
        ensures
            r.0 == self.count(),
            r.1.view() == self.added(),
            r.1.total() == r.0,
    {
        proof {
            use_type_invariant(&self);
        }
        let Batch { stored, deltas } = self;
        (stored, deltas)
    }
}

} // verus!
