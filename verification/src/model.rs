//! The measurement, and why a record did not become one.

use vstd::prelude::*;

use crate::content_id::ContentId;
use crate::json::{Json, Object, Value};
use crate::text::{decimal_i64, signed_decimal};

verus! {

/// A measurement ready to be stored. Its identity follows from these fields.
#[derive(Debug, PartialEq, Eq)]
pub struct Measurement {
    /// Nanoseconds since the Unix epoch, from the device.
    pub event_time: i64,
    /// Nanoseconds since the Unix epoch, from the server's clock.
    pub processed_time: i64,
    pub kind: String,
    /// Nothing when the record carried no body at all; a null when it carried one without a value.
    pub body: Option<Json>,
    /// The attributes of resource, scope and record, each under its prefix.
    pub attributes: Object,
}

/// What a [`Measurement`] says.
pub struct MeasurementView {
    pub event_time: i64,
    pub processed_time: i64,
    pub kind: Seq<char>,
    pub body: Option<Value>,
    pub attributes: Map<Seq<char>, Value>,
}

impl Measurement {
    pub open spec fn view(self) -> MeasurementView {
        MeasurementView {
            event_time: self.event_time,
            processed_time: self.processed_time,
            kind: self.kind@,
            body: match self.body {
                None => None,
                Some(v) => Some(v.view()),
            },
            attributes: self.attributes.view(),
        }
    }
}

/// A measurement read back from the database.
#[derive(Debug, PartialEq, Eq)]
pub struct StoredMeasurement {
    pub id: ContentId,
    pub event_time: i64,
    pub processed_time: i64,
    pub kind: String,
    pub body: Option<Json>,
    pub attributes: Json,
}

/// Why records of a batch were skipped. A record that fails several checks counts once, under the
/// first.
#[derive(Debug, Clone, Copy, PartialEq, Eq, Structural)]
pub struct Rejections {
    pub missing_event_name: i64,
    pub missing_timestamp: i64,
}

impl Default for Rejections {
    fn default() -> (r: Self)
        ensures
            r == (Rejections { missing_event_name: 0, missing_timestamp: 0 }),
    {
        Rejections { missing_event_name: 0, missing_timestamp: 0 }
    }
}

impl Rejections {
    pub open spec fn sum(self) -> int {
        self.missing_event_name + self.missing_timestamp
    }

    pub fn total(&self) -> (r: i64)
        requires
            i64::MIN <= self.sum() <= i64::MAX,
        ensures
            r == self.sum(),
    {
        self.missing_event_name + self.missing_timestamp
    }

    pub fn is_empty(&self) -> (r: bool)
        requires
            i64::MIN <= self.sum() <= i64::MAX,
        ensures
            r == (self.sum() == 0),
    {
        self.total() == 0
    }

    /// A summary for the reply, the reasons that occurred, separated by semicolons.
    pub open spec fn text(self) -> Seq<char> {
        let first = if self.missing_event_name > 0 {
            signed_decimal(self.missing_event_name as int)
                + " record(s) had no event_name (only OTLP Events are accepted)"@
        } else {
            Seq::empty()
        };
        let second = if self.missing_timestamp > 0 {
            signed_decimal(self.missing_timestamp as int)
                + " record(s) had neither time_unix_nano nor observed_time_unix_nano"@
        } else {
            Seq::empty()
        };
        if self.missing_event_name > 0 && self.missing_timestamp > 0 {
            first + "; "@ + second
        } else {
            first + second
        }
    }

    pub fn message(&self) -> (r: String)
        ensures
            r@ == self.text(),
    {
        let mut out = String::new();
        if self.missing_event_name > 0 {
            out.append(decimal_i64(self.missing_event_name).as_str());
            out.append(" record(s) had no event_name (only OTLP Events are accepted)");
            if self.missing_timestamp > 0 {
                out.append("; ");
            }
        }
        if self.missing_timestamp > 0 {
            out.append(decimal_i64(self.missing_timestamp).as_str());
            out.append(" record(s) had neither time_unix_nano nor observed_time_unix_nano");
        }
        assert(out@ =~= self.text());
        out
    }
}

} // verus!
