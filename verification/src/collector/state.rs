//! The offset history across a restart of the collector.
//!
//! A snapshot is keyed by the boot it describes: boot times mean nothing on another boot.

use vstd::prelude::*;

use crate::collector::epoch::{
    collapsed, copied, is_history, law_history_survives_a_round_trip, sorted_by_start, Epoch, EpochTable,
};
use crate::text::same_text;

verus! {

/// The format of a snapshot.
pub const VERSION: u32 = 1;

/// What is kept of a table.
#[derive(Debug, PartialEq, Eq)]
pub struct Snapshot {
    pub version: u32,
    pub boot_id: String,
    pub epochs: Vec<Epoch>,
}

impl Snapshot {
    /// Whether the snapshot is of this format and of this boot.
    pub open spec fn describes(&self, boot_id: Seq<char>) -> bool {
        self.version == VERSION && self.boot_id@ == boot_id
    }

    pub fn new(boot_id: String, table: &EpochTable) -> (r: Self)
        ensures
            r.version == VERSION,
            r.boot_id@ == boot_id@,
            r.epochs@ == table@,
            is_history(r.epochs@),
    {
        Snapshot { version: VERSION, boot_id, epochs: copied(table.epochs()) }
    }

    /// The table this snapshot describes, if it describes this boot.
    pub fn table_for(&self, boot_id: &str) -> (r: Option<EpochTable>)
        ensures
            r is Some <==> self.describes(boot_id@) && self.epochs@.len() > 0,
            r matches Some(table) ==> table@ == collapsed(sorted_by_start(self.epochs@)),
            r matches Some(table) ==> is_history(self.epochs@) ==> table@ == self.epochs@,
    {
        proof {
            if is_history(self.epochs@) {
                law_history_survives_a_round_trip(self.epochs@);
            }
        }
        if self.version == VERSION && same_text(self.boot_id.as_str(), boot_id) {
            EpochTable::from_epochs(copied(self.epochs.as_slice()))
        } else {
            None
        }
    }
}

/// The table to resume from, given what could be read back: nothing for a snapshot that could not
/// be read, for one of another boot, and for one of another format.
pub fn restore(read_back: Option<Snapshot>, boot_id: &str) -> (r: Option<EpochTable>)
    ensures
        r is Some <==> (read_back matches Some(s) && s.describes(boot_id@) && s.epochs@.len() > 0),
        r matches Some(table) ==> table@ == collapsed(sorted_by_start(read_back->0.epochs@)),
        r matches Some(table) ==> is_history(read_back->0.epochs@) ==> table@ == read_back->0.epochs@,
{
    match read_back {
        Some(snapshot) => snapshot.table_for(boot_id),
        None => None,
    }
}

} // verus!
