//! The on-host collector, which corrects timestamps that an unsynchronized clock produced.

pub mod buffer;
pub mod config;
pub mod config_laws;
pub mod correct;
pub mod correction_laws;
pub mod delivery_laws;
pub mod epoch;
pub mod epoch_laws;
pub mod forward;
pub mod journal;
pub mod journal_laws;
pub mod metrics;
pub mod peer;
pub mod receive;
pub mod retry;
pub mod runtime;
pub mod runtime_laws;
pub mod service_laws;
pub mod spool;
pub mod spool_laws;
pub mod state;
pub mod stepwatch;
pub mod sync;
