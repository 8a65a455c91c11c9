//! What the HTTP endpoints decide.

pub mod auth;
pub mod compress;
pub mod ingest;
pub mod negotiation_laws;
pub mod query;
pub mod query_laws;
