//! What is stored, and the statements that store it and read it back.

pub mod chart;
pub mod chart_laws;
pub mod facets;
pub mod keys;
pub mod order;
pub mod order_laws;
pub mod page_laws;
pub mod query_laws;
pub mod read;
pub mod schema;
pub mod series;
pub mod series_laws;
pub mod sessions;
pub mod sql;
pub mod statement_laws;
pub mod users;
pub mod write;
pub mod write_laws;
