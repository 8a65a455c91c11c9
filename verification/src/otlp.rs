//! OTLP messages, and what becomes of them.

pub mod anyvalue;
pub mod codec;
pub mod compose;
pub mod convert;
pub mod convert_laws;
pub mod proto;
