//! Collecting measurements over OTLP: a receiver that stores them under an identity derived from
//! what they say, and a collector that corrects their timestamps on a device whose clock is set
//! late.

pub mod admin;
pub mod api;
pub mod auth;
pub mod auth_laws;
pub mod bytes;
pub mod clock;
pub mod collector;
pub mod config;
pub mod content_id;
pub mod content_laws;
pub mod environment;
pub mod hex;
pub mod host;
pub mod json;
pub mod model;
pub mod otlp;
pub mod perms;
pub mod sextets;
pub mod socket;
pub mod store;
pub mod text;
pub mod text_laws;
pub mod time;
pub mod wire;
