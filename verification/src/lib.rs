//! ClickHouse storage of usage records.
//!
//! The modules decide what is read, written and answered; talking to the
//! server is left to the caller.
pub mod client;
pub mod entity;
pub mod error;
pub mod mapper;
pub mod maps;
pub mod model;
pub mod query;
pub mod record_store;
pub mod sql;
pub mod text;
pub mod values;
