//! Verified core of a stream-record ingestion handler: decoding JSON payloads
//! into typed items, planning batch writes with first-error short-circuit,
//! modelling the idempotent schema bootstrap, and configuration defaults.

pub mod config;
pub mod handler;
pub mod item;
pub mod schema;
