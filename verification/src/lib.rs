//! A Redis-compatible key-value server: the command layer, the keyspace and
//! its sorted sets, with their contracts.

pub mod text;
pub mod value;
pub mod types;
pub mod store;
pub mod command;
pub mod laws;
pub mod config;
pub mod resp;
