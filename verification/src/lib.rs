//! A small key-value node: an in-memory store driven by commands, a
//! length-prefixed write-ahead log of those commands, and a checksummed
//! record format for durable log entries.

pub mod dummy;
pub mod record;
pub mod persistence;
pub mod storage;
pub mod actor;
pub mod node;
pub mod kvnode;
pub mod client;
