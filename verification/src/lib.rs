//! An in-memory key-value store speaking the RESP wire format: an
//! incremental codec for the protocol, a keyspace with millisecond deadlines
//! and lazy expiry, append-only streams with monotonic compound ids, a
//! registry of command handlers, and a binary snapshot loader. Every
//! function is specified against a mathematical model of the store and the
//! wire, and the round-trip and incremental-decode laws of the codec are
//! proved.

pub mod commands;
pub mod config;
pub mod parser;
pub mod storage;
