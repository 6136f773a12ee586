//! Verified core of a self-hosted blog search service.
//!
//! The library covers the pure logic of the service: the mixed-script
//! tokenizer, the HTML entity decoder, the binary wire-protocol codec, the
//! query builder, response rendering, date arithmetic, feed parsing and the
//! ingestion dedup plan. Network and index-store I/O live outside the
//! library and hand it plain values.

pub mod config;
pub mod console;
pub mod datetime;
pub mod ipc;
pub mod migrate;
pub mod search;
pub mod server;
pub mod text;
pub mod tokenizer;
pub mod unescape;
