//! Verified core of a REST facade over a relay network of signed events.
//!
//! The library owns the logic that is worth proving: the canonical byte
//! encoding of queries and the fingerprint derived from it, the codec that
//! stores result sets in a byte-oriented cache, the cache-aside coordinator
//! that decides when to read the cache, fetch upstream and write back, and
//! the defaulting rules for the service configuration. All I/O (HTTP, the
//! relay client, the cache backend, files) lives outside, in ordinary Rust
//! that drives these verified decisions.

pub mod codec;
pub mod config;
pub mod event;
pub mod fingerprint;
pub mod filter;
pub mod resolve;
