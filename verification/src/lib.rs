//! A minimal Redis-compatible in-memory key/value server core.
//!
//! The library holds the verified heart of the server: the RESP wire codec,
//! the key/value store with lazy expiry, the command dispatcher, and the
//! replication state machines (handshake driver, offset accounting).
//! Network I/O, task spawning and argument handling live outside the library
//! and drive these functions with plain values.

pub mod codec;
pub mod config;
pub mod dispatch;
pub mod model;
pub mod replication;
pub mod store;
pub mod text;
