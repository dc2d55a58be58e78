//! Relay for the osu! scores feed.
//!
//! The library holds the verified core of the relay: a byte-level scanner
//! that extracts JSON objects and their ids from response payloads, an
//! id-ordered bounded record set serving as history, the decision logic of
//! the cursor-following fetch engine, and the per-connection session
//! protocol. Network I/O, the async runtime and the process entry point
//! live outside the library and drive it through these functions.

pub mod config;
pub mod context;
pub mod digits;
pub mod event;
pub mod osu;
pub mod scan;
pub mod search;
pub mod session;

pub use config::{Config, OsuConfig, Setup};
