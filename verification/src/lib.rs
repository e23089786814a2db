//! Core of a multi-chain NFT ownership tracker.
//!
//! The library covers the compute half of the system: ABI-level decoding of
//! transfer logs, the event store model with overlap-and-rewrite
//! reconciliation, the pure balance replay engine, leaderboard scoring, and
//! the level curve. I/O (RPC, database, files, HTTP) lives outside.

pub mod ascii;
pub mod bytes_ord;
pub mod checksum;
pub mod config;
pub mod decode;
pub mod event;
pub mod fetch;
pub mod leaderboard;
pub mod level;
pub mod replay;
pub mod store;
pub mod u256;
pub mod users;
