//! The synchronisation core of a multiplayer arena game: a datagram
//! transport that fragments and reassembles messages, a resumable map
//! distribution protocol, the authoritative world simulation, per-client
//! interest management with differential snapshots, and the client-side
//! merge of those snapshots.
//!
//! Positions, lengths and speeds are fixed-point integers with
//! [`config::UNIT`] units to a tile; times are in milliseconds.
pub mod bytes;
pub mod client;
pub mod config;
pub mod encoding;
pub mod game;
pub mod ids;
pub mod map;
pub mod math;
pub mod network;
pub mod reassembly;
pub mod rng;
pub mod server;
pub mod sessions;
pub mod stream;
pub mod transport;
