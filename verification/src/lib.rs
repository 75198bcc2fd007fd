//! Core of a copy-trading execution engine for a perpetual-futures venue.
//!
//! The library contains the verified pipeline logic: normalising inbound
//! fill events, debounced aggregation of partial fills into full orders,
//! the follower-configuration cache, order sizing under risk caps, and the
//! leaderboard metric computations. The surrounding I/O (websocket, database,
//! exchange REST) lives outside the library and hands plain values in.

pub mod cache;
pub mod decimal;
pub mod detector;
pub mod executor;
pub mod grouper;
pub mod ingest;
pub mod leaderboard;
pub mod models;
pub mod parser;
mod text;

pub use decimal::Dec;
