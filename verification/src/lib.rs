//! A console for looking at `tracing` spans as they close, and the cache
//! and protocol that bring them to it.

pub mod aggregate;
pub mod args;
pub mod cache;
pub mod columns;
pub mod double;
pub mod hosting;
pub mod installer;
pub mod keys;
pub mod model;
pub mod network;
pub mod number;
pub mod order;
pub mod pattern;
pub mod pressed;
pub mod protocol;
pub mod server;
pub mod sorted;
pub mod stats;
pub mod tally;
pub mod text;
pub mod wire;
