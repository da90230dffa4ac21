//! The state of the console and how it changes.

pub mod asked;
pub mod charted;
pub mod color;
pub mod console;
pub mod explore;
pub mod explored;
pub mod graph;
pub mod input;
pub mod laws;
pub mod rate;
pub mod series;
pub mod shown;
pub mod steps;
pub mod update;
