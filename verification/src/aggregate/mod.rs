//! The rolling window of recent spans and the statistics drawn from it.

pub mod arrival;
pub mod bucket;
pub mod laws;
pub mod placing;
pub mod replay;
pub mod ring;
pub mod rows;
pub mod state;
pub mod types;
pub mod util;
