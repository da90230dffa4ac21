//! The subscriber side: spans and events as they are recorded, and how they
//! reach whoever watches.

pub mod carried;
pub mod config;
pub mod driver;
pub mod ident;
pub mod laws;
pub mod pool;
pub mod predicate;
pub mod record;
pub mod slots;
pub mod store;
pub mod thread;
