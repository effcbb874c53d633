//! An LRU cache with a capacity bound, lazy TTL expiry and live statistics.
pub mod cache;
pub mod clock;
pub mod demo;
pub mod history;
pub mod model;
pub mod repl;

pub use cache::{Cache, Stats};
pub use clock::{Clock, SystemClock, TestClock};
