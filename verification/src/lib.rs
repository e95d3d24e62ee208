//! Sliding-window price-spike detection.
//!
//! The crate maintains, per trading symbol, the recent price observations
//! that fall inside a trailing time window, tracks the minimum and maximum
//! price in that window, and raises an alert whenever the relative spread
//! between them exceeds a configured threshold.

pub mod config;
pub mod point;
pub mod store;
pub mod universe;
pub mod window;

pub use config::SpikeConfig;
pub use point::{AlertEvent, PricePoint};
pub use store::WindowStore;
pub use window::SymbolWindow;
