//! Collector for periodic environmental sensor telemetry.
//!
//! Sensors broadcast fixed-length binary frames carrying a six-byte
//! identity together with temperature, humidity and CO2 readings. This
//! crate holds the verified core of the collector: the frame decoder,
//! the event/rollup store with its replace and purge semantics, and the
//! daily rollup engine with its retention purge. The network listener,
//! the clock and the scheduler live outside the library and hand it
//! plain values.

pub mod date;
pub mod proto;
pub mod rollup;
pub mod store;
