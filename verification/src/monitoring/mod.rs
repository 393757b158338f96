//! Monitoring: health states, metric naming and the metrics configuration.
pub mod health;
pub mod metrics;
pub mod exporter;
