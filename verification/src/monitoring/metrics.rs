//! Kinds of metrics and the configuration of their export.
use vstd::prelude::*;

verus! {

/// Kind of a metric.
#[derive(Debug, Clone, Copy, PartialEq, Eq, Structural)]
pub enum MetricType {
    /// A counter
    Counter,
    /// A gauge
    Gauge,
    /// A histogram
    Histogram,
}

/// Which exports to start, and on which ports.
#[derive(Debug, Clone, Copy, PartialEq, Eq, Structural)]
pub struct MetricsBuilder {
    /// Prometheus export on
    pub enable_prometheus: bool,
    /// JSON export on
    pub enable_json: bool,
    /// Prometheus port
    pub prometheus_port: u16,
    /// JSON port
    pub json_port: u16,
}

impl Default for MetricsBuilder {
    fn default() -> (r: Self)
        ensures
            r == (MetricsBuilder { enable_prometheus: true, enable_json: false, prometheus_port: 9090, json_port: 9091 }),
    {
        MetricsBuilder { enable_prometheus: true, enable_json: false, prometheus_port: 9090, json_port: 9091 }
    }
}

impl MetricsBuilder {
    /// Prometheus on port 9090, JSON off (port 9091).
    pub fn new() -> (r: Self)
        ensures
            r == (MetricsBuilder { enable_prometheus: true, enable_json: false, prometheus_port: 9090, json_port: 9091 }),
    {
        Self::default()
    }

    /// Turn Prometheus export on, on a port.
    pub fn with_prometheus(self, port: u16) -> (r: Self)
        ensures
            r == (MetricsBuilder { enable_prometheus: true, prometheus_port: port, ..self }),
    {
        MetricsBuilder { enable_prometheus: true, prometheus_port: port, ..self }
    }

    /// Turn JSON export on, on a port.
    pub fn with_json(self, port: u16) -> (r: Self)
        ensures
            r == (MetricsBuilder { enable_json: true, json_port: port, ..self }),
    {
        MetricsBuilder { enable_json: true, json_port: port, ..self }
    }
}

} // verus!
