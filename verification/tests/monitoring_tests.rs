use rune_core::monitoring::exporter::sanitize_metric_name;
use rune_core::monitoring::health::{determine_overall_status, ComponentHealth, HealthStatus};
use rune_core::monitoring::metrics::{MetricType, MetricsBuilder};

#[test]
fn test_metric_name_sanitization() {
    assert_eq!(sanitize_metric_name("valid_name"), "valid_name");
    assert_eq!(sanitize_metric_name("invalid-name"), "invalid_name");
    assert_eq!(sanitize_metric_name("name.with.dots"), "name_with_dots");
    assert_eq!(sanitize_metric_name("name@with#symbols"), "name_with_symbols");
}

#[test]
fn test_health_status_to_http() {
    assert_eq!(HealthStatus::Healthy.to_http_status(), 200);
    assert_eq!(HealthStatus::Degraded.to_http_status(), 503);
    assert_eq!(HealthStatus::Unhealthy.to_http_status(), 503);
}

#[test]
fn test_metrics_builder() {
    let builder = MetricsBuilder::new().with_prometheus(9090).with_json(9091);

    assert!(builder.enable_prometheus);
    assert!(builder.enable_json);
    assert_eq!(builder.prometheus_port, 9090);
    assert_eq!(builder.json_port, 9091);
}

#[test]
fn metrics_builder_defaults_and_metric_types() {
    let builder = MetricsBuilder::new();
    assert!(builder.enable_prometheus);
    assert!(!builder.enable_json);
    assert_eq!(builder.prometheus_port, 9090);
    assert_eq!(builder.json_port, 9091);
    assert_ne!(MetricType::Counter, MetricType::Gauge);
    assert_eq!(sanitize_metric_name("é-x"), "é_x");
}


fn component(name: &str, status: HealthStatus) -> ComponentHealth {
    ComponentHealth { name: name.to_string(), status, message: None, latency_ms: None }
}

#[test]
fn overall_status_takes_the_worst_component() {
    assert_eq!(determine_overall_status(&[]), HealthStatus::Healthy);
    assert_eq!(
        determine_overall_status(&[component("a", HealthStatus::Healthy), component("b", HealthStatus::Healthy)]),
        HealthStatus::Healthy
    );
    assert_eq!(
        determine_overall_status(&[
            component("a", HealthStatus::Healthy),
            component("b", HealthStatus::Healthy),
            component("c", HealthStatus::Degraded),
        ]),
        HealthStatus::Degraded
    );
    assert_eq!(
        determine_overall_status(&[component("a", HealthStatus::Degraded), component("b", HealthStatus::Unhealthy)]),
        HealthStatus::Unhealthy
    );
}
