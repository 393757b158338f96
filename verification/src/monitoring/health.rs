//! Health states and what they answer over HTTP.
use vstd::prelude::*;

verus! {

/// Health check status.
#[derive(Debug, Clone, Copy, PartialEq, Eq, Structural)]
pub enum HealthStatus {
    /// System is healthy and ready to serve requests
    Healthy,
    /// System is degraded but still operational
    Degraded,
    /// System is unhealthy and should not receive traffic
    Unhealthy,
}

/// The HTTP status a health state answers with: 200 when healthy, 503 otherwise.
pub open spec fn http_status(s: HealthStatus) -> u16 {
    match s {
        HealthStatus::Healthy => 200,
        HealthStatus::Degraded => 503,
        HealthStatus::Unhealthy => 503,
    }
}

impl HealthStatus {
    /// The HTTP status code of this state.
    pub fn to_http_status(&self) -> (r: u16)
        ensures
            r == http_status(*self),
    {
        match self {
            HealthStatus::Healthy => 200,
            HealthStatus::Degraded => 503,
            HealthStatus::Unhealthy => 503,
        }
    }
}

/// The health of one component.
#[derive(Debug, Clone)]
pub struct ComponentHealth {
    /// Component name
    pub name: String,
    /// Its state
    pub status: HealthStatus,
    /// A message about it, if any
    pub message: Option<String>,
    /// How long the check took, in milliseconds, if measured
    pub latency_ms: Option<u64>,
}

/// Whether some component has a state.
pub open spec fn some_status(checks: Seq<ComponentHealth>, st: HealthStatus) -> bool {
    exists|i: int| 0 <= i < checks.len() && #[trigger] checks[i].status == st
}

/// The overall state of components: unhealthy when one is, otherwise
/// degraded when one is, otherwise healthy.
pub open spec fn overall_status(checks: Seq<ComponentHealth>) -> HealthStatus {
    if some_status(checks, HealthStatus::Unhealthy) {
        HealthStatus::Unhealthy
    } else if some_status(checks, HealthStatus::Degraded) {
        HealthStatus::Degraded
    } else {
        HealthStatus::Healthy
    }
}

/// The overall health of the checked components.
pub fn determine_overall_status(checks: &[ComponentHealth]) -> (r: HealthStatus)
    ensures
        r == overall_status(checks@),
{
    let mut unhealthy: usize = 0;
    let mut degraded: usize = 0;
    let mut i: usize = 0;
    while i < checks.len()
        invariant
            i <= checks@.len(),
            unhealthy <= i,
            degraded <= i,
            (unhealthy > 0) == (exists|j: int| 0 <= j < i && #[trigger] checks@[j].status == HealthStatus::Unhealthy),
            (degraded > 0) == (exists|j: int| 0 <= j < i && #[trigger] checks@[j].status == HealthStatus::Degraded),
        decreases checks.len() - i,
    {
        match checks[i].status {
            HealthStatus::Unhealthy => {
                unhealthy = unhealthy + 1;
            },
            HealthStatus::Degraded => {
                degraded = degraded + 1;
            },
            HealthStatus::Healthy => {},
        }
        i = i + 1;
    }
    if unhealthy > 0 {
        HealthStatus::Unhealthy
    } else if degraded > checks.len() / 2 {
        HealthStatus::Degraded
    } else if degraded > 0 {
        HealthStatus::Degraded
    } else {
        HealthStatus::Healthy
    }
}

} // verus!
