//! Hot-reload records: what a reload attempt gave, and how reloading is
//! configured. Times are in nanoseconds.
use vstd::prelude::*;

verus! {

/// Result of a reload attempt.
#[derive(Debug, Clone, PartialEq, Eq)]
pub enum ReloadResult {
    /// Reload succeeded
    Success,
    /// Reload failed (old config retained)
    Failed(String),
    /// Reload skipped (e.g., file not relevant)
    Skipped(String),
}

/// Reload event sent when configuration is reloaded.
#[derive(Debug, Clone)]
pub struct ReloadEvent {
    /// Path that triggered the reload
    pub path: String,
    /// Result of the reload
    pub result: ReloadResult,
    /// Clock reading of the reload, in nanoseconds
    pub timestamp: u64,
}

/// Configuration for reloading.
#[derive(Debug, Clone, Copy, PartialEq, Eq, Structural)]
pub struct ReloadConfig {
    /// Debounce duration in nanoseconds (wait for file writes to settle)
    pub debounce_duration_ns: u64,
    /// Maximum reload attempts on failure
    pub max_retry_attempts: usize,
    /// Retry delay on failure, in nanoseconds
    pub retry_delay_ns: u64,
    /// Enable automatic reload on file changes
    pub auto_reload: bool,
}

impl Default for ReloadConfig {
    fn default() -> (r: Self)
        ensures
            r.debounce_duration_ns == 500_000_000,
            r.max_retry_attempts == 3,
            r.retry_delay_ns == 1_000_000_000,
            r.auto_reload,
    {
        ReloadConfig {
            debounce_duration_ns: 500_000_000,
            max_retry_attempts: 3,
            retry_delay_ns: 1_000_000_000,
            auto_reload: true,
        }
    }
}

impl ReloadConfig {
    /// Whether a settled file change leads to a reload attempt: only when
    /// automatic reloading is on.
    pub fn reloads_on_change(&self) -> (r: bool)
        ensures
            r == self.auto_reload,
    {
        self.auto_reload
    }
}

} // verus!
