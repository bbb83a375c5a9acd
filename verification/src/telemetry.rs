//! Telemetry options: whether metrics are exposed, and where.

use vstd::prelude::*;

verus! {

/// Telemetry and metrics related options.
#[derive(Debug, Clone, Copy)]
pub struct TelemetryOpts {
    /// The port on which to expose Prometheus metrics.
    metrics_port: u16,
    /// Whether the metrics endpoint is switched off.
    disable_metrics: bool,
}

/// What the options hold.
pub ghost struct TelemetryView {
    pub metrics_port: u16,
    pub disable_metrics: bool,
}

impl View for TelemetryOpts {
    type V = TelemetryView;

    closed spec fn view(&self) -> TelemetryView {
        TelemetryView { metrics_port: self.metrics_port, disable_metrics: self.disable_metrics }
    }
}

impl Default for TelemetryOpts {
    /// Metrics enabled, on port 3300.
    fn default() -> (opts: Self)
        ensures
            opts@ == (TelemetryView { metrics_port: 3300, disable_metrics: false }),
    {
        TelemetryOpts { metrics_port: 3300, disable_metrics: false }
    }
}

impl TelemetryOpts {
    /// Options with the given port and switch.
    pub fn new(metrics_port: u16, disable_metrics: bool) -> (opts: Self)
        ensures
            opts@ == (TelemetryView { metrics_port, disable_metrics }),
    {
        TelemetryOpts { metrics_port, disable_metrics }
    }

    /// Get the metrics port if metrics are enabled or `None` if they are disabled.
    pub fn metrics_port(&self) -> (port: Option<u16>)
        ensures
            port == if self@.disable_metrics {
                None
            } else {
                Some(self@.metrics_port)
            },
    {
        if self.disable_metrics {
            None
        } else {
            Some(self.metrics_port)
        }
    }

    /// The configured port, whether or not metrics are enabled.
    pub fn configured_port(&self) -> (port: u16)
        ensures
            port == self@.metrics_port,
    {
        self.metrics_port
    }

    /// Whether metrics are switched off.
    pub fn metrics_disabled(&self) -> (disabled: bool)
        ensures
            disabled == self@.disable_metrics,
    {
        self.disable_metrics
    }
}

} // verus!
