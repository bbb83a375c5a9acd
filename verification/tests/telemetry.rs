use bolt_dirk::telemetry::TelemetryOpts;

#[test]
fn metrics_port_is_given_when_metrics_are_enabled() {
    let opts = TelemetryOpts::new(3300, false);
    assert_eq!(opts.metrics_port(), Some(3300));
}

#[test]
fn metrics_port_is_withheld_when_metrics_are_disabled() {
    let opts = TelemetryOpts::new(3300, true);
    assert_eq!(opts.metrics_port(), None);
}

#[test]
fn metrics_port_keeps_the_extremes() {
    assert_eq!(TelemetryOpts::new(0, false).metrics_port(), Some(0));
    assert_eq!(TelemetryOpts::new(u16::MAX, false).metrics_port(), Some(65535));
}

#[test]
fn default_telemetry_exposes_port_3300() {
    assert_eq!(TelemetryOpts::default().metrics_port(), Some(3300));
}

#[test]
fn telemetry_options_hand_back_what_they_were_made_of() {
    let opts = TelemetryOpts::new(9100, true);
    assert_eq!(opts.configured_port(), 9100);
    assert!(opts.metrics_disabled());
    assert_eq!(opts.metrics_port(), None);
    assert!(!TelemetryOpts::default().metrics_disabled());
    assert_eq!(TelemetryOpts::default().configured_port(), 3300);
}
