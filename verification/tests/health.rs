use blockyard::ids::DiskId;
use blockyard::storage::health::{DiskHealthTracker, DiskTelemetry, HealthPolicy};
use blockyard::types::DiskState;


#[test]
fn test_new_tracker_no_derived_state() {
    let tracker = DiskHealthTracker::new(DiskId::generate());
    assert!(tracker.derive_state().is_none());
}

#[test]
fn test_record_accumulates() {
    let mut tracker = DiskHealthTracker::new(DiskId::generate());

    let t1 = DiskTelemetry {
        read_errors: 2,
        write_errors: 1,
        ..Default::default()
    };
    tracker.record(&t1);
    assert_eq!(tracker.cumulative.read_errors, 2);
    assert_eq!(tracker.cumulative.write_errors, 1);

    let t2 = DiskTelemetry {
        read_errors: 3,
        write_errors: 0,
        ..Default::default()
    };
    tracker.record(&t2);
    assert_eq!(tracker.cumulative.read_errors, 5);
    assert_eq!(tracker.cumulative.write_errors, 1);
}

#[test]
fn test_derive_suspect_from_errors() {
    let mut tracker = DiskHealthTracker::new(DiskId::generate());
    tracker.record(&DiskTelemetry {
        read_errors: 5,
        ..Default::default()
    });
    assert_eq!(tracker.derive_state(), Some(DiskState::Suspect));
}

#[test]
fn test_derive_degraded_from_errors() {
    let mut tracker = DiskHealthTracker::new(DiskId::generate());
    tracker.record(&DiskTelemetry {
        read_errors: 10,
        write_errors: 10,
        ..Default::default()
    });
    assert_eq!(tracker.derive_state(), Some(DiskState::Degraded));
}

#[test]
fn test_derive_failed_from_errors() {
    let mut tracker = DiskHealthTracker::new(DiskId::generate());
    tracker.record(&DiskTelemetry {
        media_errors: 100,
        ..Default::default()
    });
    assert_eq!(tracker.derive_state(), Some(DiskState::Failed));
}

#[test]
fn test_derive_suspect_from_temperature() {
    let mut tracker = DiskHealthTracker::new(DiskId::generate());
    tracker.record(&DiskTelemetry {
        temperature_celsius: Some(65),
        ..Default::default()
    });
    assert_eq!(tracker.derive_state(), Some(DiskState::Suspect));
}

#[test]
fn test_derive_failed_from_temperature() {
    let mut tracker = DiskHealthTracker::new(DiskId::generate());
    tracker.record(&DiskTelemetry {
        temperature_celsius: Some(80),
        ..Default::default()
    });
    assert_eq!(tracker.derive_state(), Some(DiskState::Failed));
}

#[test]
fn test_total_errors() {
    let mut tracker = DiskHealthTracker::new(DiskId::generate());
    tracker.record(&DiskTelemetry {
        read_errors: 1,
        write_errors: 2,
        checksum_mismatches: 3,
        media_errors: 4,
        timeouts: 5,
        ..Default::default()
    });
    assert_eq!(tracker.total_errors(), 15);
}

#[test]
fn test_reset() {
    let mut tracker = DiskHealthTracker::new(DiskId::generate());
    tracker.record(&DiskTelemetry {
        read_errors: 10,
        ..Default::default()
    });
    assert!(tracker.derive_state().is_some());
    tracker.reset();
    assert!(tracker.derive_state().is_none());
    assert_eq!(tracker.total_errors(), 0);
}

#[test]
fn test_custom_policy() {
    let policy = HealthPolicy {
        suspect_error_threshold: 1,
        degraded_error_threshold: 2,
        failed_error_threshold: 3,
        temperature_warning_celsius: 40,
        temperature_critical_celsius: 50,
    };

    let mut tracker = DiskHealthTracker::with_policy(DiskId::generate(), policy);
    tracker.record(&DiskTelemetry {
        read_errors: 1,
        ..Default::default()
    });
    assert_eq!(tracker.derive_state(), Some(DiskState::Suspect));

    tracker.record(&DiskTelemetry {
        read_errors: 1,
        ..Default::default()
    });
    assert_eq!(tracker.derive_state(), Some(DiskState::Degraded));

    tracker.record(&DiskTelemetry {
        read_errors: 1,
        ..Default::default()
    });
    assert_eq!(tracker.derive_state(), Some(DiskState::Failed));
}

#[test]
fn test_latency_recorded() {
    let mut tracker = DiskHealthTracker::new(DiskId::generate());
    tracker.record(&DiskTelemetry {
        latency_p99_us: Some(1000),
        ..Default::default()
    });
    assert_eq!(tracker.cumulative.latency_p99_us, Some(1000));

    tracker.record(&DiskTelemetry {
        latency_p99_us: Some(2000),
        ..Default::default()
    });
    assert_eq!(tracker.cumulative.latency_p99_us, Some(2000));
}

#[test]
fn test_temperature_latest_wins() {
    let mut tracker = DiskHealthTracker::new(DiskId::generate());
    tracker.record(&DiskTelemetry {
        temperature_celsius: Some(30),
        ..Default::default()
    });
    assert_eq!(tracker.cumulative.temperature_celsius, Some(30));

    tracker.record(&DiskTelemetry {
        temperature_celsius: Some(45),
        ..Default::default()
    });
    assert_eq!(tracker.cumulative.temperature_celsius, Some(45));
}

#[test]
fn test_default_telemetry() {
    let t = DiskTelemetry::default();
    assert_eq!(t.read_errors, 0);
    assert_eq!(t.write_errors, 0);
    assert!(t.temperature_celsius.is_none());
}

#[test]
fn test_default_policy_values() {
    let p = HealthPolicy::default();
    assert_eq!(p.suspect_error_threshold, 5);
    assert_eq!(p.degraded_error_threshold, 20);
    assert_eq!(p.failed_error_threshold, 100);
    assert_eq!(p.temperature_warning_celsius, 60);
    assert_eq!(p.temperature_critical_celsius, 75);
}

#[test]
fn test_below_suspect_threshold_no_state() {
    let mut tracker = DiskHealthTracker::new(DiskId::generate());
    tracker.record(&DiskTelemetry {
        read_errors: 4,
        ..Default::default()
    });
    assert!(tracker.derive_state().is_none());
}
#[test]
fn timeouts_do_not_change_the_state() {
    let mut tracker = DiskHealthTracker::new(DiskId::new(1));
    tracker.record(&DiskTelemetry {
        timeouts: 1000,
        ..Default::default()
    });
    assert!(tracker.derive_state().is_none());
    assert_eq!(tracker.total_errors(), 1000);
}

#[test]
fn more_errors_are_never_judged_better() {
    let mut worst = 0;
    for errors in 0..150u64 {
        let mut tracker = DiskHealthTracker::new(DiskId::new(1));
        tracker.record(&DiskTelemetry {
            read_errors: errors,
            ..Default::default()
        });
        let severity = match tracker.derive_state() {
            None => 0,
            Some(DiskState::Suspect) => 1,
            Some(DiskState::Degraded) => 2,
            Some(_) => 3,
        };
        assert!(severity >= worst);
        worst = severity;
    }
    assert_eq!(worst, 3);
}
