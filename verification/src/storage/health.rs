//! Per-disk telemetry collection and health-derived state.
//!
//! Collects read/write errors, checksum mismatches, media errors,
//! timeouts, temperature, and latency outliers. Derives a [`DiskState`]
//! from observed telemetry and configurable policy thresholds.

use crate::ids::DiskId;
use crate::types::DiskState;
use vstd::prelude::*;

verus! {

/// Telemetry snapshot for a single disk.
#[derive(Clone, Copy, Debug, PartialEq, Eq, Structural)]
pub struct DiskTelemetry {
    pub read_errors: u64,
    pub write_errors: u64,
    pub checksum_mismatches: u64,
    pub media_errors: u64,
    pub timeouts: u64,
    pub temperature_celsius: Option<u32>,
    pub latency_p99_us: Option<u64>,
}

impl DiskTelemetry {
    /// Nothing observed.
    pub open spec fn none() -> Self {
        DiskTelemetry {
            read_errors: 0,
            write_errors: 0,
            checksum_mismatches: 0,
            media_errors: 0,
            timeouts: 0,
            temperature_celsius: None,
            latency_p99_us: None,
        }
    }

    /// The errors that bear on the disk's state: all but timeouts.
    pub open spec fn hard_errors(self) -> int {
        self.read_errors + self.write_errors + self.checksum_mismatches + self.media_errors
    }

    /// Whether the counters of two snapshots can be added up.
    pub open spec fn adds_up(self, other: Self) -> bool {
        &&& self.read_errors + other.read_errors <= u64::MAX
        &&& self.write_errors + other.write_errors <= u64::MAX
        &&& self.checksum_mismatches + other.checksum_mismatches <= u64::MAX
        &&& self.media_errors + other.media_errors <= u64::MAX
        &&& self.timeouts + other.timeouts <= u64::MAX
    }

    /// What is known after a further snapshot: counters add up, and a measured
    /// temperature or latency replaces the one before.
    pub open spec fn plus(self, other: Self) -> Self {
        DiskTelemetry {
            read_errors: (self.read_errors + other.read_errors) as u64,
            write_errors: (self.write_errors + other.write_errors) as u64,
            checksum_mismatches: (self.checksum_mismatches + other.checksum_mismatches) as u64,
            media_errors: (self.media_errors + other.media_errors) as u64,
            timeouts: (self.timeouts + other.timeouts) as u64,
            temperature_celsius: if other.temperature_celsius is Some {
                other.temperature_celsius
            } else {
                self.temperature_celsius
            },
            latency_p99_us: if other.latency_p99_us is Some {
                other.latency_p99_us
            } else {
                self.latency_p99_us
            },
        }
    }
}

impl Default for DiskTelemetry {
    fn default() -> (r: Self)
        ensures
            r == DiskTelemetry::none(),
            r.read_errors == 0,
            r.write_errors == 0,
            r.checksum_mismatches == 0,
            r.media_errors == 0,
            r.timeouts == 0,
            r.temperature_celsius is None,
            r.latency_p99_us is None,
    {
        DiskTelemetry {
            read_errors: 0,
            write_errors: 0,
            checksum_mismatches: 0,
            media_errors: 0,
            timeouts: 0,
            temperature_celsius: None,
            latency_p99_us: None,
        }
    }
}

/// Policy thresholds for deriving disk state from telemetry.
#[derive(Clone, Copy, Debug, PartialEq, Eq, Structural)]
pub struct HealthPolicy {
    pub suspect_error_threshold: u64,
    pub degraded_error_threshold: u64,
    pub failed_error_threshold: u64,
    pub temperature_warning_celsius: u32,
    pub temperature_critical_celsius: u32,
}

impl HealthPolicy {
    /// The policy that applies unless another one is given.
    pub open spec fn standard() -> Self {
        HealthPolicy {
            suspect_error_threshold: 5,
            degraded_error_threshold: 20,
            failed_error_threshold: 100,
            temperature_warning_celsius: 60,
            temperature_critical_celsius: 75,
        }
    }

    /// The state that the policy derives from a number of errors and a temperature:
    /// the worst one whose threshold is reached.
    pub open spec fn judge(self, errors: int, temperature: Option<u32>) -> Option<DiskState> {
        if errors >= self.failed_error_threshold || (temperature is Some && temperature->0
            >= self.temperature_critical_celsius) {
            Some(DiskState::Failed)
        } else if errors >= self.degraded_error_threshold {
            Some(DiskState::Degraded)
        } else if errors >= self.suspect_error_threshold || (temperature is Some && temperature->0
            >= self.temperature_warning_celsius) {
            Some(DiskState::Suspect)
        } else {
            None
        }
    }
}

impl Default for HealthPolicy {
    fn default() -> (r: Self)
        ensures
            r == HealthPolicy::standard(),
            r.suspect_error_threshold == 5,
            r.degraded_error_threshold == 20,
            r.failed_error_threshold == 100,
            r.temperature_warning_celsius == 60,
            r.temperature_critical_celsius == 75,
    {
        HealthPolicy {
            suspect_error_threshold: 5,
            degraded_error_threshold: 20,
            failed_error_threshold: 100,
            temperature_warning_celsius: 60,
            temperature_critical_celsius: 75,
        }
    }
}

/// How bad a derived state is.
pub open spec fn severity(state: Option<DiskState>) -> int {
    match state {
        None => 0,
        Some(DiskState::Suspect) => 1,
        Some(DiskState::Degraded) => 2,
        _ => 3,
    }
}

/// More errors and a higher temperature never make a disk look better.
pub proof fn worse_telemetry_is_never_judged_better(
    policy: HealthPolicy,
    errors: int,
    more_errors: int,
    temperature: u32,
    higher: u32,
)
    requires
        errors <= more_errors,
        temperature <= higher,
    ensures
        severity(policy.judge(errors, None)) <= severity(policy.judge(more_errors, None)),
        severity(policy.judge(errors, None)) <= severity(policy.judge(errors, Some(temperature))),
        severity(policy.judge(errors, Some(temperature))) <= severity(
            policy.judge(more_errors, Some(higher)),
        ),
{
}

/// The state of a disk follows from all its read errors, write errors, checksum mismatches
/// and media errors taken together, and from its last temperature: it has failed exactly
/// where the errors or the temperature reach the highest threshold, and so on down.
pub proof fn state_follows_from_all_errors(tracker: DiskHealthTracker)
    ensures
        ({
            let seen = tracker.cumulative;
            let policy = tracker.policy;
            let errors = seen.read_errors + seen.write_errors + seen.checksum_mismatches
                + seen.media_errors;
            let critical = seen.temperature_celsius is Some && seen.temperature_celsius->0
                >= policy.temperature_critical_celsius;
            let warm = seen.temperature_celsius is Some && seen.temperature_celsius->0
                >= policy.temperature_warning_celsius;
            let failed = errors >= policy.failed_error_threshold || critical;
            let degraded = errors >= policy.degraded_error_threshold;
            let suspect = errors >= policy.suspect_error_threshold || warm;
            &&& tracker.derived() == Some(DiskState::Failed) <==> failed
            &&& tracker.derived() == Some(DiskState::Degraded) <==> !failed && degraded
            &&& tracker.derived() == Some(DiskState::Suspect) <==> !failed && !degraded && suspect
            &&& tracker.derived() is None <==> !failed && !degraded && !suspect
        }),
{
}

/// Errors of each kind count alike: one more of any kind, and one fewer of any other, makes
/// no difference to the state; and enough of any one kind make the disk fail.
pub proof fn errors_of_all_kinds_count_alike(tracker: DiskHealthTracker, other: DiskHealthTracker)
    requires
        tracker.policy == other.policy,
        tracker.cumulative.temperature_celsius == other.cumulative.temperature_celsius,
    ensures
        tracker.cumulative.read_errors + tracker.cumulative.write_errors
            + tracker.cumulative.checksum_mismatches + tracker.cumulative.media_errors
            == other.cumulative.read_errors + other.cumulative.write_errors
            + other.cumulative.checksum_mismatches + other.cumulative.media_errors
            ==> tracker.derived() == other.derived(),
        tracker.cumulative.read_errors >= tracker.policy.failed_error_threshold
            ==> tracker.derived() == Some(DiskState::Failed),
        tracker.cumulative.write_errors >= tracker.policy.failed_error_threshold
            ==> tracker.derived() == Some(DiskState::Failed),
        tracker.cumulative.checksum_mismatches >= tracker.policy.failed_error_threshold
            ==> tracker.derived() == Some(DiskState::Failed),
        tracker.cumulative.media_errors >= tracker.policy.failed_error_threshold
            ==> tracker.derived() == Some(DiskState::Failed),
{
}

/// What was recorded adds up: each counter is the sum of what the snapshots say, and the
/// temperature and the latency are those that were measured last.
pub proof fn snapshots_add_up(before: DiskTelemetry, snapshot: DiskTelemetry)
    requires
        before.read_errors + snapshot.read_errors <= u64::MAX,
        before.write_errors + snapshot.write_errors <= u64::MAX,
        before.checksum_mismatches + snapshot.checksum_mismatches <= u64::MAX,
        before.media_errors + snapshot.media_errors <= u64::MAX,
        before.timeouts + snapshot.timeouts <= u64::MAX,
    ensures
        before.adds_up(snapshot),
        ({
            let after = before.plus(snapshot);
            &&& after.read_errors == before.read_errors + snapshot.read_errors
            &&& after.write_errors == before.write_errors + snapshot.write_errors
            &&& after.checksum_mismatches == before.checksum_mismatches
                + snapshot.checksum_mismatches
            &&& after.media_errors == before.media_errors + snapshot.media_errors
            &&& after.timeouts == before.timeouts + snapshot.timeouts
            &&& snapshot.temperature_celsius is Some ==> after.temperature_celsius
                == snapshot.temperature_celsius
            &&& snapshot.temperature_celsius is None ==> after.temperature_celsius
                == before.temperature_celsius
            &&& snapshot.latency_p99_us is Some ==> after.latency_p99_us == snapshot.latency_p99_us
            &&& snapshot.latency_p99_us is None ==> after.latency_p99_us == before.latency_p99_us
        }),
{
}

/// Tracks cumulative telemetry for a disk and derives state from it.
#[derive(Clone, Debug)]
pub struct DiskHealthTracker {
    pub disk_id: DiskId,
    pub cumulative: DiskTelemetry,
    pub policy: HealthPolicy,
}

impl DiskHealthTracker {
    /// The state that follows from what was recorded.
    pub open spec fn derived(self) -> Option<DiskState> {
        self.policy.judge(self.cumulative.hard_errors(), self.cumulative.temperature_celsius)
    }

    /// A tracker with nothing recorded and the standard policy.
    pub fn new(disk_id: DiskId) -> (r: Self)
        ensures
            r == (DiskHealthTracker {
                disk_id,
                cumulative: DiskTelemetry::none(),
                policy: HealthPolicy::standard(),
            }),
    {
        DiskHealthTracker {
            disk_id,
            cumulative: DiskTelemetry::default(),
            policy: HealthPolicy::default(),
        }
    }

    /// A tracker with nothing recorded and the given policy.
    pub fn with_policy(disk_id: DiskId, policy: HealthPolicy) -> (r: Self)
        ensures
            r == (DiskHealthTracker { disk_id, cumulative: DiskTelemetry::none(), policy }),
    {
        DiskHealthTracker { disk_id, cumulative: DiskTelemetry::default(), policy }
    }

    /// Record a telemetry snapshot, accumulating errors.
    pub fn record(&mut self, telemetry: &DiskTelemetry)
        requires
            old(self).cumulative.adds_up(*telemetry),
        ensures
            final(self).cumulative == old(self).cumulative.plus(*telemetry),
            final(self).cumulative.read_errors == old(self).cumulative.read_errors
                + telemetry.read_errors,
            final(self).cumulative.write_errors == old(self).cumulative.write_errors
                + telemetry.write_errors,
            final(self).cumulative.checksum_mismatches == old(self).cumulative.checksum_mismatches
                + telemetry.checksum_mismatches,
            final(self).cumulative.media_errors == old(self).cumulative.media_errors
                + telemetry.media_errors,
            final(self).cumulative.timeouts == old(self).cumulative.timeouts + telemetry.timeouts,
            final(self).disk_id == old(self).disk_id,
            final(self).policy == old(self).policy,
    {
        self.cumulative.read_errors = self.cumulative.read_errors + telemetry.read_errors;
        self.cumulative.write_errors = self.cumulative.write_errors + telemetry.write_errors;
        self.cumulative.checksum_mismatches =
        self.cumulative.checksum_mismatches + telemetry.checksum_mismatches;
        self.cumulative.media_errors = self.cumulative.media_errors + telemetry.media_errors;
        self.cumulative.timeouts = self.cumulative.timeouts + telemetry.timeouts;
        if telemetry.temperature_celsius.is_some() {
            self.cumulative.temperature_celsius = telemetry.temperature_celsius;
        }
        if telemetry.latency_p99_us.is_some() {
            self.cumulative.latency_p99_us = telemetry.latency_p99_us;
        }
    }

    /// Derive the disk state from accumulated telemetry.
    pub fn derive_state(&self) -> (r: Option<DiskState>)
        requires
            self.cumulative.hard_errors() <= u64::MAX,
        ensures
            r == self.derived(),
    {
        let errors: u64 = self.cumulative.read_errors + self.cumulative.write_errors
            + self.cumulative.checksum_mismatches + self.cumulative.media_errors;
        if errors >= self.policy.failed_error_threshold {
            return Some(DiskState::Failed);
        }
        match self.cumulative.temperature_celsius {
            Some(temp) => {
                if temp >= self.policy.temperature_critical_celsius {
                    return Some(DiskState::Failed);
                }
            },
            None => {},
        }
        if errors >= self.policy.degraded_error_threshold {
            return Some(DiskState::Degraded);
        }
        match self.cumulative.temperature_celsius {
            Some(temp) => {
                if temp >= self.policy.temperature_warning_celsius {
                    return Some(DiskState::Suspect);
                }
            },
            None => {},
        }
        if errors >= self.policy.suspect_error_threshold {
            return Some(DiskState::Suspect);
        }
        None
    }

    /// Total accumulated error count, timeouts included.
    pub fn total_errors(&self) -> (r: u64)
        requires
            self.cumulative.hard_errors() + self.cumulative.timeouts <= u64::MAX,
        ensures
            r == self.cumulative.hard_errors() + self.cumulative.timeouts,
            r == self.cumulative.read_errors + self.cumulative.write_errors
                + self.cumulative.checksum_mismatches + self.cumulative.media_errors
                + self.cumulative.timeouts,
    {
        self.cumulative.read_errors + self.cumulative.write_errors
            + self.cumulative.checksum_mismatches + self.cumulative.media_errors
            + self.cumulative.timeouts
    }

    /// Reset accumulated telemetry.
    pub fn reset(&mut self)
        ensures
            final(self).cumulative == DiskTelemetry::none(),
            final(self).disk_id == old(self).disk_id,
            final(self).policy == old(self).policy,
    {
        self.cumulative = DiskTelemetry::default();
    }
}

} // verus!
