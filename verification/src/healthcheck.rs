//! Health-check policy: the probe interval and timeout, and the
//! decision a probe outcome publishes.
//!
//! The probers themselves sleep and issue requests, which is
//! input/output and runs outside the library; each hands its outcome
//! to [`probe_available`] and publishes the answer to its mirror's
//! flag.

use crate::non_zero_duration::NonZeroDuration;
use vstd::prelude::*;

verus! {

/// How often and how patiently each mirror is probed.
#[derive(Debug, Clone, Copy, PartialEq, Eq, Structural)]
pub struct HealthCheckConfig {
    pub interval: NonZeroDuration,
    pub timeout: NonZeroDuration,
}

impl HealthCheckConfig {
    /// Probes run every five seconds by default.
    pub fn default_interval() -> (r: NonZeroDuration)
        ensures
            r.spec_secs() == 5 && r.spec_nanos() == 0,
    {
        NonZeroDuration::from_non_zero_secs(5)
    }

    /// Probes time out after three seconds by default.
    pub fn default_timeout() -> (r: NonZeroDuration)
        ensures
            r.spec_secs() == 3 && r.spec_nanos() == 0,
    {
        NonZeroDuration::from_non_zero_secs(3)
    }
}

impl Default for HealthCheckConfig {
    /// The default policy: probe every five seconds, three seconds of
    /// patience.
    fn default() -> (r: Self)
        ensures
            r.interval.spec_secs() == 5 && r.interval.spec_nanos() == 0,
            r.timeout.spec_secs() == 3 && r.timeout.spec_nanos() == 0,
    {
        HealthCheckConfig {
            interval: HealthCheckConfig::default_interval(),
            timeout: HealthCheckConfig::default_timeout(),
        }
    }
}

/// What a probe outcome publishes: available exactly when the request
/// succeeded with a success status. A transport failure or timeout
/// carries no status and counts as unavailable.
pub fn probe_available(status: Option<u16>) -> (r: bool)
    ensures
        r == (status matches Some(s) && 200 <= s < 300),
{
    match status {
        Some(s) => 200 <= s && s < 300,
        None => false,
    }
}

} // verus!
