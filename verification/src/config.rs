//! The configuration surface, as plain values. Reading and
//! deserializing the configuration file is input/output and happens
//! outside the library; the values arrive here already parsed.

use crate::healthcheck::HealthCheckConfig;
use crate::ripe_geo::RipeGeoOverlapsStrategy;
use vstd::prelude::*;

verus! {

/// The worker-thread policy: a fixed count, or one per core.
#[derive(Debug, Clone, Copy, PartialEq, Eq, Structural)]
pub enum ConfigThreads {
    Custom(usize),
    Cores,
}

impl ConfigThreads {
    /// A fixed count must be positive.
    pub open spec fn wf(self) -> bool {
        self matches ConfigThreads::Custom(n) ==> n >= 1
    }
}

impl Default for ConfigThreads {
    /// Two worker threads by default.
    fn default() -> (r: Self)
        ensures
            r == ConfigThreads::Custom(2usize),
            r.wf(),
    {
        ConfigThreads::Custom(2)
    }
}

/// The log verbosity levels.
#[derive(Debug, Clone, Copy, PartialEq, Eq, Structural)]
pub enum LogLevel {
    Error,
    Warn,
    Info,
    Debug,
    Trace,
}

impl Default for LogLevel {
    /// Informational logging by default.
    fn default() -> (r: Self)
        ensures
            r == LogLevel::Info,
    {
        LogLevel::Info
    }
}

/// The ripe-geo autoupdate policy: off, or a refresh interval and the
/// archive URI to fetch.
#[derive(Debug, Clone, PartialEq, Eq)]
pub enum RipeGeoAutoupdateConfig {
    Off,
    On { interval_secs: u64, uri: String },
}

/// The ripe-geo provider configuration: an optional data directory,
/// the overlap strategy and the autoupdate policy.
#[derive(Debug, Clone, PartialEq, Eq)]
pub struct RipeGeoConfig {
    pub path: Option<String>,
    pub overlaps: RipeGeoOverlapsStrategy,
    pub autoupdate: RipeGeoAutoupdateConfig,
}

/// Which GeoIP backend to use and where its data lives.
#[derive(Debug, Clone, PartialEq, Eq)]
pub enum GeoConfig {
    MaxMindDb { path: String },
    RipeGeo(RipeGeoConfig),
}

/// The whole configuration, as plain values.
pub struct Config {
    pub host: String,
    pub ip_headers: Vec<String>,
    pub ip_headers_recursive: bool,
    pub healthcheck: HealthCheckConfig,
    pub response_headers: Vec<(String, String)>,
    pub log_level: LogLevel,
    pub threads: ConfigThreads,
    pub geoip: GeoConfig,
    pub mirrors: Vec<(String, (String, String))>,
    pub continents: Vec<(String, Vec<String>)>,
}

} // verus!
