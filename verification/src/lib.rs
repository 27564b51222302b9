//! geo302: a GeoIP-aware HTTP redirector library.
//!
//! The library maps client IP addresses to continents through interval maps
//! built from ripe-geo text data or a MaxMind database, keeps a pool of
//! mirrors per continent, and composes the redirect response for a request.

pub mod bytes;
pub mod config;
pub mod continent;
pub mod geo;
pub mod header_tools;
pub mod healthcheck;
pub mod interval_tree;
pub mod ip;
pub mod record;
pub mod rejects;
pub mod ripe_geo;
pub mod service;
pub mod unavailable;
pub mod uri;
pub mod intervals;
pub mod max_mind_db;
pub mod mirror;
pub mod non_zero_duration;
