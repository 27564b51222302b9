use geo302::continent::Continent;
use geo302::healthcheck::{probe_available, HealthCheckConfig};
use geo302::geo::GeoError;
use geo302::max_mind_db::{geoname_to_continent, maxmind_continent, MaxMindOutcome};
use geo302::non_zero_duration::NonZeroDuration;
use geo302::ripe_geo::{parse_path, redirect_step, FetchStep, IpType};

#[test]
fn continent_names_parse_in_both_forms() {
    for (camel, kebab, expected) in [
        ("Africa", "africa", Continent::Africa),
        ("Asia", "asia", Continent::Asia),
        ("Europe", "europe", Continent::Europe),
        ("NorthAmerica", "north-america", Continent::NorthAmerica),
        ("Oceania", "oceania", Continent::Oceania),
        ("SouthAmerica", "south-america", Continent::SouthAmerica),
        ("Antarctica", "antarctica", Continent::Antarctica),
    ] {
        assert_eq!(Continent::parse(camel), Some(expected));
        assert_eq!(Continent::parse(kebab), Some(expected));
    }
    assert_eq!(Continent::parse("default"), Some(Continent::Default));
    assert_eq!(Continent::parse(" Europe\t"), Some(Continent::Europe));
    assert_eq!(Continent::parse("Atlantis"), None);
    assert_eq!(Continent::parse("EUROPE"), None);
    assert_eq!(Continent::Europe.name(), "Europe");
    assert_eq!(Continent::NorthAmerica.name(), "North America");
    assert_eq!(Continent::Default.name(), "default");
}

#[test]
fn ripe_geo_paths_parse() {
    assert_eq!(
        parse_path("asia.ipv4.list"),
        Some((Continent::Asia, IpType::V4))
    );
    assert_eq!(
        parse_path("continents/north-america.ipv6.list"),
        Some((Continent::NorthAmerica, IpType::V6))
    );
    assert_eq!(parse_path("asia.ipv4"), None);
    assert_eq!(parse_path("asia.list"), None);
    assert_eq!(parse_path("asia.ipv5.list"), None);
    assert_eq!(parse_path("atlantis.ipv4.list"), None);
    assert_eq!(parse_path("README.md"), None);
}

#[test]
fn geoname_table_is_fixed() {
    assert_eq!(geoname_to_continent(6255146), Ok(Continent::Africa));
    assert_eq!(geoname_to_continent(6255147), Ok(Continent::Asia));
    assert_eq!(geoname_to_continent(6255148), Ok(Continent::Europe));
    assert_eq!(geoname_to_continent(6255149), Ok(Continent::NorthAmerica));
    assert_eq!(geoname_to_continent(6255150), Ok(Continent::SouthAmerica));
    assert_eq!(geoname_to_continent(6255151), Ok(Continent::Oceania));
    assert_eq!(geoname_to_continent(6255152), Ok(Continent::Antarctica));
    assert!(geoname_to_continent(0).is_err());
    assert!(geoname_to_continent(6255153).is_err());
    assert_eq!(
        maxmind_continent(&MaxMindOutcome::Geoname(6255148)),
        Ok(Continent::Europe)
    );
    assert_eq!(
        maxmind_continent(&MaxMindOutcome::NoContinent),
        Err(GeoError::ContinentUnknown)
    );
    assert_eq!(maxmind_continent(&MaxMindOutcome::Failed), Err(GeoError::MaxMindDb));
}

#[test]
fn health_check_defaults_and_probe_rule() {
    let config = HealthCheckConfig::default();
    assert_eq!(config.interval.secs(), 5);
    assert_eq!(config.timeout.secs(), 3);
    assert!(probe_available(Some(200)));
    assert!(probe_available(Some(204)));
    assert!(!probe_available(Some(199)));
    assert!(!probe_available(Some(300)));
    assert!(!probe_available(Some(404)));
    assert!(!probe_available(None));
}

#[test]
fn non_zero_durations() {
    assert!(NonZeroDuration::new(0, 0).is_none());
    assert!(NonZeroDuration::new(0, 1).is_some());
    assert_eq!(NonZeroDuration::from_secs(0), None);
    let d = NonZeroDuration::from_secs(7).unwrap();
    assert_eq!((d.secs(), d.nanos()), (7, 0));
}

#[test]
fn redirect_steps() {
    assert_eq!(redirect_step(200, None, 0, 8), FetchStep::Done);
    assert_eq!(
        redirect_step(302, Some("http://x".to_string()), 0, 8),
        FetchStep::Follow("http://x".to_string())
    );
    assert_eq!(redirect_step(302, None, 0, 8), FetchStep::GiveUp);
    assert_eq!(
        redirect_step(302, Some("http://x".to_string()), 7, 8),
        FetchStep::GiveUp
    );
    assert_eq!(redirect_step(404, Some("http://x".to_string()), 0, 8), FetchStep::GiveUp);
    assert_eq!(redirect_step(500, None, 0, 8), FetchStep::GiveUp);
}
