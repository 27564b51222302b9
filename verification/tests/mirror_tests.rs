use geo302::mirror::{ContinentMap, ContinentMapConfigError, Mirror};

/// Read the `[mirrors]` and `[continents]` tables of a configuration
/// snippet into the library's plain-value form.
fn tables_from_toml(s: &str) -> (Vec<(String, Mirror)>, Vec<(String, Vec<String>)>) {
    let value: toml::Value = toml::from_str(s).unwrap();
    let mut mirrors = Vec::new();
    for (name, entry) in value.get("mirrors").unwrap().as_table().unwrap() {
        let upstream = entry.get("upstream").unwrap().as_str().unwrap();
        let healthcheck = entry.get("healthcheck").unwrap().as_str().unwrap();
        mirrors.push((name.clone(), Mirror::from_config(upstream, healthcheck).unwrap()));
    }
    let mut continents = Vec::new();
    for (name, entry) in value.get("continents").unwrap().as_table().unwrap() {
        let list = entry
            .as_array()
            .unwrap()
            .iter()
            .map(|v| v.as_str().unwrap().to_string())
            .collect();
        continents.push((name.clone(), list));
    }
    (mirrors, continents)
}

fn continent_map_from_config(s: &str) -> Result<ContinentMap, ContinentMapConfigError> {
    let (mirrors, continents) = tables_from_toml(s);
    ContinentMap::from_mirrors_and_continents(mirrors, &continents)
}

#[test]
fn empty_config() {
    let s = r#"
    [mirrors]

    [continents]
    "#;
    assert!(continent_map_from_config(s).is_err());
}

#[test]
fn empty_continents() {
    let s = r#"
    [mirrors]
    mirror = { upstream = "http://example.com", healthcheck = "http://example.com/ping" }

    [continents]
    "#;
    assert_eq!(
        continent_map_from_config(s).unwrap_err(),
        ContinentMapConfigError::NoDefaultContinent
    );
}

#[test]
fn empty_mirrors() {
    let s = r#"
    [mirrors]

    [continents]
    default = []
    "#;
    assert_eq!(
        continent_map_from_config(s).unwrap_err(),
        ContinentMapConfigError::NoMirrors
    );
}

#[test]
fn no_default_continent() {
    let s = r#"
    [mirrors]
    mirror = { upstream = "http://example.com", healthcheck = "http://example.com/ping" }

    [continents]
    Europe = ["mirror"]
    "#;
    assert_eq!(
        continent_map_from_config(s).unwrap_err(),
        ContinentMapConfigError::NoDefaultContinent
    );
}

#[test]
fn wrong_mirror() {
    let s = r#"
    [mirrors]
    mirror1 = { upstream = "http://example.com", healthcheck = "http://example.com/ping" }

    [continents]
    default = ["mirror2"]
    "#;
    assert!(matches!(
        continent_map_from_config(s).unwrap_err(),
        ContinentMapConfigError::MirrorUnknown { .. }
    ));
}

#[test]
fn wrong_continent_name() {
    let s = r#"
    [mirrors]
    mirror = { upstream = "http://example.com", healthcheck = "http://example.com/ping" }

    [continents]
    default = ["mirror"]
    Zeus = ["mirror"]
    "#;
    assert!(matches!(
        continent_map_from_config(s).unwrap_err(),
        ContinentMapConfigError::ContinentUnknown { .. }
    ));
}

#[test]
fn availability_flag_publishes() {
    let m = Mirror::from_config("http://example.com", "http://example.com/ping").unwrap();
    // The flag starts unavailable; a released store is seen by a
    // subsequent acquire load until the next store.
    assert!(!m.is_available());
    m.set_available(true);
    assert!(m.is_available());
    assert!(m.is_available());
    m.set_available(false);
    assert!(!m.is_available());
}
