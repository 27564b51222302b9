use geo302::continent::Continent;
use geo302::geo::Geo;
use geo302::ip::IpAddress;
use geo302::max_mind_db::MaxMindOutcome;
use geo302::mirror::{ContinentMap, Mirror};
use geo302::ripe_geo::{RipeGeo, RipeGeoDataError, RipeGeoImpl, RipeGeoOverlapsStrategy};
use geo302::service::{make_error_response, Geo302Service, ServiceError};

fn v4(a: u8, b: u8, c: u8, d: u8) -> IpAddress {
    IpAddress::V4(u32::from(a) << 24 | u32::from(b) << 16 | u32::from(c) << 8 | u32::from(d))
}

/// One small ripe-geo data set covering every continent and family:
/// continent N owns N.0.0.0/8 and N00::/16.
fn ripe_files() -> Vec<(String, Vec<u8>)> {
    let continents = [
        ("africa", 1u8),
        ("asia", 2),
        ("europe", 3),
        ("north-america", 4),
        ("oceania", 5),
        ("south-america", 6),
    ];
    let mut files = Vec::new();
    for (name, n) in continents {
        let mut v4_lines = format!("{n}.0.0.0/8\n").into_bytes();
        if n == 3 {
            // Europe also owns the forwarded-for test network.
            v4_lines.extend_from_slice(b"203.0.0.0/8\n");
        }
        files.push((format!("continents/{name}.ipv4.list"), v4_lines));
        files.push((
            format!("continents/{name}.ipv6.list"),
            format!("{n}00::/16\n").into_bytes(),
        ));
    }
    files
}

fn build_service(
    continents: &[(&str, &[&str])],
    available: &[(&str, bool)],
    ip_headers: &[&str],
    recursive: bool,
) -> Geo302Service {
    let ripe = RipeGeoImpl::from_text_files(&ripe_files(), RipeGeoOverlapsStrategy::Skip).unwrap();
    let geo = Geo::RipeGeo(RipeGeo::from_impl(ripe, RipeGeoOverlapsStrategy::Skip));
    let mirrors: Vec<(String, Mirror)> = available
        .iter()
        .map(|(name, _)| {
            (
                name.to_string(),
                Mirror::from_config(
                    &format!("http://{name}"),
                    &format!("http://{name}/hc"),
                )
                .unwrap(),
            )
        })
        .collect();
    let continent_lists: Vec<(String, Vec<String>)> = continents
        .iter()
        .map(|(name, list)| {
            (
                name.to_string(),
                list.iter().map(|s| s.to_string()).collect(),
            )
        })
        .collect();
    let cm = ContinentMap::from_mirrors_and_continents(mirrors, &continent_lists).unwrap();
    for (i, (_, up)) in available.iter().enumerate() {
        cm.all_mirrors()[i].set_available(*up);
    }
    Geo302Service::new(
        ip_headers.iter().map(|s| s.to_string()).collect(),
        recursive,
        Vec::new(),
        geo,
        cm,
    )
}

#[test]
fn simple_continent_route() {
    // A European IP routes through the Europe list.
    let service = build_service(
        &[("default", &["a"]), ("Europe", &["b"])],
        &[("a", true), ("b", true)],
        &[],
        true,
    );
    let path = "/x?y=1".to_string();
    let resp = service
        .response(v4(3, 1, 1, 1), &Vec::new(), Some(&path), &MaxMindOutcome::Failed)
        .unwrap();
    assert_eq!(resp.status, 302);
    assert_eq!(resp.location, "http://b/x?y=1");
}

#[test]
fn fallback_to_default() {
    // An African IP has no list of its own and routes through default.
    let service = build_service(
        &[("default", &["a"]), ("Europe", &["b"])],
        &[("a", true), ("b", true)],
        &[],
        true,
    );
    let path = "/x?y=1".to_string();
    let resp = service
        .response(v4(1, 2, 3, 4), &Vec::new(), Some(&path), &MaxMindOutcome::Failed)
        .unwrap();
    assert_eq!(resp.location, "http://a/x?y=1");
}

#[test]
fn first_available_selection() {
    // The first unavailable mirror is skipped.
    let service = build_service(
        &[("default", &["a", "b"])],
        &[("a", false), ("b", true)],
        &[],
        true,
    );
    let path = "/".to_string();
    let resp = service
        .response(v4(9, 9, 9, 9), &Vec::new(), Some(&path), &MaxMindOutcome::Failed)
        .unwrap();
    assert_eq!(resp.location, "http://b/");
}

#[test]
fn all_unavailable() {
    let service = build_service(
        &[("default", &["a", "b"])],
        &[("a", false), ("b", false)],
        &[],
        true,
    );
    let path = "/".to_string();
    let err = service
        .response(v4(9, 9, 9, 9), &Vec::new(), Some(&path), &MaxMindOutcome::Failed)
        .unwrap_err();
    assert_eq!(err, ServiceError::MirrorsUnavailable);
    let (status, _) = make_error_response(&err);
    assert_eq!(status, 503);
}

#[test]
fn forwarded_ip_wins_over_socket() {
    // The trusted header carries a European client; the socket peer is
    // a private proxy address.
    let service = build_service(
        &[("default", &["a"]), ("Europe", &["b"])],
        &[("a", true), ("b", true)],
        &["X-FORWARDED-FOR"],
        true,
    );
    let headers = vec![(
        "X-FORWARDED-FOR".to_string(),
        b"203.0.113.5, 10.0.0.1".to_vec(),
    )];
    let path = "/x".to_string();
    let resp = service
        .response(v4(10, 0, 0, 1), &headers, Some(&path), &MaxMindOutcome::Failed)
        .unwrap();
    assert_eq!(resp.location, "http://b/x");
}

#[test]
fn forwarded_mapped_ipv6_text_canonicalizes() {
    // A forwarding header carrying the IPv4-mapped IPv6 spelling of a
    // European client resolves through the IPv4 table.
    let service = build_service(
        &[("default", &["a"]), ("Europe", &["b"])],
        &[("a", true), ("b", true)],
        &["X-FORWARDED-FOR"],
        true,
    );
    let headers = vec![(
        "X-FORWARDED-FOR".to_string(),
        b"::ffff:203.0.113.5".to_vec(),
    )];
    let path = "/x".to_string();
    let resp = service
        .response(v4(10, 0, 0, 1), &headers, Some(&path), &MaxMindOutcome::Failed)
        .unwrap();
    assert_eq!(resp.location, "http://b/x");
}

#[test]
fn missing_path_is_invalid_uri() {
    let service = build_service(&[("default", &["a"])], &[("a", true)], &[], true);
    let err = service
        .response(v4(9, 9, 9, 9), &Vec::new(), None, &MaxMindOutcome::Failed)
        .unwrap_err();
    assert_eq!(err, ServiceError::InvalidUri);
    let (status, _) = make_error_response(&err);
    assert_eq!(status, 400);
}

#[test]
fn overlap_under_fail_aborts_build() {
    let mut files = ripe_files();
    // Two overlapping records in one family.
    files.push((
        "continents/antarctica.ipv4.list".to_string(),
        b"10.0.0.0/8\n10.1.0.0/16\n".to_vec(),
    ));
    let err = RipeGeoImpl::from_text_files(&files, RipeGeoOverlapsStrategy::Fail).unwrap_err();
    match err {
        RipeGeoDataError::FileCorrupted { path, error } => {
            assert_eq!(path, "continents/antarctica.ipv4.list");
            assert_eq!(
                error,
                geo302::ripe_geo::RipeGeoFileError::OverlappedRecord(
                    "10.1.0.0/16".to_string(),
                    "10.0.0.0/8".to_string(),
                )
            );
        }
        other => panic!("unexpected error: {other:?}"),
    }
}

#[test]
fn overlap_under_skip_keeps_first_record() {
    let mut files = ripe_files();
    files.push((
        "continents/antarctica.ipv4.list".to_string(),
        b"10.0.0.0/8\n10.1.0.0/16\n".to_vec(),
    ));
    let ripe = RipeGeoImpl::from_text_files(&files, RipeGeoOverlapsStrategy::Skip).unwrap();
    // The overlapping record was skipped: the lookup sees the first.
    let got = ripe.try_lookup_continent(v4(10, 1, 0, 1)).unwrap();
    assert_eq!(got, Continent::Antarctica);
}

#[test]
fn missing_files_lists_absent_pairs() {
    let mut files = ripe_files();
    // Drop the Oceania IPv6 file.
    files.retain(|(p, _)| p != "continents/oceania.ipv6.list");
    let err = RipeGeoImpl::from_text_files(&files, RipeGeoOverlapsStrategy::Skip).unwrap_err();
    match err {
        RipeGeoDataError::MissingFiles(missing) => {
            assert_eq!(missing, vec![(Continent::Oceania, geo302::ripe_geo::IpType::V6)]);
        }
        other => panic!("unexpected error: {other:?}"),
    }
}

#[test]
fn empty_file_is_rejected() {
    let mut files = ripe_files();
    files.push(("continents/antarctica.ipv4.list".to_string(), b"".to_vec()));
    let err = RipeGeoImpl::from_text_files(&files, RipeGeoOverlapsStrategy::Skip).unwrap_err();
    assert!(matches!(
        err,
        RipeGeoDataError::FileCorrupted { error: geo302::ripe_geo::RipeGeoFileError::EmptyFile, .. }
    ));
}

#[test]
fn hot_swap_replaces_the_maps() {
    // Lookups before and after a swap answer from one pair each.
    let ripe = RipeGeoImpl::from_text_files(&ripe_files(), RipeGeoOverlapsStrategy::Skip).unwrap();
    let shared = RipeGeo::from_impl(ripe, RipeGeoOverlapsStrategy::Skip);
    assert_eq!(
        shared.try_lookup_continent(v4(1, 2, 3, 4)).unwrap(),
        Continent::Africa
    );
    // A replacement set swaps Africa's and Asia's networks.
    let mut files = ripe_files();
    for (path, contents) in files.iter_mut() {
        if path == "continents/africa.ipv4.list" {
            *contents = b"2.0.0.0/8\n".to_vec();
        } else if path == "continents/asia.ipv4.list" {
            *contents = b"1.0.0.0/8\n".to_vec();
        }
    }
    let fresh = RipeGeoImpl::from_text_files(&files, RipeGeoOverlapsStrategy::Skip).unwrap();
    shared.replace(fresh);
    assert_eq!(
        shared.try_lookup_continent(v4(1, 2, 3, 4)).unwrap(),
        Continent::Asia
    );
}

#[test]
fn unknown_file_names_are_skipped() {
    let mut files = ripe_files();
    files.push(("continents/README.md".to_string(), b"notes\n".to_vec()));
    files.push(("continents/europe.ipv4.data".to_string(), b"bad\n".to_vec()));
    assert!(RipeGeoImpl::from_text_files(&files, RipeGeoOverlapsStrategy::Skip).is_ok());
}
