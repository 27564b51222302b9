use geo302::record::{RecordV4, RecordV6, RipeGeoRecordError};

#[test]
fn ripe_geo_record_to_from_string_ipv4() {
    let s = "37.228.128.0/23";
    let record = RecordV4::parse(s).unwrap();
    assert_eq!(record.to_text(), s);
}

#[test]
fn ripe_geo_record_to_from_string_ipv6() {
    let s = "2001:43f8:700::/44";
    let record = RecordV6::parse(s).unwrap();
    assert_eq!(record.to_text(), s);
}

#[test]
fn mod_record_to_from_string_ipv4() {
    let s = "37.228.128.0/23";
    let record = RecordV4::parse(s).unwrap();
    assert_eq!(record.to_text(), s);
}

#[test]
fn mod_record_to_from_string_ipv6() {
    let s = "2001:43f8:700::/44";
    let record = RecordV6::parse(s).unwrap();
    assert_eq!(record.to_text(), s);
}

#[test]
fn record_prefix_zero_is_too_large() {
    assert_eq!(
        RecordV4::parse("0.0.0.0/0").unwrap_err(),
        RipeGeoRecordError::SuffixTooLarge(0)
    );
    assert_eq!(
        RecordV6::parse("::/0").unwrap_err(),
        RipeGeoRecordError::SuffixTooLarge(0)
    );
}

#[test]
fn record_prefix_at_width_is_single_address() {
    let r = RecordV4::parse("255.255.255.255/32").unwrap();
    assert_eq!((r.subnet, r.size), (u32::MAX, 1));
    let r6 = RecordV6::parse("ffff:ffff:ffff:ffff:ffff:ffff:ffff:ffff/128").unwrap();
    assert_eq!((r6.subnet, r6.size), (u128::MAX, 1));
}

#[test]
fn record_errors() {
    assert_eq!(RecordV4::parse("").unwrap_err(), RipeGeoRecordError::Parts);
    assert_eq!(
        RecordV4::parse("1.2.3.4").unwrap_err(),
        RipeGeoRecordError::Parts
    );
    assert_eq!(
        RecordV4::parse("1.2.3/8").unwrap_err(),
        RipeGeoRecordError::Subnet
    );
    assert_eq!(
        RecordV4::parse("1.2.3.4/x").unwrap_err(),
        RipeGeoRecordError::SuffixFormat
    );
    assert_eq!(
        RecordV4::parse("1.2.3.4/33").unwrap_err(),
        RipeGeoRecordError::SuffixTooLarge(33)
    );
    assert_eq!(
        RecordV6::parse("::1/129").unwrap_err(),
        RipeGeoRecordError::SuffixTooLarge(129)
    );
    assert_eq!(
        RecordV6::parse("zz::/16").unwrap_err(),
        RipeGeoRecordError::Subnet
    );
}

#[test]
fn record_accepts_mapped_ipv6_subnet() {
    let r = RecordV6::parse("::ffff:1.2.3.0/120").unwrap();
    assert_eq!((r.subnet, r.size), (0x0000_0000_0000_0000_0000_ffff_0102_0300, 256));
}

#[test]
fn record_round_trip_more() {
    for s in [
        "0.0.0.0/1",
        "10.0.0.0/8",
        "192.168.4.0/22",
        "2001:db8::/32",
        "::1/128",
        "fe80::/10",
        "1:2:3:4:5:6:7:8/128",
        "a:0:b::c:0:d/127",
    ] {
        let canonical = if s.contains('.') {
            RecordV4::parse(s).unwrap().to_text()
        } else {
            RecordV6::parse(s).unwrap().to_text()
        };
        assert_eq!(canonical, s);
    }
}
