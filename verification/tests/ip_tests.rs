use geo302::ip::{format_ip, parse_ip, CanonicalIpAddr, IpAddress};

fn v4(a: u8, b: u8, c: u8, d: u8) -> IpAddress {
    IpAddress::V4(u32::from(a) << 24 | u32::from(b) << 16 | u32::from(c) << 8 | u32::from(d))
}

#[test]
fn parse_ipv4_literals() {
    assert_eq!(parse_ip(b"0.0.0.0"), Some(IpAddress::V4(0)));
    assert_eq!(parse_ip(b"255.255.255.255"), Some(IpAddress::V4(u32::MAX)));
    assert_eq!(parse_ip(b"128.174.199.60"), Some(v4(128, 174, 199, 60)));
    assert_eq!(parse_ip(b"256.0.0.1"), None);
    assert_eq!(parse_ip(b"01.2.3.4"), None);
    assert_eq!(parse_ip(b"1.2.3"), None);
    assert_eq!(parse_ip(b"1.2.3.4.5"), None);
    assert_eq!(parse_ip(b""), None);
}

#[test]
fn parse_ipv6_literals() {
    assert_eq!(parse_ip(b"::"), Some(IpAddress::V6(0)));
    assert_eq!(parse_ip(b"::1"), Some(IpAddress::V6(1)));
    assert_eq!(
        parse_ip(b"2001:db8::"),
        Some(IpAddress::V6(0x2001_0db8_0000_0000_0000_0000_0000_0000))
    );
    assert_eq!(
        parse_ip(b"1:2:3:4:5:6:7:8"),
        Some(IpAddress::V6(0x0001_0002_0003_0004_0005_0006_0007_0008))
    );
    // Embedded dotted-quad tail.
    assert_eq!(
        parse_ip(b"::ffff:203.0.113.5"),
        Some(IpAddress::V6(0x0000_0000_0000_0000_0000_ffff_cb00_7105))
    );
    assert_eq!(
        parse_ip(b"1:2:3:4:5:6:1.2.3.4"),
        Some(IpAddress::V6(0x0001_0002_0003_0004_0005_0006_0102_0304))
    );
    assert_eq!(
        parse_ip(b"::1.2.3.4"),
        Some(IpAddress::V6(0x0102_0304))
    );
    assert_eq!(
        parse_ip(b"1::2:1.2.3.4"),
        Some(IpAddress::V6(0x0001_0000_0000_0000_0000_0002_0102_0304))
    );
    assert_eq!(parse_ip(b"1:2:3:4:5:6:7:1.2.3.4"), None);
    assert_eq!(parse_ip(b"::ffff:1.2.300.4"), None);
    assert_eq!(parse_ip(b"::1.2.3.4.5"), None);
    assert_eq!(parse_ip(b"1.2.3.4::"), None);
    assert_eq!(parse_ip(b":::"), None);
    assert_eq!(parse_ip(b"1::2::3"), None);
    assert_eq!(parse_ip(b"12345::"), None);
    assert_eq!(parse_ip(b"1:2:3:4:5:6:7"), None);
    assert_eq!(parse_ip(b"1:2:3:4:5:6:7:8:9"), None);
}

#[test]
fn format_round_trips() {
    for value in [
        IpAddress::V4(0),
        IpAddress::V4(u32::MAX),
        v4(10, 0, 0, 1),
        IpAddress::V6(0),
        IpAddress::V6(1),
        IpAddress::V6(u128::MAX),
        IpAddress::V6(0x2001_0db8_0000_0000_0000_0001_0000_0000),
        IpAddress::V6(0x0000_0000_0000_0000_0000_ffff_0102_0304),
    ] {
        let text = format_ip(value);
        assert_eq!(parse_ip(&text), Some(value));
    }
}

#[test]
fn format_ipv6_compresses_longest_run() {
    assert_eq!(format_ip(IpAddress::V6(0)), b"::");
    assert_eq!(format_ip(IpAddress::V6(1)), b"::1");
    assert_eq!(
        format_ip(IpAddress::V6(0x2001_0db8_0000_0000_0000_0000_0000_0000)),
        b"2001:db8::"
    );
    assert_eq!(
        format_ip(IpAddress::V6(0x000a_0000_000b_0000_0000_0000_000c_0000)),
        b"a:0:b::c:0"
    );
}

#[test]
fn canonicalization_maps_v6_forms_to_v4() {
    // IPv4-mapped.
    let mapped = IpAddress::V6(0x0000_0000_0000_0000_0000_ffff_0102_0304);
    assert_eq!(mapped.to_canonical_ip(), IpAddress::V4(0x01020304));
    // IPv4-compatible.
    let compatible = IpAddress::V6(0x0102_0304);
    assert_eq!(compatible.to_canonical_ip(), IpAddress::V4(0x01020304));
    // A native IPv6 address stays as it is.
    let native = IpAddress::V6(0x2001_0db8_0000_0000_0000_0000_0000_0001);
    assert_eq!(native.to_canonical_ip(), native);
    // IPv4 stays IPv4.
    let plain = v4(8, 8, 8, 8);
    assert_eq!(plain.to_canonical_ip(), plain);
}
