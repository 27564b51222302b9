use geo302::header_tools::client_ip;
use geo302::ip::IpAddress;

fn v4(a: u8, b: u8, c: u8, d: u8) -> IpAddress {
    IpAddress::V4(u32::from(a) << 24 | u32::from(b) << 16 | u32::from(c) << 8 | u32::from(d))
}

fn headers(list: &[(&str, &str)]) -> Vec<(String, Vec<u8>)> {
    list.iter()
        .map(|(name, value)| (name.to_string(), value.as_bytes().to_vec()))
        .collect()
}

#[test]
fn header_tools_client_ip_filter_no_addr() {
    for is_recursive in [false, true] {
        let actual = client_ip(&Vec::new(), &Vec::new(), is_recursive);
        assert_eq!(actual, None);
    }
}

#[test]
fn header_tools_client_ip_filter_single_header() {
    let ip_expected = v4(128, 174, 199, 60);
    let header_name = "X-FORWARDED-FOR";
    let request_headers = headers(&[(header_name, "128.174.199.60")]);

    for is_recursive in [false, true] {
        let actual = client_ip(&request_headers, &vec![header_name.to_string()], is_recursive);
        assert_eq!(actual, Some(ip_expected));
    }
}

#[test]
fn header_tools_client_ip_filter_one_header_two_values() {
    let ip_client = v4(128, 174, 199, 60);
    let ip_proxy = v4(80, 94, 184, 70);
    let ip_header_name = "X-FORWARDED-FOR";
    let request_headers = headers(&[(ip_header_name, "128.174.199.60, 80.94.184.70")]);

    for (ip_expected, is_recursive) in [(ip_proxy, false), (ip_client, true)] {
        let actual = client_ip(
            &request_headers,
            &vec![ip_header_name.to_string()],
            is_recursive,
        );
        assert_eq!(actual, Some(ip_expected));
    }
}

#[test]
fn header_tools_client_ip_filter_one_header_three_values() {
    let ip_client = v4(128, 174, 199, 60);
    let ip_proxy2 = v4(52, 0, 14, 116);
    let ip_header_name = "X-FORWARDED-FOR";
    let request_headers = headers(&[(
        ip_header_name,
        "128.174.199.60, 80.94.184.70, 52.0.14.116",
    )]);

    for (ip_expected, is_recursive) in [(ip_proxy2, false), (ip_client, true)] {
        let actual = client_ip(
            &request_headers,
            &vec![ip_header_name.to_string()],
            is_recursive,
        );
        assert_eq!(actual, Some(ip_expected));
    }
}

#[test]
fn header_tools_client_ip_filter_two_headers() {
    let ip_client = v4(128, 174, 199, 60);
    let ip_nginx_proxy = v4(80, 94, 184, 70);
    let request_headers = headers(&[
        ("X-REAL-IP", "128.174.199.60, 80.94.184.70"),
        ("X-FORWARDED-FOR", "80.94.184.70, 80.94.184.70"),
    ]);
    let header_names = vec!["X-REAL-IP".to_string(), "X-FORWARDED-FOR".to_string()];

    for (ip_expected, is_recursive) in [(ip_nginx_proxy, false), (ip_client, true)] {
        let actual = client_ip(&request_headers, &header_names, is_recursive);
        assert_eq!(actual, Some(ip_expected));
    }
}

#[test]
fn header_names_match_case_insensitively() {
    let request_headers = headers(&[("x-forwarded-for", "10.1.2.3")]);
    let actual = client_ip(
        &request_headers,
        &vec!["X-FORWARDED-FOR".to_string()],
        true,
    );
    assert_eq!(actual, Some(v4(10, 1, 2, 3)));
}
