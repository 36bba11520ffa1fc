use portscan::ip::{format_ip, parse_ip, IpAddress};

#[test]
fn parses_and_formats_dotted_quads() {
    assert_eq!(parse_ip("0.0.0.0"), Some(IpAddress::V4(0)));
    assert_eq!(parse_ip("255.255.255.255"), Some(IpAddress::V4(u32::MAX)));
    assert_eq!(parse_ip("192.168.1.7"), Some(IpAddress::V4(0xc0a80107)));
    assert_eq!(format_ip(&IpAddress::V4(0xc0a80107)), "192.168.1.7");
}

#[test]
fn rejects_malformed_dotted_quads() {
    assert_eq!(parse_ip("1.2.3"), None);
    assert_eq!(parse_ip("1.2.3.4.5"), None);
    assert_eq!(parse_ip("1.2.3.256"), None);
    assert_eq!(parse_ip("01.2.3.4"), None);
    assert_eq!(parse_ip("a.b.c.d"), None);
    assert_eq!(parse_ip(""), None);
}

#[test]
fn parses_sixteen_octet_literals() {
    assert_eq!(parse_ip("::"), Some(IpAddress::V6(0)));
    assert_eq!(parse_ip("::1"), Some(IpAddress::V6(1)));
    assert_eq!(parse_ip("1::"), Some(IpAddress::V6(1u128 << 112)));
    assert_eq!(
        parse_ip("2001:db8::ff00:42:8329"),
        Some(IpAddress::V6(0x20010db8000000000000ff0000428329))
    );
    assert_eq!(
        parse_ip("1:2:3:4:5:6:7:8"),
        Some(IpAddress::V6(
            (1u128 << 112) | (2 << 96) | (3 << 80) | (4 << 64) | (5 << 48) | (6 << 32) | (7 << 16)
                | 8
        ))
    );
    assert_eq!(
        parse_ip("::ffff:1.2.3.4"),
        Some(IpAddress::V6(0xffff01020304))
    );
}

#[test]
fn rejects_malformed_sixteen_octet_literals() {
    assert_eq!(parse_ip("1:2:3"), None);
    assert_eq!(parse_ip("1:2:3:4:5:6:7:8:9"), None);
    assert_eq!(parse_ip(":::"), None);
    assert_eq!(parse_ip("1::2::3"), None);
    assert_eq!(parse_ip("12345::"), None);
    assert_eq!(parse_ip("g::1"), None);
    assert_eq!(parse_ip("1:2:3:4:5:6:7::8:9"), None);
}

#[test]
fn formats_sixteen_octet_addresses_canonically() {
    assert_eq!(format_ip(&IpAddress::V6(0)), "::");
    assert_eq!(format_ip(&IpAddress::V6(1)), "::1");
    assert_eq!(format_ip(&IpAddress::V6(1u128 << 112)), "1::");
    assert_eq!(
        format_ip(&IpAddress::V6(0x20010db8000000000000ff0000428329)),
        "2001:db8::ff00:42:8329"
    );
    assert_eq!(format_ip(&IpAddress::V6(0xffff01020304)), "::ffff:1.2.3.4");
    let full = (1u128 << 112) | (2 << 96) | (3 << 80) | (4 << 64) | (5 << 48) | (6 << 32)
        | (7 << 16) | 8;
    assert_eq!(format_ip(&IpAddress::V6(full)), "1:2:3:4:5:6:7:8");
}

#[test]
fn parse_and_format_round_trip_on_canonical_forms() {
    for text in ["10.0.0.1", "2001:db8::1", "fe80::1:2:3", "::", "255.0.255.0"] {
        let ip = parse_ip(text).unwrap();
        assert_eq!(format_ip(&ip), text);
    }
}
