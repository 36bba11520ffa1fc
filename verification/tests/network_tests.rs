use portscan::error::ScanError;
use portscan::ip::IpAddress;
use portscan::network::{
    combine_family_lookups, get_all_ports, get_common_ports, parse_port_range, resolve_cidr,
    resolve_target, Resolution,
};

#[test]
fn test_parse_single_port() {
    let ports = parse_port_range("80").unwrap();
    assert_eq!(ports, vec![80]);
}

#[test]
fn test_parse_port_range() {
    let ports = parse_port_range("80-82").unwrap();
    assert_eq!(ports, vec![80, 81, 82]);
}

#[test]
fn test_parse_mixed_ports() {
    let ports = parse_port_range("22,80-82,443").unwrap();
    assert_eq!(ports, vec![22, 80, 81, 82, 443]);
}

#[test]
fn parse_rejects_inverted_range() {
    assert_eq!(parse_port_range("90-80"), Err(ScanError::PortParseError));
}

#[test]
fn parse_rejects_non_numeric() {
    assert_eq!(parse_port_range("abc"), Err(ScanError::PortParseError));
    assert_eq!(parse_port_range(""), Err(ScanError::PortParseError));
    assert_eq!(parse_port_range("80,,90"), Err(ScanError::PortParseError));
    assert_eq!(parse_port_range("65536"), Err(ScanError::PortParseError));
    assert_eq!(parse_port_range("1-2-3"), Err(ScanError::PortParseError));
}

#[test]
fn parse_trims_and_dedups() {
    let ports = parse_port_range(" 443 , 80 , 80-81 ").unwrap();
    assert_eq!(ports, vec![80, 81, 443]);
}

#[test]
fn test_parse_cidr() {
    let ips = resolve_cidr("192.168.1.0/30").unwrap();
    assert_eq!(ips.len(), 4);
}

#[test]
fn cidr_expansion_is_ascending_from_base() {
    let ips = resolve_cidr("192.168.1.0/30").unwrap();
    let base = 192u32 << 24 | 168 << 16 | 1 << 8;
    assert_eq!(
        ips,
        vec![
            IpAddress::V4(base),
            IpAddress::V4(base + 1),
            IpAddress::V4(base + 2),
            IpAddress::V4(base + 3),
        ]
    );
}

#[test]
fn cidr_rejects_malformed_and_nonzero_host_bits() {
    assert_eq!(resolve_cidr("192.168.1.1/30"), Err(ScanError::ResolutionError));
    assert_eq!(resolve_cidr("192.168.1.0/33"), Err(ScanError::ResolutionError));
    assert_eq!(resolve_cidr("300.0.0.0/24"), Err(ScanError::ResolutionError));
    assert_eq!(resolve_cidr("192.168.1.0/"), Err(ScanError::ResolutionError));
    assert_eq!(resolve_cidr("hello/24"), Err(ScanError::ResolutionError));
}

#[test]
fn cidr_v6_expansion() {
    let ips = resolve_cidr("2001:db8::/126").unwrap();
    assert_eq!(ips.len(), 4);
    let base = 0x20010db8u128 << 96;
    assert_eq!(ips[0], IpAddress::V6(base));
    assert_eq!(ips[3], IpAddress::V6(base + 3));
}

#[test]
fn test_resolve_ip() {
    let result = resolve_target("127.0.0.1").unwrap();
    match result {
        Resolution::Addresses { addrs, truncated } => {
            assert_eq!(addrs.len(), 1);
            assert!(matches!(addrs[0], IpAddress::V4(_)));
            assert!(!truncated);
        }
        Resolution::NeedsLookup => panic!("literal should not need a lookup"),
    }
}

#[test]
fn resolving_literal_yields_the_input_back() {
    let result = resolve_target("127.0.0.1").unwrap();
    match result {
        Resolution::Addresses { addrs, .. } => {
            assert_eq!(addrs, vec![IpAddress::V4(0x7f000001)]);
            assert_eq!(portscan::ip::format_ip(&addrs[0]), "127.0.0.1");
        }
        Resolution::NeedsLookup => panic!("literal should not need a lookup"),
    }
}

#[test]
fn large_blocks_are_truncated_at_the_family_cap() {
    match resolve_target("10.0.0.0/8").unwrap() {
        Resolution::Addresses { addrs, truncated } => {
            assert_eq!(addrs.len(), 65536);
            assert!(truncated);
        }
        Resolution::NeedsLookup => panic!("block should resolve"),
    }
    match resolve_target("2001:db8::/64").unwrap() {
        Resolution::Addresses { addrs, truncated } => {
            assert_eq!(addrs.len(), 1024);
            assert!(truncated);
        }
        Resolution::NeedsLookup => panic!("block should resolve"),
    }
}

#[test]
fn hostnames_are_referred_to_the_resolver() {
    assert!(matches!(resolve_target("example.com").unwrap(), Resolution::NeedsLookup));
}

#[test]
fn combine_family_lookups_needs_one_nonempty_family() {
    assert_eq!(combine_family_lookups(Vec::new(), Vec::new()), Err(ScanError::ResolutionError));
    let v4 = vec![IpAddress::V4(1)];
    let v6 = vec![IpAddress::V6(2)];
    assert_eq!(
        combine_family_lookups(v4.clone(), v6.clone()).unwrap(),
        vec![IpAddress::V4(1), IpAddress::V6(2)]
    );
    assert_eq!(combine_family_lookups(v4.clone(), Vec::new()).unwrap(), v4);
    assert_eq!(combine_family_lookups(Vec::new(), v6.clone()).unwrap(), v6);
}

#[test]
fn stock_port_lists() {
    let common = get_common_ports();
    assert_eq!(common.len(), 20);
    assert_eq!(common[0], 21);
    assert_eq!(common[19], 8080);
    let all = get_all_ports();
    assert_eq!(all.len(), 65535);
    assert_eq!(all[0], 1);
    assert_eq!(all[65534], 65535);
}
