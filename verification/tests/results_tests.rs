use portscan::config::ScanConfig;
use portscan::ip::IpAddress;
use portscan::results::{PortStatus, ScanResult, ScanStatistics};

fn sample_result() -> ScanResult {
    let mut result = ScanResult::new("192.168.1.0/31".to_string(), ScanConfig::default());
    let a = IpAddress::V4(0xc0a80100);
    let b = IpAddress::V4(0xc0a80101);
    result.insert_address_results(
        b,
        vec![
            PortStatus::open(443, Some("HTTPS".to_string()), 12, 1),
            PortStatus::closed(8080, 310, 1),
        ],
    );
    result.insert_address_results(
        a,
        vec![
            PortStatus::open(80, Some("HTTP".to_string()), 15, 1),
            PortStatus::closed(81, 300, 1),
            PortStatus::open(22, Some("SSH".to_string()), 9, 1),
        ],
    );
    result.set_duration(1500);
    result
}

#[test]
fn test_scan_result_creation() {
    let config = ScanConfig::default();
    let result = ScanResult::new("127.0.0.1".to_string(), config);
    assert!(!result.id.is_empty());
    assert_eq!(result.target, "127.0.0.1");
}

#[test]
fn test_port_status() {
    let port = PortStatus::open(80, Some("HTTP".to_string()), 100, 1);
    assert!(port.is_open);
    assert_eq!(port.service, Some("HTTP".to_string()));
}

#[test]
fn test_statistics() {
    let mut stats = ScanStatistics::new();
    let config = ScanConfig::default();
    let mut result = ScanResult::new("127.0.0.1".to_string(), config);
    result.duration = 1000;

    stats.update(&result);
    assert_eq!(stats.total_scans, 1);
}

#[test]
fn statistics_totals_are_order_independent() {
    let mut r1 = ScanResult::new("a".to_string(), ScanConfig::default());
    r1.insert_address_results(
        IpAddress::V4(1),
        vec![PortStatus::open(80, None, 5, 1), PortStatus::closed(81, 6, 1)],
    );
    r1.set_duration(1000);
    let mut r2 = ScanResult::new("b".to_string(), ScanConfig::default());
    r2.insert_address_results(IpAddress::V4(2), vec![PortStatus::closed(443, 7, 2)]);
    r2.set_duration(3000);

    let mut one = ScanStatistics::new();
    one.update(&r1);
    one.update(&r2);
    let mut two = ScanStatistics::new();
    two.update(&r2);
    two.update(&r1);

    assert_eq!(one, two);
    assert_eq!(one.total_scans, 2);
    assert_eq!(one.total_ports_scanned, 3);
    assert_eq!(one.total_open_ports, 1);
    assert_eq!(one.total_time, 4000);
    assert_eq!(one.average_scan_time, 2000);
    assert_eq!(one.fastest_scan, 1000);
    assert_eq!(one.slowest_scan, 3000);
}

#[test]
fn first_scan_sets_the_fastest_duration() {
    let mut stats = ScanStatistics::new();
    assert_eq!(stats.fastest_scan, u64::MAX);
    let mut r = ScanResult::new("a".to_string(), ScanConfig::default());
    r.set_duration(12345);
    stats.update(&r);
    assert_eq!(stats.fastest_scan, 12345);
    assert_eq!(stats.slowest_scan, 12345);
    assert_eq!(stats.average_scan_time, 12345);
}

#[test]
fn counts_over_all_addresses() {
    let result = sample_result();
    assert_eq!(result.get_total_ports_scanned(), 5);
    assert_eq!(result.get_total_open_ports(), 3);
}

#[test]
fn open_ports_are_ascending_by_port_number() {
    let result = sample_result();
    let open = result.get_open_ports();
    assert_eq!(
        open,
        vec![
            (IpAddress::V4(0xc0a80100), 22),
            (IpAddress::V4(0xc0a80100), 80),
            (IpAddress::V4(0xc0a80101), 443),
        ]
    );
}

#[test]
fn services_group_open_ports_by_label() {
    let mut result = sample_result();
    result.insert_address_results(
        IpAddress::V4(0xc0a80102),
        vec![PortStatus::open(8443, Some("HTTPS".to_string()), 20, 1)],
    );
    let services = result.get_services();
    assert_eq!(services.len(), 3);
    let https = services.iter().find(|e| e.0 == "HTTPS").unwrap();
    assert_eq!(
        https.1,
        vec![(IpAddress::V4(0xc0a80101), 443), (IpAddress::V4(0xc0a80102), 8443)]
    );
    let http = services.iter().find(|e| e.0 == "HTTP").unwrap();
    assert_eq!(http.1, vec![(IpAddress::V4(0xc0a80100), 80)]);
    let ssh = services.iter().find(|e| e.0 == "SSH").unwrap();
    assert_eq!(ssh.1, vec![(IpAddress::V4(0xc0a80100), 22)]);
}

#[test]
fn csv_holds_header_and_one_row_per_port() {
    let mut result = ScanResult::new("10.0.0.1".to_string(), ScanConfig::default());
    result.insert_address_results(
        IpAddress::V4(0x0a000001),
        vec![
            PortStatus::open(22, Some("SSH".to_string()), 9, 1),
            PortStatus::closed(23, 900, 3),
        ],
    );
    let csv = result.to_csv();
    assert_eq!(
        csv,
        "IP,Port,Status,Service,ResponseTime,Attempts\n\
         10.0.0.1,22,Open,SSH,9,1\n\
         10.0.0.1,23,Closed,Unknown,900,3\n"
    );
}

#[test]
fn xml_mirrors_the_fields_and_renders_the_timestamp() {
    let mut result = ScanResult::new("10.0.0.1".to_string(), ScanConfig::default());
    result.id = "fixed-id".to_string();
    result.timestamp = 0;
    result.set_duration(250);
    result.insert_address_results(
        IpAddress::V4(0x0a000001),
        vec![PortStatus::open(80, Some("HTTP".to_string()), 17, 1)],
    );
    let xml = result.to_xml();
    let expected = r#"<?xml version="1.0" encoding="UTF-8"?>
<scan_result>
  <id>fixed-id</id>
  <target>10.0.0.1</target>
  <timestamp>1970-01-01T00:00:00+00:00</timestamp>
  <duration_ms>250</duration_ms>
  <results>
    <host ip="10.0.0.1">
      <port number="80" status="open" service="HTTP" response_time_ms="17" attempts="1"/>
    </host>
  </results>
</scan_result>
"#;
    assert_eq!(xml, expected);
}

#[test]
fn document_round_trip_reproduces_the_entries() {
    let result = sample_result();
    let doc = result.to_document();
    let back = ScanResult::from_document(&doc);
    assert_eq!(back.results, result.results);
    assert_eq!(back.id, result.id);
    assert_eq!(back.target, result.target);
    assert_eq!(back.duration, result.duration);
    assert_eq!(back.timestamp, result.timestamp);
}

#[test]
fn scan_identifiers_render_as_thirty_six_characters() {
    let result = ScanResult::new("10.0.0.1".to_string(), ScanConfig::default());
    assert_eq!(result.id.len(), 36);
}
