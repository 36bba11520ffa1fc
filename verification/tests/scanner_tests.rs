use portscan::config::ScanConfig;
use portscan::ip::IpAddress;
use portscan::results::{PortStatus, ScanResult};
use portscan::scanner::{
    chunk_bounds, evaluate_attempts, identify_service, next_action, AttemptOutcome, ScanAction,
    Scanner,
};

#[test]
fn lib_test_scanner_creation() {
    let scanner = Scanner::new();
    assert_eq!(scanner.config.batch_size, 1000);
}

#[test]
fn scanner_test_scanner_creation() {
    let scanner = Scanner::new();
    assert_eq!(scanner.config.batch_size, 1000);
}

#[test]
fn update_config_rejects_invalid_silently() {
    let mut scanner = Scanner::new();
    let mut bad = ScanConfig::default();
    bad.batch_size = 0;
    scanner.update_config(bad);
    assert_eq!(scanner.config.batch_size, 1000);

    let good = ScanConfig::fast();
    scanner.update_config(good);
    assert_eq!(scanner.config.batch_size, 2000);
}

#[test]
fn closed_port_takes_every_retry() {
    let outcomes = vec![
        AttemptOutcome::Refused,
        AttemptOutcome::TimedOut,
        AttemptOutcome::Refused,
    ];
    let status = evaluate_attempts(8080, &outcomes, 930, 3, true);
    assert!(!status.is_open);
    assert_eq!(status.attempts, 3);
    assert!(status.response_time > 0);
    assert_eq!(status.service, None);
}

#[test]
fn open_port_answers_on_the_first_attempt() {
    let outcomes = vec![AttemptOutcome::Connected];
    let status = evaluate_attempts(22, &outcomes, 12, 3, true);
    assert!(status.is_open);
    assert_eq!(status.attempts, 1);
    assert_eq!(status.service, Some("SSH".to_string()));

    let unlisted = evaluate_attempts(9999, &outcomes, 12, 3, true);
    assert!(unlisted.is_open);
    assert_eq!(unlisted.service, None);

    let undetected = evaluate_attempts(22, &outcomes, 12, 3, false);
    assert_eq!(undetected.service, None);
}

#[test]
fn open_after_retries_counts_every_attempt() {
    let outcomes = vec![AttemptOutcome::TimedOut, AttemptOutcome::Connected];
    let status = evaluate_attempts(80, &outcomes, 3100, 3, true);
    assert!(status.is_open);
    assert_eq!(status.attempts, 2);
    assert_eq!(status.service, Some("HTTP".to_string()));
}

#[test]
fn next_action_follows_the_state_machine() {
    assert_eq!(next_action(AttemptOutcome::Connected, 1, 3), ScanAction::RecordOpen);
    assert_eq!(next_action(AttemptOutcome::Refused, 1, 3), ScanAction::RetryAfterDelay);
    assert_eq!(next_action(AttemptOutcome::TimedOut, 3, 3), ScanAction::RecordClosed);
    assert_eq!(next_action(AttemptOutcome::Connected, 3, 3), ScanAction::RecordOpen);
}

#[test]
fn service_table_matches_the_well_known_ports() {
    assert_eq!(identify_service(21), Some("FTP".to_string()));
    assert_eq!(identify_service(443), Some("HTTPS".to_string()));
    assert_eq!(identify_service(3306), Some("MySQL".to_string()));
    assert_eq!(identify_service(5432), Some("PostgreSQL".to_string()));
    assert_eq!(identify_service(6379), Some("Redis".to_string()));
    assert_eq!(identify_service(27017), Some("MongoDB".to_string()));
    assert_eq!(identify_service(4), None);
}

#[test]
fn chunks_tile_the_port_list() {
    assert_eq!(chunk_bounds(10, 3), vec![(0, 3), (3, 6), (6, 9), (9, 10)]);
    assert_eq!(chunk_bounds(6, 3), vec![(0, 3), (3, 6)]);
    assert_eq!(chunk_bounds(2, 100), vec![(0, 2)]);
    assert_eq!(chunk_bounds(0, 5), Vec::<(usize, usize)>::new());
}

#[test]
fn recording_a_scan_updates_the_statistics() {
    let mut scanner = Scanner::new();
    let mut result = ScanResult::new("10.0.0.1".to_string(), scanner.config);
    result.insert_address_results(
        IpAddress::V4(0x0a000001),
        vec![PortStatus::open(80, None, 4, 1), PortStatus::closed(81, 5, 1)],
    );
    result.set_duration(700);
    scanner.record_scan(&result);
    let stats = scanner.get_statistics();
    assert_eq!(stats.total_scans, 1);
    assert_eq!(stats.total_ports_scanned, 2);
    assert_eq!(stats.total_open_ports, 1);
    assert_eq!(stats.total_time, 700);
}
