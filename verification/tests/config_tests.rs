use portscan::config::{PresetConfig, ScanConfig};
use portscan::error::ScanError;

#[test]
fn test_default_config() {
    let config = ScanConfig::default();
    assert!(config.validate().is_ok());
}

#[test]
fn test_fast_config() {
    let config = ScanConfig::fast();
    assert!(config.validate().is_ok());
    assert!(config.timeout < ScanConfig::default().timeout);
}

#[test]
fn config_test_config_validation() {
    let mut config = ScanConfig::default();
    config.batch_size = 0;
    assert!(config.validate().is_err());
}

#[test]
fn lib_test_config_validation() {
    let config = ScanConfig::default();
    assert!(config.validate().is_ok());
}

#[test]
fn validation_rejects_each_out_of_bound_parameter() {
    let mut config = ScanConfig::default();
    config.batch_size = 10001;
    assert_eq!(config.validate(), Err(ScanError::ConfigError));

    let mut config = ScanConfig::default();
    config.timeout = 99;
    assert_eq!(config.validate(), Err(ScanError::ConfigError));

    let mut config = ScanConfig::default();
    config.timeout = 60001;
    assert_eq!(config.validate(), Err(ScanError::ConfigError));

    let mut config = ScanConfig::default();
    config.max_retries = 11;
    assert_eq!(config.validate(), Err(ScanError::ConfigError));
}

#[test]
fn validation_accepts_boundary_values() {
    let mut config = ScanConfig::default();
    config.batch_size = 1;
    config.timeout = 100;
    config.max_retries = 0;
    assert!(config.validate().is_ok());

    config.batch_size = 10000;
    config.timeout = 60000;
    config.max_retries = 10;
    assert!(config.validate().is_ok());
}

#[test]
fn presets_are_four_and_all_valid() {
    let presets = PresetConfig::get_presets();
    assert_eq!(presets.len(), 4);
    assert_eq!(presets[0].name, "Fast");
    assert_eq!(presets[1].name, "Default");
    assert_eq!(presets[2].name, "Thorough");
    assert_eq!(presets[3].name, "Stealth");
    for preset in &presets {
        assert!(preset.config.validate().is_ok());
    }
    assert_eq!(presets[2].config.max_retries, 3);
    assert!(presets[2].config.scan_udp);
    assert!(presets[3].config.randomize_ports);
}

#[test]
fn system_tuning_clamps_and_scales_the_batch_size() {
    let mut config = ScanConfig::default();
    config.optimize_for_system(Some(10000), Some(8));
    assert_eq!(config.batch_size, 10000);

    let mut config = ScanConfig::default();
    config.optimize_for_system(Some(50), None);
    assert_eq!(config.batch_size, 100);

    let mut config = ScanConfig::default();
    config.optimize_for_system(None, Some(1));
    assert_eq!(config.batch_size, 250);

    let mut config = ScanConfig::default();
    config.optimize_for_system(None, None);
    assert_eq!(config.batch_size, 1000);
}
