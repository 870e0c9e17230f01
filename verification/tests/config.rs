use file_retention::config::{
    default_extension, validate_keep_days, ConfigError, ScanConfig, DEFAULT_KEEP_DAYS,
    DEFAULT_MIN_FILES,
};

#[test]
fn keep_days_of_at_least_one_is_accepted() {
    assert_eq!(validate_keep_days(1), Ok(()));
    assert_eq!(validate_keep_days(14), Ok(()));
    assert_eq!(validate_keep_days(i64::MAX), Ok(()));
}

#[test]
fn keep_days_below_one_is_refused() {
    assert_eq!(validate_keep_days(0), Err(ConfigError::KeepDaysNotPositive));
    assert_eq!(validate_keep_days(-1), Err(ConfigError::KeepDaysNotPositive));
    assert_eq!(validate_keep_days(i64::MIN), Err(ConfigError::KeepDaysNotPositive));
}

#[test]
fn error_message_names_keep_days() {
    assert_eq!(ConfigError::KeepDaysNotPositive.message(), "keep_days must be greater than 0");
}

#[test]
fn defaults_are_mp4_ten_files_fourteen_days() {
    assert_eq!(default_extension(), "mp4");
    assert_eq!(DEFAULT_MIN_FILES, 10);
    assert_eq!(DEFAULT_KEEP_DAYS, 14);
    let config = ScanConfig::with_defaults("/videos".to_string());
    assert_eq!(config.root_path(), "/videos");
    assert_eq!(config.extension(), "mp4");
    assert_eq!(config.min_files(), 10);
    assert_eq!(config.keep_days(), 14);
}

#[test]
fn config_holds_what_it_was_given() {
    let config = ScanConfig::new("/data".to_string(), Some("avi".to_string()), 3, 7).unwrap();
    assert_eq!(config.root_path(), "/data");
    assert_eq!(config.extension(), "avi");
    assert_eq!(config.min_files(), 3);
    assert_eq!(config.keep_days(), 7);
}

#[test]
fn config_without_extension_looks_for_mp4() {
    let config = ScanConfig::new("/data".to_string(), None, 0, 1).unwrap();
    assert_eq!(config.extension(), "mp4");
    assert_eq!(config.min_files(), 0);
    assert_eq!(config.keep_days(), 1);
}

#[test]
fn config_refuses_keep_days_below_one() {
    assert_eq!(
        ScanConfig::new("/data".to_string(), None, 10, 0).err(),
        Some(ConfigError::KeepDaysNotPositive)
    );
    assert_eq!(
        ScanConfig::new("/data".to_string(), Some("mp4".to_string()), 10, -14).err(),
        Some(ConfigError::KeepDaysNotPositive)
    );
    assert!(ScanConfig::new("/data".to_string(), None, 10, 1).is_ok());
}
