use portal::config::{Level, LoggerConfig};

#[test]
fn the_default_logger_config() {
    let config = LoggerConfig::default();
    assert_eq!(config.level, Level::Info);
    assert!(config.use_stdio);
    assert!(config.use_file);
    assert_eq!(config.rotate_file_num_limit, 3);
    assert_eq!(config.rotate_file_len_threshold, 128 << 10 << 10);
    assert_eq!(config.rotate_file_len_threshold, 134_217_728);
}

#[test]
fn a_build_with_debug_assertions_logs_from_debug_on() {
    let config = LoggerConfig::for_build(true);
    assert_eq!(config.level, Level::Debug);
    assert!(config.use_stdio);
    assert!(config.use_file);
    assert_eq!(config.rotate_file_num_limit, 3);
    assert_eq!(config.rotate_file_len_threshold, 134_217_728);
    assert_eq!(LoggerConfig::for_build(false), LoggerConfig::default());
}

#[test]
fn the_names_of_the_levels() {
    assert_eq!(Level::Error.as_str(), "ERROR");
    assert_eq!(Level::Warn.as_str(), "WARN");
    assert_eq!(Level::Info.as_str(), "INFO");
    assert_eq!(Level::Debug.as_str(), "DEBUG");
    assert_eq!(Level::Trace.as_str(), "TRACE");
}

#[test]
fn only_errors_go_to_the_error_stream() {
    assert!(Level::Error.is_error());
    assert!(!Level::Warn.is_error());
    assert!(!Level::Info.is_error());
    assert!(!Level::Debug.is_error());
    assert!(!Level::Trace.is_error());
}
