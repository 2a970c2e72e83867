use gossip::settings::log_level;
use gossip::settings::LogLevel;

#[test]
fn log_level_goes_by_name_and_falls_back_to_info() {
    assert_eq!(log_level("debug"), LogLevel::Debug);
    assert_eq!(log_level("info"), LogLevel::Info);
    assert_eq!(log_level("warn"), LogLevel::Warn);
    assert_eq!(log_level("error"), LogLevel::Error);
    assert_eq!(log_level(""), LogLevel::Info);
    assert_eq!(log_level("DEBUG"), LogLevel::Info);
    assert_eq!(log_level("trace"), LogLevel::Info);
}
