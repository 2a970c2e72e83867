//! What a node is told when it starts.

use vstd::prelude::*;

verus! {

/// How much a node writes to its log.
#[derive(Clone, Copy, Debug, PartialEq, Eq, Structural)]
pub enum LogLevel {
    Debug,
    Info,
    Warn,
    Error,
}

/// The level that the setting `name` asks for. Any name other than
/// `debug`, `warn` and `error` asks for `Info`.
pub open spec fn level_named(name: Seq<char>) -> LogLevel {
    if name == "debug"@ {
        LogLevel::Debug
    } else if name == "warn"@ {
        LogLevel::Warn
    } else if name == "error"@ {
        LogLevel::Error
    } else {
        LogLevel::Info
    }
}

/// Reads the setting of the log level.
pub fn log_level(name: &str) -> (level: LogLevel)
    ensures
        level == level_named(name@),
{
    let name = name.to_owned();
    if name == "debug".to_owned() {
        LogLevel::Debug
    } else if name == "warn".to_owned() {
        LogLevel::Warn
    } else if name == "error".to_owned() {
        LogLevel::Error
    } else {
        LogLevel::Info
    }
}

} // verus!
