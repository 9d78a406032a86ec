use vstd::prelude::*;
use crate::error::StoreError;
use crate::strutil::str_eq;

verus! {

/// Severity of a message handed to the logging sink that surrounds the
/// store.  The store itself never needs a logger for correctness; levels
/// exist so a front end can classify what the store reports.
#[derive(Debug, Clone, Copy, PartialEq, Eq, Structural)]
pub enum LogLevel {
    Trace,
    Debug,
    Info,
    Warn,
    Error,
}

/// The level a lower-case level name denotes, if any.
pub open spec fn spec_level_of(s: Seq<char>) -> Option<LogLevel> {
    if s == "trace"@ {
        Some(LogLevel::Trace)
    } else if s == "debug"@ {
        Some(LogLevel::Debug)
    } else if s == "info"@ {
        Some(LogLevel::Info)
    } else if s == "warn"@ {
        Some(LogLevel::Warn)
    } else if s == "error"@ {
        Some(LogLevel::Error)
    } else {
        None
    }
}

/// Maps the five lower-case level names to their levels; any other string
/// is rejected with a typed configuration error naming the expected kind.
pub fn match_log_level_str(s: &str) -> (r: Result<LogLevel, StoreError>)
    ensures
        match r {
            Ok(level) => spec_level_of(s@) == Some(level),
            Err(e) => spec_level_of(s@) is None && (e matches StoreError::ConfigTypeError(p, k)
                ==> p@ == "logging.level"@ && k@ == "level string"@) && (e matches
            StoreError::ConfigTypeError(_, _)),
        },
{
    if str_eq(s, "trace") {
        Ok(LogLevel::Trace)
    } else if str_eq(s, "debug") {
        Ok(LogLevel::Debug)
    } else if str_eq(s, "info") {
        Ok(LogLevel::Info)
    } else if str_eq(s, "warn") {
        Ok(LogLevel::Warn)
    } else if str_eq(s, "error") {
        Ok(LogLevel::Error)
    } else {
        Err(
            StoreError::ConfigTypeError(
                String::from_str("logging.level"),
                String::from_str("level string"),
            ),
        )
    }
}

} // verus!
