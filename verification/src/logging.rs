//! Leveled log entries: every skip, recovery, batch progress and terminal
//! outcome is reported as one of these.

use vstd::prelude::*;

verus! {

#[derive(Debug, Clone, Copy, PartialEq, Eq, Structural)]
pub enum LogLevel {
    Info,
    Success,
    Warn,
    Error,
}

#[derive(Debug, Clone)]
pub struct LogEntry {
    pub time: String,
    pub level: LogLevel,
    pub message: String,
}

/// Relies on chrono's `Local::now` and `DateTime::format`: the wall clock
/// rendered as `hour:minute:second`. Nothing is assumed of the result.
#[verifier::external_body]
fn now_hms() -> String {
    chrono::Local::now().format("%H:%M:%S").to_string()
}

impl LogEntry {
    /// A fresh entry stamped with the current wall-clock time.
    pub fn new(level: LogLevel, message: String) -> (r: LogEntry)
        ensures
            r.level == level,
            r.message@ == message@,
    {
        LogEntry { time: now_hms(), level, message }
    }
}

} // verus!
