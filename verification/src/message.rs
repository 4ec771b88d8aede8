//! The observer the pipeline reports through: an explicit sink of messages,
//! handed into the pipeline rather than reached through a process-wide
//! channel, with the shell free to forward its entries wherever they go.

use vstd::prelude::*;
use crate::logging::{LogEntry, LogLevel};

verus! {

/// A message for the shell: a log entry, or a fetched model list.
pub enum AppMsg {
    Log(LogEntry),
    ModelsFetched(Vec<String>),
}

/// Collects the entries one pipeline invocation reports.
pub struct LogSink {
    pub entries: Vec<LogEntry>,
}

impl LogSink {
    pub fn new() -> (r: LogSink)
        ensures
            r.entries@.len() == 0,
    {
        LogSink { entries: Vec::new() }
    }
}

/// Reports one message: appends a fresh entry at the sink's end and touches
/// nothing else.
pub fn send_log(sink: &mut LogSink, level: LogLevel, message: String)
    ensures
        final(sink).entries@.len() == old(sink).entries@.len() + 1,
        final(sink).entries@.drop_last() == old(sink).entries@,
        final(sink).entries@.last().level == level,
        final(sink).entries@.last().message@ == message@,
{
    let entry = LogEntry::new(level, message);
    sink.entries.push(entry);
    proof {
        assert(sink.entries@.drop_last() =~= old(sink).entries@);
    }
}

} // verus!
