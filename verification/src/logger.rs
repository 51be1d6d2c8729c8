//! The console logger's decision logic.
//!
//! Which levels are printed and with which prefix is decided here; the
//! printing itself is plain output done by the binary around the library.

use vstd::prelude::*;

verus! {

use vstd::string::StringExecFns;

/// Severity of a log line, most severe first.
#[derive(Clone, Copy, Debug, PartialEq, Eq, Structural)]
pub enum LogLevel {
    Error,
    Warn,
    Info,
    Debug,
    Trace,
}

/// A level is printed when it is at least as severe as the informational one.
pub open spec fn level_enabled(level: LogLevel) -> bool {
    level == LogLevel::Error || level == LogLevel::Warn || level == LogLevel::Info
}

/// The prefix a level's lines carry.
pub open spec fn level_prefix(level: LogLevel) -> Seq<char> {
    match level {
        LogLevel::Error => "[-] ERROR"@,
        LogLevel::Warn => "[i] WARNING"@,
        LogLevel::Info => "[i] INFO"@,
        LogLevel::Debug => "[dbg]"@,
        LogLevel::Trace => "[trc]"@,
    }
}

/// A simple console logger printing prefixed lines for the severe levels.
pub struct SimpleLogger;

impl SimpleLogger {
    /// Whether a line of the given level is printed at all.
    pub fn enabled(&self, level: LogLevel) -> (r: bool)
        ensures
            r == level_enabled(level),
    {
        match level {
            LogLevel::Error => true,
            LogLevel::Warn => true,
            LogLevel::Info => true,
            LogLevel::Debug => false,
            LogLevel::Trace => false,
        }
    }

    /// The prefix of a line of the given level.
    pub fn prefix(&self, level: LogLevel) -> (r: &'static str)
        ensures
            r@ == level_prefix(level),
    {
        match level {
            LogLevel::Error => "[-] ERROR",
            LogLevel::Warn => "[i] WARNING",
            LogLevel::Info => "[i] INFO",
            LogLevel::Debug => "[dbg]",
            LogLevel::Trace => "[trc]",
        }
    }

    /// The full line for a message, or nothing when the level is not printed.
    pub fn render(&self, level: LogLevel, message: &str) -> (r: Option<String>)
        ensures
            level_enabled(level) ==> r is Some && (r->0)@ == level_prefix(level) + ": "@
                + message@,
            !level_enabled(level) ==> r is None,
    {
        if self.enabled(level) {
            let mut line = String::from_str(self.prefix(level));
            line.append(": ");
            line.append(message);
            Some(line)
        } else {
            None
        }
    }
}

} // verus!
