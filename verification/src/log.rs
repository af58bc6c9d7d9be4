//! Logging helpers: loggers that can tell whether they are stuck, a tee
//! that forwards every message to two loggers, and the labels of the log
//! levels.

use vstd::prelude::*;

verus! {

/// Extended logger interface. A logger whose operation itself panicked can be
/// left locked (and invalid); a panic handler may check for that and fall
/// back to another way of reporting.
pub trait LogExt {
    /// Whether the logger is locked.
    fn is_locked(&self) -> bool;
}

/// Forwards the same message to two loggers, always in order: first `.0`,
/// then `.1`.
pub struct LogTee<L1, L2>(pub L1, pub L2);

impl<L1: LogExt, L2: LogExt> LogExt for LogTee<L1, L2> {
    /// A tee is locked when either of its loggers is.
    fn is_locked(&self) -> bool {
        self.0.is_locked() || self.1.is_locked()
    }
}

/// The severity of a log message, most severe first.
#[derive(Clone, Copy, Debug, PartialEq, Eq, Structural)]
pub enum LogLevel {
    Error,
    Warn,
    Info,
    Debug,
    Trace,
}

/// The label a log line shows for `level`: five characters, right-aligned.
pub open spec fn level_label(level: LogLevel) -> Seq<char> {
    match level {
        LogLevel::Error => "ERROR"@,
        LogLevel::Warn => " WARN"@,
        LogLevel::Info => " INFO"@,
        LogLevel::Debug => "DEBUG"@,
        LogLevel::Trace => "TRACE"@,
    }
}

/// The label a log line shows for `level`.
pub fn level_as_string(level: LogLevel) -> (r: &'static str)
    ensures
        r@ == level_label(level),
{
    match level {
        LogLevel::Error => "ERROR",
        LogLevel::Warn => " WARN",
        LogLevel::Info => " INFO",
        LogLevel::Debug => "DEBUG",
        LogLevel::Trace => "TRACE",
    }
}

} // verus!
