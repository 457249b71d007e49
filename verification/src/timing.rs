//! The tri-level timing policy for operation logging: failures warn, slow
//! successes inform, quick successes stay at debug. The policy is pure; the
//! caller measures the time and emits the record, so instrumentation can
//! never affect results.

use vstd::prelude::*;

verus! {

/// Severity of one timed-operation log record.
#[derive(Clone, Copy, PartialEq, Eq, Debug, Structural)]
pub enum LogLevel {
    Debug,
    Info,
    Warn,
}

/// Pick the level for an operation that took `elapsed_micros` and was
/// expected to take at most `expected_micros`: warn on failure, info when a
/// success overran its expected duration, debug otherwise.
pub fn log_execution_time(success: bool, elapsed_micros: u64, expected_micros: u64) -> (l: LogLevel)
    ensures
        l is Warn <==> !success,
        l is Info <==> success && elapsed_micros > expected_micros,
        l is Debug <==> success && elapsed_micros <= expected_micros,
{
    if !success {
        LogLevel::Warn
    } else if elapsed_micros > expected_micros {
        LogLevel::Info
    } else {
        LogLevel::Debug
    }
}

} // verus!
