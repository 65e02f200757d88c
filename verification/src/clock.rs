//! The wall clock, in milliseconds since the Unix epoch.
use std::time::SystemTime;
use vstd::prelude::*;

verus! {

/// The largest number of milliseconds that a `Duration` holds.
pub const LAST_MOMENT_MS: u128 = 18_446_744_073_709_551_615_999;

/// `std::time::SystemTime`: a reading of the system clock, carried but not looked into.
#[verifier::external_type_specification]
#[verifier::external_body]
pub struct ExSystemTime(std::time::SystemTime);

/// `SystemTime::now`: the current time. Nothing is known of it in advance.
#[verifier::external_body]
fn system_time() -> (r: SystemTime) {
    SystemTime::now()
}

/// The time from the Unix epoch to a reading of the clock; `None` for a reading before it.
pub uninterp spec fn epoch_span(time: std::time::SystemTime) -> Option<core::time::Duration>;

/// `SystemTime::duration_since` the Unix epoch: the time that has passed from the epoch to the
/// reading, or `None` where the reading lies before it. It is a function of the reading alone;
/// how long the time is, is left to the type and named `epoch_span`.
#[verifier::external_body]
fn since_epoch(time: &SystemTime) -> (r: Option<core::time::Duration>)
    ensures
        r == epoch_span(*time),
{
    time.duration_since(SystemTime::UNIX_EPOCH).ok()
}

/// The whole milliseconds of a time span.
pub uninterp spec fn span_millis(span: core::time::Duration) -> u128;

/// `Duration::as_millis`: the whole milliseconds of a time span, a function of the span alone
/// that is named `span_millis`. A span holds at most `u64::MAX` seconds and 999 whole
/// milliseconds.
#[verifier::external_body]
fn whole_millis(span: &core::time::Duration) -> (r: u128)
    ensures
        r == span_millis(*span),
        r <= LAST_MOMENT_MS,
{
    span.as_millis()
}

/// A reading of the clock in milliseconds since the Unix epoch; 0 for a reading before it.
pub open spec fn reading_ms(time: std::time::SystemTime) -> u128 {
    match epoch_span(time) {
        Some(span) => span_millis(span),
        None => 0,
    }
}

/// A reading of the clock in milliseconds since the Unix epoch; 0 for a reading before it.
pub fn time_ms(time: &SystemTime) -> (r: u128)
    ensures
        r == reading_ms(*time),
        r <= LAST_MOMENT_MS,
{
    match since_epoch(time) {
        Some(span) => whole_millis(&span),
        None => 0,
    }
}

/// The system clock in milliseconds since the Unix epoch; 0 where it stands before it. Which
/// reading the clock gives is not known in advance.
pub fn now_ms() -> (r: u128)
    ensures
        exists|time: std::time::SystemTime| r == #[trigger] reading_ms(time),
        r <= LAST_MOMENT_MS,
{
    let time = system_time();
    time_ms(&time)
}

} // verus!
