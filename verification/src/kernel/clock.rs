//! The current date and time, read from the system clock in the local time
//! zone with `chrono`.

use vstd::prelude::*;

verus! {

/// `chrono::Local::now()` formatted `%Y-%m-%d`. The text depends on the
/// clock and the time zone; nothing is claimed of it.
#[verifier::external_body]
pub(crate) fn today() -> (r: String) {
    chrono::Local::now().format("%Y-%m-%d").to_string()
}

/// `chrono::Local::now()` formatted `%Y-%m-%d %H:%M`. The text depends on
/// the clock and the time zone; nothing is claimed of it.
#[verifier::external_body]
pub(crate) fn now_minutes() -> (r: String) {
    chrono::Local::now().format("%Y-%m-%d %H:%M").to_string()
}

} // verus!
