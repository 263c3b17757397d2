//! The wall clock.

use vstd::prelude::*;

verus! {

/// The present moment in UTC as text, to the microsecond.
///
/// Calls `chrono::Utc::now`, formats the result by `chrono::DateTime::format`
/// with year, month, day, hour, minute, second and six digits of the
/// fraction, and turns it into a `String`. The text depends on the clock, so
/// nothing is claimed of it. `Utc::now` does not return where the system
/// clock stands before 1970.
#[verifier::external_body]
pub(crate) fn utc_timestamp() -> (text: String) {
    chrono::Utc::now().format("%Y-%m-%dT%H:%M:%S.%6fZ").to_string()
}

} // verus!
