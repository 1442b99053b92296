//! The one place where the library reads the wall clock.

use vstd::prelude::*;

verus! {

/// Relies on `chrono::Utc::now`: the current wall-clock time in
/// milliseconds since the Unix epoch.  Nothing is assumed about the
/// value; every caller must hold for any reading.
#[verifier::external_body]
pub fn now_unix_ms() -> i64 {
    chrono::Utc::now().timestamp_millis()
}

} // verus!
