//! The current time.
use vstd::prelude::*;

verus! {

/// Calls `chrono::Utc::now().timestamp_micros()`: the current time in
/// microseconds since the Unix epoch. Nothing is claimed of the value.
#[verifier::external_body]
pub(crate) fn now_timestamp_micros() -> i64 {
    chrono::Utc::now().timestamp_micros()
}

} // verus!
