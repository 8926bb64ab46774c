//! The clock that deadlines are measured against.
use vstd::prelude::*;

verus! {

/// Milliseconds since the Unix epoch from `std::time::SystemTime::now()`
/// (0 when the clock reads before the epoch). Nothing is stated of the
/// value: it is the time.
#[verifier::external_body]
pub fn now_millis() -> u64 {
    std::time::SystemTime::now().duration_since(std::time::UNIX_EPOCH).map_or(0, |d| d.as_millis() as u64)
}

} // verus!
