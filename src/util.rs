//! The clock that stamps new records.
use vstd::prelude::*;

verus! {

/// Microseconds since the Unix epoch, read from the system clock.
///
/// Relies on `SystemTime::now` and `Duration::as_micros`; nothing is promised
/// of the value, and a clock set before the epoch reads as zero.
#[verifier::external_body]
pub fn get_micros_since_epoch() -> (r: u128) {
    match std::time::SystemTime::now().duration_since(std::time::UNIX_EPOCH) {
        Ok(elapsed) => elapsed.as_micros(),
        Err(_) => 0,
    }
}

} // verus!
