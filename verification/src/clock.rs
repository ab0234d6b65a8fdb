//! The system clock.
use vstd::prelude::*;

verus! {

/// `std::time::SystemTime::elapsed` for the Unix epoch, in whole seconds; nothing where the clock
/// stands before it. Nothing is said of the result: it is the machine's time.
#[verifier::external_body]
fn since_epoch() -> (seconds: Option<u64>) {
    std::time::UNIX_EPOCH.elapsed().ok().map(|d| d.as_secs())
}

/// The seconds since the Unix epoch, zero before it.
pub(crate) fn unix_seconds() -> (seconds: u64) {
    match since_epoch() {
        Some(s) => s,
        None => 0,
    }
}

} // verus!
