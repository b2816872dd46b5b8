use vstd::prelude::*;

verus! {

/// Relies on `chrono::Utc::now` and `DateTime::timestamp`: the current UTC
/// time as whole seconds since the Unix epoch.  The result depends on the
/// machine's clock, so nothing is promised of it.
#[verifier::external_body]
fn utc_now_timestamp() -> i64 {
    chrono::Utc::now().timestamp()
}

/// The current UTC time in whole seconds since the epoch, clamped below at
/// zero so it fits the board's unsigned time scale.
pub fn current_time() -> u64 {
    let t = utc_now_timestamp();
    if t < 0 {
        0
    } else {
        t as u64
    }
}

} // verus!
