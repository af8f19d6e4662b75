use vstd::prelude::*;

verus! {

use crate::Time;

/// Relies on chrono's `Local::now`: the current local time, taken as its
/// Unix timestamp in seconds. Nothing is promised of the value — a clock
/// may read anything — so callers state what holds of every outcome.
#[verifier::external_body]
pub(crate) fn current_time() -> (t: Time) {
    chrono::offset::Local::now().fixed_offset().timestamp()
}

} // verus!
