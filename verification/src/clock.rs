//! The clock by which the map tells how long ago its root last moved on.

use vstd::prelude::*;

verus! {

/// The wall clock, in whole seconds since the epoch: the `sec` of `time::get_time()`,
/// which reads the system's real-time clock. Nothing is claimed of what it returns: two
/// calls may return anything, in any order. `get_time` stops the program if the system
/// hands it a count of nanoseconds that is not within a second; that is taken not to
/// happen.
#[verifier::external_body]
pub(crate) fn now_seconds() -> (now: i64) {
    time::get_time().sec
}

} // verus!
