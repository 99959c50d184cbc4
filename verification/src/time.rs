//! Timestamps and validity windows, in whole seconds.

use vstd::prelude::*;

verus! {

/// Seconds since the Unix epoch.
pub type Timestamp = u64;

/// Validity left at `now` for something that expires at `not_after`, in
/// seconds. Negative once the expiry has passed.
pub open spec fn remaining(not_after: Timestamp, now: Timestamp) -> int {
    not_after as int - now as int
}

/// Whether the validity left at `now` has fallen below `threshold` seconds.
/// The comparison is strict: with exactly `threshold` seconds left the answer
/// is still `false`.
pub fn below_threshold(not_after: Timestamp, now: Timestamp, threshold: u64) -> (r: bool)
    ensures
        r == (remaining(not_after, now) < threshold as int),
{
    if not_after < now {
        true
    } else {
        not_after - now < threshold
    }
}

} // verus!
