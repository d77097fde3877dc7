//! Time conversions for file metadata. A time point is carried as plain
//! seconds since the epoch; reading clocks and file systems stays with the
//! caller.

use vstd::prelude::*;

verus! {

/// The given time point, as seconds since the epoch in the signed range the
/// surrounding system expects.
pub fn to_time_t(tp: u64) -> (r: i64)
    requires
        tp <= i64::MAX,
    ensures
        r == tp,
{
    tp as i64
}

} // verus!
