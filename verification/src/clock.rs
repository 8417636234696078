use vstd::prelude::*;

verus! {

/// Relies on std's SystemTime::now, SystemTime::duration_since and
/// Duration::as_nanos: the result counts nanoseconds since the Unix epoch.
/// A Duration holds at most u64::MAX seconds plus under 10^9 nanoseconds,
/// so the count is below 2^94. A clock before the epoch yields 0.
/// Nothing else can be promised of a clock reading.
#[verifier::external_body]
pub(crate) fn now_nanos() -> (r: u128)
    ensures
        r < 0x400000000000000000000000u128,
{
    std::time::SystemTime::now()
        .duration_since(std::time::UNIX_EPOCH)
        .map(|d| d.as_nanos())
        .unwrap_or(0)
}

} // verus!
