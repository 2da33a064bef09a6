//! Durations.

use std::time::Duration;

use vstd::prelude::*;

verus! {

/// The nanoseconds that a duration lasts, as `Duration::as_nanos` counts them.
pub uninterp spec fn nanoseconds(d: Duration) -> nat;

/// The time from `earlier` to `later`, both in nanoseconds; none, if it is the
/// other way round.
pub open spec fn time_between(earlier: nat, later: nat) -> nat {
    if earlier <= later {
        (later - earlier) as nat
    } else {
        0
    }
}

/// Calls `Duration::from_nanos`: a duration of so many nanoseconds.
#[verifier::external_body]
pub(crate) fn duration_of(nanos: u64) -> (r: Duration)
    ensures
        nanoseconds(r) == nanos,
{
    Duration::from_nanos(nanos)
}

/// Calls `Duration::saturating_sub`: the difference of two durations, or zero
/// where it would be negative.
#[verifier::external_body]
pub(crate) fn elapsed_since(earlier: Duration, later: Duration) -> (r: Duration)
    ensures
        nanoseconds(r) == time_between(nanoseconds(earlier), nanoseconds(later)),
{
    later.saturating_sub(earlier)
}

} // verus!
