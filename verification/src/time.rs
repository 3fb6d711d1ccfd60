use vstd::prelude::*;
use std::time::Instant;

verus! {

/// The largest number of nanoseconds a `std::time::Duration` can hold:
/// `u64::MAX` seconds and 999_999_999 nanoseconds.
pub const DURATION_MAX_NANOS: u128 = 18_446_744_073_709_551_615_999_999_999u128;

/// Nanoseconds in one second.
pub const NANOS_PER_SEC: u128 = 1_000_000_000u128;

#[verifier::external_type_specification]
#[verifier::external_body]
pub struct ExInstant(std::time::Instant);

/// `Instant::now`: the current moment of the monotonic clock. Nothing is claimed about
/// the value.
#[verifier::external_body]
pub(crate) fn instant_now() -> Instant {
    Instant::now()
}

/// `Instant::elapsed`, taken in nanoseconds with `Duration::as_nanos`: the time that has
/// passed since `earlier`. It depends on the clock, so only the bound of a `Duration`
/// is claimed.
#[verifier::external_body]
pub(crate) fn nanos_elapsed_since(earlier: &Instant) -> (r: u128)
    ensures
        r <= DURATION_MAX_NANOS,
{
    earlier.elapsed().as_nanos()
}

} // verus!
