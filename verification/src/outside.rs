//! The two things the engine takes from outside: random numbers and the
//! clock.  Nothing here is proved; each contract states what the called
//! function documents.

use vstd::prelude::*;

verus! {

/// Calls `rand::Rng::gen_range(low, high)` on the generator that
/// `rand::thread_rng()` hands out.  The contract claims what `gen_range`
/// documents: the value lies in the half-open range from `low` to `high`,
/// and the call panics unless `low < high`.
#[verifier::external_body]
pub(crate) fn random_range(low: i64, high: i64) -> (r: i64)
    requires
        low < high,
    ensures
        low <= r < high,
{
    rand::Rng::gen_range(&mut rand::thread_rng(), low, high)
}

/// Calls `time::precise_time_ns()`: a high-resolution counter in nanoseconds
/// since an unspecified epoch.  Nothing is claimed of the value.
#[verifier::external_body]
pub(crate) fn precise_time_ns() -> (ns: u64) {
    time::precise_time_ns()
}

} // verus!
