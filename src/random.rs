//! Random choices, drawn from the thread-local generator of `rand`.
use rand::Rng;
use vstd::prelude::*;

verus! {

/// Relies on rand's `Rng::gen::<bool>` on `thread_rng()`: a fair coin.
/// Nothing can be promised of the value.
#[verifier::external_body]
fn coin() -> (r: bool) {
    rand::thread_rng().gen::<bool>()
}

/// Relies on rand's `Rng::gen_range(low, high)` on `thread_rng()`: a value
/// in `[low, high)`. It panics when `low >= high`, which `requires` rules out.
#[verifier::external_body]
fn sample_half_open(low: u64, high: u64) -> (r: u64)
    requires
        low < high,
    ensures
        low <= r < high,
{
    rand::thread_rng().gen_range(low, high)
}

/// A random boolean.
pub fn random_bool() -> (r: bool) {
    coin()
}

/// A random integer strictly between `l` and `u`: both ends are excluded.
pub fn random_range(l: u64, u: u64) -> (r: u64)
    requires
        l + 1 < u,
    ensures
        l < r < u,
{
    sample_half_open(l + 1, u)
}

} // verus!
