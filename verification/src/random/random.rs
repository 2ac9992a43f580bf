//! Random coefficients drawn from the thread-local generator of `rand`.
use vstd::prelude::*;
use rand::Rng;

verus! {

/// A uniformly drawn `u64` (`rand::Rng::gen_range(0..=u64::MAX)` on
/// `rand::thread_rng()`).
///
/// Trusted: any `u64` may come back; nothing is claimed of it.
#[verifier::external_body]
pub fn rnd_u64_uniform() -> u64 {
    let mut rng = rand::thread_rng();
    rng.gen_range(0..=u64::MAX)
}

/// A uniformly drawn `u64` below `bound` (`rand::Rng::gen_range(0..bound)` on
/// `rand::thread_rng()`, which panics on an empty range).
///
/// Trusted: the value lies in `0..bound`.
#[verifier::external_body]
pub fn rnd_u64_uniform_bounded(bound: u64) -> (r: u64)
    requires
        bound > 0,
    ensures
        r < bound,
{
    let mut rng = rand::thread_rng();
    rng.gen_range(0..bound)
}

/// A random bit: `0` or `1`.
pub fn rnd_u64_uniform_binary() -> (r: u64)
    ensures
        r < 2,
{
    rnd_u64_uniform_bounded(2)
}

} // verus!
