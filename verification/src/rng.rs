//! Source of uniform random integers for seeding the hash families.
use vstd::prelude::*;

verus! {

/// Draws a uniform random integer from the closed-open range `[from, to)`.
///
/// Relies on `rand::Rng::gen_range` over a `Range<u64>`, which returns a
/// value uniformly distributed in the range and panics when the range is
/// empty; the `requires` rules the empty range out. The result depends on
/// the thread-local generator's state, so nothing beyond the range bound is
/// stated.
#[verifier::external_body]
pub fn random_generator(from: u64, to: u64) -> (r: u64)
    requires
        from < to,
    ensures
        from <= r < to,
{
    let mut rng = rand::thread_rng();
    rand::Rng::gen_range(&mut rng, from..to)
}

} // verus!
