//! Randomized hashing structures over 64-bit integer keys: a multiply-shift
//! hash and a 4-wise independent polynomial hash, and on top of them a
//! chained additive dictionary, a static two-level perfect-hash set, and a
//! count-sketch estimator of the squared norm of an update stream.
pub mod capacity;
pub mod chained;
pub mod hash;
pub mod perfect;
pub mod rng;
pub mod sketch;

use vstd::prelude::*;

verus! {

} // verus!
