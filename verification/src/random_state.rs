//! The source of random indices used by the partitioner.
//!
//! The dataset's split draws uniformly distributed machine words from a
//! thread-local generator.  Nothing is assumed of any drawn value: every
//! caller must cope with every outcome, so the partition is correct for
//! every possible draw sequence.

use vstd::prelude::*;
use rand::rngs::ThreadRng;
use rand::Rng;

verus! {

#[verifier::external_type_specification]
#[verifier::external_body]
pub struct ExThreadRng(ThreadRng);

/// A capability producing uniformly distributed non-negative integers.
pub struct RandomState {
    inner: ThreadRng,
}

impl RandomState {
    /// Relies on `rand::Rng::gen` on a `ThreadRng`: it returns a uniformly
    /// distributed machine word and never fails.  Nothing is assumed of the
    /// value itself.
    #[verifier::external_body]
    pub fn gen(&mut self) -> usize {
        self.inner.gen()
    }

    /// Wraps a thread-local generator.
    pub fn new(inner: ThreadRng) -> RandomState {
        RandomState { inner }
    }
}

} // verus!
