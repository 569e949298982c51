//! The random generator the crate works with, and the calls into it.
//!
//! Nothing here is proved: each item states what the named outside function
//! is relied on to do.

use rand::seq::SliceRandom;
use rand::RngExt;
use vstd::prelude::*;

verus! {

/// The generator `rand_pcg::Mcg128Xsl64` (also known as `Pcg64Mcg`). Its
/// state is hidden from the proofs: a generator is only ever passed on.
#[verifier::external_type_specification]
#[verifier::external_body]
pub struct ExMcg128Xsl64(rand_pcg::Mcg128Xsl64);

/// `rand::seq::SliceRandom::shuffle` on the vector's slice. The call only
/// swaps entries, so the vector holds the same entries as before, each as
/// often as before; their order is up to the generator.
#[verifier::external_body]
pub(crate) fn shuffle_vec<T>(v: &mut Vec<T>, rng: &mut rand_pcg::Mcg128Xsl64)
    ensures
        final(v)@.to_multiset() == old(v)@.to_multiset(),
{
    v.shuffle(rng);
}

/// `rand::RngExt::random::<u128>`: the next 128 bits of the stream. Nothing
/// is claimed of the value.
#[verifier::external_body]
pub(crate) fn next_seed(rng: &mut rand_pcg::Mcg128Xsl64) -> (seed: u128) {
    rng.random::<u128>()
}

/// `num_cpus::get`: the number of logical cores the host reports. Nothing
/// is claimed of the value.
#[verifier::external_body]
pub(crate) fn detected_cores() -> (n: usize) {
    num_cpus::get()
}

} // verus!
