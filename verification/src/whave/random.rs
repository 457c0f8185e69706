//! Random choices, drawn with `nanorand`.
use vstd::prelude::*;

verus! {

/// `nanorand::WyRand`, a small pseudo-random generator.
#[verifier::external_type_specification]
#[verifier::external_body]
pub struct ExWyRand(nanorand::WyRand);

/// `nanorand::WyRand::new`: a generator seeded from the system's entropy
/// source; nothing is said of its state.
#[verifier::external_body]
pub(crate) fn new_rng() -> (rng: nanorand::WyRand) {
    nanorand::WyRand::new()
}

/// `nanorand::Rng::shuffle` on `WyRand`: reorders `ids` by swapping each
/// position with a random one, so the same identifiers remain, each as
/// often as before; their order is left unsaid.
#[verifier::external_body]
pub(crate) fn shuffle(rng: &mut nanorand::WyRand, ids: &mut Vec<u64>)
    ensures
        final(ids)@.to_multiset() == old(ids)@.to_multiset(),
{
    nanorand::Rng::shuffle(rng, ids.as_mut_slice());
}

} // verus!
