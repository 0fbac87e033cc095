//! The randomness boundary: every call into the `rand` and `rand_pcg`
//! crates is confined to the trusted items of this module.  Nothing is
//! assumed about the drawn values beyond their range.

use vstd::prelude::*;

verus! {

#[verifier::external_type_specification]
#[verifier::external_body]
pub struct ExLcg128Xsl64(rand_pcg::Lcg128Xsl64);

/// Relies on rand_pcg's `Pcg64` (`SeedableRng::from_entropy`): a fresh
/// generator seeded from the operating system; aborts only if the system
/// entropy source fails.  Nothing is promised of the generator's state.
#[verifier::external_body]
pub(crate) fn fresh_rng() -> rand_pcg::Pcg64 {
    <rand_pcg::Pcg64 as rand::SeedableRng>::from_entropy()
}

/// Relies on rand's `Rng::gen_range` over `0..n`: a value below `n`; the
/// call panics only on an empty range, which `n >= 1` rules out.
#[verifier::external_body]
pub(crate) fn rand_index(rng: &mut rand_pcg::Pcg64, n: usize) -> (r: usize)
    requires
        n >= 1,
    ensures
        r < n,
{
    rand::Rng::gen_range(rng, 0..n)
}

/// Relies on rand's `SliceRandom::shuffle`: permutes the slice in place,
/// so the multiset of cells is preserved.
#[verifier::external_body]
pub(crate) fn shuffle_cells(v: &mut Vec<u8>, rng: &mut rand_pcg::Pcg64)
    ensures
        final(v)@.len() == old(v)@.len(),
        final(v)@.to_multiset() == old(v)@.to_multiset(),
{
    rand::seq::SliceRandom::shuffle(v.as_mut_slice(), rng);
}

} // verus!
