use vstd::prelude::*;
use rand::seq::{IteratorRandom, SliceRandom};

verus! {

/// The seeded random stream that every random choice of the simulation draws
/// from.
#[verifier::external_type_specification]
#[verifier::external_body]
pub struct ExChaCha8Rng(rand_chacha::ChaCha8Rng);

/// Relies on rand's `IteratorRandom::choose` on the range `lo..hi`: `None` for
/// an empty range, otherwise one of its elements.
#[verifier::external_body]
pub(crate) fn pick_index(rng: &mut rand_chacha::ChaCha8Rng, lo: usize, hi: usize) -> (r: Option<usize>)
    ensures
        r is None <==> hi <= lo,
        r matches Some(i) ==> lo <= i < hi,
{
    (lo..hi).choose(rng)
}

/// Relies on rand's `SliceRandom::shuffle`: the elements are permuted by swaps.
#[verifier::external_body]
pub(crate) fn shuffle<T>(v: &mut Vec<T>, rng: &mut rand_chacha::ChaCha8Rng)
    ensures
        final(v)@.to_multiset() == old(v)@.to_multiset(),
        final(v)@.len() == old(v)@.len(),
{
    v.as_mut_slice().shuffle(rng)
}

} // verus!
