//! Uniform random choices, drawn from rand's thread-local generator.
use rand::rngs::ThreadRng;
use vstd::prelude::*;

verus! {

#[verifier::external_type_specification]
#[verifier::external_body]
pub struct ExThreadRng(ThreadRng);

/// rand's `SliceRandom::shuffle`, which swaps the elements in place: the
/// result holds the same elements in some order.
#[verifier::external_body]
pub(crate) fn shuffle<T>(v: &mut Vec<T>, rng: &mut ThreadRng)
    ensures
        final(v)@.to_multiset() == old(v)@.to_multiset(),
        final(v)@.len() == old(v)@.len(),
{
    rand::seq::SliceRandom::shuffle(v.as_mut_slice(), rng);
}

/// `rand::thread_rng().gen_range(0..n)`: a number below `n`, chosen at
/// random (`gen_range` panics on an empty range, hence `n > 0`).
#[verifier::external_body]
pub(crate) fn random_index(n: usize) -> (i: usize)
    requires
        n > 0,
    ensures
        i < n,
{
    rand::Rng::gen_range(&mut rand::thread_rng(), 0..n)
}

} // verus!
