use vstd::prelude::*;
use rand::rngs::SmallRng;
use rand::seq::SliceRandom;
use rand::Rng;

verus! {

/// The random generator that each render job owns.
#[verifier::external_type_specification]
#[verifier::external_body]
pub struct ExSmallRng(SmallRng);

/// Relies on `rand::Rng::gen_range` (rand 0.7): a value drawn from
/// `[low, high)`; it panics when `low >= high`, which `requires` rules out.
#[verifier::external_body]
pub(crate) fn gen_range_i64(rng: &mut SmallRng, low: i64, high: i64) -> (r: i64)
    requires
        low < high,
    ensures
        low <= r < high,
{
    rng.gen_range(low, high)
}

/// Relies on `rand::seq::SliceRandom::shuffle` (rand 0.7): a Fisher-Yates
/// shuffle made of swaps, so the elements stay the same, in a new order.
#[verifier::external_body]
pub(crate) fn shuffle_i32(v: &mut Vec<i32>, rng: &mut SmallRng)
    ensures
        final(v)@.len() == old(v)@.len(),
        final(v)@.to_multiset() == old(v)@.to_multiset(),
{
    v.shuffle(rng)
}

} // verus!
