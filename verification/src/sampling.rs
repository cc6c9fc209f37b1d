//! Random choice among the successors of a context, by the `rand` crate.

use crate::store::{total, Successor};
use rand::distributions::WeightedError;
use rand::rngs::ThreadRng;
use rand::seq::SliceRandom;
use vstd::prelude::*;

verus! {

/// `rand::rngs::ThreadRng`: the handle to the random number generator of the
/// running thread. Nothing of its state is known here.
#[verifier::external_type_specification]
#[verifier::external_body]
pub struct ExThreadRng(rand::rngs::ThreadRng);

/// `rand::distributions::WeightedError`: why a weighted choice could not be
/// made. Its variants are not looked at.
#[verifier::external_type_specification]
#[verifier::external_body]
pub struct ExWeightedError(rand::distributions::WeightedError);

/// `rand::thread_rng` hands out the generator of the running thread, seeded
/// by the system on first use; it panics where the system gives it no seed.
/// Nothing is claimed of what the generator will draw.
pub assume_specification[ rand::thread_rng ]() -> (rng: rand::rngs::ThreadRng)
;

/// `SliceRandom::choose_weighted` on the successors, each weighted by its
/// count. It adds the weights up, which must not overflow. It refuses an
/// empty list and one whose weights are all zero, and no other list of
/// unsigned weights. Otherwise it draws a number below the sum and hands out
/// the item in whose share of the sum that number falls: an item of the list
/// with a weight above zero. Which one depends on the generator; that the
/// chance of each is in proportion to its weight is what `rand` documents,
/// and no clause can say it.
#[verifier::external_body]
pub(crate) fn choose_weighted<'a>(rng: &mut ThreadRng, successors: &'a Vec<Successor>) -> (choice:
    Result<&'a Successor, WeightedError>)
    requires
        total(successors@) <= usize::MAX,
    ensures
        choice is Ok <==> total(successors@) > 0,
        choice matches Ok(chosen) ==> chosen.count > 0 && exists|j: int|
            0 <= j < successors.len() && #[trigger] successors[j] == *chosen,
{
    successors.choose_weighted(rng, |successor| successor.count)
}

} // verus!
