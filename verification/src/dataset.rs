//! The data set: random numbers below a limit.

use vstd::prelude::*;

verus! {

/// Every number of a generated data set is below this.
pub const LIMIT: usize = 1000;

/// Draws `count` numbers with `rand`: `Uniform::try_from(low..high)` makes the
/// distribution, and `Distribution::sample_iter` draws from it with the generator
/// of the thread, `rand::rng()`.
///
/// `Uniform` refuses an empty range, which `requires` leaves out. Of the numbers
/// drawn the contract says only what holds of every draw: there are `count` of
/// them, and each is in the range.
#[verifier::external_body]
fn sample_uniform(low: usize, high: usize, count: usize) -> (numbers: Vec<usize>)
    requires
        low < high,
    ensures
        numbers@.len() == count,
        forall|i: int| 0 <= i < count ==> low <= #[trigger] numbers@[i] < high,
{
    let uniform = rand::distr::Uniform::try_from(low..high).unwrap();
    rand::distr::Distribution::sample_iter(uniform, rand::rng()).take(count).collect()
}

/// Whether `numbers` can be a data set of `size` numbers.
pub open spec fn is_dataset(numbers: Seq<usize>, size: usize) -> bool {
    &&& numbers.len() == size
    &&& forall|i: int| 0 <= i < numbers.len() ==> #[trigger] numbers[i] < LIMIT
}

/// Draws a data set of `size` random numbers, each below `LIMIT`.
pub fn generate(size: usize) -> (numbers: Vec<usize>)
    ensures
        is_dataset(numbers@, size),
{
    sample_uniform(0, LIMIT, size)
}

} // verus!
