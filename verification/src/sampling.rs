//! The random source and the two kinds of draw the generator makes from it.
//!
//! Everything here is a thin, unverified door to the `rand` crate: the
//! contracts below are taken on trust from that crate's source and
//! documentation. The rest of the library is proved against them.

use rand::distr::weighted::WeightedIndex;
use rand::distr::Distribution;
use rand::rngs::StdRng;
use rand::Rng;
use rand::SeedableRng;
use vstd::prelude::*;

verus! {

/// `rand::rngs::StdRng`, carried through the library as an opaque value.
#[verifier::external_type_specification]
#[verifier::external_body]
pub struct ExStdRng(StdRng);

/// A `rand::distr::weighted::WeightedIndex<usize>`: a prepared weighted
/// distribution over the positions of a list of weights. Its inside is
/// hidden from the verifier; `held_weights` names what it was built from.
#[verifier::external_body]
pub struct WeightedDraw {
    inner: WeightedIndex<usize>,
}

/// `rand::distr::weighted::Error`, the reason a list of weights was refused.
#[verifier::external_type_specification]
#[verifier::external_body]
pub struct ExWeightError(rand::distr::weighted::Error);

/// The weights a prepared distribution was built from, in their order.
pub uninterp spec fn held_weights(dist: WeightedDraw) -> Seq<usize>;

/// The generator that `StdRng::seed_from_u64` gives for `seed`, before
/// anything has been drawn from it.
pub uninterp spec fn seeded_with(seed: u64) -> StdRng;

/// The sum of a list of weights, as a mathematical integer.
pub open spec fn weight_sum(weights: Seq<usize>) -> nat
    decreases weights.len(),
{
    if weights.len() == 0 {
        0
    } else {
        weight_sum(weights.drop_last()) + weights.last() as nat
    }
}

/// Whether a weighted draw can be made from a list of weights: it is not
/// empty, its sum is not zero, and its sum fits in `usize`.
pub open spec fn drawable(weights: Seq<usize>) -> bool {
    &&& weights.len() > 0
    &&& weight_sum(weights) > 0
    &&& weight_sum(weights) <= usize::MAX
}

/// Calls `StdRng::seed_from_u64`. The generator that comes back is named,
/// not described: the source derives its state from the seed by fixed
/// arithmetic and reads nothing else, so it is a function of the seed alone.
#[verifier::external_body]
pub(crate) fn seeded_source(seed: u64) -> (source: StdRng)
    ensures
        source == seeded_with(seed),
{
    StdRng::seed_from_u64(seed)
}

/// Calls `StdRng::try_from_os_rng`, which seeds from the operating system's
/// entropy and fails if the system can provide none. Nothing is claimed of
/// the outcome.
#[verifier::external_body]
pub(crate) fn entropy_source() -> Option<StdRng> {
    StdRng::try_from_os_rng().ok()
}

/// Calls `Rng::random_range` on `low..high`. The claim is the documented one:
/// for a non-empty half-open range the value lies inside it. The empty range,
/// on which `random_range` panics, is excluded.
#[verifier::external_body]
pub(crate) fn draw_in_range(rng: &mut StdRng, low: usize, high: usize) -> (value: usize)
    requires
        low < high,
    ensures
        low <= value < high,
{
    rng.random_range(low..high)
}

/// Calls `WeightedIndex::new` on a list of `usize` weights. For unsigned
/// weights the source refuses exactly three inputs: an empty list, a list
/// whose sum does not fit in `usize`, and a list whose sum is zero. Otherwise
/// the distribution is built over the weights as given.
#[verifier::external_body]
pub(crate) fn prepare_weights(weights: &Vec<usize>) -> (prepared: Result<WeightedDraw, rand::distr::weighted::Error>)
    ensures
        prepared is Ok <==> drawable(weights@),
        prepared is Ok ==> held_weights(prepared->Ok_0) == weights@,
{
    match WeightedIndex::new(weights) {
        Ok(inner) => Ok(WeightedDraw { inner }),
        Err(refused) => Err(refused),
    }
}

/// Calls `Distribution::sample` on a prepared `WeightedIndex<usize>`. The
/// claim is the documented one: the result is a position in the list of
/// weights, and a position of weight zero is never returned.
#[verifier::external_body]
pub(crate) fn draw_weighted(dist: &WeightedDraw, rng: &mut StdRng) -> (index: usize)
    ensures
        index < held_weights(*dist).len(),
        held_weights(*dist)[index as int] > 0,
{
    dist.inner.sample(rng)
}

} // verus!
