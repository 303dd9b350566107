//! Facts about the sum of a list of weights.

use crate::sampling::weight_sum;
use vstd::prelude::*;

verus! {

/// Appending a weight adds it to the sum.
pub proof fn lemma_sum_push(weights: Seq<usize>, w: usize)
    ensures
        weight_sum(weights.push(w)) == weight_sum(weights) + w,
{
    assert(weights.push(w).drop_last() =~= weights);
}

/// Every weight is at most the sum.
pub proof fn lemma_sum_bounds(weights: Seq<usize>, i: int)
    requires
        0 <= i < weights.len(),
    ensures
        weights[i] <= weight_sum(weights),
    decreases weights.len(),
{
    if i < weights.len() - 1 {
        lemma_sum_bounds(weights.drop_last(), i);
    }
}

/// Replacing one weight changes the sum by the difference.
pub proof fn lemma_sum_update(weights: Seq<usize>, i: int, w: usize)
    requires
        0 <= i < weights.len(),
    ensures
        weight_sum(weights.update(i, w)) == weight_sum(weights) - weights[i] + w,
    decreases weights.len(),
{
    let changed = weights.update(i, w);
    if i == weights.len() - 1 {
        assert(changed.drop_last() =~= weights.drop_last());
    } else {
        assert(changed.drop_last() =~= weights.drop_last().update(i, w));
        lemma_sum_update(weights.drop_last(), i, w);
    }
}

/// Inserting a weight anywhere adds it to the sum.
pub proof fn lemma_sum_insert(weights: Seq<usize>, i: int, w: usize)
    requires
        0 <= i <= weights.len(),
    ensures
        weight_sum(weights.insert(i, w)) == weight_sum(weights) + w,
    decreases weights.len(),
{
    let grown = weights.insert(i, w);
    if i == weights.len() {
        assert(grown =~= weights.push(w));
        lemma_sum_push(weights, w);
    } else {
        assert(grown.drop_last() =~= weights.drop_last().insert(i, w));
        assert(grown.last() == weights.last());
        lemma_sum_insert(weights.drop_last(), i, w);
    }
}

} // verus!
