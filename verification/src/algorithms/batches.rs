//! Batches: contiguous ranges of model indices, for enumerations that are
//! shared between workers.

use crate::numbers::integer::integer_add_assign;
use crate::numbers::integer::integer_clone;
use crate::numbers::integer::integer_from_usize;
use crate::numbers::integer::integer_lt;
use crate::numbers::integer::integer_value;
use rug::Integer;
use vstd::prelude::*;

verus! {

/// The end of the batch of at most `batch_size` indices that begins at
/// `min_bound`, among `n_models` indices; none where no index is left.
pub open spec fn batch_end(min_bound: int, batch_size: nat, n_models: int) -> Option<int> {
    if min_bound >= n_models {
        None
    } else if min_bound + batch_size > n_models {
        Some(n_models)
    } else {
        Some(min_bound + batch_size)
    }
}

/// Returns the index that follows the batch of at most `batch_size` model
/// indices that begins at `min_bound`, where the formula has `n_models`
/// models, or nothing where no index is left for a batch.
pub fn next_batch(min_bound: &Integer, batch_size: usize, n_models: &Integer) -> (r: Option<
    Integer,
>)
    ensures
        r is Some <==> batch_end(integer_value(*min_bound), batch_size as nat, integer_value(*n_models))
            is Some,
        r matches Some(end) ==> Some(integer_value(end)) == batch_end(
            integer_value(*min_bound),
            batch_size as nat,
            integer_value(*n_models),
        ),
{
    if !integer_lt(min_bound, n_models) {
        return None;
    }
    let mut next_min_bound = integer_clone(min_bound);
    let size = integer_from_usize(batch_size);
    integer_add_assign(&mut next_min_bound, &size);
    if integer_lt(n_models, &next_min_bound) {
        Some(integer_clone(n_models))
    } else {
        Some(next_min_bound)
    }
}

} // verus!
