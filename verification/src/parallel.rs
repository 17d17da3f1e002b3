//! Applying a fallible operation to every item of a slice, in parallel where there are many.
use rayon::iter::{IntoParallelRefIterator, ParallelIterator};
use vstd::prelude::*;

verus! {

/// From this number of items on, the items are handed out to several threads.
pub const PARALLEL_THRESHOLD: usize = 100;

/// What applying `op` to every item gives: all the outputs in the order of the items, or an error
/// that `op` gave for one of them.
pub open spec fn maps_to<T, U, E, F: Fn(&T) -> Result<U, E>>(
    items: Seq<T>,
    op: F,
    result: Result<Vec<U>, E>,
) -> bool {
    match result {
        Ok(outputs) => {
            &&& outputs@.len() == items.len()
            &&& forall|i: int|
                #![trigger outputs@[i]]
                0 <= i < items.len() ==> call_ensures(op, (&items[i],), Ok(outputs@[i]))
        },
        Err(error) => exists|i: int|
            0 <= i < items.len() && call_ensures(op, (&#[trigger] items[i],), Err(error)),
    }
}

/// `op` can succeed on the item.
pub open spec fn succeeds_on<T, U, E, F: Fn(&T) -> Result<U, E>>(op: F, item: T) -> bool {
    exists|output: U| #[trigger] call_ensures(op, (&item,), Ok(output))
}

/// An error is one that `op` gave for the first item on which it failed.
pub open spec fn fails_in_order<T, U, E, F: Fn(&T) -> Result<U, E>>(
    items: Seq<T>,
    op: F,
    result: Result<Vec<U>, E>,
) -> bool {
    result matches Err(error) ==> exists|i: int|
        {
            &&& 0 <= i < items.len()
            &&& call_ensures(op, (&#[trigger] items[i],), Err(error))
            &&& forall|j: int| 0 <= j < i ==> succeeds_on(op, #[trigger] items[j])
        }
}

/// Calls `map` on rayon's parallel iterator over the slice and collects it into a `Result`. The
/// outputs come in the order of the items, whichever thread computed them. Where `op` fails on an
/// item, the result is an error; which one, where there are several, is not determined.
#[verifier::external_body]
fn try_map_parallel<T: Sync, U: Send, E: Send, F: Fn(&T) -> Result<U, E> + Send + Sync>(
    items: &[T],
    op: F,
) -> (result: Result<Vec<U>, E>)
    requires
        forall|i: int| 0 <= i < items@.len() ==> call_requires(op, (&#[trigger] items@[i],)),
    ensures
        maps_to(items@, op, result),
{
    items.par_iter().map(op).collect()
}

/// Applies `op` to every item: on several threads where there are many items, and otherwise in
/// their order.
pub(crate) fn try_map<T: Sync, U: Send, E: Send, F: Fn(&T) -> Result<U, E> + Send + Sync>(
    items: &[T],
    op: F,
) -> (result: Result<Vec<U>, E>)
    requires
        forall|i: int| 0 <= i < items@.len() ==> call_requires(op, (&#[trigger] items@[i],)),
    ensures
        maps_to(items@, op, result),
        items@.len() < PARALLEL_THRESHOLD ==> fails_in_order(items@, op, result),
{
    if items.len() >= PARALLEL_THRESHOLD {
        return try_map_parallel(items, op);
    }
    let mut outputs: Vec<U> = Vec::with_capacity(items.len());
    for i in 0..items.len()
        invariant
            outputs@.len() == i,
            forall|j: int| 0 <= j < items@.len() ==> call_requires(op, (&#[trigger] items@[j],)),
            forall|j: int|
                #![trigger outputs@[j]]
                0 <= j < i ==> call_ensures(op, (&items@[j],), Ok(outputs@[j])),
    {
        match op(&items[i]) {
            Ok(output) => outputs.push(output),
            Err(error) => {
                proof {
                    assert forall|j: int| 0 <= j < i implies succeeds_on(
                        op,
                        #[trigger] items@[j],
                    ) by {
                        assert(call_ensures(op, (&items@[j],), Ok(outputs@[j])));
                    }
                    assert(call_ensures(op, (&items@[i as int],), Err(error)));
                }
                return Err(error);
            },
        }
    }
    Ok(outputs)
}

} // verus!
