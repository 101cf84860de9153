//! The direct strategy: the whole input on the calling thread.

use crate::model::{accepts_all, is_image};
use vstd::prelude::*;

verus! {

/// Applies `function` to each element of `vector` in order, on the calling
/// thread, and returns the results in the same order.
pub fn do_comp_work_in_cur_thread<T, R, F: Fn(T) -> R>(vector: Vec<T>, function: F) -> (result:
    Vec<R>)
    requires
        accepts_all(function, vector@),
    ensures
        is_image(function, vector@, result@),
{
    let mut result: Vec<R> = Vec::new();
    result.reserve(vector.len());
    for item in items: vector
        invariant
            items.seq() == vector@,
            accepts_all(function, vector@),
            is_image(function, vector@.take(items.index() as int), result@),
    {
        result.push(function(item));
        assert(vector@.take(items.index() + 1)[items.index() as int] == item);
    }
    assert(vector@.take(vector@.len() as int) =~= vector@);
    result
}

} // verus!
