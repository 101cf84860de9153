//! What it means for an output to be the map of an input: the vocabulary in
//! which every strategy's contract is written.

use vstd::prelude::*;

verus! {

/// `function` may be called on every element of `input`.
pub open spec fn accepts_all<T, R, F: Fn(T) -> R>(function: F, input: Seq<T>) -> bool {
    forall|i: int| 0 <= i < input.len() ==> call_requires(function, (#[trigger] input[i],))
}

/// `output` is the map of `input` under `function`: as long as `input`, and
/// at every position a result of `function` on the element at that position.
pub open spec fn is_image<T, R, F: Fn(T) -> R>(function: F, input: Seq<T>, output: Seq<R>) -> bool {
    &&& output.len() == input.len()
    &&& forall|i: int|
        0 <= i < input.len() ==> call_ensures(function, (input[i],), #[trigger] output[i])
}

/// `function` is pure: an argument determines its result.
pub open spec fn is_pure<T, R, F: Fn(T) -> R>(function: F) -> bool {
    forall|argument: T, first: R, second: R|
        #![trigger call_ensures(function, (argument,), first), call_ensures(function, (argument,), second)]
        call_ensures(function, (argument,), first) && call_ensures(function, (argument,), second)
            ==> first == second
}

/// A pure function has one map per input: whatever strategy produced two
/// outputs that are both maps of the same input, they are the same sequence.
pub proof fn lemma_strategies_agree<T, R, F: Fn(T) -> R>(
    function: F,
    input: Seq<T>,
    first: Seq<R>,
    second: Seq<R>,
)
    requires
        is_pure(function),
        is_image(function, input, first),
        is_image(function, input, second),
    ensures
        first == second,
{
    assert forall|i: int| 0 <= i < first.len() implies first[i] == second[i] by {
        assert(call_ensures(function, (input[i],), first[i]));
        assert(call_ensures(function, (input[i],), second[i]));
    }
    assert(first =~= second);
}

} // verus!
