//! The worker strategy: one chunk of index-tagged elements in, the
//! index-tagged results out.

use vstd::prelude::*;

verus! {

/// An element of the input together with its position in the input.
pub type InputPair<T> = (usize, T);

/// A result together with the position of the element it was computed from.
pub type OutputPair<R> = (usize, R);

/// `function` may be called on the element of every pair of `chunk`.
pub open spec fn accepts_chunk<T, R, F: Fn(T) -> R>(function: F, chunk: Seq<InputPair<T>>) -> bool {
    forall|j: int| 0 <= j < chunk.len() ==> call_requires(function, ((#[trigger] chunk[j]).1,))
}

/// `messages` is what a worker emits for `chunk`: one pair per pair of the
/// chunk and in the chunk's order, each carrying the position it was given
/// and a result of `function` on the element at that position.
pub open spec fn is_indexed_image<T, R, F: Fn(T) -> R>(
    function: F,
    chunk: Seq<InputPair<T>>,
    messages: Seq<OutputPair<R>>,
) -> bool {
    &&& messages.len() == chunk.len()
    &&& forall|j: int|
        0 <= j < chunk.len() ==> {
            &&& (#[trigger] messages[j]).0 == chunk[j].0
            &&& call_ensures(function, (chunk[j].1,), messages[j].1)
        }
}

/// Does one worker's share of the work: applies `function` to the element of
/// each pair of `vector`, in order, and returns each result tagged with the
/// position its element came with. The pairs are returned in the order in
/// which the worker is to send them.
pub fn do_comp_work_in_some_thread<T, R, F: Fn(T) -> R>(
    vector: Vec<InputPair<T>>,
    function: F,
) -> (messages: Vec<OutputPair<R>>)
    requires
        accepts_chunk(function, vector@),
    ensures
        is_indexed_image(function, vector@, messages@),
{
    let mut messages: Vec<OutputPair<R>> = Vec::new();
    for pair in pairs: vector
        invariant
            pairs.seq() == vector@,
            accepts_chunk(function, vector@),
            is_indexed_image(function, vector@.take(pairs.index() as int), messages@),
    {
        let (index, item) = pair;
        let result = (index, function(item));
        messages.push(result);
        assert(vector@.take(pairs.index() + 1)[pairs.index() as int] == pair);
    }
    assert(vector@.take(vector@.len() as int) =~= vector@);
    messages
}

} // verus!
