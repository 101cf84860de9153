//! The sharded strategy as a whole: chunks out, index-tagged results back in
//! any order, one result per slot.

use crate::chunks::{chunk_of, split_into_chunks};
use crate::collect::{
    addresses, is_addressed, is_complete, is_honest, is_stored, lemma_stored_in_turn,
    lemma_stored_is_image, new_result_slots, store_results,
};
use crate::model::{accepts_all, is_image};
use crate::plan::{
    chunk_start, home_chunk, in_chunk, lemma_chunks_are_consecutive, lemma_chunks_partition,
    spec_num_of_chunks,
};
use crate::worker::{do_comp_work_in_some_thread, is_indexed_image, OutputPair};
use vstd::prelude::*;

verus! {

/// Some worker emitted `message`: it stands in one of `outputs`, the
/// sequences of pairs that the workers emitted, one sequence per worker.
pub open spec fn is_emitted<R>(outputs: Seq<Seq<OutputPair<R>>>, message: OutputPair<R>) -> bool {
    exists|worker: int, position: int|
        0 <= worker < outputs.len() && 0 <= position < outputs[worker].len()
            && #[trigger] outputs[worker][position] == message
}

/// `messages` is an arrival of what the workers emitted: the pairs that
/// arrived are the pairs that were emitted. The order in which they arrived
/// is left open, and so is how the workers' outputs were interleaved.
pub open spec fn is_arrival_of<R>(
    outputs: Seq<Seq<OutputPair<R>>>,
    messages: Seq<OutputPair<R>>,
) -> bool {
    forall|message: OutputPair<R>|
        #![trigger is_emitted(outputs, message)]
        #![trigger messages.contains(message)]
        is_emitted(outputs, message) <==> messages.contains(message)
}

/// Order preservation for the sharded strategy, whatever the number of
/// workers and whatever the order of arrival: when every worker has done its
/// chunk of the plan and the pairs that the workers emitted have been stored
/// in the order in which they happened to arrive, the slots hold the map of
/// the input, each result at the position of its element, and no slot holds
/// what it held before.
pub proof fn lemma_any_arrival_order<T, R, F: Fn(T) -> R>(
    function: F,
    input: Seq<T>,
    outputs: Seq<Seq<OutputPair<R>>>,
    messages: Seq<OutputPair<R>>,
    before: Seq<R>,
    after: Seq<R>,
)
    requires
        input.len() <= usize::MAX,
        outputs.len() == spec_num_of_chunks(input.len()),
        forall|worker: int|
            0 <= worker < outputs.len() ==> is_indexed_image(
                function,
                chunk_of(input, worker as nat),
                #[trigger] outputs[worker],
            ),
        is_arrival_of(outputs, messages),
        before.len() == input.len(),
        is_stored(before, messages, after),
    ensures
        is_honest(function, input, messages),
        is_complete(messages, input.len()),
        is_image(function, input, after),
{
    let len = input.len();
    assert forall|k: int| 0 <= k < messages.len() implies {
        &&& (#[trigger] messages[k]).0 < input.len()
        &&& call_ensures(function, (input[messages[k].0 as int],), messages[k].1)
    } by {
        assert(messages.contains(messages[k]));
        assert(is_emitted(outputs, messages[k]));
        let (worker, position) = choose|worker: int, position: int|
            0 <= worker < outputs.len() && 0 <= position < outputs[worker].len()
                && #[trigger] outputs[worker][position] == messages[k];
        lemma_chunks_are_consecutive(len, worker as nat);
        assert(is_indexed_image(function, chunk_of(input, worker as nat), outputs[worker]));
    }
    assert forall|index: int| 0 <= index < len implies #[trigger] is_addressed(
        messages,
        index,
    ) by {
        let worker = home_chunk(len, index as nat);
        lemma_chunks_partition(len, index as nat);
        assert(in_chunk(len, worker, index as nat));
        lemma_chunks_are_consecutive(len, worker);
        let position = index - chunk_start(len, worker);
        assert(is_indexed_image(function, chunk_of(input, worker), outputs[worker as int]));
        let message = outputs[worker as int][position];
        assert(message.0 == index);
        assert(is_emitted(outputs, message));
        assert(messages.contains(message));
        let k = choose|k: int| 0 <= k < messages.len() && messages[k] == message;
        assert(addresses(messages, k, index));
    }
    lemma_stored_is_image(function, input, messages, before, after);
}

/// The pairs that arrived stay the pairs that were emitted when one more
/// worker's output arrives behind them.
proof fn lemma_arrival_grows<R>(
    outputs: Seq<Seq<OutputPair<R>>>,
    messages: Seq<OutputPair<R>>,
    more: Seq<OutputPair<R>>,
)
    requires
        is_arrival_of(outputs, messages),
    ensures
        is_arrival_of(outputs.push(more), messages + more),
{
    let grown = outputs.push(more);
    let all = messages + more;
    assert forall|message: OutputPair<R>| is_emitted(grown, message) implies all.contains(
        message,
    ) by {
        let (worker, position) = choose|worker: int, position: int|
            0 <= worker < grown.len() && 0 <= position < grown[worker].len()
                && #[trigger] grown[worker][position] == message;
        if worker < outputs.len() {
            assert(outputs[worker][position] == message);
            assert(is_emitted(outputs, message));
            assert(messages.contains(message));
            let k = choose|k: int| 0 <= k < messages.len() && messages[k] == message;
            assert(all[k] == message);
        } else {
            assert(all[messages.len() + position] == message);
        }
    }
    assert forall|message: OutputPair<R>| all.contains(message) implies is_emitted(
        grown,
        message,
    ) by {
        let k = choose|k: int| 0 <= k < all.len() && all[k] == message;
        if k < messages.len() {
            assert(messages[k] == message);
            assert(messages.contains(message));
            assert(is_emitted(outputs, message));
            let (worker, position) = choose|worker: int, position: int|
                0 <= worker < outputs.len() && 0 <= position < outputs[worker].len()
                    && #[trigger] outputs[worker][position] == message;
            assert(grown[worker][position] == message);
        } else {
            assert(grown[outputs.len() as int][k - messages.len()] == message);
        }
    }
}

/// Maps `function` over `vector` by the sharded strategy, with the workers
/// taking their turns on the calling thread: cuts the input into the chunks
/// of the plan, does each worker's share of the work, stores the
/// index-tagged results in the result slots as they come, and returns the
/// slots.
pub fn do_comp_work_in_chunks<T, R: Default, F: Fn(T) -> R + Copy>(
    vector: Vec<T>,
    function: F,
) -> (result: Vec<R>)
    requires
        accepts_all(function, vector@),
    ensures
        is_image(function, vector@, result@),
{
    let ghost input = vector@;
    let len = vector.len();
    let chunks = split_into_chunks(vector);
    let mut result: Vec<R> = new_result_slots(len);
    let ghost before = result@;
    let ghost mut outputs: Seq<Seq<OutputPair<R>>> = Seq::empty();
    let ghost mut arrived: Seq<OutputPair<R>> = Seq::empty();
    for chunk in rest: chunks
        invariant
            rest.seq() == chunks@,
            input.len() == len,
            accepts_all(function, input),
            chunks.len() == spec_num_of_chunks(input.len()),
            forall|worker: int|
                0 <= worker < chunks.len() ==> (#[trigger] chunks@[worker])@ == chunk_of(
                    input,
                    worker as nat,
                ),
            outputs.len() == rest.index(),
            forall|worker: int|
                0 <= worker < outputs.len() ==> is_indexed_image(
                    function,
                    chunk_of(input, worker as nat),
                    #[trigger] outputs[worker],
                ),
            is_arrival_of(outputs, arrived),
            before.len() == len,
            is_stored(before, arrived, result@),
    {
        let ghost worker = rest.index();
        let ghost held = result@;
        proof {
            assert(chunk@ == chunk_of(input, worker as nat)) by {
                assert(chunks@[worker] == chunk);
            }
            lemma_chunks_are_consecutive(input.len(), worker as nat);
        }
        let messages = do_comp_work_in_some_thread(chunk, function);
        let ghost emitted = messages@;
        store_results(&mut result, messages);
        proof {
            lemma_stored_in_turn(before, arrived, held, emitted, result@);
            lemma_arrival_grows(outputs, arrived, emitted);
            outputs = outputs.push(emitted);
            arrived = arrived + emitted;
        }
    }
    proof {
        lemma_any_arrival_order(function, input, outputs, arrived, before, result@);
    }
    result
}

} // verus!
