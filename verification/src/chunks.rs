//! Chunking: the input cut into the contiguous chunks of the plan, each
//! element tagged with its position in the input.

use crate::plan::{
    chunk_end, chunk_start, items_per_thread, lemma_ceil_div_unique, lemma_worker_cap,
    spec_items_per_thread, spec_num_of_chunks, MAX_NUM_OF_THREADS,
};
use crate::worker::InputPair;
use vstd::prelude::*;

verus! {

/// The elements of `input` at the positions from `start` up to, not
/// including, `end`, each paired with its position.
pub open spec fn indexed<T>(input: Seq<T>, start: int, end: int) -> Seq<InputPair<T>> {
    Seq::new((end - start) as nat, |offset: int| ((start + offset) as usize, input[start + offset]))
}

/// Chunk number `chunk` of `input`.
pub open spec fn chunk_of<T>(input: Seq<T>, chunk: nat) -> Seq<InputPair<T>> {
    indexed(input, chunk_start(input.len(), chunk) as int, chunk_end(input.len(), chunk) as int)
}

/// Cuts `vector` into the chunks of the plan for its length, in order, and
/// tags each element with its position in `vector`. Only chunks that hold an
/// element are returned: one per worker to start.
pub fn split_into_chunks<T>(vector: Vec<T>) -> (chunks: Vec<Vec<InputPair<T>>>)
    ensures
        chunks.len() == spec_num_of_chunks(vector.len() as nat),
        chunks.len() <= MAX_NUM_OF_THREADS,
        forall|chunk: int|
            0 <= chunk < chunks.len() ==> (#[trigger] chunks@[chunk])@ == chunk_of(
                vector@,
                chunk as nat,
            ),
{
    let len = vector.len();
    let items = items_per_thread(len);
    let mut chunks: Vec<Vec<InputPair<T>>> = Vec::new();
    let mut vector_copy: Vec<InputPair<T>> = Vec::new();
    let mut index_of_cur_item: usize = 0;
    proof {
        lemma_worker_cap(len as nat);
        assert(chunks.len() * items == 0) by (nonlinear_arith)
            requires
                chunks.len() == 0,
        ;
        assert(vector_copy@ =~= indexed(vector@, 0, 0));
    }
    for item in rest: vector
        invariant
            rest.seq() == vector@,
            len == vector@.len(),
            items == spec_items_per_thread(len as nat),
            len > 0 ==> items >= 1,
            index_of_cur_item == rest.index(),
            chunks.len() <= index_of_cur_item,
            chunks.len() * items + vector_copy.len() == index_of_cur_item,
            len > 0 ==> vector_copy.len() < items,
            vector_copy@ == indexed(vector@, chunks.len() * items, index_of_cur_item as int),
            forall|chunk: int|
                0 <= chunk < chunks.len() ==> (#[trigger] chunks@[chunk])@ == chunk_of(
                    vector@,
                    chunk as nat,
                ),
    {
        let ghost start = chunks.len() * items;
        vector_copy.push((index_of_cur_item, item));
        index_of_cur_item += 1;
        assert(vector_copy@ =~= indexed(vector@, start, index_of_cur_item as int));
        if vector_copy.len() == items {
            proof {
                assert((chunks.len() + 1) * items == start + items) by (nonlinear_arith)
                    requires
                        start == chunks.len() * items,
                ;
                assert(chunk_of(vector@, chunks.len() as nat) == vector_copy@);
            }
            chunks.push(vector_copy);
            vector_copy = Vec::new();
            assert(vector_copy@ =~= indexed(
                vector@,
                chunks.len() * items,
                index_of_cur_item as int,
            ));
        }
    }
    if vector_copy.len() > 0 {
        proof {
            assert((chunks.len() + 1) * items == chunks.len() * items + items)
                by (nonlinear_arith);
            assert(chunk_of(vector@, chunks.len() as nat) == vector_copy@);
            lemma_ceil_div_unique(len as nat, items as nat, (chunks.len() + 1) as nat);
        }
        chunks.push(vector_copy);
    } else if len > 0 {
        proof {
            lemma_ceil_div_unique(len as nat, items as nat, chunks.len() as nat);
        }
    }
    chunks
}

} // verus!
