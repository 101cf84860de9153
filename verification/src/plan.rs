//! Planning: which strategy an input of a given length gets, how many workers
//! share it, and which contiguous range of positions each worker's chunk covers.

use vstd::arithmetic::div_mod::{
    lemma_div_pos_is_pos, lemma_fundamental_div_mod, lemma_fundamental_div_mod_converse,
    lemma_mod_pos_bound,
};
use vstd::arithmetic::mul::lemma_mul_is_commutative;
use vstd::prelude::*;

verus! {

/// Inputs shorter than this are mapped on the calling thread.
pub const THRESHOLD: usize = 8;

/// No input is shared among more workers than this.
pub const MAX_NUM_OF_THREADS: usize = 64;

/// How an input is mapped.
#[derive(Clone, Copy, Debug, PartialEq, Eq, Structural)]
pub enum Strategy {
    /// Sequentially, on the calling thread.
    Direct,
    /// In contiguous chunks, one worker per chunk.
    Sharded,
}

/// The quotient `total / divisor`, rounded up.
pub open spec fn spec_ceil_div(total: nat, divisor: nat) -> nat
    recommends
        divisor > 0,
{
    ((total + divisor - 1) / (divisor as int)) as nat
}

/// The number of workers planned for an input of `len` elements: one per
/// `THRESHOLD` elements, rounded up, but at least one and at most
/// `MAX_NUM_OF_THREADS`.
pub open spec fn spec_num_of_threads(len: nat) -> nat {
    let wanted = spec_ceil_div(len, THRESHOLD as nat);
    if wanted < 1 {
        1
    } else if wanted > MAX_NUM_OF_THREADS {
        MAX_NUM_OF_THREADS as nat
    } else {
        wanted
    }
}

/// The size of every chunk but possibly the last: the input's length divided
/// by the number of workers, rounded up.
pub open spec fn spec_items_per_thread(len: nat) -> nat {
    spec_ceil_div(len, spec_num_of_threads(len))
}

/// The number of chunks that hold at least one element.
pub open spec fn spec_num_of_chunks(len: nat) -> nat {
    if len == 0 {
        0
    } else {
        spec_ceil_div(len, spec_items_per_thread(len))
    }
}

/// The position of the first element of chunk number `chunk`.
pub open spec fn chunk_start(len: nat, chunk: nat) -> nat {
    chunk * spec_items_per_thread(len)
}

/// The position just past the last element of chunk number `chunk`.
pub open spec fn chunk_end(len: nat, chunk: nat) -> nat {
    let full = (chunk + 1) * spec_items_per_thread(len);
    if full < len {
        full
    } else {
        len
    }
}

/// Rounding up overshoots by less than one divisor: the rounded-up quotient
/// is the least number of `divisor`-sized parts that cover `total`.
pub proof fn lemma_ceil_div_bounds(total: nat, divisor: nat)
    requires
        divisor > 0,
    ensures
        total <= spec_ceil_div(total, divisor) * divisor < total + divisor,
{
    let padded = total + divisor - 1;
    let quotient = padded / (divisor as int);
    lemma_fundamental_div_mod(padded, divisor as int);
    lemma_mod_pos_bound(padded, divisor as int);
    lemma_div_pos_is_pos(padded, divisor as int);
    lemma_mul_is_commutative(quotient, divisor as int);
}

/// A number of parts that covers `total` with less than one part to spare is
/// the rounded-up quotient.
pub proof fn lemma_ceil_div_unique(total: nat, divisor: nat, parts: nat)
    requires
        divisor > 0,
        total <= parts * divisor < total + divisor,
    ensures
        parts == spec_ceil_div(total, divisor),
{
    let padded = total + divisor - 1;
    let rest = padded - parts * divisor;
    lemma_fundamental_div_mod_converse(padded, divisor as int, parts as int, rest);
}

/// Whether position `index` of an input of `len` elements lies in chunk
/// number `chunk`.
pub open spec fn in_chunk(len: nat, chunk: nat, index: nat) -> bool {
    chunk_start(len, chunk) <= index < chunk_end(len, chunk)
}

/// The number of the chunk in which position `index` lies.
pub open spec fn home_chunk(len: nat, index: nat) -> nat {
    index / spec_items_per_thread(len)
}

/// A position lies between two consecutive multiples of a positive `size`
/// exactly if the lower one is `size` times the position's quotient.
proof fn lemma_multiple_below(index: nat, size: nat, factor: nat)
    requires
        size > 0,
    ensures
        factor * size <= index < (factor + 1) * size <==> factor == index / size,
{
    assert((factor + 1) * size == factor * size + size) by (nonlinear_arith);
    if factor * size <= index < (factor + 1) * size {
        lemma_fundamental_div_mod_converse(
            index as int,
            size as int,
            factor as int,
            index - factor * size,
        );
    }
    if factor == index / size {
        lemma_fundamental_div_mod(index as int, size as int);
        lemma_mod_pos_bound(index as int, size as int);
        lemma_mul_is_commutative(factor as int, size as int);
    }
}

/// The plan never exceeds the cap: between one and `MAX_NUM_OF_THREADS`
/// workers are planned, whatever the input's length, and no more chunks are
/// handed out than workers were planned. A non-empty input gets chunks of at
/// least one element.
pub proof fn lemma_worker_cap(len: nat)
    ensures
        1 <= spec_num_of_threads(len) <= MAX_NUM_OF_THREADS,
        spec_num_of_chunks(len) <= spec_num_of_threads(len),
        len > 0 ==> spec_items_per_thread(len) >= 1,
{
    let threads = spec_num_of_threads(len);
    let items = spec_items_per_thread(len);
    let chunks = spec_num_of_chunks(len);
    lemma_ceil_div_bounds(len, threads);
    if len > 0 {
        assert(items >= 1) by (nonlinear_arith)
            requires
                len <= items * threads,
                len > 0,
        ;
        lemma_ceil_div_bounds(len, items);
        assert(chunks <= threads) by (nonlinear_arith)
            requires
                chunks * items < len + items,
                len <= items * threads,
                items >= 1,
        ;
    }
}

/// From `THRESHOLD * MAX_NUM_OF_THREADS` elements on, the number of workers
/// stays at the cap and the chunks grow instead.
pub proof fn lemma_chunks_grow_at_cap(len: nat)
    requires
        len >= THRESHOLD * MAX_NUM_OF_THREADS,
    ensures
        spec_num_of_threads(len) == MAX_NUM_OF_THREADS,
        spec_items_per_thread(len) >= THRESHOLD,
        spec_items_per_thread(len) * MAX_NUM_OF_THREADS >= len,
{
    lemma_ceil_div_bounds(len, THRESHOLD as nat);
    lemma_ceil_div_bounds(len, MAX_NUM_OF_THREADS as nat);
}

/// The chunks partition the input: every position lies in exactly one chunk,
/// its home chunk, and that chunk is one of those handed out.
pub proof fn lemma_chunks_partition(len: nat, index: nat)
    requires
        index < len,
    ensures
        home_chunk(len, index) < spec_num_of_chunks(len),
        forall|chunk: nat|
            #![trigger in_chunk(len, chunk, index)]
            in_chunk(len, chunk, index) <==> chunk == home_chunk(len, index),
{
    let items = spec_items_per_thread(len);
    let chunks = spec_num_of_chunks(len);
    let home = home_chunk(len, index);
    lemma_worker_cap(len);
    lemma_ceil_div_bounds(len, items);
    lemma_multiple_below(index, items, home);
    assert(home < chunks) by (nonlinear_arith)
        requires
            home * items <= index,
            index < len,
            len <= chunks * items,
            items >= 1,
    ;
    assert forall|chunk: nat|
        #![trigger in_chunk(len, chunk, index)]
        in_chunk(len, chunk, index) <==> chunk == home_chunk(len, index) by {
        lemma_multiple_below(index, items, chunk);
    }
}

/// The chunks follow one another without a gap and none of them is empty:
/// the first starts at position 0, each ends where the next one starts, and
/// the last ends with the input.
pub proof fn lemma_chunks_are_consecutive(len: nat, chunk: nat)
    requires
        chunk < spec_num_of_chunks(len),
    ensures
        chunk_start(len, 0) == 0,
        chunk_start(len, chunk) < chunk_end(len, chunk) <= len,
        chunk_end(len, chunk) - chunk_start(len, chunk) <= spec_items_per_thread(len),
        chunk + 1 < spec_num_of_chunks(len) ==> chunk_end(len, chunk) == chunk_start(
            len,
            chunk + 1,
        ),
        chunk + 1 == spec_num_of_chunks(len) ==> chunk_end(len, chunk) == len,
{
    let items = spec_items_per_thread(len);
    let chunks = spec_num_of_chunks(len);
    lemma_worker_cap(len);
    lemma_ceil_div_bounds(len, items);
    assert((chunk + 1) * items == chunk * items + items) by (nonlinear_arith);
    assert(chunk * items < len) by (nonlinear_arith)
        requires
            chunk + 1 <= chunks,
            chunks * items < len + items,
            items >= 1,
    ;
    if chunk + 1 < chunks {
        assert((chunk + 1) * items < len) by (nonlinear_arith)
            requires
                chunk + 2 <= chunks,
                chunks * items < len + items,
                items >= 1,
        ;
    } else {
        assert((chunk + 1) * items >= len);
    }
}

/// Chooses how an input of `len` elements is mapped: directly below
/// `THRESHOLD`, in chunks from `THRESHOLD` on.
pub fn choose_strategy(len: usize) -> (strategy: Strategy)
    ensures
        strategy == (if len < THRESHOLD {
            Strategy::Direct
        } else {
            Strategy::Sharded
        }),
{
    if len < THRESHOLD {
        Strategy::Direct
    } else {
        Strategy::Sharded
    }
}

fn ceil_div(total: usize, divisor: usize) -> (parts: usize)
    requires
        divisor > 0,
    ensures
        parts == spec_ceil_div(total as nat, divisor as nat),
{
    let whole = total / divisor;
    let rest = total % divisor;
    proof {
        lemma_fundamental_div_mod(total as int, divisor as int);
        lemma_mul_is_commutative(whole as int, divisor as int);
        assert(whole * divisor >= whole) by (nonlinear_arith)
            requires
                divisor >= 1,
                whole >= 0,
        ;
    }
    if rest == 0 {
        proof {
            lemma_ceil_div_unique(total as nat, divisor as nat, whole as nat);
        }
        whole
    } else {
        proof {
            assert((whole + 1) * divisor == whole * divisor + divisor) by (nonlinear_arith);
            lemma_ceil_div_unique(total as nat, divisor as nat, (whole + 1) as nat);
        }
        whole + 1
    }
}

/// The number of workers planned for an input of `len` elements.
pub fn num_of_threads(len: usize) -> (count: usize)
    ensures
        count == spec_num_of_threads(len as nat),
        1 <= count <= MAX_NUM_OF_THREADS,
{
    let wanted = ceil_div(len, THRESHOLD);
    if wanted < 1 {
        1
    } else if wanted > MAX_NUM_OF_THREADS {
        MAX_NUM_OF_THREADS
    } else {
        wanted
    }
}

/// The number of elements that each worker but possibly the last gets.
pub fn items_per_thread(len: usize) -> (items: usize)
    ensures
        items == spec_items_per_thread(len as nat),
{
    ceil_div(len, num_of_threads(len))
}

} // verus!
