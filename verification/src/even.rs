//! A sample transform: whether a number is even.

use crate::model::{accepts_all, is_pure};
use vstd::prelude::*;

verus! {

/// The base by which evenness is decided.
pub const EVEN_BASE: i64 = 2;

/// `num` is a multiple of two.
pub open spec fn spec_is_even(num: int) -> bool {
    num % 2 == 0
}

/// Tells whether `num` is even.
pub fn is_even(num: i64) -> (even: bool)
    ensures
        even == spec_is_even(num as int),
{
    num % EVEN_BASE == 0
}

/// `is_even` is a transform that every strategy takes: it may be called on
/// every number, and a number determines its answer.
pub proof fn lemma_is_even_is_total_and_pure(input: Seq<i64>)
    ensures
        accepts_all(is_even, input),
        is_pure(is_even),
{
}

} // verus!
