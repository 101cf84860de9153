//! Collecting: the result slots, and what they hold once index-tagged
//! results have been stored in them in the order of their arrival.

use crate::model::is_image;
use crate::worker::OutputPair;
use vstd::prelude::*;

verus! {

/// What a slot holds once `messages` have been stored in the order given:
/// the result that the last message addressed to the slot carried, or
/// `initial`, what the slot held before, if no message was addressed to it.
pub open spec fn slot_after<R>(initial: R, messages: Seq<OutputPair<R>>, index: int) -> R
    decreases messages.len(),
{
    if messages.len() == 0 {
        initial
    } else if messages.last().0 == index {
        messages.last().1
    } else {
        slot_after(initial, messages.drop_last(), index)
    }
}

/// Every message is addressed to one of `len` slots.
pub open spec fn all_addressed_within<R>(messages: Seq<OutputPair<R>>, len: nat) -> bool {
    forall|k: int| 0 <= k < messages.len() ==> (#[trigger] messages[k]).0 < len
}

/// `after` is what the slots `before` hold once `messages` have been stored.
pub open spec fn is_stored<R>(before: Seq<R>, messages: Seq<OutputPair<R>>, after: Seq<R>) -> bool {
    &&& after.len() == before.len()
    &&& forall|index: int|
        0 <= index < before.len() ==> #[trigger] after[index] == slot_after(
            before[index],
            messages,
            index,
        )
}

/// Message number `k` is addressed to slot `index`.
pub open spec fn addresses<R>(messages: Seq<OutputPair<R>>, k: int, index: int) -> bool {
    0 <= k < messages.len() && messages[k].0 == index
}

/// Some message is addressed to slot `index`.
pub open spec fn is_addressed<R>(messages: Seq<OutputPair<R>>, index: int) -> bool {
    exists|k: int| addresses(messages, k, index)
}

/// Every one of `len` slots has a message addressed to it.
pub open spec fn is_complete<R>(messages: Seq<OutputPair<R>>, len: nat) -> bool {
    forall|index: int| 0 <= index < len ==> #[trigger] is_addressed(messages, index)
}

/// Every message is addressed to a position of `input` and carries a result
/// of `function` on the element at that position.
pub open spec fn is_honest<T, R, F: Fn(T) -> R>(
    function: F,
    input: Seq<T>,
    messages: Seq<OutputPair<R>>,
) -> bool {
    forall|k: int|
        0 <= k < messages.len() ==> {
            &&& (#[trigger] messages[k]).0 < input.len()
            &&& call_ensures(function, (input[messages[k].0 as int],), messages[k].1)
        }
}

/// A slot that a message is addressed to does not keep what it held: once
/// the messages are stored it holds what one of the messages addressed to it
/// carried.
pub proof fn lemma_addressed_slot_is_overwritten<R>(
    initial: R,
    messages: Seq<OutputPair<R>>,
    index: int,
)
    requires
        is_addressed(messages, index),
    ensures
        exists|k: int|
            addresses(messages, k, index) && slot_after(initial, messages, index) == messages[k].1,
    decreases messages.len(),
{
    let witness = choose|k: int| addresses(messages, k, index);
    let last = messages.len() - 1;
    if messages.last().0 == index {
        assert(addresses(messages, last, index));
    } else {
        let sooner = messages.drop_last();
        assert(addresses(sooner, witness, index));
        lemma_addressed_slot_is_overwritten(initial, sooner, index);
        let k = choose|k: int|
            addresses(sooner, k, index) && slot_after(initial, sooner, index) == sooner[k].1;
        assert(addresses(messages, k, index));
    }
}

/// Storing two batches of messages one after the other leaves what storing
/// them as one batch leaves.
pub proof fn lemma_stored_in_turn<R>(
    before: Seq<R>,
    sooner: Seq<OutputPair<R>>,
    between: Seq<R>,
    later: Seq<OutputPair<R>>,
    after: Seq<R>,
)
    requires
        is_stored(before, sooner, between),
        is_stored(between, later, after),
    ensures
        is_stored(before, sooner + later, after),
    decreases later.len(),
{
    if later.len() == 0 {
        assert(sooner + later =~= sooner);
    } else {
        let all = sooner + later;
        let held = Seq::new(
            before.len(),
            |index: int| slot_after(between[index], later.drop_last(), index),
        );
        lemma_stored_in_turn(before, sooner, between, later.drop_last(), held);
        assert(all.drop_last() =~= sooner + later.drop_last());
        assert(all.last() == later.last());
        assert forall|index: int| 0 <= index < before.len() implies #[trigger] after[index]
            == slot_after(before[index], all, index) by {
            assert(held[index] == slot_after(before[index], all.drop_last(), index));
        }
    }
}

/// Order preservation, whatever the order of arrival: if every message is
/// honest and every slot has a message addressed to it, the slots hold the
/// map of the input once the messages are stored, in whatever order they
/// came, however often one was repeated and whatever the slots held before.
pub proof fn lemma_stored_is_image<T, R, F: Fn(T) -> R>(
    function: F,
    input: Seq<T>,
    messages: Seq<OutputPair<R>>,
    before: Seq<R>,
    after: Seq<R>,
)
    requires
        is_honest(function, input, messages),
        is_complete(messages, input.len()),
        before.len() == input.len(),
        is_stored(before, messages, after),
    ensures
        is_image(function, input, after),
{
    assert forall|index: int| 0 <= index < input.len() implies call_ensures(
        function,
        (input[index],),
        #[trigger] after[index],
    ) by {
        assert(is_addressed(messages, index));
        lemma_addressed_slot_is_overwritten(before[index], messages, index);
        let k = choose|k: int|
            addresses(messages, k, index) && slot_after(before[index], messages, index)
                == messages[k].1;
        assert(messages[k].0 == index);
    }
}

/// Allocates the result slots for an input of `len` elements, each holding
/// the default value of `R` until a result is stored in it.
pub fn new_result_slots<R: Default>(len: usize) -> (slots: Vec<R>)
    ensures
        slots.len() == len,
        forall|index: int|
            0 <= index < len ==> call_ensures(R::default, (), #[trigger] slots[index]),
{
    let mut slots: Vec<R> = Vec::new();
    slots.reserve(len);
    while slots.len() < len
        invariant
            slots.len() <= len,
            forall|index: int|
                0 <= index < slots.len() ==> call_ensures(R::default, (), #[trigger] slots[index]),
        decreases len - slots.len(),
    {
        slots.push(R::default());
    }
    slots
}

/// Stores one received result in the slot it is addressed to; the other
/// slots keep what they hold.
pub fn store_result<R>(slots: &mut Vec<R>, index: usize, item: R)
    requires
        index < old(slots).len(),
    ensures
        final(slots)@ == old(slots)@.update(index as int, item),
{
    slots[index] = item;
}

/// Stores received results in the slots they are addressed to, in the order
/// of their arrival.
pub fn store_results<R>(slots: &mut Vec<R>, messages: Vec<OutputPair<R>>)
    requires
        all_addressed_within(messages@, old(slots)@.len()),
    ensures
        is_stored(old(slots)@, messages@, final(slots)@),
{
    for received in arrivals: messages
        invariant
            arrivals.seq() == messages@,
            all_addressed_within(messages@, old(slots)@.len()),
            is_stored(old(slots)@, messages@.take(arrivals.index() as int), slots@),
    {
        let ghost sooner = messages@.take(arrivals.index() as int);
        let ghost now = messages@.take(arrivals.index() + 1);
        let ghost held = slots@;
        let (index, item) = received;
        assert(messages@[arrivals.index() as int] == received);
        store_result(slots, index, item);
        assert(now.drop_last() =~= sooner);
        assert(now.last() == received);
        assert forall|slot: int| 0 <= slot < held.len() implies #[trigger] slots@[slot]
            == slot_after(old(slots)@[slot], now, slot) by {
            assert(held[slot] == slot_after(old(slots)@[slot], sooner, slot));
        }
    }
    assert(messages@.take(messages@.len() as int) =~= messages@);
}

} // verus!
