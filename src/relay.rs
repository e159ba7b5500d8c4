//! The decisions of the two loops that relay items through a shared ring
//! buffer: a producer that stores chunks of input, and a consumer that
//! takes items out for output. Each step is taken while holding exclusive
//! access to the buffer; the caller performs the waiting and the I/O that
//! a step asks for, and wakes the other side after every change.

use vstd::prelude::*;
use crate::ringbuffer::RingBuffer;

verus! {

/// What the producer does after a step.
#[derive(Clone, Copy, Debug, PartialEq, Eq, Structural)]
pub enum ProducerAction {
    /// The buffer is full: wait until the consumer has taken items.
    Wait,
    /// This many leading items of the pending ones were stored.
    Stored(usize),
}

/// What the consumer does after a step.
#[derive(Clone, Copy, Debug, PartialEq, Eq, Structural)]
pub enum ConsumerAction {
    /// The buffer is empty but still open: wait until the producer has
    /// stored items or closed the buffer.
    Wait,
    /// This many items were taken to the front of the output chunk: write
    /// them out.
    Emit(usize),
    /// The buffer is empty and closed: the relay is over.
    Finish,
}

/// One producer step: stores what it can of `pending`, the items of the
/// current input chunk that are not stored yet, or asks to wait when the
/// buffer is full. A step that stores always stores at least one item.
pub fn producer_step<T: Copy>(ring: &mut RingBuffer<T>, pending: &[T]) -> (r: ProducerAction)
    requires
        old(ring).wf(),
        !old(ring)@.closed,
        pending@.len() > 0,
    ensures
        final(ring).wf(),
        old(ring)@.free_slots == 0 ==> r == ProducerAction::Wait && final(ring)@ == old(ring)@,
        old(ring)@.free_slots > 0 ==> {
            &&& r == ProducerAction::Stored(old(ring)@.put_count(pending@.len()) as usize)
            &&& final(ring)@ == old(ring)@.after_put(pending@)
            &&& old(ring)@.put_count(pending@.len()) > 0
        },
{
    if ring.is_full() {
        ProducerAction::Wait
    } else {
        let n = ring.put(pending);
        ProducerAction::Stored(n)
    }
}

/// One consumer step: takes what it can into `output`, reports that the
/// relay is over when the buffer is empty and closed, or asks to wait
/// when it is empty and open.
pub fn consumer_step<T: Copy>(ring: &mut RingBuffer<T>, output: &mut [T]) -> (r: ConsumerAction)
    requires
        old(ring).wf(),
        old(output)@.len() > 0,
    ensures
        final(ring).wf(),
        old(ring)@.filled_slots() > 0 ==> {
            let n = old(ring)@.get_count(old(output)@.len());
            &&& r == ConsumerAction::Emit(n as usize)
            &&& n > 0
            &&& final(ring)@ == old(ring)@.after_get(old(output)@.len())
            &&& final(output)@ == old(ring)@.contents.take(n as int) + old(output)@.skip(
                n as int,
            )
        },
        old(ring)@.filled_slots() == 0 ==> final(ring)@ == old(ring)@ && final(output)@ == old(
            output,
        )@,
        old(ring)@.filled_slots() == 0 && old(ring)@.closed ==> r == ConsumerAction::Finish,
        old(ring)@.filled_slots() == 0 && !old(ring)@.closed ==> r == ConsumerAction::Wait,
{
    let n = ring.get(output);
    if n > 0 {
        ConsumerAction::Emit(n)
    } else if ring.is_closed() {
        ConsumerAction::Finish
    } else {
        ConsumerAction::Wait
    }
}

} // verus!
