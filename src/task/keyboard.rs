//! The scancode channel: a bounded queue filled by the keyboard interrupt
//! and drained by the task that polls the scancode stream.
use crossbeam_queue::ArrayQueue;
use vstd::prelude::*;

verus! {

#[verifier::external_type_specification]
#[verifier::external_body]
#[verifier::reject_recursive_types(T)]
pub struct ExArrayQueue<T>(ArrayQueue<T>);

/// The bytes a queue holds, oldest first.
pub uninterp spec fn queue_items(q: ArrayQueue<u8>) -> Seq<u8>;

/// The number of bytes a queue was made to hold.
pub uninterp spec fn queue_capacity(q: ArrayQueue<u8>) -> nat;

/// Relies on `ArrayQueue::new`: an empty queue with room for `cap` items. It
/// panics on a capacity of zero.
#[verifier::external_body]
fn new_queue(cap: usize) -> (q: ArrayQueue<u8>)
    requires
        cap > 0,
    ensures
        queue_items(q) == Seq::<u8>::empty(),
        queue_capacity(q) == cap,
{
    ArrayQueue::new(cap)
}

/// Relies on `ArrayQueue::push`: the value joins the tail unless the queue
/// already holds its capacity, in which case it comes back as the error.
#[verifier::external_body]
fn queue_push(q: &mut ArrayQueue<u8>, value: u8) -> (r: Result<(), u8>)
    ensures
        queue_capacity(*final(q)) == queue_capacity(*old(q)),
        queue_items(*old(q)).len() < queue_capacity(*old(q)) ==> r is Ok && queue_items(*final(q))
            == queue_items(*old(q)).push(value),
        queue_items(*old(q)).len() >= queue_capacity(*old(q)) ==> (r matches Err(v) && v == value)
            && queue_items(*final(q)) == queue_items(*old(q)),
{
    q.push(value).map_err(|e| e.0)
}

/// Relies on `ArrayQueue::pop`: the oldest value leaves the queue; an error
/// where the queue is empty.
#[verifier::external_body]
fn queue_pop(q: &mut ArrayQueue<u8>) -> (r: Option<u8>)
    ensures
        queue_capacity(*final(q)) == queue_capacity(*old(q)),
        queue_items(*old(q)).len() == 0 ==> r is None && queue_items(*final(q)) == queue_items(*old(q)),
        queue_items(*old(q)).len() > 0 ==> r == Some(queue_items(*old(q))[0]) && queue_items(*final(q))
            == queue_items(*old(q)).drop_first(),
{
    q.pop().ok()
}

/// Number of scancodes the channel buffers.
pub const SCANCODE_QUEUE_CAPACITY: usize = 100;

/// The buffer after a push: the byte joins it unless it is full.
pub open spec fn push_step(buffer: Seq<u8>, cap: nat, byte: u8) -> Seq<u8> {
    if buffer.len() < cap {
        buffer.push(byte)
    } else {
        buffer
    }
}

/// What a poll takes from the buffer, and the buffer after it.
pub open spec fn pop_step(buffer: Seq<u8>) -> (Option<u8>, Seq<u8>) {
    if buffer.len() > 0 {
        (Some(buffer[0]), buffer.drop_first())
    } else {
        (None, buffer)
    }
}

/// What became of a scancode handed to the channel.
#[derive(Clone, Copy, Debug, PartialEq, Eq)]
pub enum Delivery {
    /// It joined the queue; `wake` tells whether a waiting consumer must be
    /// woken.
    Queued { wake: bool },
    /// The queue was full and the scancode was dropped.
    Dropped,
}

/// The answer to one poll of the stream.
#[derive(Clone, Copy, Debug, PartialEq, Eq)]
pub enum PollNext {
    /// A scancode was taken from the queue.
    Ready(u8),
    /// The queue was empty; the consumer is registered to be woken.
    Pending,
}

/// The channel: a bounded queue of scancodes and whether a consumer waits
/// to be woken.
pub struct ScancodeStream {
    queue: ArrayQueue<u8>,
    waker_registered: bool,
}

impl ScancodeStream {
    /// The scancodes buffered, oldest first.
    pub closed spec fn buffer(&self) -> Seq<u8> {
        queue_items(self.queue)
    }

    /// How many scancodes the channel buffers at most.
    pub closed spec fn capacity(&self) -> nat {
        queue_capacity(self.queue)
    }

    /// Whether a consumer waits to be woken.
    pub closed spec fn waiting(&self) -> bool {
        self.waker_registered
    }

    pub open spec fn wf(&self) -> bool {
        self.capacity() == SCANCODE_QUEUE_CAPACITY && self.buffer().len() <= self.capacity()
    }

    /// A channel with an empty queue and no consumer waiting.
    pub fn new() -> (r: ScancodeStream)
        ensures
            r.wf(),
            r.buffer() == Seq::<u8>::empty(),
            !r.waiting(),
    {
        ScancodeStream { queue: new_queue(SCANCODE_QUEUE_CAPACITY), waker_registered: false }
    }

    /// Hands a scancode from the interrupt to the channel. It is dropped
    /// where the queue is full; else it is queued, and a waiting consumer is
    /// to be woken.
    pub fn add_scancode(&mut self, scancode: u8) -> (r: Delivery)
        requires
            old(self).wf(),
        ensures
            final(self).wf(),
            final(self).buffer() == push_step(old(self).buffer(), old(self).capacity(), scancode),
            old(self).buffer().len() < old(self).capacity() ==> r == (Delivery::Queued {
                wake: old(self).waiting(),
            }) && !final(self).waiting(),
            old(self).buffer().len() >= old(self).capacity() ==> r == Delivery::Dropped
                && final(self).waiting() == old(self).waiting(),
    {
        match queue_push(&mut self.queue, scancode) {
            Ok(()) => {
                let wake = self.waker_registered;
                self.waker_registered = false;
                Delivery::Queued { wake }
            },
            Err(_) => Delivery::Dropped,
        }
    }

    /// Polls the stream: the oldest scancode where there is one, without
    /// registering; else the consumer registers, the queue is looked at once
    /// more, and the registration is taken back if a scancode came meanwhile.
    pub fn poll_next(&mut self) -> (r: PollNext)
        requires
            old(self).wf(),
        ensures
            final(self).wf(),
            final(self).buffer() == pop_step(old(self).buffer()).1,
            pop_step(old(self).buffer()).0 matches Some(b) ==> r == PollNext::Ready(b)
                && final(self).waiting() == old(self).waiting(),
            pop_step(old(self).buffer()).0 is None ==> r == PollNext::Pending && final(self).waiting(),
    {
        if let Some(scancode) = queue_pop(&mut self.queue) {
            return PollNext::Ready(scancode);
        }
        self.waker_registered = true;
        match queue_pop(&mut self.queue) {
            Some(scancode) => {
                self.waker_registered = false;
                PollNext::Ready(scancode)
            },
            None => PollNext::Pending,
        }
    }
}

/// A run of the channel: each event is a push of a byte (`Some`) or a poll
/// (`None`). Yields the bytes the consumer saw, the bytes left buffered, and
/// the bytes the channel accepted, each in order.
pub open spec fn run(events: Seq<Option<u8>>, cap: nat) -> (Seq<u8>, Seq<u8>, Seq<u8>)
    decreases events.len(),
{
    if events.len() == 0 {
        (Seq::empty(), Seq::empty(), Seq::empty())
    } else {
        let (seen, buffer, accepted) = run(events.drop_last(), cap);
        match events.last() {
            Some(b) => if buffer.len() < cap {
                (seen, push_step(buffer, cap, b), accepted.push(b))
            } else {
                (seen, buffer, accepted)
            },
            None => match pop_step(buffer).0 {
                Some(b) => (seen.push(b), pop_step(buffer).1, accepted),
                None => (seen, buffer, accepted),
            },
        }
    }
}

/// The bytes pushed in a run, in order.
pub open spec fn pushes(events: Seq<Option<u8>>) -> Seq<u8>
    decreases events.len(),
{
    if events.len() == 0 {
        Seq::empty()
    } else {
        match events.last() {
            Some(b) => pushes(events.drop_last()).push(b),
            None => pushes(events.drop_last()),
        }
    }
}

/// No push of the run found the buffer full.
pub open spec fn never_full(events: Seq<Option<u8>>, cap: nat) -> bool
    decreases events.len(),
{
    if events.len() == 0 {
        true
    } else {
        never_full(events.drop_last(), cap) && (events.last() is Some ==> run(
            events.drop_last(),
            cap,
        ).1.len() < cap)
    }
}

/// However pushes and polls interleave, the consumer sees the accepted bytes
/// in push order, the rest still buffered; at most `cap` bytes are buffered;
/// and where no push finds the buffer full, every pushed byte is accepted.
pub proof fn lemma_channel_in_order(events: Seq<Option<u8>>, cap: nat)
    ensures
        run(events, cap).0 + run(events, cap).1 == run(events, cap).2,
        run(events, cap).1.len() <= cap,
        never_full(events, cap) ==> run(events, cap).2 == pushes(events),
    decreases events.len(),
{
    if events.len() > 0 {
        let front = events.drop_last();
        lemma_channel_in_order(front, cap);
        let (seen, buffer, accepted) = run(front, cap);
        match events.last() {
            Some(b) => {
                if buffer.len() < cap {
                    assert(seen + buffer.push(b) =~= (seen + buffer).push(b));
                }
            },
            None => {
                if buffer.len() > 0 {
                    assert(seen.push(buffer[0]) + buffer.drop_first() =~= seen + buffer);
                }
            },
        }
    }
}

} // verus!
