//! The fixed-capacity output byte queue: a single-producer single-consumer
//! ring buffer from the `heapless` crate, holding the decoded bytes that the
//! caller has not drained yet.  The queue itself is outside code; its
//! behaviour is stated here and believed, and everything built on top is
//! verified against these statements.

use vstd::prelude::*;

verus! {

#[verifier::external_type_specification]
#[verifier::external_body]
#[verifier::reject_recursive_types(T)]
pub struct ExQueue<T, const N: usize>(heapless::spsc::Queue<T, N>);

/// The bytes the queue holds, front of the queue first.
pub uninterp spec fn queue_bytes(q: heapless::spsc::Queue<u8, 17>) -> Seq<u8>;

/// A byte FIFO with room for 16 bytes.  A `heapless::spsc::Queue<_, N>`
/// stores at most `N - 1` items, so 17 slots give a capacity of 16.
pub struct RingBuffer {
    queue: heapless::spsc::Queue<u8, 17>,
}

impl View for RingBuffer {
    type V = Seq<u8>;

    closed spec fn view(&self) -> Seq<u8> {
        queue_bytes(self.queue)
    }
}

impl RingBuffer {
    /// Relies on heapless::spsc::Queue::new: a fresh queue holds nothing.
    #[verifier::external_body]
    pub fn new() -> (r: RingBuffer)
        ensures
            r@ == Seq::<u8>::empty(),
    {
        RingBuffer { queue: heapless::spsc::Queue::new() }
    }

    /// Relies on heapless::spsc::Queue::len: the number of items held.
    #[verifier::external_body]
    fn len(&self) -> (r: usize)
        ensures
            r == queue_bytes(self.queue).len(),
    {
        self.queue.len()
    }

    /// Relies on heapless::spsc::Queue::capacity: a queue with 17 slots
    /// holds at most 16 items.
    #[verifier::external_body]
    fn capacity(&self) -> (r: usize)
        ensures
            r == 16,
    {
        self.queue.capacity()
    }

    /// Relies on heapless::spsc::Queue::enqueue: appends at the back when
    /// fewer than 16 items are held, and hands the item back otherwise.
    #[verifier::external_body]
    pub fn write_byte(&mut self, byte: u8) -> (r: Result<(), ()>)
        ensures
            old(self)@.len() < 16 ==> r is Ok && final(self)@ == old(self)@.push(byte),
            old(self)@.len() >= 16 ==> r is Err && final(self)@ == old(self)@,
    {
        self.queue.enqueue(byte).map_err(|_| ())
    }

    /// Relies on heapless::spsc::Queue::dequeue: removes and returns the
    /// front item, or returns nothing when the queue is empty.
    #[verifier::external_body]
    fn dequeue(&mut self) -> (r: Option<u8>)
        ensures
            queue_bytes(old(self).queue).len() > 0 ==> r == Some(queue_bytes(old(self).queue)[0])
                && queue_bytes(final(self).queue) == queue_bytes(old(self).queue).drop_first(),
            queue_bytes(old(self).queue).len() == 0 ==> r is None && queue_bytes(final(self).queue)
                == queue_bytes(old(self).queue),
    {
        self.queue.dequeue()
    }

    /// How many more bytes the queue can take.
    pub fn space_available(&self) -> (r: usize)
        requires
            self@.len() <= 16,
        ensures
            r == 16 - self@.len(),
    {
        self.capacity() - self.len()
    }

    /// Pops ready bytes into `buf[start..]`; stops at the end of `buf` or
    /// when the queue runs out, whichever comes first.
    pub(crate) fn read_from(&mut self, buf: &mut [u8], start: usize) -> (n: usize)
        requires
            start <= old(buf)@.len(),
        ensures
            n == vstd::math::min(old(buf)@.len() - start, old(self)@.len() as int),
            final(self)@ == old(self)@.skip(n as int),
            final(buf)@.len() == old(buf)@.len(),
            final(buf)@.subrange(start as int, start + n) == old(self)@.take(n as int),
            final(buf)@.subrange(0, start as int) == old(buf)@.subrange(0, start as int),
            final(buf)@.subrange(start + n, final(buf)@.len() as int) == old(buf)@.subrange(
                start + n,
                old(buf)@.len() as int,
            ),
            forall|j: int| 0 <= j < start ==> final(buf)@[j] == old(buf)@[j],
            forall|j: int| start <= j < start + n ==> final(buf)@[j] == old(self)@[j - start],
            forall|j: int|
                start + n <= j < old(buf)@.len() ==> final(buf)@[j] == old(buf)@[j],
    {
        let ghost buf0 = buf@;
        let ghost q0 = self@;
        let mut i: usize = start;
        loop
            invariant
                start <= i <= buf@.len(),
                buf@.len() == buf0.len(),
                self@ == q0.skip(i - start),
                i - start <= q0.len(),
                forall|j: int| start <= j < i ==> buf@[j] == q0[j - start],
                forall|j: int| 0 <= j < start ==> buf@[j] == buf0[j],
                forall|j: int| i <= j < buf@.len() ==> buf@[j] == buf0[j],
            ensures
                i == buf@.len() || self@.len() == 0,
            decreases buf@.len() - i,
        {
            if i >= buf.len() {
                break ;
            }
            match self.dequeue() {
                Some(b) => {
                    buf[i] = b;
                    proof {
                        assert(self@ =~= q0.skip(i + 1 - start));
                    }
                    i = i + 1;
                },
                None => {
                    break ;
                },
            }
        }
        proof {
            assert(buf@.subrange(start as int, i as int) =~= q0.take(i - start));
            assert(buf@.subrange(0, start as int) =~= buf0.subrange(0, start as int));
            assert(buf@.subrange(i as int, buf@.len() as int) =~= buf0.subrange(
                i as int,
                buf0.len() as int,
            ));
        }
        i - start
    }

    /// Pops ready bytes into `buf`, front of the queue first; returns how
    /// many were written.
    pub fn read(&mut self, buf: &mut [u8]) -> (n: usize)
        ensures
            n == vstd::math::min(old(buf)@.len() as int, old(self)@.len() as int),
            final(self)@ == old(self)@.skip(n as int),
            final(buf)@.len() == old(buf)@.len(),
            final(buf)@.subrange(0, n as int) == old(self)@.take(n as int),
            final(buf)@.subrange(n as int, final(buf)@.len() as int) == old(buf)@.subrange(
                n as int,
                old(buf)@.len() as int,
            ),
    {
        self.read_from(buf, 0)
    }
}

} // verus!
