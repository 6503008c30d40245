//! A bounded first-in first-out queue over a circular array of slots.
//!
//! Every slot carries a readiness flag beside its payload: a slot goes from
//! empty to full when an item is written and back to empty when it is read.
//! The queue can be closed; once it is closed and drained, a reader is told
//! that the stream has ended.

use crate::circular::next_index;
use crate::circular::offset;
use crate::circular::wrap;
use std::sync::Arc;
use vstd::prelude::*;
use vstd::rwlock::RwLock;
use vstd::rwlock::RwLockPredicate;

verus! {

/// What a queue is, apart from how it is laid out: the items in flight, oldest
/// first, the number of slots, and whether the writing side is gone.
pub struct Queue<T> {
    pub items: Seq<T>,
    pub capacity: nat,
    pub closed: bool,
}

/// What one attempt to read finds.
pub enum Dequeued<T> {
    /// The oldest item.
    Item(T),
    /// Nothing now; more may come.
    Empty,
    /// Nothing, and nothing will come.
    Closed,
}

impl<T> Dequeued<T> {
    /// The item, if the read found one.
    pub fn into_option(self) -> (item: Option<T>)
        ensures
            item == (match self {
                Dequeued::Item(value) => Some(value),
                _ => None,
            }),
    {
        match self {
            Dequeued::Item(value) => Some(value),
            _ => None,
        }
    }

    /// Whether the read found the stream ended.
    pub fn is_closed(&self) -> (closed: bool)
        ensures
            closed == (self is Closed),
    {
        match self {
            Dequeued::Closed => true,
            _ => false,
        }
    }

    /// Whether the read found nothing, with more to come.
    pub fn is_empty(&self) -> (empty: bool)
        ensures
            empty == (self is Empty),
    {
        match self {
            Dequeued::Empty => true,
            _ => false,
        }
    }
}

impl<T> Queue<T> {
    /// An open queue with nothing in flight.
    pub open spec fn fresh(capacity: nat) -> Queue<T> {
        Queue { items: Seq::empty(), capacity, closed: false }
    }

    /// Whether a write would be taken.
    pub open spec fn accepts(self) -> bool {
        !self.closed && self.items.len() < self.capacity
    }

    /// The queue after an attempt to write `item`.
    pub open spec fn enqueue(self, item: T) -> Queue<T> {
        if self.accepts() {
            Queue { items: self.items.push(item), ..self }
        } else {
            self
        }
    }

    /// What an attempt to read returns.
    pub open spec fn front(self) -> Dequeued<T> {
        if self.items.len() > 0 {
            Dequeued::Item(self.items[0])
        } else if self.closed {
            Dequeued::Closed
        } else {
            Dequeued::Empty
        }
    }

    /// The queue after an attempt to read.
    pub open spec fn dequeue(self) -> Queue<T> {
        if self.items.len() > 0 {
            Queue { items: self.items.drop_first(), ..self }
        } else {
            self
        }
    }

    /// The queue after the writing side is torn down.
    pub open spec fn close(self) -> Queue<T> {
        Queue { closed: true, ..self }
    }

    /// The queue after an attempt to write each of `items` in turn.
    pub open spec fn enqueue_all(self, items: Seq<T>) -> Queue<T>
        decreases items.len(),
    {
        if items.len() == 0 {
            self
        } else {
            self.enqueue_all(items.drop_last()).enqueue(items.last())
        }
    }

    /// The queue after `n` attempts to read.
    pub open spec fn dequeue_n(self, n: nat) -> Queue<T>
        decreases n,
    {
        if n == 0 {
            self
        } else {
            self.dequeue_n((n - 1) as nat).dequeue()
        }
    }
}

/// Writes into an open queue with room are all taken, in order.
pub proof fn lemma_enqueue_all<T>(capacity: nat, items: Seq<T>)
    requires
        items.len() <= capacity,
    ensures
        Queue::<T>::fresh(capacity).enqueue_all(items) == (Queue {
            items,
            capacity,
            closed: false,
        }),
    decreases items.len(),
{
    if items.len() == 0 {
        assert(items =~= Seq::<T>::empty());
    } else {
        lemma_enqueue_all(capacity, items.drop_last());
        assert(items.drop_last().push(items.last()) =~= items);
    }
}

/// Reads take the items away oldest first, and leave the rest of the queue as
/// it was.
pub proof fn lemma_dequeue_n<T>(queue: Queue<T>, n: nat)
    ensures
        queue.dequeue_n(n) == (Queue {
            items: if n <= queue.items.len() {
                queue.items.skip(n as int)
            } else {
                Seq::empty()
            },
            ..queue
        }),
    decreases n,
{
    if n == 0 {
        assert(queue.items.skip(0) =~= queue.items);
    } else {
        lemma_dequeue_n(queue, (n - 1) as nat);
        let before = queue.dequeue_n((n - 1) as nat);
        let after = queue.dequeue_n(n);
        if n <= queue.items.len() {
            assert(after.items =~= queue.items.skip(n as int));
        } else {
            assert(before.items.len() == 0);
            assert(after.items =~= Seq::<T>::empty());
        }
    }
}

/// A ring of `capacity` slots takes `capacity` writes and refuses the next
/// until a read frees a slot. Once the writing side is gone, reads hand out
/// what is left, oldest first, and then answer `Closed` for good.
pub proof fn lemma_fill_then_drain<T>(capacity: nat, items: Seq<T>, extra: T)
    requires
        capacity > 0,
        items.len() == capacity,
    ensures
        forall|k: int|
            0 <= k < capacity ==> #[trigger] Queue::<T>::fresh(capacity).enqueue_all(
                items.take(k),
            ).accepts(),
        Queue::<T>::fresh(capacity).enqueue_all(items).items == items,
        !Queue::<T>::fresh(capacity).enqueue_all(items).accepts(),
        Queue::<T>::fresh(capacity).enqueue_all(items).enqueue(extra) == Queue::<T>::fresh(
            capacity,
        ).enqueue_all(items),
        Queue::<T>::fresh(capacity).enqueue_all(items).dequeue().accepts(),
        Queue::<T>::fresh(capacity).enqueue_all(items).dequeue().enqueue(extra).items
            == items.drop_first().push(extra),
        forall|k: nat|
            k < capacity ==> #[trigger] Queue::<T>::fresh(capacity).enqueue_all(
                items,
            ).close().dequeue_n(k).front() == Dequeued::Item(items[k as int]),
        forall|n: nat|
            n >= capacity ==> #[trigger] Queue::<T>::fresh(capacity).enqueue_all(
                items,
            ).close().dequeue_n(n).front() == Dequeued::<T>::Closed,
{
    let fresh = Queue::<T>::fresh(capacity);
    assert forall|k: int| 0 <= k < capacity implies #[trigger] fresh.enqueue_all(
        items.take(k),
    ).accepts() by {
        lemma_enqueue_all(capacity, items.take(k));
    }
    lemma_enqueue_all(capacity, items);
    let full = fresh.enqueue_all(items);
    assert forall|k: nat| k < capacity implies #[trigger] full.close().dequeue_n(k).front()
        == Dequeued::Item(items[k as int]) by {
        lemma_dequeue_n(full.close(), k);
    }
    assert forall|n: nat| n >= capacity implies #[trigger] full.close().dequeue_n(n).front()
        == Dequeued::<T>::Closed by {
        lemma_dequeue_n(full.close(), n);
    }
}

/// One entry of the circular array: a readiness flag and, while the flag is
/// set, a payload.
pub struct Slot<T> {
    ready: bool,
    value: Option<T>,
}

impl<T> Slot<T> {
    /// Whether the slot is marked full.
    pub closed spec fn is_ready(&self) -> bool {
        self.ready
    }

    /// What the slot holds.
    pub closed spec fn payload(&self) -> Option<T> {
        self.value
    }

    /// The flag and the payload agree.
    pub open spec fn wf(&self) -> bool {
        self.is_ready() <==> self.payload() is Some
    }

    /// An empty slot.
    pub fn new() -> (slot: Slot<T>)
        ensures
            slot.wf(),
            !slot.is_ready(),
    {
        Slot { ready: false, value: None }
    }

    /// Takes the payload out of a full slot and marks the slot empty.
    pub fn get(&mut self) -> (value: T)
        requires
            old(self).wf(),
            old(self).is_ready(),
        ensures
            Some(value) == old(self).payload(),
            final(self).wf(),
            !final(self).is_ready(),
    {
        let taken = self.value.take();
        self.ready = false;
        taken.unwrap()
    }

    /// Puts a payload into an empty slot and marks the slot full.
    pub fn write(&mut self, value: T)
        requires
            old(self).wf(),
            !old(self).is_ready(),
        ensures
            final(self).wf(),
            final(self).payload() == Some(value),
    {
        self.value = Some(value);
        self.ready = true;
    }
}

/// The circular array with its cursors.
///
/// `tail` is the index of the oldest item, `head` the index that the next
/// write goes to, `len` the distance from `tail` to `head`, that is, the
/// number of items in flight.
pub struct RingBuffer<T> {
    buffer: Vec<Slot<T>>,
    head: usize,
    tail: usize,
    len: usize,
    closed: bool,
    capacity: usize,
}

impl<T> RingBuffer<T> {
    /// The layout's invariant: the cursors lie within the array, `head` is
    /// `len` slots after `tail`, and exactly the slots from `tail` up to `head`
    /// are full.
    pub closed spec fn wf(&self) -> bool {
        &&& self.capacity > 0
        &&& self.buffer@.len() == self.capacity
        &&& self.head < self.capacity
        &&& self.tail < self.capacity
        &&& self.len <= self.capacity
        &&& self.head == wrap(self.tail as int, self.len as int, self.capacity as int)
        &&& forall|i: int|
            0 <= i < self.capacity ==> {
                &&& (#[trigger] self.buffer@[i]).wf()
                &&& self.buffer@[i].is_ready() <==> offset(
                    i,
                    self.tail as int,
                    self.capacity as int,
                ) < self.len
            }
    }

    /// The item `j` places behind the oldest.
    pub closed spec fn item(&self, j: int) -> T {
        self.buffer@[wrap(self.tail as int, j, self.capacity as int)].payload()->0
    }

    /// The queue that the array holds.
    pub closed spec fn view(&self) -> Queue<T> {
        Queue {
            items: Seq::new(self.len as nat, |j: int| self.item(j)),
            capacity: self.capacity as nat,
            closed: self.closed,
        }
    }

    /// An open ring of `capacity` empty slots.
    pub fn new(capacity: usize) -> (ring: RingBuffer<T>)
        requires
            capacity > 0,
        ensures
            ring.wf(),
            ring@ == Queue::<T>::fresh(capacity as nat),
    {
        let mut buffer: Vec<Slot<T>> = Vec::with_capacity(capacity);
        let mut filled: usize = 0;
        while filled < capacity
            invariant
                filled <= capacity,
                buffer@.len() == filled,
                forall|i: int|
                    0 <= i < filled ==> (#[trigger] buffer@[i]).wf() && !buffer@[i].is_ready(),
            decreases capacity - filled,
        {
            buffer.push(Slot::new());
            filled += 1;
        }
        let ring = RingBuffer { buffer, head: 0, tail: 0, len: 0, closed: false, capacity };
        assert(ring@.items =~= Seq::<T>::empty());
        ring
    }

    /// Writes `elem` behind the newest item. A full ring, or a closed one,
    /// hands `elem` back at once.
    pub fn try_enqueue(&mut self, elem: T) -> (outcome: Result<(), T>)
        requires
            old(self).wf(),
        ensures
            final(self).wf(),
            final(self)@ == old(self)@.enqueue(elem),
            old(self)@.accepts() ==> outcome is Ok,
            !old(self)@.accepts() ==> outcome == Err::<(), T>(elem),
    {
        if self.closed || self.len >= self.capacity {
            return Err(elem);
        }
        let index: usize = self.head;
        self.buffer[index].write(elem);
        self.head = next_index(index, self.capacity);
        self.len = self.len + 1;
        proof {
            let before = *old(self);
            let after = *self;
            assert forall|j: int| 0 <= j < before.len implies after.item(j) == before.item(j) by {}
            assert(after@.items =~= before@.items.push(elem));
        }
        Ok(())
    }

    /// Reads the oldest item. An empty ring answers `Closed` once the writing
    /// side is gone, and `Empty` as long as it is not.
    pub fn try_dequeue(&mut self) -> (outcome: Dequeued<T>)
        requires
            old(self).wf(),
        ensures
            final(self).wf(),
            final(self)@ == old(self)@.dequeue(),
            outcome == old(self)@.front(),
    {
        if self.len == 0 {
            if self.closed {
                return Dequeued::Closed;
            } else {
                return Dequeued::Empty;
            }
        }
        let index: usize = self.tail;
        let value = self.buffer[index].get();
        self.tail = next_index(index, self.capacity);
        self.len = self.len - 1;
        proof {
            let before = *old(self);
            let after = *self;
            assert forall|j: int| 0 <= j < after.len implies after.item(j) == before.item(
                j + 1,
            ) by {}
            assert(after@.items =~= before@.items.drop_first());
        }
        Dequeued::Item(value)
    }

    /// Marks the writing side as gone. What is in flight stays.
    pub fn close(&mut self)
        requires
            old(self).wf(),
        ensures
            final(self).wf(),
            final(self)@ == old(self)@.close(),
    {
        self.closed = true;
        proof {
            let before = *old(self);
            let after = *self;
            assert(after@.items =~= before@.items);
        }
    }

    /// The number of items in flight.
    pub fn len(&self) -> (n: usize)
        requires
            self.wf(),
        ensures
            n == self@.items.len(),
    {
        self.len
    }

    /// The number of slots.
    pub fn capacity(&self) -> (n: usize)
        requires
            self.wf(),
        ensures
            n == self@.capacity,
    {
        self.capacity
    }

    /// Whether the writing side is gone.
    pub fn is_closed(&self) -> (closed: bool)
        requires
            self.wf(),
        ensures
            closed == self@.closed,
    {
        self.closed
    }
}

/// What a shared ring must satisfy whenever nobody is working on it: it is
/// a valid ring, and it has the number of slots that it was made with.
pub struct RingInvariant {
    pub capacity: nat,
}

impl<T> RwLockPredicate<RingBuffer<T>> for RingInvariant {
    open spec fn inv(self, ring: RingBuffer<T>) -> bool {
        ring.wf() && ring@.capacity == self.capacity
    }
}

/// The writing end of a shared ring.
///
/// The two ends share one `RingBuffer` behind a lock. An end holds the lock
/// only for the one attempt that it makes, so neither end ever waits for an
/// item or for room: it is told at once to try again.
pub struct Producer<T> {
    inner: Arc<RwLock<RingBuffer<T>, RingInvariant>>,
}

/// The reading end of a shared ring.
pub struct Consumer<T> {
    inner: Arc<RwLock<RingBuffer<T>, RingInvariant>>,
}

impl<T> Producer<T> {
    /// The number of slots of the shared ring.
    pub closed spec fn capacity(&self) -> nat {
        self.inner.pred().capacity
    }

    /// One attempt to write to the shared ring: `RingBuffer::try_enqueue` on
    /// the ring as it stands at that moment. Whether the ring has room then
    /// depends on the other end; an item that is not taken comes back
    /// unchanged.
    pub fn try_enqueue(&self, elem: T) -> (outcome: Result<(), T>)
        ensures
            outcome matches Err(returned) ==> returned == elem,
    {
        let (mut ring, handle) = self.inner.acquire_write();
        let outcome = ring.try_enqueue(elem);
        handle.release_write(ring);
        outcome
    }

    /// Tears the writing end down: the shared ring is closed, and no further
    /// write can reach it.
    pub fn close(self) {
        let (mut ring, handle) = self.inner.acquire_write();
        ring.close();
        handle.release_write(ring);
    }
}

impl<T> Consumer<T> {
    /// The number of slots of the shared ring.
    pub closed spec fn capacity(&self) -> nat {
        self.inner.pred().capacity
    }

    /// One attempt to read from the shared ring: `RingBuffer::try_dequeue` on
    /// the ring as it stands at that moment. What the ring holds then
    /// depends on the other end.
    pub fn try_dequeue(&self) -> Dequeued<T> {
        let (mut ring, handle) = self.inner.acquire_write();
        let outcome = ring.try_dequeue();
        handle.release_write(ring);
        outcome
    }
}

/// A new open ring of `capacity` slots, shared by its two ends.
pub fn channel<T>(capacity: usize) -> (ends: (Producer<T>, Arc<Consumer<T>>))
    requires
        capacity > 0,
    ensures
        ends.0.capacity() == capacity,
        ends.1.capacity() == capacity,
{
    let ring: RingBuffer<T> = RingBuffer::new(capacity);
    let shared = Arc::new(RwLock::new(ring, Ghost(RingInvariant { capacity: capacity as nat })));
    let other = shared.clone();
    (Producer { inner: shared }, Arc::new(Consumer { inner: other }))
}

} // verus!
