//! A ring buffer: it keeps the most recent entries, up to its capacity.

use vstd::prelude::*;

verus! {

/// The last `count` entries of `entries`, or all of them where there are
/// fewer.
pub open spec fn keep_last<T>(entries: Seq<T>, count: nat) -> Seq<T> {
    if entries.len() <= count {
        entries
    } else {
        entries.subrange(entries.len() - count, entries.len() as int)
    }
}

/// What a buffer of capacity `capacity` that holds `held` holds after
/// `entries` were pushed, one after the other.
pub open spec fn push_all<T>(held: Seq<T>, entries: Seq<T>, capacity: nat) -> Seq<T>
    decreases entries.len(),
{
    if entries.len() == 0 {
        held
    } else {
        push_all(keep_last(held.push(entries[0]), capacity), entries.drop_first(), capacity)
    }
}

/// Pushing entries one by one leaves the most recent ones, as many as the
/// capacity allows, in the order in which they came.
pub proof fn lemma_push_all<T>(held: Seq<T>, entries: Seq<T>, capacity: nat)
    requires
        held.len() <= capacity,
    ensures
        push_all(held, entries, capacity) == keep_last(held + entries, capacity),
    decreases entries.len(),
{
    if entries.len() == 0 {
        assert(held + entries =~= held);
    } else {
        let next = keep_last(held.push(entries[0]), capacity);
        lemma_push_all(next, entries.drop_first(), capacity);
        assert(keep_last(next + entries.drop_first(), capacity) =~= keep_last(
            held + entries,
            capacity,
        ));
    }
}

/// Pushing entries into an empty buffer leaves the most recent ones, as
/// many as the capacity allows, oldest first.
pub proof fn lemma_push_all_from_empty<T>(entries: Seq<T>, capacity: nat)
    ensures
        push_all(Seq::<T>::empty(), entries, capacity) == keep_last(entries, capacity),
{
    lemma_push_all(Seq::<T>::empty(), entries, capacity);
    assert(Seq::<T>::empty() + entries =~= entries);
}

/// A buffer of fixed capacity that overwrites its oldest entry once full.
pub struct RingBuffer<T> {
    slots: Vec<T>,
    /// The slot of the oldest entry, once every slot is in use.
    head: usize,
    capacity: usize,
}

impl<T> RingBuffer<T> {
    /// The buffer is in order.
    pub closed spec fn wf(&self) -> bool {
        &&& self.slots@.len() <= self.capacity
        &&& self.head <= self.slots@.len()
        &&& self.slots@.len() < self.capacity ==> self.head == 0
        &&& self.slots@.len() == self.capacity && self.capacity > 0 ==> self.head < self.capacity
    }

    /// The entries, oldest first.
    pub closed spec fn view(&self) -> Seq<T> {
        self.slots@.subrange(self.head as int, self.slots@.len() as int) + self.slots@.subrange(
            0,
            self.head as int,
        )
    }

    /// The capacity.
    pub closed spec fn spec_capacity(&self) -> nat {
        self.capacity as nat
    }

    /// An empty buffer that keeps at most `capacity` entries.
    pub fn new(capacity: usize) -> (buffer: RingBuffer<T>)
        ensures
            buffer.wf(),
            buffer@ == Seq::<T>::empty(),
            buffer.spec_capacity() == capacity,
    {
        let buffer = RingBuffer { slots: Vec::new(), head: 0, capacity };
        assert(buffer@ =~= Seq::<T>::empty());
        buffer
    }

    /// The capacity.
    pub fn capacity(&self) -> (capacity: usize)
        ensures
            capacity == self.spec_capacity(),
    {
        self.capacity
    }

    /// The number of entries.
    pub fn len(&self) -> (len: usize)
        requires
            self.wf(),
        ensures
            len == self@.len(),
            len <= self.spec_capacity(),
    {
        self.slots.len()
    }

    /// Whether there is no entry.
    pub fn is_empty(&self) -> (empty: bool)
        requires
            self.wf(),
        ensures
            empty == (self@.len() == 0),
    {
        self.slots.len() == 0
    }

    /// Appends `entry`; once the buffer is full, the oldest entry leaves.
    pub fn push(&mut self, entry: T)
        requires
            old(self).wf(),
        ensures
            final(self).wf(),
            final(self).spec_capacity() == old(self).spec_capacity(),
            final(self)@ == keep_last(old(self)@.push(entry), old(self).spec_capacity()),
    {
        let ghost before = self@;
        if self.capacity == 0 {
            assert(keep_last(before.push(entry), 0) =~= before);
        } else if self.slots.len() < self.capacity {
            self.slots.push(entry);
            assert(self@ =~= before.push(entry));
        } else {
            let at = self.head;
            self.slots[at] = entry;
            self.head = if at + 1 == self.capacity {
                0
            } else {
                at + 1
            };
            assert(self@ =~= keep_last(before.push(entry), self.capacity as nat));
        }
    }

    /// The entry at `index`, counted from the oldest.
    pub fn get(&self, index: usize) -> (entry: &T)
        requires
            self.wf(),
            index < self@.len(),
        ensures
            *entry == self@[index as int],
    {
        let rest = self.slots.len() - self.head;
        if index < rest {
            &self.slots[self.head + index]
        } else {
            &self.slots[index - rest]
        }
    }
}

} // verus!
