use vstd::prelude::*;

verus! {

/// The last `n` elements of `s` (all of `s` when it is shorter).
pub open spec fn keep_last<T>(s: Seq<T>, n: nat) -> Seq<T> {
    if s.len() <= n {
        s
    } else {
        s.subrange(s.len() - n, s.len() as int)
    }
}

/// What a buffer of capacity `capacity` holds, oldest first, after the
/// writes `writes` into a fresh buffer, one `write` at a time.
pub open spec fn after_writes<T>(capacity: nat, writes: Seq<T>) -> Seq<T>
    decreases writes.len(),
{
    if writes.len() == 0 {
        Seq::empty()
    } else {
        keep_last(after_writes(capacity, writes.drop_last()).push(writes.last()), capacity)
    }
}

/// Fixed-capacity circular store. Once full, each write replaces the oldest
/// item; items are read oldest first.
pub struct RingBuffer<T> {
    items: Vec<T>,
    capacity: usize,
    next_insertion_index: usize,
}

impl<T> View for RingBuffer<T> {
    type V = Seq<T>;

    /// The stored items, oldest first.
    closed spec fn view(&self) -> Seq<T> {
        self.items@.subrange(self.next_insertion_index as int, self.items@.len() as int)
            + self.items@.subrange(0, self.next_insertion_index as int)
    }
}

impl<T> RingBuffer<T> {
    /// The capacity given at construction.
    pub closed spec fn spec_capacity(&self) -> nat {
        self.capacity as nat
    }

    pub closed spec fn wf(&self) -> bool {
        &&& self.items.len() <= self.capacity
        &&& self.items.len() < self.capacity ==> self.next_insertion_index == self.items.len()
        &&& self.items.len() == self.capacity ==> (
            self.next_insertion_index < self.capacity || self.capacity == 0)
        &&& self.capacity == 0 ==> self.next_insertion_index == 0
    }

    pub fn new(capacity: usize) -> (r: Self)
        ensures
            r.wf(),
            r@ == Seq::<T>::empty(),
            r.spec_capacity() == capacity,
    {
        let r = RingBuffer { items: Vec::with_capacity(capacity), capacity, next_insertion_index: 0 };
        assert(r@ =~= Seq::<T>::empty());
        r
    }

    /// Stores `item`, dropping the oldest item when the buffer is full. A
    /// buffer of capacity zero keeps nothing.
    pub fn write(&mut self, item: T)
        requires
            old(self).wf(),
        ensures
            final(self).wf(),
            final(self).spec_capacity() == old(self).spec_capacity(),
            final(self)@ == keep_last(old(self)@.push(item), old(self).spec_capacity()),
    {
        if self.capacity == 0 {
            assert(keep_last(old(self)@.push(item), 0) =~= Seq::<T>::empty());
            assert(self@ =~= Seq::<T>::empty());
            return;
        }
        let ghost before = self@;
        if self.items.len() < self.capacity {
            self.items.push(item);
            assert(before =~= old(self).items@);
        } else {
            let ghost n = self.next_insertion_index as int;
            let ghost c = self.capacity as int;
            self.items.set(self.next_insertion_index, item);
            let ghost after = self.items@.subrange(n + 1, c) + self.items@.subrange(0, n + 1);
            assert(after =~= keep_last(before.push(item), c as nat));
        }
        self.next_insertion_index = self.next_insertion_index + 1;
        if self.next_insertion_index == self.capacity {
            self.next_insertion_index = 0;
        }
        assert(self@ =~= keep_last(before.push(item), self.capacity as nat));
    }

    /// How many items are stored.
    pub fn len(&self) -> (r: usize)
        requires
            self.wf(),
        ensures
            r == self@.len(),
    {
        self.items.len()
    }

    /// The capacity given at construction.
    pub fn capacity(&self) -> (r: usize)
        ensures
            r == self.spec_capacity(),
    {
        self.capacity
    }

    /// The `i`-th stored item, counting from the oldest.
    pub fn get(&self, i: usize) -> (r: &T)
        requires
            self.wf(),
            i < self@.len(),
        ensures
            *r == self@[i as int],
    {
        let tail = self.items.len() - self.next_insertion_index;
        if i < tail {
            &self.items[self.next_insertion_index + i]
        } else {
            &self.items[i - tail]
        }
    }

    /// References to the stored items, oldest first.
    pub fn oldest_first(&self) -> (r: Vec<&T>)
        requires
            self.wf(),
        ensures
            r@.len() == self@.len(),
            forall|i: int| 0 <= i < r@.len() ==> *r@[i] == self@[i],
    {
        let mut r: Vec<&T> = Vec::new();
        let n = self.items.len();
        let mut i: usize = 0;
        while i < n
            invariant
                self.wf(),
                n == self@.len(),
                i <= n,
                r@.len() == i,
                forall|j: int| 0 <= j < i ==> *r@[j] == self@[j],
            decreases n - i,
        {
            r.push(self.get(i));
            i = i + 1;
        }
        r
    }
}

/// Writing a sequence into a fresh buffer of capacity `capacity` leaves
/// exactly its last `capacity` elements, in the order they were written.
pub proof fn lemma_ring_buffer_keeps_last_writes<T>(capacity: nat, writes: Seq<T>)
    ensures
        after_writes(capacity, writes) == keep_last(writes, capacity),
    decreases writes.len(),
{
    if writes.len() > 0 {
        let prefix = writes.drop_last();
        lemma_ring_buffer_keeps_last_writes(capacity, prefix);
        let kept = keep_last(prefix, capacity);
        assert(keep_last(kept.push(writes.last()), capacity) =~= keep_last(writes, capacity));
    } else {
        assert(after_writes(capacity, writes) =~= keep_last(writes, capacity));
    }
}

/// A buffer of capacity one holds at most one item, and after any write it
/// holds exactly the most recent one.
pub proof fn lemma_ring_buffer_of_one_holds_latest<T>(writes: Seq<T>)
    ensures
        after_writes(1, writes).len() <= 1,
        writes.len() > 0 ==> after_writes(1, writes) == seq![writes.last()],
{
    lemma_ring_buffer_keeps_last_writes(1, writes);
    if writes.len() > 0 {
        assert(keep_last(writes, 1) =~= seq![writes.last()]);
    }
}

} // verus!
