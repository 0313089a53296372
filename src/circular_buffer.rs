use vstd::prelude::*;
use crate::ring_buffer::empty_slots;

verus! {

/// A fixed-capacity FIFO buffer over optional slots; a push into a full
/// buffer overwrites the oldest value.
pub struct CircularBuffer<T> {
    buffer: Vec<Option<T>>,
    head: usize,
    tail: usize,
    size: usize,
    capacity: usize,
}

impl<T> CircularBuffer<T> {
    /// The slot of the `i`-th oldest value.
    closed spec fn slot(&self, i: int) -> int {
        if self.head + i < self.capacity {
            self.head + i
        } else {
            self.head + i - self.capacity
        }
    }

    /// The slots agree with the head, tail and size.
    pub closed spec fn wf(&self) -> bool {
        &&& self.buffer@.len() == self.capacity
        &&& self.size <= self.capacity
        &&& self.capacity == 0 ==> self.head == 0 && self.tail == 0
        &&& self.capacity > 0 ==> self.head < self.capacity && self.tail == self.slot(
            self.size as int,
        )
        &&& forall|i: int| 0 <= i < self.size ==> (#[trigger] self.buffer@[self.slot(i)]) is Some
    }

    /// The number of slots.
    pub closed spec fn spec_capacity(&self) -> nat {
        self.capacity as nat
    }

    /// Index after `i` in a buffer of `capacity` slots.
    fn advance(&self, i: usize) -> (r: usize)
        requires
            i < self.capacity,
        ensures
            r == if i + 1 < self.capacity {
                i + 1
            } else {
                0
            },
    {
        if i + 1 < self.capacity {
            i + 1
        } else {
            0
        }
    }
}

impl<T> View for CircularBuffer<T> {
    type V = Seq<T>;

    /// The values, oldest first.
    closed spec fn view(&self) -> Seq<T> {
        Seq::new(self.size as nat, |i: int| self.buffer@[self.slot(i)]->0)
    }
}

impl<T: Default> CircularBuffer<T> {
    pub fn new(capacity: usize) -> (r: Self)
        ensures
            r.wf(),
            r@ == Seq::<T>::empty(),
            r.spec_capacity() == capacity,
    {
        let r = CircularBuffer { buffer: empty_slots(capacity), head: 0, tail: 0, size: 0, capacity };
        assert(r@ =~= Seq::<T>::empty());
        r
    }

    /// Appends `item`; when the buffer is full the oldest value is dropped.
    /// A buffer of no slots cannot take a value.
    pub fn push(&mut self, item: T)
        requires
            old(self).wf(),
            old(self).spec_capacity() > 0,
        ensures
            final(self).wf(),
            final(self).spec_capacity() == old(self).spec_capacity(),
            final(self)@.len() <= final(self).spec_capacity(),
            old(self)@.len() < old(self).spec_capacity() ==> final(self)@ == old(self)@.push(item),
            old(self)@.len() == old(self).spec_capacity() ==> final(self)@ == old(
                self,
            )@.drop_first().push(item),
    {
        let ghost pre = *self;
        let t = self.tail;
        proof {
            assert(t == pre.slot(pre.size as int));
        }
        self.buffer.set(t, Some(item));
        self.tail = self.advance(self.tail);
        if self.size == self.capacity {
            self.head = self.advance(self.head);
        } else {
            self.size = self.size + 1;
        }
        proof {
            let full = pre.size == pre.capacity;
            assert forall|i: int| 0 <= i < self.size implies #[trigger] self.slot(i) == if full {
                pre.slot(i + 1)
            } else {
                pre.slot(i)
            } by {}
            assert forall|i: int| 0 <= i < self.size implies (#[trigger] self.buffer@[self.slot(i)]) is Some by {
                if i == self.size - 1 {
                    assert(self.slot(i) == t);
                } else {
                    if full {
                        assert(pre.buffer@[pre.slot(i + 1)] is Some);
                    } else {
                        assert(pre.buffer@[pre.slot(i)] is Some);
                    }
                }
            }
            if full {
                assert(self@ =~= pre@.drop_first().push(item)) by {
                    assert forall|i: int| 0 <= i < self.size - 1 implies self@[i] == pre@[i + 1] by {
                        assert(pre.slot(i + 1) != t);
                    }
                }
            } else {
                assert(self@ =~= pre@.push(item)) by {
                    assert forall|i: int| 0 <= i < pre.size implies self@[i] == pre@[i] by {
                        assert(pre.slot(i) != t);
                    }
                }
            }
        }
    }

    /// Removes and returns the oldest value.
    pub fn pop(&mut self) -> (r: Option<T>)
        requires
            old(self).wf(),
        ensures
            final(self).wf(),
            final(self).spec_capacity() == old(self).spec_capacity(),
            final(self)@.len() <= final(self).spec_capacity(),
            old(self)@.len() == 0 ==> r is None && final(self)@ == old(self)@,
            old(self)@.len() > 0 ==> r == Some(old(self)@[0]) && final(self)@ == old(
                self,
            )@.drop_first(),
    {
        if self.is_empty() {
            return None;
        }
        let ghost pre = *self;
        let h = self.head;
        proof {
            assert(pre.buffer@[pre.slot(0)] is Some);
        }
        let item = self.buffer[h].take();
        self.head = self.advance(h);
        self.size = self.size - 1;
        proof {
            assert forall|i: int| 0 <= i < self.size implies #[trigger] self.slot(i) == pre.slot(i + 1)
                by {}
            assert forall|i: int| 0 <= i < self.size implies (#[trigger] self.buffer@[self.slot(i)]) is Some by {
                assert(pre.buffer@[pre.slot(i + 1)] is Some);
                assert(pre.slot(i + 1) != h);
            }
            assert(self@ =~= pre@.drop_first()) by {
                assert forall|i: int| 0 <= i < self.size implies self@[i] == pre@[i + 1] by {
                    assert(pre.slot(i + 1) != h);
                }
            }
        }
        item
    }

    pub fn is_empty(&self) -> (r: bool)
        ensures
            r == (self@.len() == 0),
    {
        self.size == 0
    }

    pub fn size(&self) -> (r: usize)
        ensures
            r == self@.len(),
            self.wf() ==> r <= self.spec_capacity(),
    {
        self.size
    }

    /// The number of slots.
    pub fn capacity(&self) -> (r: usize)
        ensures
            r == self.spec_capacity(),
    {
        self.capacity
    }
}

} // verus!
