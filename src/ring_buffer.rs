use vstd::prelude::*;

verus! {

/// A fixed-capacity FIFO buffer that overwrites its oldest value when full.
pub struct RingBuffer<T> {
    buffer: Vec<Option<T>>,
    head: usize,
    tail: usize,
    size: usize,
    capacity: usize,
}

/// `vec` holds `n` empty slots.
pub(crate) open spec fn all_empty<T>(vec: Seq<Option<T>>, n: nat) -> bool {
    &&& vec.len() == n
    &&& forall|i: int| 0 <= i < n ==> #[trigger] vec[i] is None
}

/// `n` empty slots.
pub(crate) fn empty_slots<T>(n: usize) -> (r: Vec<Option<T>>)
    ensures
        all_empty(r@, n as nat),
{
    let mut v: Vec<Option<T>> = Vec::new();
    let mut i: usize = 0;
    while i < n
        invariant
            i <= n,
            all_empty(v@, i as nat),
        decreases n - i,
    {
        v.push(None);
        i = i + 1;
    }
    v
}

impl<T> RingBuffer<T> {
    /// The slot of the `i`-th oldest value.
    closed spec fn slot(&self, i: int) -> int {
        if self.head + i < self.capacity {
            self.head + i
        } else {
            self.head + i - self.capacity
        }
    }

    /// The slots agree with the head, tail and size.
    pub closed spec fn wf(&self) -> bool {
        &&& self.buffer@.len() == self.capacity
        &&& self.size <= self.capacity
        &&& self.capacity == 0 ==> self.head == 0 && self.tail == 0
        &&& self.capacity > 0 ==> self.head < self.capacity && self.tail == self.slot(
            self.size as int,
        )
        &&& forall|i: int| 0 <= i < self.size ==> (#[trigger] self.buffer@[self.slot(i)]) is Some
    }

    /// The number of slots.
    pub closed spec fn spec_capacity(&self) -> nat {
        self.capacity as nat
    }

    /// Index after `i` in a buffer of `capacity` slots.
    fn advance(&self, i: usize) -> (r: usize)
        requires
            i < self.capacity,
        ensures
            r == if i + 1 < self.capacity {
                i + 1
            } else {
                0
            },
    {
        if i + 1 < self.capacity {
            i + 1
        } else {
            0
        }
    }
}

impl<T> View for RingBuffer<T> {
    type V = Seq<T>;

    /// The values, oldest first.
    closed spec fn view(&self) -> Seq<T> {
        Seq::new(self.size as nat, |i: int| self.buffer@[self.slot(i)]->0)
    }
}

impl<T> RingBuffer<T> {
    pub fn new(capacity: usize) -> (r: Self)
        ensures
            r.wf(),
            r@ == Seq::<T>::empty(),
            r.spec_capacity() == capacity,
    {
        let r = RingBuffer { buffer: empty_slots(capacity), head: 0, tail: 0, size: 0, capacity };
        assert(r@ =~= Seq::<T>::empty());
        r
    }

    /// Appends `item`; when the buffer is full the oldest value is dropped.
    /// A buffer of no slots cannot take a value.
    pub fn push(&mut self, item: T)
        requires
            old(self).wf(),
            old(self).spec_capacity() > 0,
        ensures
            final(self).wf(),
            final(self).spec_capacity() == old(self).spec_capacity(),
            final(self)@.len() <= final(self).spec_capacity(),
            old(self)@.len() < old(self).spec_capacity() ==> final(self)@ == old(self)@.push(item),
            old(self)@.len() == old(self).spec_capacity() ==> final(self)@ == old(
                self,
            )@.drop_first().push(item),
    {
        let ghost pre = *self;
        let t = self.tail;
        proof {
            assert(t == pre.slot(pre.size as int));
        }
        if self.size == self.capacity {
            self.head = self.advance(self.head);
        } else {
            self.size = self.size + 1;
        }
        self.buffer.set(t, Some(item));
        self.tail = self.advance(self.tail);
        proof {
            let full = pre.size == pre.capacity;
            assert forall|i: int| 0 <= i < self.size implies #[trigger] self.slot(i) == if full {
                pre.slot(i + 1)
            } else {
                pre.slot(i)
            } by {}
            assert forall|i: int| 0 <= i < self.size implies (#[trigger] self.buffer@[self.slot(i)]) is Some by {
                if i == self.size - 1 {
                    assert(self.slot(i) == t);
                } else {
                    if full {
                        assert(pre.buffer@[pre.slot(i + 1)] is Some);
                    } else {
                        assert(pre.buffer@[pre.slot(i)] is Some);
                    }
                }
            }
            if full {
                assert(self@ =~= pre@.drop_first().push(item)) by {
                    assert forall|i: int| 0 <= i < self.size - 1 implies self@[i] == pre@[i + 1] by {
                        assert(pre.slot(i + 1) != t);
                    }
                }
            } else {
                assert(self@ =~= pre@.push(item)) by {
                    assert forall|i: int| 0 <= i < pre.size implies self@[i] == pre@[i] by {
                        assert(pre.slot(i) != t);
                    }
                }
            }
        }
    }

    /// Removes and returns the oldest value.
    pub fn pop(&mut self) -> (r: Option<T>)
        requires
            old(self).wf(),
        ensures
            final(self).wf(),
            final(self).spec_capacity() == old(self).spec_capacity(),
            final(self)@.len() <= final(self).spec_capacity(),
            old(self)@.len() == 0 ==> r is None && final(self)@ == old(self)@,
            old(self)@.len() > 0 ==> r == Some(old(self)@[0]) && final(self)@ == old(
                self,
            )@.drop_first(),
    {
        if self.size == 0 {
            return None;
        }
        let ghost pre = *self;
        let h = self.head;
        proof {
            assert(pre.buffer@[pre.slot(0)] is Some);
        }
        let item = self.buffer[h].take();
        self.head = self.advance(h);
        self.size = self.size - 1;
        proof {
            assert forall|i: int| 0 <= i < self.size implies #[trigger] self.slot(i) == pre.slot(i + 1)
                by {}
            assert forall|i: int| 0 <= i < self.size implies (#[trigger] self.buffer@[self.slot(i)]) is Some by {
                assert(pre.buffer@[pre.slot(i + 1)] is Some);
                assert(pre.slot(i + 1) != h);
            }
            assert(self@ =~= pre@.drop_first()) by {
                assert forall|i: int| 0 <= i < self.size implies self@[i] == pre@[i + 1] by {
                    assert(pre.slot(i + 1) != h);
                }
            }
        }
        item
    }

    /// The oldest value, without removing it.
    pub fn peek(&self) -> (r: Option<&T>)
        requires
            self.wf(),
        ensures
            self@.len() == 0 ==> r is None,
            self@.len() > 0 ==> r == Some(&self@[0]),
    {
        if self.size == 0 {
            None
        } else {
            proof {
                assert(self.buffer@[self.slot(0)] is Some);
            }
            self.buffer[self.head].as_ref()
        }
    }

    pub fn size(&self) -> (r: usize)
        ensures
            r == self@.len(),
            self.wf() ==> r <= self.spec_capacity(),
    {
        self.size
    }

    pub fn is_empty(&self) -> (r: bool)
        ensures
            r == (self@.len() == 0),
    {
        self.size == 0
    }

    pub fn is_full(&self) -> (r: bool)
        ensures
            r == (self@.len() == self.spec_capacity()),
    {
        self.size == self.capacity
    }

    /// Drops every value; the capacity stays.
    pub fn clear(&mut self)
        requires
            old(self).wf(),
        ensures
            final(self).wf(),
            final(self)@ == Seq::<T>::empty(),
            final(self).spec_capacity() == old(self).spec_capacity(),
            final(self)@.len() <= final(self).spec_capacity(),
    {
        self.buffer = empty_slots(self.capacity);
        self.head = 0;
        self.tail = 0;
        self.size = 0;
        assert(self@ =~= Seq::<T>::empty());
    }

    /// References to the values, oldest first.
    pub fn iter(&self) -> (r: Vec<&T>)
        requires
            self.wf(),
        ensures
            r@.len() == self@.len(),
            forall|i: int| 0 <= i < r@.len() ==> *r@[i] == self@[i],
    {
        let mut out: Vec<&T> = Vec::new();
        let mut index = self.head;
        let mut k: usize = 0;
        while k < self.size
            invariant
                self.wf(),
                k <= self.size,
                out@.len() == k,
                k < self.size ==> index == self.slot(k as int),
                forall|i: int| 0 <= i < k ==> *out@[i] == self@[i],
            decreases self.size - k,
        {
            proof {
                assert(self.buffer@[self.slot(k as int)] is Some);
            }
            let item = self.buffer[index].as_ref().unwrap();
            out.push(item);
            if k + 1 < self.size {
                index = self.advance(index);
            }
            k = k + 1;
        }
        out
    }
}

} // verus!
