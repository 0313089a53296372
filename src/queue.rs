use vstd::prelude::*;

verus! {

/// A first-in, first-out queue made of two stacks: values come in on one and
/// leave from the other, which is refilled, reversed, only when empty.
pub struct Queue<T> {
    enqueue_stack: Vec<T>,
    dequeue_stack: Vec<T>,
}

impl<T> View for Queue<T> {
    type V = Seq<T>;

    /// The values, oldest first.
    closed spec fn view(&self) -> Seq<T> {
        self.dequeue_stack@.reverse() + self.enqueue_stack@
    }
}

impl<T> Queue<T> {
    pub fn new() -> (q: Self)
        ensures
            q@ == Seq::<T>::empty(),
    {
        let q = Queue { enqueue_stack: Vec::new(), dequeue_stack: Vec::new() };
        assert(q@ =~= Seq::<T>::empty());
        q
    }

    /// Adds `item` at the back.
    pub fn enqueue(&mut self, item: T)
        ensures
            final(self)@ == old(self)@.push(item),
    {
        self.enqueue_stack.push(item);
        assert(self@ =~= old(self)@.push(item));
    }

    /// Removes and returns the front value.
    pub fn dequeue(&mut self) -> (r: Option<T>)
        ensures
            old(self)@.len() == 0 ==> r is None && final(self)@ == old(self)@,
            old(self)@.len() > 0 ==> r == Some(old(self)@[0]) && final(self)@ == old(
                self,
            )@.drop_first(),
    {
        if self.dequeue_stack.len() == 0 {
            while self.enqueue_stack.len() > 0
                invariant
                    self.enqueue_stack@ + self.dequeue_stack@.reverse() == old(self)@,
                decreases self.enqueue_stack@.len(),
            {
                let ghost e = self.enqueue_stack@;
                let ghost d = self.dequeue_stack@;
                let item = self.enqueue_stack.pop().unwrap();
                self.dequeue_stack.push(item);
                assert(self.enqueue_stack@ + self.dequeue_stack@.reverse() =~= e + d.reverse());
            }
            assert(self@ =~= old(self)@);
        }
        let ghost d = self.dequeue_stack@;
        let r = self.dequeue_stack.pop();
        proof {
            if d.len() > 0 {
                assert(d.reverse()[0] == d.last());
                assert(self@ =~= old(self)@.drop_first());
            }
        }
        r
    }

    /// The number of values.
    pub fn size(&self) -> (r: usize)
        requires
            self@.len() <= usize::MAX,
        ensures
            r == self@.len(),
    {
        self.enqueue_stack.len() + self.dequeue_stack.len()
    }

    pub fn is_empty(&self) -> (r: bool)
        ensures
            r == (self@.len() == 0),
    {
        self.enqueue_stack.len() == 0 && self.dequeue_stack.len() == 0
    }
}

} // verus!
