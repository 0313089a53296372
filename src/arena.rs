use vstd::prelude::*;

verus! {

/// A bump allocator over one block of zeroed bytes. A chunk is handed out as
/// its offset into the block; `reset` makes the whole block free again.
pub struct MemoryArena {
    memory: Vec<u8>,
    current: usize,
}

impl MemoryArena {
    /// The size of the block.
    pub closed spec fn spec_size(&self) -> nat {
        self.memory@.len()
    }

    /// The offset where the next chunk starts.
    pub closed spec fn spec_used(&self) -> nat {
        self.current as nat
    }

    pub closed spec fn wf(&self) -> bool {
        self.current <= self.memory@.len()
    }

    /// An arena over `size` zeroed bytes.
    pub fn new(size: usize) -> (a: Self)
        ensures
            a.wf(),
            a.spec_size() == size,
            a.spec_used() == 0,
    {
        let mut memory: Vec<u8> = Vec::new();
        let mut i: usize = 0;
        while i < size
            invariant
                i <= size,
                memory@.len() == i,
            decreases size - i,
        {
            memory.push(0);
            i = i + 1;
        }
        MemoryArena { memory, current: 0 }
    }

    /// Hands out the next `size` bytes as their offset. Fails on a size of 0
    /// and when fewer than `size` bytes are left.
    pub fn allocate(&mut self, size: usize) -> (r: Option<usize>)
        requires
            old(self).wf(),
        ensures
            final(self).wf(),
            final(self).spec_size() == old(self).spec_size(),
            final(self).spec_used() <= final(self).spec_size(),
            size == 0 || old(self).spec_used() + size > old(self).spec_size() ==> r is None
                && final(self).spec_used() == old(self).spec_used(),
            size > 0 && old(self).spec_used() + size <= old(self).spec_size() ==> r is Some
                && r->0 == old(self).spec_used() && final(self).spec_used() == old(self).spec_used()
                + size,
    {
        if size == 0 {
            return None;
        }
        if size <= self.memory.len() - self.current {
            let start = self.current;
            self.current = self.current + size;
            Some(start)
        } else {
            None
        }
    }

    /// Makes the whole block free again.
    pub fn reset(&mut self)
        requires
            old(self).wf(),
        ensures
            final(self).wf(),
            final(self).spec_size() == old(self).spec_size(),
            final(self).spec_used() <= final(self).spec_size(),
            final(self).spec_used() == 0,
    {
        self.current = 0;
    }

    /// The number of bytes not handed out.
    pub fn remaining(&self) -> (r: usize)
        requires
            self.wf(),
        ensures
            r == self.spec_size() - self.spec_used(),
            self.spec_used() <= self.spec_size(),
    {
        self.memory.len() - self.current
    }
}

} // verus!
