use vstd::prelude::*;

verus! {

/// A pool of equally sized byte chunks, made up front. A chunk is taken out
/// by `allocate` and given back by `deallocate`; the pool never holds more
/// chunks than its capacity.
pub struct MemoryPool {
    pool: Vec<Vec<u8>>,
    chunk_size: usize,
    capacity: usize,
}

impl View for MemoryPool {
    type V = Seq<Seq<u8>>;

    /// The free chunks; the last one is handed out first.
    closed spec fn view(&self) -> Seq<Seq<u8>> {
        Seq::new(self.pool@.len(), |i: int| self.pool@[i]@)
    }
}

impl MemoryPool {
    pub closed spec fn spec_chunk_size(&self) -> nat {
        self.chunk_size as nat
    }

    pub closed spec fn spec_capacity(&self) -> nat {
        self.capacity as nat
    }

    /// Every free chunk has the pool's size, and there are at most as many
    /// as the capacity.
    pub closed spec fn wf(&self) -> bool {
        &&& self.pool@.len() <= self.capacity
        &&& forall|i: int| 0 <= i < self.pool@.len() ==> (#[trigger] self.pool@[i])@.len() == self.chunk_size
    }

    /// A pool of `capacity` zeroed chunks of `chunk_size` bytes.
    pub fn new(chunk_size: usize, capacity: usize) -> (p: Self)
        ensures
            p.wf(),
            p.spec_chunk_size() == chunk_size,
            p.spec_capacity() == capacity,
            p@.len() == capacity,
            forall|i: int, j: int| 0 <= i < capacity && 0 <= j < chunk_size ==> p@[i][j] == 0u8,
    {
        let mut pool: Vec<Vec<u8>> = Vec::new();
        let mut i: usize = 0;
        while i < capacity
            invariant
                i <= capacity,
                pool@.len() == i,
                forall|k: int| 0 <= k < i ==> (#[trigger] pool@[k])@.len() == chunk_size,
                forall|k: int, j: int| 0 <= k < i && 0 <= j < chunk_size ==> #[trigger] pool@[k]@[j] == 0u8,
            decreases capacity - i,
        {
            let chunk: Vec<u8> = vec![0u8; chunk_size];
            pool.push(chunk);
            i = i + 1;
        }
        MemoryPool { pool, chunk_size, capacity }
    }

    /// Takes a free chunk out of the pool; `None` once the pool is exhausted.
    pub fn allocate(&mut self) -> (r: Option<Vec<u8>>)
        requires
            old(self).wf(),
        ensures
            final(self).wf(),
            final(self).spec_chunk_size() == old(self).spec_chunk_size(),
            final(self).spec_capacity() == old(self).spec_capacity(),
            final(self)@.len() <= final(self).spec_capacity(),
            old(self)@.len() == 0 ==> r is None && final(self)@ == old(self)@,
            old(self)@.len() > 0 ==> r is Some && r->0@ == old(self)@.last() && final(self)@ == old(
                self,
            )@.drop_last(),
            r is Some ==> r->0@.len() == old(self).spec_chunk_size(),
    {
        let r = self.pool.pop();
        proof {
            if old(self).pool@.len() > 0 {
                assert(self@ =~= old(self)@.drop_last());
                assert(old(self).pool@[old(self).pool@.len() - 1]@.len() == self.chunk_size);
            }
        }
        r
    }

    /// Gives `chunk` back; it is dropped if the pool is already full. Only a
    /// chunk of the pool's size can be given back.
    pub fn deallocate(&mut self, chunk: Vec<u8>)
        requires
            old(self).wf(),
            chunk@.len() == old(self).spec_chunk_size(),
        ensures
            final(self).wf(),
            final(self).spec_chunk_size() == old(self).spec_chunk_size(),
            final(self).spec_capacity() == old(self).spec_capacity(),
            final(self)@.len() <= final(self).spec_capacity(),
            old(self)@.len() < old(self).spec_capacity() ==> final(self)@ == old(self)@.push(chunk@),
            old(self)@.len() >= old(self).spec_capacity() ==> final(self)@ == old(self)@,
    {
        if self.pool.len() < self.capacity {
            self.pool.push(chunk);
            assert(self@ =~= old(self)@.push(chunk@));
        }
    }

    /// The number of free chunks.
    pub fn available_chunks(&self) -> (r: usize)
        ensures
            r == self@.len(),
            self.wf() ==> r <= self.spec_capacity(),
    {
        self.pool.len()
    }
}

} // verus!
