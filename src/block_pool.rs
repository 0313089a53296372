use std::collections::HashMap;
use vstd::prelude::*;

verus! {

broadcast use vstd::std_specs::hash::group_hash_axioms;

/// A block of bytes, tagged with the size it was made for.
pub struct MemoryBlock {
    pub size: usize,
    pub data: Vec<u8>,
}

/// Free blocks kept by size, and made on demand when none of a size is free.
pub struct MemoryPool {
    pool: HashMap<usize, Vec<MemoryBlock>>,
}

/// `n` zero bytes.
pub open spec fn zeros(n: nat) -> Seq<u8> {
    Seq::new(n, |i: int| 0u8)
}

impl MemoryPool {
    /// The free blocks of size `size`; the last one is handed out first.
    pub closed spec fn free_blocks(&self, size: usize) -> Seq<MemoryBlock> {
        if self.pool@.contains_key(size) {
            self.pool@[size]@
        } else {
            Seq::empty()
        }
    }

    /// Every free block is kept under its own size.
    pub closed spec fn wf(&self) -> bool {
        forall|k: usize, i: int|
            0 <= i < self.free_blocks(k).len() ==> (#[trigger] self.free_blocks(k)[i]).size == k
    }

    pub fn new() -> (p: Self)
        ensures
            p.wf(),
            forall|k: usize| p.free_blocks(k).len() == 0,
    {
        MemoryPool { pool: HashMap::new() }
    }

    /// Takes the last free block of size `size`, if there is one.
    fn take_free(&mut self, size: usize) -> (r: Option<MemoryBlock>)
        requires
            old(self).wf(),
        ensures
            final(self).wf(),
            old(self).free_blocks(size).len() == 0 ==> r is None,
            old(self).free_blocks(size).len() > 0 ==> r == Some(old(self).free_blocks(size).last()),
            final(self).free_blocks(size) == if r is Some {
                old(self).free_blocks(size).drop_last()
            } else {
                old(self).free_blocks(size)
            },
            forall|k: usize| k != size ==> final(self).free_blocks(k) == old(self).free_blocks(k),
    {
        match self.pool.remove(&size) {
            None => {
                proof {
                    assert(self.pool@ =~= old(self).pool@);
                    assert forall|k: usize, i: int|
                        0 <= i < self.free_blocks(k).len() implies (#[trigger] self.free_blocks(k)[i]).size == k by {
                        assert(self.free_blocks(k) == old(self).free_blocks(k));
                    }
                }
                None
            },
            Some(mut blocks) => {
                let r = blocks.pop();
                self.pool.insert(size, blocks);
                proof {
                    assert forall|k: usize| k != size implies self.free_blocks(k) == old(self).free_blocks(k) by {}
                    assert forall|k: usize, i: int|
                        0 <= i < self.free_blocks(k).len() implies (#[trigger] self.free_blocks(k)[i]).size == k by {
                        if k == size {
                            assert(self.free_blocks(k)[i] == old(self).free_blocks(k)[i]);
                        } else {
                            assert(self.free_blocks(k) == old(self).free_blocks(k));
                        }
                    }
                    assert(self.wf());
                }
                r
            },
        }
    }

    /// A block of size `size`: the last free one of that size, else a new
    /// zeroed one.
    pub fn allocate(&mut self, size: usize) -> (r: Option<MemoryBlock>)
        requires
            old(self).wf(),
        ensures
            final(self).wf(),
            r is Some && r->0.size == size,
            old(self).free_blocks(size).len() > 0 ==> r == Some(old(self).free_blocks(size).last())
                && final(self).free_blocks(size) == old(self).free_blocks(size).drop_last(),
            old(self).free_blocks(size).len() == 0 ==> r->0.data@ == zeros(size as nat)
                && final(self).free_blocks(size) == old(self).free_blocks(size),
            forall|k: usize| k != size ==> final(self).free_blocks(k) == old(self).free_blocks(k),
    {
        match self.take_free(size) {
            Some(block) => Some(block),
            None => {
                let data: Vec<u8> = vec![0u8; size];
                assert(data@ =~= zeros(size as nat));
                Some(MemoryBlock { size, data })
            },
        }
    }

    /// Puts `block` among the free blocks of its size.
    pub fn deallocate(&mut self, block: MemoryBlock)
        requires
            old(self).wf(),
        ensures
            final(self).wf(),
            final(self).free_blocks(block.size) == old(self).free_blocks(block.size).push(block),
            forall|k: usize| k != block.size ==> final(self).free_blocks(k) == old(self).free_blocks(k),
    {
        let size = block.size;
        let mut blocks = match self.pool.remove(&size) {
            None => Vec::new(),
            Some(v) => v,
        };
        proof {
            assert(blocks@ == old(self).free_blocks(size));
        }
        blocks.push(block);
        self.pool.insert(size, blocks);
        proof {
            assert forall|k: usize| k != size implies self.free_blocks(k) == old(self).free_blocks(k) by {}
            assert forall|k: usize, i: int|
                0 <= i < self.free_blocks(k).len() implies (#[trigger] self.free_blocks(k)[i]).size == k by {
                if k == size {
                    if i < old(self).free_blocks(k).len() {
                        assert(self.free_blocks(k)[i] == old(self).free_blocks(k)[i]);
                    }
                } else {
                    assert(self.free_blocks(k) == old(self).free_blocks(k));
                }
            }
        }
    }

    /// A block of a fixed size; the same as `allocate`.
    pub fn allocate_fixed_size(&mut self, size: usize) -> (r: Option<MemoryBlock>)
        requires
            old(self).wf(),
        ensures
            final(self).wf(),
            r is Some && r->0.size == size,
            old(self).free_blocks(size).len() > 0 ==> r == Some(old(self).free_blocks(size).last())
                && final(self).free_blocks(size) == old(self).free_blocks(size).drop_last(),
            old(self).free_blocks(size).len() == 0 ==> r->0.data@ == zeros(size as nat)
                && final(self).free_blocks(size) == old(self).free_blocks(size),
            forall|k: usize| k != size ==> final(self).free_blocks(k) == old(self).free_blocks(k),
    {
        self.allocate(size)
    }

    /// A free block of the smallest size from `min_size` to `max_size` that
    /// has one; no block is made here.
    pub fn allocate_variable_size(&mut self, min_size: usize, max_size: usize) -> (r: Option<
        MemoryBlock,
    >)
        requires
            old(self).wf(),
        ensures
            final(self).wf(),
            r is None <==> forall|k: usize|
                min_size <= k <= max_size ==> old(self).free_blocks(k).len() == 0,
            r is None ==> forall|k: usize| final(self).free_blocks(k) == old(self).free_blocks(k),
            r is Some ==> {
                let s = r->0.size;
                &&& min_size <= s <= max_size
                &&& forall|k: usize| min_size <= k < s ==> old(self).free_blocks(k).len() == 0
                &&& old(self).free_blocks(s).len() > 0
                &&& r->0 == old(self).free_blocks(s).last()
                &&& final(self).free_blocks(s) == old(self).free_blocks(s).drop_last()
                &&& forall|k: usize| k != s ==> final(self).free_blocks(k) == old(self).free_blocks(k)
            },
    {
        if min_size > max_size {
            return None;
        }
        let mut size = min_size;
        loop
            invariant
                self.wf(),
                min_size <= size <= max_size,
                forall|k: usize| min_size <= k < size ==> old(self).free_blocks(k).len() == 0,
                forall|k: usize| self.free_blocks(k) == old(self).free_blocks(k),
            decreases max_size - size,
        {
            let found = self.take_free(size);
            match found {
                Some(block) => {
                    proof {
                        assert(old(self).free_blocks(size)[old(self).free_blocks(size).len() - 1].size == size);
                    }
                    return Some(block);
                },
                None => {
                    proof {
                        assert forall|k: usize| self.free_blocks(k) == old(self).free_blocks(k) by {
                            if k != size {
                            }
                        }
                    }
                },
            }
            if size == max_size {
                return None;
            }
            size = size + 1;
        }
    }

    /// Gives a block back; the same as `deallocate`.
    pub fn deallocate_block(&mut self, block: MemoryBlock)
        requires
            old(self).wf(),
        ensures
            final(self).wf(),
            final(self).free_blocks(block.size) == old(self).free_blocks(block.size).push(block),
            forall|k: usize| k != block.size ==> final(self).free_blocks(k) == old(self).free_blocks(k),
    {
        self.deallocate(block)
    }
}

} // verus!
