//! The kernel's allocator: a chunk free list over a heap region given once
//! at start-up.

use vstd::prelude::*;
use crate::chunk::{
    ChunkHeader, HeapMemory, CHUNK_HEADER_SIZE, alloc_address, free_after_alloc,
    used_after_alloc, free_after_release, heap_shape, heap_covered,
};

verus! {

/// Why an allocation failed.
#[derive(Debug, PartialEq, Eq, Structural)]
pub enum AllocErr {
    /// No free chunk can hold `request` bytes and a header.
    Exhausted { request: usize },
}

/// The allocator: the free list's head and the heap it manages.
pub struct MyAllocator {
    head: ChunkHeader,
    memory: HeapMemory,
}

impl MyAllocator {
    /// The free list and the heap are consistent.
    pub closed spec fn wf(&self) -> bool {
        self.head.wf(&self.memory)
    }

    /// The free chunks as (address, size), in address order.
    pub closed spec fn free_chunks(&self) -> Seq<(usize, usize)> {
        self.memory.free_chunks()
    }

    /// The chunks handed out, by address, as (size, slack).
    pub closed spec fn used_chunks(&self) -> Map<usize, (usize, usize)> {
        self.memory.used_chunks()
    }

    /// First address of the heap.
    pub closed spec fn heap_start(&self) -> int {
        self.memory.heap_start()
    }

    /// One past the last address of the heap.
    pub closed spec fn heap_end(&self) -> int {
        self.memory.heap_end()
    }

    /// A consistent allocator's heap is well shaped (chunks inside it, in
    /// order, apart, not overlapping) and every byte of it is in a free or
    /// a used chunk.
    pub proof fn lemma_heap_invariant(&self)
        requires
            self.wf(),
        ensures
            heap_shape(self.free_chunks(), self.used_chunks(), self.heap_start(), self.heap_end()),
            heap_covered(self.free_chunks(), self.used_chunks(), self.heap_start(), self.heap_end()),
    {
        self.head.lemma_wf_heap(&self.memory);
    }

    /// An allocator with no heap yet: every allocation fails.
    pub fn empty() -> (a: MyAllocator)
        ensures
            a.wf(),
            a.free_chunks() == Seq::<(usize, usize)>::empty(),
            a.used_chunks() == Map::<usize, (usize, usize)>::empty(),
    {
        let head = ChunkHeader::empty();
        let memory = HeapMemory::new();
        MyAllocator { head, memory }
    }

    /// The same as `empty`.
    pub fn new() -> (a: MyAllocator)
        ensures
            a.wf(),
            a.free_chunks() == Seq::<(usize, usize)>::empty(),
            a.used_chunks() == Map::<usize, (usize, usize)>::empty(),
    {
        Self::empty()
    }

    /// Hands the region `[heap_start, heap_start + heap_size)` to the
    /// allocator as one free chunk.
    pub fn init(&mut self, heap_start: usize, heap_size: usize)
        requires
            heap_start + heap_size <= usize::MAX,
        ensures
            final(self).wf(),
            final(self).free_chunks() == seq![(heap_start, heap_size)],
            final(self).used_chunks() == Map::<usize, (usize, usize)>::empty(),
            final(self).heap_start() == heap_start,
            final(self).heap_end() == heap_start + heap_size,
    {
        self.head = ChunkHeader::new(heap_start, heap_size, &mut self.memory);
    }

    /// Allocates `size` bytes from the first free chunk that can hold them
    /// and a header; fails with `Exhausted` when no chunk can.
    pub fn allocate(&mut self, size: usize) -> (r: Result<usize, AllocErr>)
        requires
            old(self).wf(),
        ensures
            final(self).wf(),
            match r {
                Ok(p) => {
                    let a = (p - CHUNK_HEADER_SIZE) as usize;
                    let used = final(self).used_chunks();
                    &&& alloc_address(old(self).free_chunks(), size) == Some(p)
                    &&& used.contains_key(a)
                    &&& used[a].0 - used[a].1 - CHUNK_HEADER_SIZE == size
                },
                Err(e) => alloc_address(old(self).free_chunks(), size) is None
                    && e == AllocErr::Exhausted { request: size },
            },
            final(self).free_chunks() == free_after_alloc(old(self).free_chunks(), size),
            final(self).used_chunks() == used_after_alloc(
                old(self).free_chunks(),
                old(self).used_chunks(),
                size,
            ),
            final(self).heap_start() == old(self).heap_start(),
            final(self).heap_end() == old(self).heap_end(),
    {
        let alloc_start = self.head.add(&mut self.memory, size);
        match alloc_start {
            Some(p) => Ok(p),
            None => Err(AllocErr::Exhausted { request: size }),
        }
    }

    /// Gives back the block at `ptr` that was allocated for `size` bytes.
    pub fn dealloc(&mut self, ptr: usize, size: usize)
        requires
            old(self).wf(),
            ptr >= CHUNK_HEADER_SIZE,
            old(self).used_chunks().contains_key((ptr - CHUNK_HEADER_SIZE) as usize),
            old(self).used_chunks()[(ptr - CHUNK_HEADER_SIZE) as usize].0 - old(
                self,
            ).used_chunks()[(ptr - CHUNK_HEADER_SIZE) as usize].1 - CHUNK_HEADER_SIZE == size,
        ensures
            final(self).wf(),
            final(self).free_chunks() == free_after_release(
                old(self).free_chunks(),
                (ptr - CHUNK_HEADER_SIZE) as usize,
                old(self).used_chunks()[(ptr - CHUNK_HEADER_SIZE) as usize].0,
            ),
            final(self).used_chunks() == old(self).used_chunks().remove(
                (ptr - CHUNK_HEADER_SIZE) as usize,
            ),
            final(self).heap_start() == old(self).heap_start(),
            final(self).heap_end() == old(self).heap_end(),
    {
        self.head.del(&mut self.memory, ptr, size);
    }

    /// The free chunks as (address, size), in address order.
    pub fn free_list(&self) -> (r: Vec<(usize, usize)>)
        requires
            self.wf(),
        ensures
            r@ == self.free_chunks(),
    {
        self.head.free_list(&self.memory)
    }
}

} // verus!
