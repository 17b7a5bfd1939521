//! The bump allocator: a monotonically advancing watermark over the heap,
//! with a live-allocation count as its only bookkeeping. Allocation is O(1);
//! memory is reclaimed wholesale once every allocation has been freed, and,
//! as a cheap special case, by rolling the watermark back when the block
//! being freed is the most recently bumped one.

use vstd::prelude::*;
use crate::allocator::{align_up, is_power_of_two, lemma_align_up_overflow, spec_align_up};

verus! {

/// State of the bump strategy: the heap bounds, the watermark `next` that
/// separates handed-out bytes from untouched ones, and the number of
/// outstanding allocations.
pub struct BumpAllocator {
    heap_start: usize,
    heap_end: usize,
    next: usize,
    allocations: usize,
}

impl BumpAllocator {
    /// Start of the heap range this allocator owns.
    pub closed spec fn heap_start(self) -> int {
        self.heap_start as int
    }

    /// One past the last byte of the heap range.
    pub closed spec fn heap_end(self) -> int {
        self.heap_end as int
    }

    /// The watermark: everything below it has been handed out.
    pub closed spec fn next(self) -> int {
        self.next as int
    }

    /// Number of allocations not yet freed.
    pub closed spec fn allocations(self) -> int {
        self.allocations as int
    }

    /// The watermark always stays within the heap bounds.
    pub open spec fn wf(self) -> bool {
        self.heap_start() <= self.next() <= self.heap_end()
    }

    /// A request fits exactly when rounding the watermark up to `align`
    /// still leaves `size` bytes before the end of the heap.
    pub open spec fn can_alloc(self, size: usize, align: usize) -> bool {
        spec_align_up(self.next(), align as int) + size <= self.heap_end()
    }

    /// Creates a new empty bump allocator that owns no memory yet.
    pub fn new() -> (r: Self)
        ensures
            r.wf(),
            r.heap_start() == 0,
            r.heap_end() == 0,
            r.next() == 0,
            r.allocations() == 0,
    {
        BumpAllocator { heap_start: 0, heap_end: 0, next: 0, allocations: 0 }
    }

    /// Hands the allocator the heap range `[heap_start, heap_start + heap_size)`,
    /// which the caller must have mapped, writable and otherwise unused.
    /// To be called exactly once, before any allocation.
    pub fn init(&mut self, heap_start: usize, heap_size: usize)
        requires
            heap_start + heap_size <= usize::MAX,
        ensures
            final(self).wf(),
            final(self).heap_start() == heap_start,
            final(self).heap_end() == heap_start + heap_size,
            final(self).next() == heap_start,
            final(self).allocations() == old(self).allocations(),
    {
        self.heap_start = heap_start;
        self.heap_end = heap_start + heap_size;
        self.next = heap_start;
    }

    /// Serves a request for `size` bytes at alignment `align`: rounds the
    /// watermark up to `align`, and commits the watermark past the new block.
    /// Returns the block's start address, or `None` exactly when the rounded
    /// request does not fit below the end of the heap (which covers address
    /// arithmetic that would overflow the address space).
    pub fn allocate(&mut self, size: usize, align: usize) -> (r: Option<usize>)
        requires
            old(self).wf(),
            is_power_of_two(align),
            old(self).allocations() < usize::MAX,
        ensures
            final(self).wf(),
            final(self).heap_start() == old(self).heap_start(),
            final(self).heap_end() == old(self).heap_end(),
            r.is_some() <==> old(self).can_alloc(size, align),
            match r {
                Some(addr) => {
                    &&& addr == spec_align_up(old(self).next(), align as int)
                    &&& addr % align == 0
                    &&& old(self).next() <= addr
                    &&& addr + size <= final(self).heap_end()
                    &&& final(self).next() == addr + size
                    &&& final(self).allocations() == old(self).allocations() + 1
                },
                None => *final(self) == *old(self),
            },
    {
        if align - 1 > usize::MAX - self.next {
            // even rounding the watermark up would leave the address space
            proof {
                lemma_align_up_overflow(self.next, align);
            }
            return None;
        }
        let alloc_start: usize = align_up(self.next, align);
        if size > usize::MAX - alloc_start {
            // the block's end would leave the address space
            return None;
        }
        let alloc_end: usize = alloc_start + size;
        if alloc_end > self.heap_end {
            None
        } else {
            self.next = alloc_end;
            self.allocations = self.allocations + 1;
            Some(alloc_start)
        }
    }

    /// Releases the block of `size` bytes at `ptr`, which must lie within the
    /// heap and have come from `alloc` (a caller contract, as in every bump
    /// allocator). Decrements the live count; rolls the watermark back when
    /// the block is the most recently bumped one; and once no allocation is
    /// outstanding, resets the watermark to the start of the heap, reclaiming
    /// the whole region.
    pub fn deallocate(&mut self, ptr: usize, size: usize)
        requires
            old(self).wf(),
            old(self).allocations() >= 1,
            old(self).heap_start() <= ptr,
            ptr + size <= old(self).heap_end(),
        ensures
            final(self).wf(),
            final(self).heap_start() == old(self).heap_start(),
            final(self).heap_end() == old(self).heap_end(),
            final(self).allocations() == old(self).allocations() - 1,
            final(self).next() == if old(self).allocations() == 1 {
                final(self).heap_start()
            } else if old(self).next() == ptr + size {
                ptr as int
            } else {
                old(self).next()
            },
    {
        self.allocations = self.allocations - 1;
        if self.next == ptr + size {
            self.next = ptr;
        }
        if self.allocations == 0 {
            self.next = self.heap_start;
        }
    }
}

/// Law: once every outstanding allocation has been freed, `dealloc` has put
/// the watermark back at the start of the heap, so a fresh allocation
/// succeeds exactly when it fits the heap's full capacity.
pub proof fn lemma_bump_reset_restores_capacity(a: BumpAllocator, size: usize, align: usize)
    requires
        a.wf(),
        a.next() == a.heap_start(),
    ensures
        a.can_alloc(size, align) <==> spec_align_up(a.heap_start(), align as int) + size
            <= a.heap_end(),
{
}

} // verus!
