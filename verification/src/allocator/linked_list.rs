//! The first-fit free-list allocator: free memory is a list of variably
//! sized regions, newest first. Allocation scans for the first region that
//! can host the rounded-up request, removes it, and returns the tail it did
//! not use as a new free region; deallocation pushes the freed block back on
//! the front. Nothing is ever merged, exactly as in the classic scheme.
//!
//! In the classic in-place form of this allocator every free region begins
//! with a `{size, next}` record written into the region's own bytes, so
//! every region must be large enough and aligned enough to host that
//! record, and every allocation is padded the same way so that the block
//! can become a record again when it is freed. Here the list is a table of
//! `(address, size)` pairs rather than records threaded through raw memory,
//! but the padding policy and its constants are those of the in-place
//! record, and a ghost ledger of live blocks makes the central claim
//! provable: no two outstanding allocations ever overlap, and none leaves
//! the heap.

use vstd::prelude::*;
use crate::allocator::{
    align_up, is_power_of_two, lemma_align_up_bounds, lemma_align_up_overflow, lemma_mod_add_zero,
    lemma_mod_divides_chain, lemma_pow2_divides, spec_align_up,
};

verus! {

/// Byte size of the free-region record `{size, next}` on the 64-bit
/// machines this kernel heap targets; every free region and every
/// allocation must be able to host one.
pub const NODE_SIZE: usize = 16;

/// Alignment of that record.
pub const NODE_ALIGN: usize = 8;

/// One free region of `size` bytes starting at `addr`.
pub struct ListNode {
    pub addr: usize,
    pub size: usize,
}

impl ListNode {
    /// A region record for `size` bytes at `addr`.
    pub fn new(addr: usize, size: usize) -> (r: ListNode)
        ensures
            r.addr == addr,
            r.size == size,
    {
        ListNode { addr, size }
    }

    /// First address of the region.
    pub fn start_addr(&self) -> (r: usize)
        ensures
            r == self.addr,
    {
        self.addr
    }

    /// One past the region's last byte.
    pub fn end_addr(&self) -> (r: usize)
        requires
            self.addr + self.size <= usize::MAX,
        ensures
            r == self.addr + self.size,
    {
        self.addr + self.size
    }

    /// The `(address, size)` pair this record stands for.
    pub open spec fn region(self) -> (int, int) {
        (self.addr as int, self.size as int)
    }
}

/// Two half-open byte ranges, given as `(address, size)`, do not intersect.
pub open spec fn regions_disjoint(a: (int, int), b: (int, int)) -> bool {
    a.0 + a.1 <= b.0 || b.0 + b.1 <= a.0
}

/// The alignment actually allocated at: the requested one, raised to the
/// record's alignment so a freed block can host a record.
pub open spec fn spec_adjusted_align(align: usize) -> int {
    if align >= NODE_ALIGN {
        align as int
    } else {
        NODE_ALIGN as int
    }
}

/// The size actually allocated: the request padded to a multiple of the
/// adjusted alignment, and at least the record size.
pub open spec fn spec_adjusted_size(size: usize, align: usize) -> int {
    let padded = spec_align_up(size as int, spec_adjusted_align(align));
    if padded >= NODE_SIZE {
        padded
    } else {
        NODE_SIZE as int
    }
}

/// Whether the free region `r` can host `size` bytes at alignment `align`:
/// the rounded-up start plus the size stays inside the region, and the
/// unused tail is either empty or still large enough to host a record (a
/// smaller sliver could never be returned to the list, so such a region is
/// passed over whole).
pub open spec fn region_fits(r: (int, int), size: int, align: int) -> bool {
    let start = spec_align_up(r.0, align);
    let tail = r.0 + r.1 - (start + size);
    &&& start + size <= r.0 + r.1
    &&& (tail == 0 || tail >= NODE_SIZE)
}

/// `addr` is exactly what the first-fit search yields on `regions` for the
/// adjusted request: the rounded-up start of the first region that fits.
pub open spec fn is_first_fit(regions: Seq<(int, int)>, size: usize, align: usize, addr: int) -> bool {
    exists|i: int|
        {
            &&& 0 <= i < regions.len()
            &&& region_fits(
                #[trigger] regions[i],
                spec_adjusted_size(size, align),
                spec_adjusted_align(align),
            )
            &&& (forall|j: int|
                0 <= j < i ==> !region_fits(
                    #[trigger] regions[j],
                    spec_adjusted_size(size, align),
                    spec_adjusted_align(align),
                ))
            &&& addr == spec_align_up(regions[i].0, spec_adjusted_align(align))
        }
}

/// The free list after a first-fit allocation of the adjusted request at
/// `addr`: the first fitting region is removed, and its unused tail, if
/// any, is pushed on the front as a new free region.
pub open spec fn first_fit_split(
    regions: Seq<(int, int)>,
    size: usize,
    align: usize,
    addr: int,
    rest: Seq<(int, int)>,
) -> bool {
    exists|i: int|
        {
            &&& 0 <= i < regions.len()
            &&& region_fits(
                #[trigger] regions[i],
                spec_adjusted_size(size, align),
                spec_adjusted_align(align),
            )
            &&& (forall|j: int|
                0 <= j < i ==> !region_fits(
                    #[trigger] regions[j],
                    spec_adjusted_size(size, align),
                    spec_adjusted_align(align),
                ))
            &&& addr == spec_align_up(regions[i].0, spec_adjusted_align(align))
            &&& rest == (if regions[i].0 + regions[i].1 > addr + spec_adjusted_size(size, align) {
                seq![
                    (
                        addr + spec_adjusted_size(size, align),
                        regions[i].0 + regions[i].1 - (addr + spec_adjusted_size(size, align)),
                    ),
                ] + regions.remove(i)
            } else {
                regions.remove(i)
            })
        }
}

/// The free-list allocator. `head` holds the free regions, most recently
/// freed first; the heap bounds and the ledger of live (handed out, not yet
/// freed) blocks are ghost state that carries the no-overlap invariant.
pub struct LinkedListAllocator {
    head: Vec<ListNode>,
    heap_lo: Ghost<int>,
    heap_hi: Ghost<int>,
    live: Ghost<Seq<(int, int)>>,
}

impl LinkedListAllocator {
    /// The free regions, in list order, as `(address, size)` pairs.
    pub closed spec fn free_regions(self) -> Seq<(int, int)> {
        Seq::new(self.head@.len(), |i: int| self.head@[i].region())
    }

    /// The blocks handed out and not yet freed, as `(address, size)` pairs
    /// of their adjusted footprints.
    pub closed spec fn live_blocks(self) -> Seq<(int, int)> {
        self.live@
    }

    /// Start of the heap range this allocator owns.
    pub closed spec fn heap_start(self) -> int {
        self.heap_lo@
    }

    /// One past the last byte of the heap range.
    pub closed spec fn heap_end(self) -> int {
        self.heap_hi@
    }

    /// A free region is inside the heap, aligned to the record alignment,
    /// and large enough to host a record.
    pub open spec fn region_wf(self, r: (int, int)) -> bool {
        &&& self.heap_start() <= r.0
        &&& r.0 + r.1 <= self.heap_end()
        &&& r.0 % (NODE_ALIGN as int) == 0
        &&& r.1 >= NODE_SIZE
    }

    /// A live block is a nonempty range inside the heap.
    pub open spec fn block_wf(self, b: (int, int)) -> bool {
        &&& self.heap_start() <= b.0
        &&& b.0 + b.1 <= self.heap_end()
        &&& b.1 >= 1
    }

    /// The allocator's invariant: heap bounds are sane; free regions are
    /// well formed and pairwise disjoint; live blocks are well formed and
    /// pairwise disjoint; and no byte is both free and live.
    pub open spec fn wf(self) -> bool {
        &&& 0 <= self.heap_start() <= self.heap_end() <= usize::MAX
        &&& forall|i: int|
            0 <= i < self.free_regions().len() ==> self.region_wf(#[trigger] self.free_regions()[i])
        &&& forall|i: int, j: int|
            0 <= i < j < self.free_regions().len() ==> regions_disjoint(
                #[trigger] self.free_regions()[i],
                #[trigger] self.free_regions()[j],
            )
        &&& forall|i: int|
            0 <= i < self.live_blocks().len() ==> self.block_wf(#[trigger] self.live_blocks()[i])
        &&& forall|i: int, j: int|
            0 <= i < j < self.live_blocks().len() ==> regions_disjoint(
                #[trigger] self.live_blocks()[i],
                #[trigger] self.live_blocks()[j],
            )
        &&& forall|i: int, j: int|
            0 <= i < self.free_regions().len() && 0 <= j < self.live_blocks().len()
                ==> regions_disjoint(
                #[trigger] self.free_regions()[i],
                #[trigger] self.live_blocks()[j],
            )
    }

    /// Creates an empty allocator that owns no memory yet.
    pub fn new() -> (r: Self)
        ensures
            r.wf(),
            r.free_regions().len() == 0,
            r.live_blocks().len() == 0,
            r.heap_start() == 0,
            r.heap_end() == 0,
    {
        LinkedListAllocator {
            head: Vec::new(),
            heap_lo: Ghost(0int),
            heap_hi: Ghost(0int),
            live: Ghost(Seq::empty()),
        }
    }

    /// Hands the allocator the heap range `[heap_start, heap_start + heap_size)`,
    /// which the caller must have mapped, writable and otherwise unused; the
    /// whole range becomes the one free region. To be called exactly once,
    /// before any allocation.
    pub fn init(&mut self, heap_start: usize, heap_size: usize)
        requires
            old(self).wf(),
            old(self).free_regions().len() == 0,
            old(self).live_blocks().len() == 0,
            heap_start % NODE_ALIGN == 0,
            heap_size >= NODE_SIZE,
            heap_start + heap_size <= usize::MAX,
        ensures
            final(self).wf(),
            final(self).heap_start() == heap_start,
            final(self).heap_end() == heap_start + heap_size,
            final(self).free_regions() =~= seq![(heap_start as int, heap_size as int)],
            final(self).live_blocks().len() == 0,
    {
        self.heap_lo = Ghost(heap_start as int);
        self.heap_hi = Ghost(heap_start as int + heap_size as int);
        self.add_free_region(heap_start, heap_size);
    }

    /// Pushes the region `[addr, addr + size)` on the front of the free list.
    /// The region must be able to host a record and must not touch any other
    /// free region or live block.
    fn add_free_region(&mut self, addr: usize, size: usize)
        requires
            old(self).wf(),
            addr % NODE_ALIGN == 0,
            size >= NODE_SIZE,
            old(self).heap_start() <= addr,
            addr + size <= old(self).heap_end(),
            forall|i: int|
                0 <= i < old(self).free_regions().len() ==> regions_disjoint(
                    (addr as int, size as int),
                    #[trigger] old(self).free_regions()[i],
                ),
            forall|i: int|
                0 <= i < old(self).live_blocks().len() ==> regions_disjoint(
                    (addr as int, size as int),
                    #[trigger] old(self).live_blocks()[i],
                ),
        ensures
            final(self).wf(),
            final(self).heap_start() == old(self).heap_start(),
            final(self).heap_end() == old(self).heap_end(),
            final(self).live_blocks() == old(self).live_blocks(),
            final(self).free_regions() =~= seq![(addr as int, size as int)]
                + old(self).free_regions(),
    {
        self.head.insert(0, ListNode::new(addr, size));
        proof {
            assert forall|i: int| 0 <= i < self.free_regions().len() implies self.free_regions()[i]
                == (seq![(addr as int, size as int)] + old(self).free_regions())[i] by {
                if i == 0 {
                    assert(self.head@[0].addr == addr && self.head@[0].size == size);
                } else {
                    assert(self.head@[i] == old(self).head@[i - 1]);
                }
            }
            assert(self.free_regions() =~= seq![(addr as int, size as int)] + old(
                self,
            ).free_regions());
            assert forall|i: int| 0 <= i < self.free_regions().len() implies self.region_wf(
                #[trigger] self.free_regions()[i],
            ) by {
                if i > 0 {
                    assert(self.free_regions()[i] == old(self).free_regions()[i - 1]);
                    assert(old(self).region_wf(old(self).free_regions()[i - 1]));
                }
            }
            assert forall|i: int, j: int| 0 <= i < j < self.free_regions().len() implies
                regions_disjoint(
                #[trigger] self.free_regions()[i],
                #[trigger] self.free_regions()[j],
            ) by {
                assert(self.free_regions()[j] == old(self).free_regions()[j - 1]);
                if i > 0 {
                    assert(self.free_regions()[i] == old(self).free_regions()[i - 1]);
                    assert(regions_disjoint(
                        old(self).free_regions()[i - 1],
                        old(self).free_regions()[j - 1],
                    ));
                } else {
                    assert(regions_disjoint(
                        (addr as int, size as int),
                        old(self).free_regions()[j - 1],
                    ));
                }
            }
            assert forall|i: int, j: int|
                0 <= i < self.free_regions().len() && 0 <= j
                    < self.live_blocks().len() implies regions_disjoint(
                #[trigger] self.free_regions()[i],
                #[trigger] self.live_blocks()[j],
            ) by {
                assert(self.live_blocks()[j] == old(self).live_blocks()[j]);
                if i > 0 {
                    assert(self.free_regions()[i] == old(self).free_regions()[i - 1]);
                    assert(regions_disjoint(
                        old(self).free_regions()[i - 1],
                        old(self).live_blocks()[j],
                    ));
                } else {
                    assert(regions_disjoint((addr as int, size as int), old(self).live_blocks()[j]));
                }
            }
        }
    }

    /// Whether some free region can host the request once it has been
    /// adjusted by `size_align`.
    pub open spec fn can_serve(self, size: usize, align: usize) -> bool {
        exists|i: int|
            0 <= i < self.free_regions().len() && region_fits(
                #[trigger] self.free_regions()[i],
                spec_adjusted_size(size, align),
                spec_adjusted_align(align),
            )
    }

    /// First-fit search: removes the first free region that can host the
    /// request and returns it, the address the allocation starts at, and
    /// (for the callers' proofs) the region's index in the old list. Regions
    /// before it did not fit and are untouched.
    #[verifier::rlimit(50)]
    pub fn find_region(&mut self, size: usize, align: usize) -> (r: Option<
        (ListNode, usize, Ghost<int>),
    >)
        requires
            old(self).wf(),
            is_power_of_two(align),
        ensures
            final(self).heap_start() == old(self).heap_start(),
            final(self).heap_end() == old(self).heap_end(),
            final(self).live_blocks() == old(self).live_blocks(),
            r.is_some() ==> final(self).wf(),
            r.is_some() ==> 0 <= r.unwrap().2@ < old(self).free_regions().len(),
            r.is_some() ==> old(self).free_regions()[r.unwrap().2@] == r.unwrap().0.region(),
            r.is_some() ==> final(self).free_regions() == old(self).free_regions().remove(
                r.unwrap().2@,
            ),
            r.is_some() ==> forall|j: int|
                0 <= j < r.unwrap().2@ ==> !region_fits(
                    #[trigger] old(self).free_regions()[j],
                    size as int,
                    align as int,
                ),
            r.is_some() ==> region_fits(r.unwrap().0.region(), size as int, align as int),
            r.is_some() ==> r.unwrap().1 == spec_align_up(
                r.unwrap().0.addr as int,
                align as int,
            ),
            r.is_none() ==> *final(self) == *old(self),
            r.is_none() ==> forall|j: int|
                0 <= j < old(self).free_regions().len() ==> !region_fits(
                    #[trigger] old(self).free_regions()[j],
                    size as int,
                    align as int,
                ),
    {
        let mut idx: usize = 0;
        while idx < self.head.len()
            invariant
                *self == *old(self),
                old(self).wf(),
                is_power_of_two(align),
                idx <= self.head.len(),
                forall|j: int|
                    0 <= j < idx ==> !region_fits(
                        #[trigger] old(self).free_regions()[j],
                        size as int,
                        align as int,
                    ),
            decreases self.head.len() - idx,
        {
            proof {
                assert(self.free_regions()[idx as int] == self.head@[idx as int].region());
                assert(self.region_wf(self.free_regions()[idx as int]));
            }
            let found: Result<usize, ()> = Self::alloc_from_region(&self.head[idx], size, align);
            match found {
                Ok(start) => {
                    let node: ListNode = self.head.remove(idx);
                    proof {
                        let ghost prev = old(self).free_regions();
                        assert forall|k: int|
                            0 <= k < self.free_regions().len() implies self.free_regions()[k]
                            == prev.remove(idx as int)[k] by {
                            if k < idx {
                                assert(self.head@[k] == old(self).head@[k]);
                            } else {
                                assert(self.head@[k] == old(self).head@[k + 1]);
                            }
                        }
                        assert(self.free_regions() =~= prev.remove(idx as int));
                        assert(self.free_regions() == prev.remove(idx as int));
                        assert forall|k: int|
                            0 <= k < self.free_regions().len() implies self.region_wf(
                            #[trigger] self.free_regions()[k],
                        ) by {
                            if k < idx {
                                assert(self.free_regions()[k] == prev[k]);
                            } else {
                                assert(self.free_regions()[k] == prev[k + 1]);
                            }
                        }
                        assert forall|a: int, b: int|
                            0 <= a < b < self.free_regions().len() implies regions_disjoint(
                            #[trigger] self.free_regions()[a],
                            #[trigger] self.free_regions()[b],
                        ) by {
                            let a0: int = if a < idx {
                                a
                            } else {
                                a + 1
                            };
                            let b0: int = if b < idx {
                                b
                            } else {
                                b + 1
                            };
                            assert(self.free_regions()[a] == prev[a0]);
                            assert(self.free_regions()[b] == prev[b0]);
                            assert(regions_disjoint(prev[a0], prev[b0]));
                        }
                        assert forall|j: int|
                            0 <= j < self.live_blocks().len() implies self.block_wf(
                            #[trigger] self.live_blocks()[j],
                        ) by {
                            assert(self.live_blocks()[j] == old(self).live_blocks()[j]);
                        }
                        assert forall|a: int, b: int|
                            0 <= a < b < self.live_blocks().len() implies regions_disjoint(
                            #[trigger] self.live_blocks()[a],
                            #[trigger] self.live_blocks()[b],
                        ) by {
                            assert(self.live_blocks()[a] == old(self).live_blocks()[a]);
                            assert(self.live_blocks()[b] == old(self).live_blocks()[b]);
                        }
                        assert forall|a: int, j: int|
                            0 <= a < self.free_regions().len() && 0 <= j
                                < self.live_blocks().len() implies regions_disjoint(
                            #[trigger] self.free_regions()[a],
                            #[trigger] self.live_blocks()[j],
                        ) by {
                            let a0: int = if a < idx {
                                a
                            } else {
                                a + 1
                            };
                            assert(self.free_regions()[a] == prev[a0]);
                            assert(regions_disjoint(prev[a0], old(self).live_blocks()[j]));
                        }
                    }
                    return Some((node, start, Ghost(idx as int)));
                },
                Err(_) => {
                    idx = idx + 1;
                },
            }
        }
        None
    }

    /// Serves a request for `size` bytes at alignment `align`. The request is
    /// adjusted by `size_align`, the first fitting free region is taken, and
    /// any unused tail of that region returns to the free list. Returns the
    /// block's start address — aligned, inside the heap, and overlapping no
    /// outstanding block — or `None` exactly when no free region fits the
    /// adjusted request.
    pub fn allocate(&mut self, size: usize, align: usize) -> (r: Option<usize>)
        requires
            old(self).wf(),
            is_power_of_two(align),
            size + spec_adjusted_align(align) - 1 <= usize::MAX,
        ensures
            final(self).wf(),
            final(self).heap_start() == old(self).heap_start(),
            final(self).heap_end() == old(self).heap_end(),
            r.is_some() <==> old(self).can_serve(size, align),
            r.is_some() ==> is_first_fit(
                old(self).free_regions(),
                size,
                align,
                r.unwrap() as int,
            ),
            r.is_some() ==> first_fit_split(
                old(self).free_regions(),
                size,
                align,
                r.unwrap() as int,
                final(self).free_regions(),
            ),
            match r {
                Some(addr) => {
                    &&& addr as int % (align as int) == 0
                    &&& old(self).heap_start() <= addr
                    &&& addr + spec_adjusted_size(size, align) <= old(self).heap_end()
                    &&& final(self).live_blocks() == old(self).live_blocks().push(
                        (addr as int, spec_adjusted_size(size, align)),
                    )
                    &&& forall|j: int|
                        0 <= j < old(self).live_blocks().len() ==> regions_disjoint(
                            (addr as int, spec_adjusted_size(size, align)),
                            #[trigger] old(self).live_blocks()[j],
                        )
                },
                None => *final(self) == *old(self),
            },
    {
        let (asize, aalign): (usize, usize) = Self::size_align(size, align);
        let found: Option<(ListNode, usize, Ghost<int>)> = self.find_region(asize, aalign);
        match found {
            Some((region, alloc_start, i)) => {
                proof {
                    lemma_node_align_pow2();
                    assert(old(self).region_wf(old(self).free_regions()[i@]));
                    lemma_align_up_bounds(region.addr as int, aalign as int);
                    lemma_pow2_divides(NODE_ALIGN, aalign);
                    lemma_mod_divides_chain(
                        alloc_start as int,
                        aalign as int,
                        NODE_ALIGN as int,
                    );
                    lemma_mod_add_zero(alloc_start as int, asize as int, NODE_ALIGN as int);
                    lemma_pow2_divides(align, aalign);
                    lemma_mod_divides_chain(alloc_start as int, aalign as int, align as int);
                }
                let alloc_end: usize = alloc_start + asize;
                let region_end: usize = region.end_addr();
                let excess_size: usize = region_end - alloc_end;
                if excess_size > 0 {
                    proof {
                        assert forall|k: int|
                            0 <= k < self.free_regions().len() implies regions_disjoint(
                            (alloc_end as int, excess_size as int),
                            #[trigger] self.free_regions()[k],
                        ) by {
                            let prev = old(self).free_regions();
                            let k0: int = if k < i@ {
                                k
                            } else {
                                k + 1
                            };
                            assert(self.free_regions()[k] == prev[k0]);
                            assert(regions_disjoint(prev[i@], prev[k0]));
                        }
                        assert forall|j: int|
                            0 <= j < self.live_blocks().len() implies regions_disjoint(
                            (alloc_end as int, excess_size as int),
                            #[trigger] self.live_blocks()[j],
                        ) by {
                            assert(regions_disjoint(
                                old(self).free_regions()[i@],
                                old(self).live_blocks()[j],
                            ));
                        }
                    }
                    self.add_free_region(alloc_end, excess_size);
                }
                let ghost mid = *self;
                self.live = Ghost(self.live@.push((alloc_start as int, asize as int)));
                proof {
                    assert forall|k: int|
                        0 <= k < self.free_regions().len() implies #[trigger] self.free_regions()[k]
                        == mid.free_regions()[k] by {}
                    assert(self.free_regions() =~= mid.free_regions());
                    assert forall|k: int|
                        0 <= k < self.free_regions().len() implies self.region_wf(
                        #[trigger] self.free_regions()[k],
                    ) by {
                        assert(self.free_regions()[k] == mid.free_regions()[k]);
                        assert(mid.region_wf(mid.free_regions()[k]));
                    }
                    assert forall|a: int, b: int|
                        0 <= a < b < self.free_regions().len() implies regions_disjoint(
                        #[trigger] self.free_regions()[a],
                        #[trigger] self.free_regions()[b],
                    ) by {
                        assert(self.free_regions()[a] == mid.free_regions()[a]);
                        assert(self.free_regions()[b] == mid.free_regions()[b]);
                        assert(regions_disjoint(mid.free_regions()[a], mid.free_regions()[b]));
                    }
                    let ghost nb: (int, int) = (alloc_start as int, asize as int);
                    assert forall|j: int|
                        0 <= j < old(self).live_blocks().len() implies regions_disjoint(
                        nb,
                        #[trigger] old(self).live_blocks()[j],
                    ) by {
                        assert(regions_disjoint(
                            old(self).free_regions()[i@],
                            old(self).live_blocks()[j],
                        ));
                    }
                    assert forall|j: int|
                        0 <= j < self.live_blocks().len() implies self.block_wf(
                        #[trigger] self.live_blocks()[j],
                    ) by {
                        if j < old(self).live_blocks().len() {
                            assert(self.live_blocks()[j] == old(self).live_blocks()[j]);
                        }
                    }
                    assert forall|a: int, b: int|
                        0 <= a < b < self.live_blocks().len() implies regions_disjoint(
                        #[trigger] self.live_blocks()[a],
                        #[trigger] self.live_blocks()[b],
                    ) by {
                        if b < old(self).live_blocks().len() {
                            assert(self.live_blocks()[a] == old(self).live_blocks()[a]);
                            assert(self.live_blocks()[b] == old(self).live_blocks()[b]);
                        } else {
                            assert(self.live_blocks()[a] == old(self).live_blocks()[a]);
                            assert(self.live_blocks()[b] == nb);
                        }
                    }
                    assert forall|k: int, j: int|
                        0 <= k < self.free_regions().len() && 0 <= j
                            < self.live_blocks().len() implies regions_disjoint(
                        #[trigger] self.free_regions()[k],
                        #[trigger] self.live_blocks()[j],
                    ) by {
                        assert(self.free_regions()[k] == mid.free_regions()[k]);
                        if j < old(self).live_blocks().len() {
                            assert(mid.live_blocks()[j] == old(self).live_blocks()[j]);
                            assert(regions_disjoint(mid.free_regions()[k], mid.live_blocks()[j]));
                        } else {
                            let prev = old(self).free_regions();
                            if excess_size > 0 && k == 0 {
                                assert(self.free_regions()[0] == (
                                    alloc_end as int,
                                    excess_size as int,
                                ));
                            } else {
                                let k0: int = if excess_size > 0 {
                                    k - 1
                                } else {
                                    k
                                };
                                let k1: int = if k0 < i@ {
                                    k0
                                } else {
                                    k0 + 1
                                };
                                assert(mid.free_regions()[k] == prev.remove(i@)[k0]);
                                assert(prev.remove(i@)[k0] == prev[k1]);
                                assert(regions_disjoint(prev[i@], prev[k1]));
                            }
                        }
                    }
                }
                proof {
                    assert(region_fits(
                        old(self).free_regions()[i@],
                        spec_adjusted_size(size, align),
                        spec_adjusted_align(align),
                    ));
                    assert(is_first_fit(
                        old(self).free_regions(),
                        size,
                        align,
                        alloc_start as int,
                    ));
                    if excess_size > 0 {
                        assert(mid.free_regions() == seq![
                            (alloc_end as int, excess_size as int),
                        ] + old(self).free_regions().remove(i@));
                    } else {
                        assert(mid.free_regions() == old(self).free_regions().remove(i@));
                    }
                    assert(first_fit_split(
                        old(self).free_regions(),
                        size,
                        align,
                        alloc_start as int,
                        self.free_regions(),
                    ));
                }
                Some(alloc_start)
            },
            None => None,
        }
    }

    /// Returns the block of `size` bytes at `ptr` to the free list, pushing
    /// it on the front. The caller must pass the size and alignment the
    /// block was allocated with, and the block must be outstanding: freeing
    /// anything else would corrupt the list, so it is excluded by contract.
    pub fn deallocate(&mut self, ptr: usize, size: usize, align: usize)
        requires
            old(self).wf(),
            is_power_of_two(align),
            size + spec_adjusted_align(align) - 1 <= usize::MAX,
            ptr % NODE_ALIGN == 0,
            exists|i: int|
                0 <= i < old(self).live_blocks().len() && old(self).live_blocks()[i] == (
                    ptr as int,
                    spec_adjusted_size(size, align),
                ),
        ensures
            final(self).wf(),
            final(self).heap_start() == old(self).heap_start(),
            final(self).heap_end() == old(self).heap_end(),
            final(self).free_regions() =~= seq![(ptr as int, spec_adjusted_size(size, align))]
                + old(self).free_regions(),
            final(self).live_blocks().len() == old(self).live_blocks().len() - 1,
            exists|i: int|
                0 <= i < old(self).live_blocks().len() && old(self).live_blocks()[i] == (
                    ptr as int,
                    spec_adjusted_size(size, align),
                ) && final(self).live_blocks() == old(self).live_blocks().remove(i),
    {
        let (asize, _aalign): (usize, usize) = Self::size_align(size, align);
        let ghost i: int = choose|i: int|
            0 <= i < old(self).live_blocks().len() && old(self).live_blocks()[i] == (
                ptr as int,
                spec_adjusted_size(size, align),
            );
        self.live = Ghost(self.live@.remove(i));
        proof {
            let ghost prev = old(self).live_blocks();
            assert(old(self).block_wf(prev[i]));
            assert forall|k: int|
                0 <= k < self.free_regions().len() implies #[trigger] self.free_regions()[k]
                == old(self).free_regions()[k] by {}
            assert(self.free_regions() =~= old(self).free_regions());
            assert forall|k: int|
                0 <= k < self.free_regions().len() implies self.region_wf(
                #[trigger] self.free_regions()[k],
            ) by {
                assert(self.free_regions()[k] == old(self).free_regions()[k]);
                assert(old(self).region_wf(old(self).free_regions()[k]));
            }
            assert forall|a: int, b: int|
                0 <= a < b < self.free_regions().len() implies regions_disjoint(
                #[trigger] self.free_regions()[a],
                #[trigger] self.free_regions()[b],
            ) by {
                assert(self.free_regions()[a] == old(self).free_regions()[a]);
                assert(self.free_regions()[b] == old(self).free_regions()[b]);
                assert(regions_disjoint(
                    old(self).free_regions()[a],
                    old(self).free_regions()[b],
                ));
            }
            assert forall|j: int|
                0 <= j < self.live_blocks().len() implies self.block_wf(
                #[trigger] self.live_blocks()[j],
            ) by {
                let j0: int = if j < i {
                    j
                } else {
                    j + 1
                };
                assert(self.live_blocks()[j] == prev[j0]);
            }
            assert forall|a: int, b: int|
                0 <= a < b < self.live_blocks().len() implies regions_disjoint(
                #[trigger] self.live_blocks()[a],
                #[trigger] self.live_blocks()[b],
            ) by {
                let a0: int = if a < i {
                    a
                } else {
                    a + 1
                };
                let b0: int = if b < i {
                    b
                } else {
                    b + 1
                };
                assert(self.live_blocks()[a] == prev[a0]);
                assert(self.live_blocks()[b] == prev[b0]);
                assert(regions_disjoint(prev[a0], prev[b0]));
            }
            assert forall|k: int, j: int|
                0 <= k < self.free_regions().len() && 0 <= j
                    < self.live_blocks().len() implies regions_disjoint(
                #[trigger] self.free_regions()[k],
                #[trigger] self.live_blocks()[j],
            ) by {
                let j0: int = if j < i {
                    j
                } else {
                    j + 1
                };
                assert(self.live_blocks()[j] == prev[j0]);
                assert(regions_disjoint(old(self).free_regions()[k], prev[j0]));
            }
            assert forall|k: int|
                0 <= k < self.free_regions().len() implies regions_disjoint(
                (ptr as int, asize as int),
                #[trigger] self.free_regions()[k],
            ) by {
                assert(regions_disjoint(old(self).free_regions()[k], prev[i]));
            }
            assert forall|j: int|
                0 <= j < self.live_blocks().len() implies regions_disjoint(
                (ptr as int, asize as int),
                #[trigger] self.live_blocks()[j],
            ) by {
                let j0: int = if j < i {
                    j
                } else {
                    j + 1
                };
                assert(self.live_blocks()[j] == prev[j0]);
                assert(regions_disjoint(prev[i], prev[j0]));
            }
        }
        self.add_free_region(ptr, asize);
    }

    /// Checks whether `region` can host `size` bytes at alignment `align`,
    /// and returns the address the allocation would start at. Mirrors
    /// `region_fits` exactly: a region whose unused tail would be a sliver
    /// too small for a record is rejected.
    pub fn alloc_from_region(region: &ListNode, size: usize, align: usize) -> (r: Result<
        usize,
        (),
    >)
        requires
            is_power_of_two(align),
            region.addr + region.size <= usize::MAX,
        ensures
            r.is_ok() <==> region_fits(region.region(), size as int, align as int),
            r matches Ok(start) ==> start == spec_align_up(region.addr as int, align as int),
    {
        if align - 1 > usize::MAX - region.addr {
            proof {
                lemma_align_up_overflow(region.addr, align);
            }
            return Err(());
        }
        let alloc_start: usize = align_up(region.addr, align);
        if size > usize::MAX - alloc_start {
            return Err(());
        }
        let alloc_end: usize = alloc_start + size;
        let region_end: usize = region.addr + region.size;
        if alloc_end > region_end {
            return Err(());
        }
        let excess_size: usize = region_end - alloc_end;
        if excess_size > 0 && excess_size < NODE_SIZE {
            // the leftover tail could never host a record: skip this region
            return Err(());
        }
        Ok(alloc_start)
    }

    /// Adjusts a request so the block handed out can later host a free-region
    /// record: the alignment is raised to the record's, and the size is
    /// padded to a multiple of that alignment and to at least the record
    /// size. Allocation and deallocation apply the same adjustment.
    pub fn size_align(size: usize, align: usize) -> (r: (usize, usize))
        requires
            is_power_of_two(align),
            size + spec_adjusted_align(align) - 1 <= usize::MAX,
        ensures
            r.0 == spec_adjusted_size(size, align),
            r.1 == spec_adjusted_align(align),
            is_power_of_two(r.1),
            r.1 >= NODE_ALIGN,
            r.0 >= NODE_SIZE,
            r.0 >= size,
            r.0 as int % (NODE_ALIGN as int) == 0,
    {
        proof {
            lemma_node_align_pow2();
        }
        let adjusted_align: usize = if align >= NODE_ALIGN {
            align
        } else {
            NODE_ALIGN
        };
        let padded: usize = align_up(size, adjusted_align);
        let adjusted_size: usize = if padded >= NODE_SIZE {
            padded
        } else {
            NODE_SIZE
        };
        proof {
            lemma_pow2_divides(NODE_ALIGN, adjusted_align);
            lemma_align_up_bounds(size as int, adjusted_align as int);
            lemma_mod_divides_chain(padded as int, adjusted_align as int, NODE_ALIGN as int);
        }
        (adjusted_size, adjusted_align)
    }
}

/// The record alignment is itself a power of two.
proof fn lemma_node_align_pow2()
    ensures
        is_power_of_two(NODE_ALIGN),
{
    assert(8usize & 7usize == 0) by (bit_vector);
}

/// Total size of the blocks in `s`.
pub open spec fn live_bytes(s: Seq<(int, int)>) -> int
    decreases s.len(),
{
    if s.len() == 0 {
        0
    } else {
        s[0].1 + live_bytes(s.drop_first())
    }
}

/// Removing one block removes exactly its size from the total.
proof fn lemma_live_bytes_remove(s: Seq<(int, int)>, j: int)
    requires
        0 <= j < s.len(),
    ensures
        live_bytes(s) == live_bytes(s.remove(j)) + s[j].1,
    decreases s.len(),
{
    if j == 0 {
        assert(s.remove(0) =~= s.drop_first());
    } else {
        lemma_live_bytes_remove(s.drop_first(), j - 1);
        assert(s.remove(j).drop_first() =~= s.drop_first().remove(j - 1));
    }
}

/// A nonempty collection of blocks has one whose start is largest.
proof fn lemma_max_start_index(s: Seq<(int, int)>) -> (j: int)
    requires
        s.len() > 0,
    ensures
        0 <= j < s.len(),
        forall|i: int| 0 <= i < s.len() ==> (#[trigger] s[i]).0 <= s[j].0,
    decreases s.len(),
{
    if s.len() == 1 {
        0
    } else {
        let j1: int = lemma_max_start_index(s.drop_first());
        let j: int = if s[0].0 > s[j1 + 1].0 {
            0
        } else {
            j1 + 1
        };
        assert(s.drop_first()[j1] == s[j1 + 1]);
        assert forall|i: int| 0 <= i < s.len() implies (#[trigger] s[i]).0 <= s[j].0 by {
            if i >= 1 {
                assert(s.drop_first()[i - 1] == s[i]);
                assert(s.drop_first()[i - 1].0 <= s.drop_first()[j1].0);
            }
        }
        j
    }
}

/// Pairwise-disjoint nonempty blocks inside `[lo, hi)` cannot total more
/// than `hi - lo` bytes: the block with the largest start takes its size off
/// the top, and the rest fit below its start.
proof fn lemma_disjoint_sum_bound(s: Seq<(int, int)>, lo: int, hi: int)
    requires
        lo <= hi,
        forall|i: int|
            0 <= i < s.len() ==> lo <= (#[trigger] s[i]).0 && s[i].0 + s[i].1 <= hi && s[i].1 >= 1,
        forall|i: int, j: int|
            0 <= i < j < s.len() ==> regions_disjoint(#[trigger] s[i], #[trigger] s[j]),
    ensures
        live_bytes(s) <= hi - lo,
    decreases s.len(),
{
    if s.len() > 0 {
        let j: int = lemma_max_start_index(s);
        let t = s.remove(j);
        lemma_live_bytes_remove(s, j);
        assert forall|i: int|
            0 <= i < t.len() implies lo <= (#[trigger] t[i]).0 && t[i].0 + t[i].1 <= s[j].0
            && t[i].1 >= 1 by {
            let i0: int = if i < j {
                i
            } else {
                i + 1
            };
            assert(t[i] == s[i0]);
            assert(regions_disjoint(s[i0], s[j]) || regions_disjoint(s[j], s[i0]));
            assert(s[i0].0 <= s[j].0);
            // the other disjunct would put s[i0] past s[j]'s start
            assert(s[j].0 + s[j].1 <= s[i0].0 ==> false);
        }
        assert forall|a: int, b: int|
            0 <= a < b < t.len() implies regions_disjoint(#[trigger] t[a], #[trigger] t[b]) by {
            let a0: int = if a < j {
                a
            } else {
                a + 1
            };
            let b0: int = if b < j {
                b
            } else {
                b + 1
            };
            assert(t[a] == s[a0]);
            assert(t[b] == s[b0]);
            if a0 < b0 {
                assert(regions_disjoint(s[a0], s[b0]));
            } else {
                assert(regions_disjoint(s[b0], s[a0]));
            }
        }
        assert(lo <= s[j].0);
        lemma_disjoint_sum_bound(t, lo, s[j].0);
    }
}

/// Law: in a well-formed allocator no two outstanding blocks overlap and
/// every outstanding block lies inside the heap — for any sequence of
/// allocations and deallocations, since every operation preserves `wf`.
pub proof fn lemma_live_no_overlap(a: LinkedListAllocator)
    requires
        a.wf(),
    ensures
        forall|i: int, j: int|
            0 <= i < j < a.live_blocks().len() ==> regions_disjoint(
                #[trigger] a.live_blocks()[i],
                #[trigger] a.live_blocks()[j],
            ),
        forall|i: int|
            0 <= i < a.live_blocks().len() ==> a.heap_start() <= (#[trigger] a.live_blocks()[i]).0
                && a.live_blocks()[i].0 + a.live_blocks()[i].1 <= a.heap_end(),
{
}

/// Law: the allocator never overcommits. The outstanding blocks of a
/// well-formed allocator total at most the heap's size, so once more bytes
/// than the heap holds are requested, some allocation must have reported
/// out-of-memory.
pub proof fn lemma_no_overcommit(a: LinkedListAllocator)
    requires
        a.wf(),
    ensures
        live_bytes(a.live_blocks()) <= a.heap_end() - a.heap_start(),
{
    lemma_disjoint_sum_bound(a.live_blocks(), a.heap_start(), a.heap_end());
}

} // verus!
