//! The fixed-size-block allocator: requests are rounded up to a fixed power
//! of two between 8 and 2048 bytes, and each such size class keeps its own
//! LIFO list of ready blocks. A block is carved from the general free-list
//! heap the first time its class needs one, and on free it goes onto its
//! class's list rather than back to the heap — O(1) for the common small
//! request, at the price that a block stays dedicated to its class forever.
//! Requests beyond the largest class go to the fallback heap directly.
//!
//! Because the classes are powers of two, a class's size doubles as its
//! alignment. The ledger of outstanding blocks, together with the fallback's
//! own, carries the proof that every block handed out is aligned to its
//! class and overlaps nothing else that is outstanding or queued in a class
//! list.

use vstd::prelude::*;
use vstd::arithmetic::div_mod::lemma_mod_multiples_basic;
use crate::allocator::{is_power_of_two, lemma_align_up_unique};
use crate::allocator::linked_list::{
    is_first_fit, regions_disjoint, spec_adjusted_align, spec_adjusted_size, LinkedListAllocator,
    NODE_ALIGN, NODE_SIZE,
};

verus! {

/// The block size of class `i`: powers of two from 8 to 2048 bytes. Sizes
/// below 8 would be too small to store the in-place link to the next free
/// block.
pub open spec fn class_size(i: int) -> int {
    if i == 0 {
        8
    } else if i == 1 {
        16
    } else if i == 2 {
        32
    } else if i == 3 {
        64
    } else if i == 4 {
        128
    } else if i == 5 {
        256
    } else if i == 6 {
        512
    } else if i == 7 {
        1024
    } else {
        2048
    }
}

/// The block size a request really needs: with power-of-two classes a block
/// of size `max(size, align)` is aligned to `align` whenever the block is
/// aligned to its own size.
pub open spec fn spec_required_size(size: usize, align: usize) -> int {
    if size >= align {
        size as int
    } else {
        align as int
    }
}

/// The class serving a request: the smallest whose block size covers the
/// required size; 9 when the request exceeds the largest class and must go
/// to the fallback heap.
pub open spec fn spec_class_of(size: usize, align: usize) -> int {
    let r = spec_required_size(size, align);
    if r <= 8 {
        0
    } else if r <= 16 {
        1
    } else if r <= 32 {
        2
    } else if r <= 64 {
        3
    } else if r <= 128 {
        4
    } else if r <= 256 {
        5
    } else if r <= 512 {
        6
    } else if r <= 1024 {
        7
    } else if r <= 2048 {
        8
    } else {
        9
    }
}

/// The bytes a class block occupies in the fallback heap: the class size,
/// raised to the fallback's minimum block size for the smallest class.
pub open spec fn class_footprint(i: int) -> int {
    if class_size(i) >= NODE_SIZE {
        class_size(i)
    } else {
        NODE_SIZE as int
    }
}

/// The footprint of a request: its class's footprint, or, beyond the
/// largest class, the fallback heap's adjusted size.
pub open spec fn spec_footprint(size: usize, align: usize) -> int {
    if spec_class_of(size, align) < 9 {
        class_footprint(spec_class_of(size, align))
    } else {
        spec_adjusted_size(size, align)
    }
}

/// The block size of class `index`, as executable code.
pub fn block_size(index: usize) -> (r: usize)
    requires
        index < 9,
    ensures
        r == class_size(index as int),
        8 <= r <= 2048,
{
    if index == 0 {
        8
    } else if index == 1 {
        16
    } else if index == 2 {
        32
    } else if index == 3 {
        64
    } else if index == 4 {
        128
    } else if index == 5 {
        256
    } else if index == 6 {
        512
    } else if index == 7 {
        1024
    } else {
        2048
    }
}

/// Picks the class for a request, or `None` when no class is large enough.
pub fn list_index(size: usize, align: usize) -> (r: Option<usize>)
    ensures
        r.is_some() <==> spec_class_of(size, align) < 9,
        r matches Some(i) ==> i == spec_class_of(size, align),
{
    let required: usize = if size >= align {
        size
    } else {
        align
    };
    if required <= 8 {
        Some(0)
    } else if required <= 16 {
        Some(1)
    } else if required <= 32 {
        Some(2)
    } else if required <= 64 {
        Some(3)
    } else if required <= 128 {
        Some(4)
    } else if required <= 256 {
        Some(5)
    } else if required <= 512 {
        Some(6)
    } else if required <= 1024 {
        Some(7)
    } else if required <= 2048 {
        Some(8)
    } else {
        None
    }
}

/// The fixed-size-block allocator: one LIFO list of ready block addresses
/// per size class, a general free-list heap as fallback, and a ghost ledger
/// of the blocks handed out and not yet freed.
pub struct FixedSizeBlockAllocator {
    list_heads: Vec<Vec<usize>>,
    fallback_allocator: LinkedListAllocator,
    user_live: Ghost<Seq<(int, int)>>,
}

impl FixedSizeBlockAllocator {
    /// The ready blocks of class `i`, in stack order.
    pub closed spec fn class_list(self, i: int) -> Seq<usize> {
        self.list_heads@[i]@
    }

    /// Number of class lists.
    pub closed spec fn class_count(self) -> int {
        self.list_heads@.len() as int
    }

    /// The general heap that backs the classes.
    pub closed spec fn fallback(self) -> LinkedListAllocator {
        self.fallback_allocator
    }

    /// The blocks handed out and not yet freed, with their footprints.
    pub closed spec fn live_blocks(self) -> Seq<(int, int)> {
        self.user_live@
    }

    /// Start of the heap range.
    pub open spec fn heap_start(self) -> int {
        self.fallback().heap_start()
    }

    /// One past the last byte of the heap range.
    pub open spec fn heap_end(self) -> int {
        self.fallback().heap_end()
    }

    /// The footprint range of the block in slot `k` of class `i`'s list.
    pub open spec fn class_entry(self, i: int, k: int) -> (int, int) {
        (self.class_list(i)[k] as int, class_footprint(i))
    }

    /// The invariant: the fallback heap is well formed; there are nine
    /// classes; every queued class block is aligned to its class, still
    /// carved out of the fallback heap (so the fallback can never hand its
    /// bytes out again), and disjoint from every other queued block; and the
    /// outstanding blocks are likewise carved out, mutually disjoint, and
    /// disjoint from every queued block.
    pub open spec fn wf(self) -> bool {
        &&& self.fallback().wf()
        &&& self.class_count() == 9
        &&& forall|i: int, k: int|
            0 <= i < 9 && 0 <= k < self.class_list(i).len() ==> (#[trigger] self.class_entry(
                i,
                k,
            )).0 % class_size(i) == 0
        &&& forall|i: int, k: int|
            0 <= i < 9 && 0 <= k < self.class_list(i).len()
                ==> self.fallback().live_blocks().contains(#[trigger] self.class_entry(i, k))
        &&& forall|i: int, k: int, i2: int, k2: int|
            0 <= i < 9 && 0 <= k < self.class_list(i).len() && 0 <= i2 < 9 && 0 <= k2
                < self.class_list(i2).len() && !(i == i2 && k == k2) ==> regions_disjoint(
                #[trigger] self.class_entry(i, k),
                #[trigger] self.class_entry(i2, k2),
            )
        &&& forall|j: int|
            0 <= j < self.live_blocks().len() ==> self.fallback().live_blocks().contains(
                #[trigger] self.live_blocks()[j],
            )
        &&& forall|j1: int, j2: int|
            0 <= j1 < j2 < self.live_blocks().len() ==> regions_disjoint(
                #[trigger] self.live_blocks()[j1],
                #[trigger] self.live_blocks()[j2],
            )
        &&& forall|i: int, k: int, j: int|
            0 <= i < 9 && 0 <= k < self.class_list(i).len() && 0 <= j < self.live_blocks().len()
                ==> regions_disjoint(
                #[trigger] self.class_entry(i, k),
                #[trigger] self.live_blocks()[j],
            )
    }

    /// Whether the allocator can serve a request: its class has a ready
    /// block, or the fallback heap can carve one; beyond the classes, the
    /// fallback must serve the request itself.
    pub open spec fn can_serve(self, size: usize, align: usize) -> bool {
        let c = spec_class_of(size, align);
        if c < 9 {
            self.class_list(c).len() > 0 || self.fallback().can_serve(
                class_size(c) as usize,
                class_size(c) as usize,
            )
        } else {
            self.fallback().can_serve(size, align)
        }
    }

    /// Creates an empty allocator: nine empty class lists and a fallback
    /// heap that owns no memory yet.
    pub fn new() -> (r: Self)
        ensures
            r.wf(),
            forall|i: int| 0 <= i < 9 ==> (#[trigger] r.class_list(i)).len() == 0,
            r.live_blocks().len() == 0,
            r.fallback().free_regions().len() == 0,
            r.fallback().live_blocks().len() == 0,
            r.heap_start() == 0,
            r.heap_end() == 0,
    {
        let mut heads: Vec<Vec<usize>> = Vec::new();
        let mut i: usize = 0;
        while i < 9
            invariant
                i <= 9,
                heads@.len() == i,
                forall|k: int| 0 <= k < i ==> (#[trigger] heads@[k])@.len() == 0,
            decreases 9 - i,
        {
            heads.push(Vec::new());
            i = i + 1;
        }
        FixedSizeBlockAllocator {
            list_heads: heads,
            fallback_allocator: LinkedListAllocator::new(),
            user_live: Ghost(Seq::empty()),
        }
    }

    /// Hands the allocator the heap range `[heap_start, heap_start + heap_size)`,
    /// which the caller must have mapped, writable and otherwise unused; the
    /// fallback heap takes the whole range. To be called exactly once.
    pub fn init(&mut self, heap_start: usize, heap_size: usize)
        requires
            old(self).wf(),
            forall|i: int| 0 <= i < 9 ==> (#[trigger] old(self).class_list(i)).len() == 0,
            old(self).live_blocks().len() == 0,
            old(self).fallback().free_regions().len() == 0,
            old(self).fallback().live_blocks().len() == 0,
            heap_start % NODE_ALIGN == 0,
            heap_size >= NODE_SIZE,
            heap_start + heap_size <= usize::MAX,
        ensures
            final(self).wf(),
            final(self).heap_start() == heap_start,
            final(self).heap_end() == heap_start + heap_size,
            forall|i: int| 0 <= i < 9 ==> (#[trigger] final(self).class_list(i)).len() == 0,
            final(self).live_blocks().len() == 0,
    {
        self.fallback_allocator.init(heap_start, heap_size);
        proof {
            assert forall|i: int| 0 <= i < 9 implies #[trigger] self.class_list(i) == old(
                self,
            ).class_list(i) by {}
            assert(self.live_blocks() == old(self).live_blocks());
        }
    }

    /// Carves a block from the fallback heap and records it in the ledger.
    /// Serves oversized requests, and fresh blocks for a class whose list is
    /// empty.
    fn fallback_alloc(&mut self, size: usize, align: usize) -> (r: Option<usize>)
        requires
            old(self).wf(),
            is_power_of_two(align),
            size + spec_adjusted_align(align) - 1 <= usize::MAX,
        ensures
            final(self).wf(),
            final(self).heap_start() == old(self).heap_start(),
            final(self).heap_end() == old(self).heap_end(),
            forall|i: int|
                0 <= i < 9 ==> #[trigger] final(self).class_list(i) == old(self).class_list(i),
            r.is_some() <==> old(self).fallback().can_serve(size, align),
            r.is_some() ==> is_first_fit(
                old(self).fallback().free_regions(),
                size,
                align,
                r.unwrap() as int,
            ),
            r.is_some() ==> r.unwrap() as int % (align as int) == 0,
            r.is_some() ==> old(self).heap_start() <= r.unwrap() && r.unwrap()
                + spec_adjusted_size(size, align) <= old(self).heap_end(),
            r.is_some() ==> final(self).live_blocks() == old(self).live_blocks().push(
                (r.unwrap() as int, spec_adjusted_size(size, align)),
            ),
            r.is_some() ==> forall|j: int|
                0 <= j < old(self).live_blocks().len() ==> regions_disjoint(
                    (r.unwrap() as int, spec_adjusted_size(size, align)),
                    #[trigger] old(self).live_blocks()[j],
                ),
            r.is_none() ==> *final(self) == *old(self),
    {
        let res: Option<usize> = self.fallback_allocator.allocate(size, align);
        match res {
            Some(addr) => {
                let ghost nb: (int, int) = (addr as int, spec_adjusted_size(size, align));
                self.user_live = Ghost(self.user_live@.push(nb));
                proof {
                    let ghost fb0 = old(self).fallback();
                    let ghost fb1 = self.fallback();
                    // every block the ledger or a class list tracked is still
                    // in the fallback's ledger, which only grew
                    assert forall|i: int, k: int|
                        0 <= i < 9 && 0 <= k < self.class_list(i).len() implies
                        fb1.live_blocks().contains(#[trigger] self.class_entry(i, k)) by {
                        assert(self.class_entry(i, k) == old(self).class_entry(i, k));
                        lemma_contains_push(
                            fb0.live_blocks(),
                            old(self).class_entry(i, k),
                            nb,
                        );
                    }
                    assert forall|j: int|
                        0 <= j < self.live_blocks().len() implies fb1.live_blocks().contains(
                        #[trigger] self.live_blocks()[j],
                    ) by {
                        if j < old(self).live_blocks().len() {
                            assert(self.live_blocks()[j] == old(self).live_blocks()[j]);
                            lemma_contains_push(fb0.live_blocks(), old(self).live_blocks()[j], nb);
                        } else {
                            assert(self.live_blocks()[j] == nb);
                            assert(fb1.live_blocks()[fb0.live_blocks().len() as int] == nb);
                        }
                    }
                    // the fresh block is disjoint from everything tracked,
                    // because everything tracked sits in the fallback's old
                    // ledger and the fallback promised disjointness from it
                    assert forall|i: int, k: int|
                        0 <= i < 9 && 0 <= k < self.class_list(i).len() implies regions_disjoint(
                        #[trigger] self.class_entry(i, k),
                        nb,
                    ) by {
                        assert(self.class_entry(i, k) == old(self).class_entry(i, k));
                        let e = old(self).class_entry(i, k);
                        let ghost w: int = choose|w: int|
                            0 <= w < fb0.live_blocks().len() && fb0.live_blocks()[w] == e;
                        assert(regions_disjoint(nb, fb0.live_blocks()[w]));
                    }
                    assert forall|j: int|
                        0 <= j < old(self).live_blocks().len() implies regions_disjoint(
                        nb,
                        #[trigger] old(self).live_blocks()[j],
                    ) by {
                        let e = old(self).live_blocks()[j];
                        let ghost w: int = choose|w: int|
                            0 <= w < fb0.live_blocks().len() && fb0.live_blocks()[w] == e;
                        assert(regions_disjoint(nb, fb0.live_blocks()[w]));
                    }
                    assert forall|j1: int, j2: int|
                        0 <= j1 < j2 < self.live_blocks().len() implies regions_disjoint(
                        #[trigger] self.live_blocks()[j1],
                        #[trigger] self.live_blocks()[j2],
                    ) by {
                        assert(self.live_blocks()[j1] == old(self).live_blocks()[j1]);
                        if j2 < old(self).live_blocks().len() {
                            assert(self.live_blocks()[j2] == old(self).live_blocks()[j2]);
                        } else {
                            assert(self.live_blocks()[j2] == nb);
                        }
                    }
                    assert forall|i: int, k: int, j: int|
                        0 <= i < 9 && 0 <= k < self.class_list(i).len() && 0 <= j
                            < self.live_blocks().len() implies regions_disjoint(
                        #[trigger] self.class_entry(i, k),
                        #[trigger] self.live_blocks()[j],
                    ) by {
                        assert(self.class_entry(i, k) == old(self).class_entry(i, k));
                        if j < old(self).live_blocks().len() {
                            assert(self.live_blocks()[j] == old(self).live_blocks()[j]);
                        } else {
                            assert(self.live_blocks()[j] == nb);
                        }
                    }
                    assert forall|i: int, k: int|
                        0 <= i < 9 && 0 <= k < self.class_list(i).len() implies (
                        #[trigger] self.class_entry(i, k)).0 % class_size(i) == 0 by {
                        assert(self.class_entry(i, k) == old(self).class_entry(i, k));
                    }
                    assert forall|i: int, k: int, i2: int, k2: int|
                        0 <= i < 9 && 0 <= k < self.class_list(i).len() && 0 <= i2 < 9 && 0 <= k2
                            < self.class_list(i2).len() && !(i == i2 && k2 == k) implies
                        regions_disjoint(
                        #[trigger] self.class_entry(i, k),
                        #[trigger] self.class_entry(i2, k2),
                    ) by {
                        assert(self.class_entry(i, k) == old(self).class_entry(i, k));
                        assert(self.class_entry(i2, k2) == old(self).class_entry(i2, k2));
                    }
                }
                Some(addr)
            },
            None => None,
        }
    }

    /// Serves a request for `size` bytes at alignment `align`. A request
    /// that fits a class pops that class's ready block if there is one, and
    /// otherwise carves a fresh block of the class's size and alignment from
    /// the fallback heap; an oversized request goes to the fallback heap
    /// directly. The block returned is aligned to its class (or, beyond the
    /// classes, to the requested alignment), lies inside the heap, and
    /// overlaps no outstanding block. `None` comes exactly when neither the
    /// class list nor the fallback heap can serve.
    pub fn allocate(&mut self, size: usize, align: usize) -> (r: Option<usize>)
        requires
            old(self).wf(),
            is_power_of_two(align),
            size + spec_adjusted_align(align) - 1 <= usize::MAX,
        ensures
            final(self).wf(),
            final(self).heap_start() == old(self).heap_start(),
            final(self).heap_end() == old(self).heap_end(),
            r.is_some() <==> old(self).can_serve(size, align),
            r.is_some() && spec_class_of(size, align) < 9 ==> r.unwrap() as int % class_size(
                spec_class_of(size, align),
            ) == 0,
            r.is_some() && spec_class_of(size, align) >= 9 ==> r.unwrap() as int % (align as int)
                == 0,
            r.is_some() ==> old(self).heap_start() <= r.unwrap() && r.unwrap() + spec_footprint(
                size,
                align,
            ) <= old(self).heap_end(),
            r.is_some() ==> final(self).live_blocks() == old(self).live_blocks().push(
                (r.unwrap() as int, spec_footprint(size, align)),
            ),
            r.is_some() ==> forall|j: int|
                0 <= j < old(self).live_blocks().len() ==> regions_disjoint(
                    (r.unwrap() as int, spec_footprint(size, align)),
                    #[trigger] old(self).live_blocks()[j],
                ),
            r.is_some() && spec_class_of(size, align) < 9 && old(self).class_list(
                spec_class_of(size, align),
            ).len() > 0 ==> r.unwrap() == old(self).class_list(spec_class_of(size, align)).last()
                && final(self).class_list(spec_class_of(size, align)) == old(self).class_list(
                spec_class_of(size, align),
            ).drop_last(),
            r.is_some() && spec_class_of(size, align) < 9 && old(self).class_list(
                spec_class_of(size, align),
            ).len() == 0 ==> is_first_fit(
                old(self).fallback().free_regions(),
                class_size(spec_class_of(size, align)) as usize,
                class_size(spec_class_of(size, align)) as usize,
                r.unwrap() as int,
            ),
            r.is_some() && spec_class_of(size, align) >= 9 ==> is_first_fit(
                old(self).fallback().free_regions(),
                size,
                align,
                r.unwrap() as int,
            ),
            r.is_none() ==> *final(self) == *old(self),
    {
        let idx_opt: Option<usize> = list_index(size, align);
        match idx_opt {
            Some(index) => {
                if self.list_heads[index].len() > 0 {
                    let popped: Option<usize> = self.list_heads[index].pop();
                    let addr: usize = popped.unwrap();
                    let ghost c: int = index as int;
                    let ghost prevl = old(self).class_list(c);
                    let ghost lastk: int = prevl.len() - 1;
                    let ghost pe: (int, int) = (addr as int, class_footprint(c));
                    self.user_live = Ghost(self.user_live@.push(pe));
                    proof {
                        assert(old(self).class_entry(c, lastk) == pe);
                        assert forall|i: int|
                            0 <= i < 9 && i != c implies #[trigger] self.class_list(i) == old(
                            self,
                        ).class_list(i) by {}
                        assert(self.class_list(c) == prevl.drop_last());
                        assert forall|i: int, k: int|
                            0 <= i < 9 && 0 <= k < self.class_list(i).len() implies #[trigger] self
                            .class_entry(i, k) == old(self).class_entry(i, k) by {
                            if i == c {
                                assert(self.class_list(c)[k] == prevl[k]);
                            }
                        }
                        assert forall|i: int, k: int|
                            0 <= i < 9 && 0 <= k < self.class_list(i).len() implies (
                        #[trigger] self.class_entry(i, k)).0 % class_size(i) == 0 by {
                            assert(self.class_entry(i, k) == old(self).class_entry(i, k));
                        }
                        assert forall|i: int, k: int|
                            0 <= i < 9 && 0 <= k < self.class_list(i).len() implies self.fallback()
                            .live_blocks().contains(#[trigger] self.class_entry(i, k)) by {
                            assert(self.class_entry(i, k) == old(self).class_entry(i, k));
                        }
                        assert forall|i: int, k: int, i2: int, k2: int|
                            0 <= i < 9 && 0 <= k < self.class_list(i).len() && 0 <= i2 < 9 && 0
                                <= k2 < self.class_list(i2).len() && !(i == i2 && k == k2) implies
                            regions_disjoint(
                            #[trigger] self.class_entry(i, k),
                            #[trigger] self.class_entry(i2, k2),
                        ) by {
                            assert(self.class_entry(i, k) == old(self).class_entry(i, k));
                            assert(self.class_entry(i2, k2) == old(self).class_entry(i2, k2));
                        }
                        assert forall|j: int|
                            0 <= j < self.live_blocks().len() implies self.fallback().live_blocks()
                            .contains(#[trigger] self.live_blocks()[j]) by {
                            if j < old(self).live_blocks().len() {
                                assert(self.live_blocks()[j] == old(self).live_blocks()[j]);
                            } else {
                                assert(self.live_blocks()[j] == pe);
                            }
                        }
                        assert forall|j: int|
                            0 <= j < old(self).live_blocks().len() implies regions_disjoint(
                            pe,
                            #[trigger] old(self).live_blocks()[j],
                        ) by {
                            assert(regions_disjoint(
                                old(self).class_entry(c, lastk),
                                old(self).live_blocks()[j],
                            ));
                        }
                        assert forall|j1: int, j2: int|
                            0 <= j1 < j2 < self.live_blocks().len() implies regions_disjoint(
                            #[trigger] self.live_blocks()[j1],
                            #[trigger] self.live_blocks()[j2],
                        ) by {
                            assert(self.live_blocks()[j1] == old(self).live_blocks()[j1]);
                            if j2 < old(self).live_blocks().len() {
                                assert(self.live_blocks()[j2] == old(self).live_blocks()[j2]);
                            } else {
                                assert(self.live_blocks()[j2] == pe);
                            }
                        }
                        assert forall|i: int, k: int, j: int|
                            0 <= i < 9 && 0 <= k < self.class_list(i).len() && 0 <= j
                                < self.live_blocks().len() implies regions_disjoint(
                            #[trigger] self.class_entry(i, k),
                            #[trigger] self.live_blocks()[j],
                        ) by {
                            assert(self.class_entry(i, k) == old(self).class_entry(i, k));
                            if j < old(self).live_blocks().len() {
                                assert(self.live_blocks()[j] == old(self).live_blocks()[j]);
                            } else {
                                assert(self.live_blocks()[j] == pe);
                                assert(!(i == c && k == lastk));
                                assert(regions_disjoint(
                                    old(self).class_entry(i, k),
                                    old(self).class_entry(c, lastk),
                                ));
                            }
                        }
                        lemma_contained_block(old(self).fallback(), pe);
                    }
                    Some(addr)
                } else {
                    let block_sz: usize = block_size(index);
                    proof {
                        lemma_class_pow2(index as int);
                    }
                    self.fallback_alloc(block_sz, block_sz)
                }
            },
            None => self.fallback_alloc(size, align),
        }
    }

    /// Returns the block of `size` bytes at `ptr`, which must be
    /// outstanding and must have been allocated with the same size and
    /// alignment. A block of a class goes onto its class's ready list, never
    /// back to the fallback heap; a block beyond the classes returns to the
    /// fallback heap.
    pub fn deallocate(&mut self, ptr: usize, size: usize, align: usize)
        requires
            old(self).wf(),
            is_power_of_two(align),
            size + spec_adjusted_align(align) - 1 <= usize::MAX,
            exists|j: int|
                0 <= j < old(self).live_blocks().len() && old(self).live_blocks()[j] == (
                    ptr as int,
                    spec_footprint(size, align),
                ),
            spec_class_of(size, align) < 9 ==> ptr as int % class_size(spec_class_of(size, align))
                == 0,
            spec_class_of(size, align) >= 9 ==> ptr % NODE_ALIGN == 0,
        ensures
            final(self).wf(),
            final(self).heap_start() == old(self).heap_start(),
            final(self).heap_end() == old(self).heap_end(),
            exists|j: int|
                0 <= j < old(self).live_blocks().len() && old(self).live_blocks()[j] == (
                    ptr as int,
                    spec_footprint(size, align),
                ) && final(self).live_blocks() == old(self).live_blocks().remove(j),
            spec_class_of(size, align) < 9 ==> final(self).class_list(spec_class_of(size, align))
                == old(self).class_list(spec_class_of(size, align)).push(ptr),
            spec_class_of(size, align) < 9 ==> final(self).fallback() == old(self).fallback(),
            spec_class_of(size, align) >= 9 ==> final(self).fallback().free_regions() == seq![
                (ptr as int, spec_adjusted_size(size, align)),
            ] + old(self).fallback().free_regions(),
    {
        let ghost fp: int = spec_footprint(size, align);
        let ghost jj: int = choose|j: int|
            0 <= j < old(self).live_blocks().len() && old(self).live_blocks()[j] == (
                ptr as int,
                fp,
            );
        let ghost prev = old(self).live_blocks();
        let ghost pe: (int, int) = (ptr as int, fp);
        let idx_opt: Option<usize> = list_index(size, align);
        match idx_opt {
            Some(index) => {
                let ghost c: int = index as int;
                self.user_live = Ghost(self.user_live@.remove(jj));
                self.list_heads[index].push(ptr);
                proof {
                    assert forall|i: int|
                        0 <= i < 9 && i != c implies #[trigger] self.class_list(i) == old(
                        self,
                    ).class_list(i) by {}
                    assert(self.class_list(c) == old(self).class_list(c).push(ptr));
                    let ghost newk: int = old(self).class_list(c).len() as int;
                    assert(self.class_entry(c, newk) == pe);
                    assert forall|i: int, k: int|
                        0 <= i < 9 && 0 <= k < self.class_list(i).len() && !(i == c && k == newk)
                            implies #[trigger] self.class_entry(i, k) == old(self).class_entry(
                        i,
                        k,
                    ) by {
                        if i == c {
                            assert(self.class_list(c)[k] == old(self).class_list(c)[k]);
                        }
                    }
                    assert forall|j: int|
                        0 <= j < self.live_blocks().len() implies #[trigger] self.live_blocks()[j]
                        == if j < jj {
                        prev[j]
                    } else {
                        prev[j + 1]
                    } by {}
                    assert forall|i: int, k: int|
                        0 <= i < 9 && 0 <= k < self.class_list(i).len() implies (
                    #[trigger] self.class_entry(i, k)).0 % class_size(i) == 0 by {
                        if !(i == c && k == newk) {
                            assert(self.class_entry(i, k) == old(self).class_entry(i, k));
                        }
                    }
                    assert forall|i: int, k: int|
                        0 <= i < 9 && 0 <= k < self.class_list(i).len() implies self.fallback()
                        .live_blocks().contains(#[trigger] self.class_entry(i, k)) by {
                        if !(i == c && k == newk) {
                            assert(self.class_entry(i, k) == old(self).class_entry(i, k));
                        } else {
                            assert(self.fallback().live_blocks().contains(prev[jj]));
                        }
                    }
                    assert forall|i: int, k: int, i2: int, k2: int|
                        0 <= i < 9 && 0 <= k < self.class_list(i).len() && 0 <= i2 < 9 && 0 <= k2
                            < self.class_list(i2).len() && !(i == i2 && k == k2) implies
                        regions_disjoint(
                        #[trigger] self.class_entry(i, k),
                        #[trigger] self.class_entry(i2, k2),
                    ) by {
                        if i == c && k == newk {
                            assert(self.class_entry(i2, k2) == old(self).class_entry(i2, k2));
                            assert(regions_disjoint(old(self).class_entry(i2, k2), prev[jj]));
                        } else if i2 == c && k2 == newk {
                            assert(self.class_entry(i, k) == old(self).class_entry(i, k));
                            assert(regions_disjoint(old(self).class_entry(i, k), prev[jj]));
                        } else {
                            assert(self.class_entry(i, k) == old(self).class_entry(i, k));
                            assert(self.class_entry(i2, k2) == old(self).class_entry(i2, k2));
                        }
                    }
                    assert forall|j: int|
                        0 <= j < self.live_blocks().len() implies self.fallback().live_blocks()
                        .contains(#[trigger] self.live_blocks()[j]) by {
                        let j0: int = if j < jj {
                            j
                        } else {
                            j + 1
                        };
                        assert(self.live_blocks()[j] == prev[j0]);
                    }
                    assert forall|j1: int, j2: int|
                        0 <= j1 < j2 < self.live_blocks().len() implies regions_disjoint(
                        #[trigger] self.live_blocks()[j1],
                        #[trigger] self.live_blocks()[j2],
                    ) by {
                        let a0: int = if j1 < jj {
                            j1
                        } else {
                            j1 + 1
                        };
                        let b0: int = if j2 < jj {
                            j2
                        } else {
                            j2 + 1
                        };
                        assert(self.live_blocks()[j1] == prev[a0]);
                        assert(self.live_blocks()[j2] == prev[b0]);
                        assert(regions_disjoint(prev[a0], prev[b0]));
                    }
                    assert forall|i: int, k: int, j: int|
                        0 <= i < 9 && 0 <= k < self.class_list(i).len() && 0 <= j
                            < self.live_blocks().len() implies regions_disjoint(
                        #[trigger] self.class_entry(i, k),
                        #[trigger] self.live_blocks()[j],
                    ) by {
                        let j0: int = if j < jj {
                            j
                        } else {
                            j + 1
                        };
                        assert(self.live_blocks()[j] == prev[j0]);
                        if !(i == c && k == newk) {
                            assert(self.class_entry(i, k) == old(self).class_entry(i, k));
                            assert(regions_disjoint(old(self).class_entry(i, k), prev[j0]));
                        } else {
                            assert(regions_disjoint(prev[jj], prev[j0]));
                        }
                    }
                }
            },
            None => {
                self.user_live = Ghost(self.user_live@.remove(jj));
                proof {
                    assert(old(self).fallback().live_blocks().contains(pe));
                    assert forall|i: int|
                        0 <= i < 9 implies #[trigger] self.class_list(i) == old(self).class_list(
                            i,
                        ) by {}
                    assert(self.fallback() == old(self).fallback());
                }
                self.fallback_allocator.deallocate(ptr, size, align);
                proof {
                    let ghost fb0 = old(self).fallback();
                    let ghost fb1 = self.fallback();
                    assert(fb1.free_regions() == seq![
                        (ptr as int, spec_adjusted_size(size, align)),
                    ] + fb0.free_regions());
                    let ghost ri: int = choose|i: int|
                        0 <= i < fb0.live_blocks().len() && fb0.live_blocks()[i] == pe
                            && fb1.live_blocks() == fb0.live_blocks().remove(i);
                    assert forall|i: int|
                        0 <= i < 9 implies #[trigger] self.class_list(i) == old(self).class_list(
                            i,
                        ) by {}
                    assert forall|i: int, k: int|
                        0 <= i < 9 && 0 <= k < self.class_list(i).len() implies #[trigger] self
                        .class_entry(i, k) == old(self).class_entry(i, k) by {}
                    assert forall|j: int|
                        0 <= j < self.live_blocks().len() implies #[trigger] self.live_blocks()[j]
                        == if j < jj {
                        prev[j]
                    } else {
                        prev[j + 1]
                    } by {}
                    assert forall|i: int, k: int|
                        0 <= i < 9 && 0 <= k < self.class_list(i).len() implies (
                    #[trigger] self.class_entry(i, k)).0 % class_size(i) == 0 by {
                        assert(self.class_entry(i, k) == old(self).class_entry(i, k));
                    }
                    assert forall|i: int, k: int|
                        0 <= i < 9 && 0 <= k < self.class_list(i).len() implies fb1.live_blocks()
                        .contains(#[trigger] self.class_entry(i, k)) by {
                        let e = old(self).class_entry(i, k);
                        assert(self.class_entry(i, k) == e);
                        lemma_contained_block(fb0, e);
                        lemma_contained_block(fb0, pe);
                        assert(regions_disjoint(e, pe));
                        lemma_contains_remove(fb0.live_blocks(), e, ri);
                    }
                    assert forall|i: int, k: int, i2: int, k2: int|
                        0 <= i < 9 && 0 <= k < self.class_list(i).len() && 0 <= i2 < 9 && 0 <= k2
                            < self.class_list(i2).len() && !(i == i2 && k == k2) implies
                        regions_disjoint(
                        #[trigger] self.class_entry(i, k),
                        #[trigger] self.class_entry(i2, k2),
                    ) by {
                        assert(self.class_entry(i, k) == old(self).class_entry(i, k));
                        assert(self.class_entry(i2, k2) == old(self).class_entry(i2, k2));
                    }
                    assert forall|j: int|
                        0 <= j < self.live_blocks().len() implies fb1.live_blocks().contains(
                        #[trigger] self.live_blocks()[j],
                    ) by {
                        let j0: int = if j < jj {
                            j
                        } else {
                            j + 1
                        };
                        assert(self.live_blocks()[j] == prev[j0]);
                        lemma_contained_block(fb0, prev[j0]);
                        lemma_contained_block(fb0, pe);
                        assert(regions_disjoint(prev[j0], pe));
                        lemma_contains_remove(fb0.live_blocks(), prev[j0], ri);
                    }
                    assert forall|j1: int, j2: int|
                        0 <= j1 < j2 < self.live_blocks().len() implies regions_disjoint(
                        #[trigger] self.live_blocks()[j1],
                        #[trigger] self.live_blocks()[j2],
                    ) by {
                        let a0: int = if j1 < jj {
                            j1
                        } else {
                            j1 + 1
                        };
                        let b0: int = if j2 < jj {
                            j2
                        } else {
                            j2 + 1
                        };
                        assert(self.live_blocks()[j1] == prev[a0]);
                        assert(self.live_blocks()[j2] == prev[b0]);
                        assert(regions_disjoint(prev[a0], prev[b0]));
                    }
                    assert forall|i: int, k: int, j: int|
                        0 <= i < 9 && 0 <= k < self.class_list(i).len() && 0 <= j
                            < self.live_blocks().len() implies regions_disjoint(
                        #[trigger] self.class_entry(i, k),
                        #[trigger] self.live_blocks()[j],
                    ) by {
                        let j0: int = if j < jj {
                            j
                        } else {
                            j + 1
                        };
                        assert(self.class_entry(i, k) == old(self).class_entry(i, k));
                        assert(self.live_blocks()[j] == prev[j0]);
                        assert(regions_disjoint(old(self).class_entry(i, k), prev[j0]));
                    }
                }
            },
        }
    }
}

/// Every class size is a power of two, at least the record alignment, and
/// the fallback heap rounds a class-sized, class-aligned request to exactly
/// the class footprint.
proof fn lemma_class_pow2(i: int)
    requires
        0 <= i < 9,
    ensures
        is_power_of_two(class_size(i) as usize),
        class_size(i) >= 8,
        spec_adjusted_align(class_size(i) as usize) == class_size(i),
        spec_adjusted_size(class_size(i) as usize, class_size(i) as usize) == class_footprint(i),
{
    assert(8usize & 7 == 0 && 16usize & 15 == 0 && 32usize & 31 == 0 && 64usize & 63 == 0
        && 128usize & 127 == 0 && 256usize & 255 == 0 && 512usize & 511 == 0 && 1024usize & 1023
        == 0 && 2048usize & 2047 == 0) by (bit_vector);
    let bs: int = class_size(i);
    lemma_mod_multiples_basic(1, bs);
    assert(1 * bs == bs) by (nonlinear_arith);
    lemma_align_up_unique(bs, bs, bs);
}

/// A pushed element, and everything already present, is in the longer list.
proof fn lemma_contains_push(s: Seq<(int, int)>, x: (int, int), y: (int, int))
    requires
        s.contains(x) || x == y,
    ensures
        s.push(y).contains(x),
{
    if x == y {
        assert(s.push(y)[s.len() as int] == x);
    } else {
        let i: int = choose|i: int| 0 <= i < s.len() && s[i] == x;
        assert(s.push(y)[i] == x);
    }
}

/// Removing one element keeps every other element in the list.
proof fn lemma_contains_remove(s: Seq<(int, int)>, x: (int, int), j: int)
    requires
        s.contains(x),
        0 <= j < s.len(),
        x != s[j],
    ensures
        s.remove(j).contains(x),
{
    let i: int = choose|i: int| 0 <= i < s.len() && s[i] == x;
    if i < j {
        assert(s.remove(j)[i] == x);
    } else {
        assert(s.remove(j)[i - 1] == x);
    }
}

/// A block in a well-formed fallback's ledger is a nonempty range inside
/// the heap.
proof fn lemma_contained_block(fb: LinkedListAllocator, b: (int, int))
    requires
        fb.wf(),
        fb.live_blocks().contains(b),
    ensures
        fb.heap_start() <= b.0,
        b.0 + b.1 <= fb.heap_end(),
        b.1 >= 1,
{
    let i: int = choose|i: int| 0 <= i < fb.live_blocks().len() && fb.live_blocks()[i] == b;
    assert(fb.block_wf(fb.live_blocks()[i]));
}

} // verus!
