use vstd::prelude::*;

use crate::align::{align_up, align_up_spec, is_power_of_two, lemma_aligned_no_overflow, lemma_align_up_properties};
use crate::allocator::{disjoint, AllocError};

verus! {

/// Bytes that the header of a free region takes: its size and a link to the next region.
/// A free run shorter than this cannot be tracked.
pub const NODE_SIZE: usize = 16;

/// One free run of heap bytes: `[addr, addr + size)`.
#[derive(Clone, Copy, Debug, PartialEq, Eq, Structural)]
pub struct FreeRegion {
    pub addr: usize,
    pub size: usize,
}

/// The byte range of a free region as a (start, length) pair.
pub open spec fn span(r: FreeRegion) -> (int, int) {
    (r.addr as int, r.size as int)
}

/// A gap left beside an allocation is either empty or large enough to hold a header.
pub open spec fn trackable_gap(g: int) -> bool {
    g == 0 || g >= NODE_SIZE
}

/// Where an allocation of `size` bytes aligned to `align` would start inside `r`.
pub open spec fn alloc_start(r: FreeRegion, align: usize) -> int {
    align_up_spec(r.addr as int, align as int)
}

/// `r` can serve the request: aligning does not overflow, the block fits, and neither the
/// gap in front of it nor the gap behind it is an untrackable fragment.
pub open spec fn accepts(r: FreeRegion, size: usize, align: usize) -> bool {
    &&& r.addr + align - 1 <= usize::MAX
    &&& alloc_start(r, align) + size <= r.addr + r.size
    &&& trackable_gap(alloc_start(r, align) - r.addr)
    &&& trackable_gap(r.addr + r.size - (alloc_start(r, align) + size))
}

/// `i` is the first region of the list, from the head, that can serve the request.
pub open spec fn is_first_fit(s: Seq<FreeRegion>, i: int, size: usize, align: usize) -> bool {
    &&& 0 <= i < s.len()
    &&& accepts(s[i], size, align)
    &&& forall|j: int| 0 <= j < i ==> !accepts(#[trigger] s[j], size, align)
}

/// The list after the run `[addr, addr + size)` is handed back: pushed at the head when it
/// can hold a header, dropped otherwise.
pub open spec fn with_region(s: Seq<FreeRegion>, addr: int, size: int) -> Seq<FreeRegion> {
    if size >= NODE_SIZE {
        seq![FreeRegion { addr: addr as usize, size: size as usize }] + s
    } else {
        s
    }
}

/// The list after region `i` serves a request: the region is unlinked, then its front gap
/// and its back gap are handed back, in that order.
pub open spec fn after_alloc(s: Seq<FreeRegion>, i: int, size: usize, align: usize) -> Seq<FreeRegion> {
    let r = s[i];
    let start = alloc_start(r, align);
    with_region(
        with_region(s.remove(i), r.addr as int, start - r.addr),
        start + size,
        r.addr + r.size - (start + size),
    )
}

/// A first-fit allocator over a list of free regions, newest region at the head.
/// Neighbouring free regions are never merged.
pub struct LinkedListAllocator {
    regions: Vec<FreeRegion>,
    live: Ghost<Seq<(int, int)>>,
}

impl LinkedListAllocator {
    /// The free list, head first.
    pub closed spec fn regions(&self) -> Seq<FreeRegion> {
        self.regions@
    }

    /// The blocks handed out and not yet given back, as (start, length) pairs.
    pub closed spec fn live(&self) -> Seq<(int, int)> {
        self.live@
    }

    /// Free regions hold a header and fit in the address space; free regions and live
    /// blocks never overlap one another.
    pub closed spec fn wf(&self) -> bool {
        &&& forall|i: int|
            0 <= i < self.regions@.len() ==> #[trigger] self.regions@[i].size >= NODE_SIZE
                && self.regions@[i].addr + self.regions@[i].size <= usize::MAX
        &&& forall|k: int|
            0 <= k < self.live@.len() ==> 0 <= (#[trigger] self.live@[k]).0
                && self.live@[k].1 >= 0 && self.live@[k].0 + self.live@[k].1 <= usize::MAX
        &&& forall|i: int, j: int|
            0 <= i < self.regions@.len() && 0 <= j < self.regions@.len() && i != j
                ==> disjoint(span(#[trigger] self.regions@[i]), span(#[trigger] self.regions@[j]))
        &&& forall|i: int, k: int|
            0 <= i < self.regions@.len() && 0 <= k < self.live@.len()
                ==> disjoint(span(#[trigger] self.regions@[i]), #[trigger] self.live@[k])
        &&& forall|k: int, l: int|
            0 <= k < self.live@.len() && 0 <= l < self.live@.len() && k != l
                ==> disjoint(#[trigger] self.live@[k], #[trigger] self.live@[l])
    }

    /// An allocator with no free memory; `init` gives it its heap.
    pub fn new() -> (r: Self)
        ensures
            r.wf(),
            r.regions() == Seq::<FreeRegion>::empty(),
            r.live() == Seq::<(int, int)>::empty(),
    {
        LinkedListAllocator { regions: Vec::new(), live: Ghost(Seq::empty()) }
    }

    /// Hands the run `[addr, addr + size)` to the free list, or drops it when it is too
    /// small to hold a header.
    fn add_free_region(&mut self, addr: usize, size: usize)
        requires
            old(self).wf(),
            addr + size <= usize::MAX,
            size >= NODE_SIZE ==> forall|i: int|
                0 <= i < old(self).regions@.len() ==> disjoint(
                    (addr as int, size as int),
                    span(#[trigger] old(self).regions@[i]),
                ),
            size >= NODE_SIZE ==> forall|k: int|
                0 <= k < old(self).live@.len() ==> disjoint(
                    (addr as int, size as int),
                    #[trigger] old(self).live@[k],
                ),
        ensures
            final(self).wf(),
            final(self).regions() == with_region(old(self).regions(), addr as int, size as int),
            final(self).live() == old(self).live(),
    {
        if size >= NODE_SIZE {
            let ghost s0 = self.regions@;
            self.regions.insert(0, FreeRegion { addr, size });
            assert(self.regions@ =~= seq![FreeRegion { addr, size }] + s0);
            assert forall|i: int| 0 <= i < self.regions@.len() implies #[trigger] self.regions@[i]
                == if i == 0 { FreeRegion { addr, size } } else { s0[i - 1] } by {}
        }
    }

    /// Makes `[heap_start, heap_start + heap_size)` the only free region.
    pub fn init(&mut self, heap_start: usize, heap_size: usize)
        requires
            old(self).wf(),
            old(self).regions().len() == 0,
            old(self).live().len() == 0,
            heap_start + heap_size <= usize::MAX,
        ensures
            final(self).wf(),
            final(self).regions() == with_region(Seq::empty(), heap_start as int, heap_size as int),
            final(self).live() == Seq::<(int, int)>::empty(),
    {
        self.add_free_region(heap_start, heap_size);
    }

    /// Where in `region` a block of `size` bytes aligned to `align` would start, if the
    /// region accepts it.
    fn alloc_from_region(region: FreeRegion, size: usize, align: usize) -> (r: Option<usize>)
        requires
            is_power_of_two(align),
            region.addr + region.size <= usize::MAX,
        ensures
            r is Some <==> accepts(region, size, align),
            r matches Some(start) ==> start as int == alloc_start(region, align),
    {
        if region.addr > usize::MAX - (align - 1) {
            return None;
        }
        let start = align_up(region.addr, align);
        let end_of_region = region.addr + region.size;
        if start > end_of_region || size > end_of_region - start {
            return None;
        }
        let front = start - region.addr;
        if front > 0 && front < NODE_SIZE {
            return None;
        }
        let back = end_of_region - (start + size);
        if back > 0 && back < NODE_SIZE {
            return None;
        }
        Some(start)
    }

    /// Serves `size` bytes aligned to `align` from the first free region that accepts the
    /// request, handing the gaps around the block back to the list.
    pub fn allocate(&mut self, size: usize, align: usize) -> (r: Result<usize, AllocError>)
        requires
            old(self).wf(),
            is_power_of_two(align),
        ensures
            final(self).wf(),
            match r {
                Ok(start) => exists|i: int|
                    #[trigger] is_first_fit(old(self).regions(), i, size, align)
                        && start as int == alloc_start(old(self).regions()[i], align)
                        && final(self).regions() == after_alloc(old(self).regions(), i, size, align),
                Err(e) => e == AllocError::OutOfMemory
                    && (forall|i: int| 0 <= i < old(self).regions().len()
                        ==> !accepts(#[trigger] old(self).regions()[i], size, align))
                    && final(self).regions() == old(self).regions(),
            },
            match r {
                Ok(start) => final(self).live() == old(self).live().push((start as int, size as int)),
                Err(_) => final(self).live() == old(self).live(),
            },
            r matches Ok(start) ==> forall|k: int| 0 <= k < old(self).live().len()
                ==> disjoint((start as int, size as int), #[trigger] old(self).live()[k]),
    {
        let mut i: usize = 0;
        while i < self.regions.len()
            invariant
                self.wf(),
                self.regions@ == old(self).regions@,
                self.live@ == old(self).live@,
                is_power_of_two(align),
                forall|j: int| 0 <= j < i ==> !accepts(#[trigger] self.regions@[j], size, align),
            decreases self.regions.len() - i,
        {
            let region = self.regions[i];
            match Self::alloc_from_region(region, size, align) {
                Some(start) => {
                    let ghost s0 = self.regions@;
                    let ghost l0 = self.live@;
                    self.regions.remove(i);
                    let end = start + size;
                    let region_end = region.addr + region.size;
                    let ghost block = (start as int, size as int);
                    proof {
                        assert forall|j: int| 0 <= j < self.regions@.len() implies
                            #[trigger] self.regions@[j] == s0[if j < i { j } else { j + 1 }] by {}
                        assert forall|k: int| 0 <= k < l0.len() implies
                            disjoint(block, #[trigger] l0[k]) by {
                            assert(disjoint(span(s0[i as int]), l0[k]));
                        }
                        self.live@ = l0.push(block);
                        assert forall|k: int| 0 <= k < self.live@.len() implies
                            #[trigger] self.live@[k] == if k < l0.len() { l0[k] } else { block } by {}
                        assert forall|j: int| 0 <= j < self.regions@.len() implies
                            disjoint(span(#[trigger] self.regions@[j]), block) by {
                            let jj = if j < i { j } else { j + 1 };
                            assert(disjoint(span(s0[jj]), span(s0[i as int])));
                        }
                    }
                    assert(self.wf());
                    let ghost s1 = self.regions@;
                    proof {
                        assert forall|j: int| 0 <= j < s1.len() implies disjoint(
                            (region.addr as int, (start - region.addr) as int),
                            span(#[trigger] s1[j]),
                        ) by {
                            let jj = if j < i { j } else { j + 1 };
                            assert(disjoint(span(s0[jj]), span(s0[i as int])));
                        }
                        assert forall|k: int| 0 <= k < self.live@.len() implies disjoint(
                            (region.addr as int, (start - region.addr) as int),
                            #[trigger] self.live@[k],
                        ) by {
                            if k < l0.len() {
                                assert(disjoint(span(s0[i as int]), l0[k]));
                            }
                        }
                    }
                    self.add_free_region(region.addr, start - region.addr);
                    let ghost s2 = self.regions@;
                    proof {
                        assert forall|j: int| 0 <= j < s2.len() implies disjoint(
                            (end as int, (region_end - end) as int),
                            span(#[trigger] s2[j]),
                        ) by {
                            if start - region.addr >= NODE_SIZE && j == 0 {
                            } else {
                                let j1 = if start - region.addr >= NODE_SIZE { j - 1 } else { j };
                                assert(s2[j] == s1[j1]);
                                let jj = if j1 < i { j1 } else { j1 + 1 };
                                assert(disjoint(span(s0[jj]), span(s0[i as int])));
                            }
                        }
                        assert forall|k: int| 0 <= k < self.live@.len() implies disjoint(
                            (end as int, (region_end - end) as int),
                            #[trigger] self.live@[k],
                        ) by {
                            if k < l0.len() {
                                assert(disjoint(span(s0[i as int]), l0[k]));
                            }
                        }
                    }
                    self.add_free_region(end, region_end - end);
                    assert(is_first_fit(old(self).regions(), i as int, size, align));
                    return Ok(start);
                },
                None => {},
            }
            i += 1;
        }
        Err(AllocError::OutOfMemory)
    }

    /// Gives back a block that `allocate` handed out; the block becomes a free region of its
    /// own, never merged with its neighbours.
    pub fn deallocate(&mut self, addr: usize, size: usize)
        requires
            old(self).wf(),
            old(self).live().contains((addr as int, size as int)),
        ensures
            final(self).wf(),
            final(self).regions() == with_region(old(self).regions(), addr as int, size as int),
            exists|k: int|
                0 <= k < old(self).live().len() && #[trigger] old(self).live()[k] == (addr as int, size as int)
                    && final(self).live() == old(self).live().remove(k),
    {
        let ghost block = (addr as int, size as int);
        let ghost l0 = self.live@;
        let ghost k = choose|k: int| 0 <= k < l0.len() && l0[k] == block;
        proof {
            self.live@ = l0.remove(k);
            assert forall|m: int| 0 <= m < self.live@.len() implies
                #[trigger] self.live@[m] == l0[if m < k { m } else { m + 1 }] by {}
            assert forall|m: int| 0 <= m < self.live@.len() implies disjoint(
                block, #[trigger] self.live@[m]) by {
                let mm = if m < k { m } else { m + 1 };
                assert(disjoint(l0[k], l0[mm]));
            }
            assert forall|j: int| 0 <= j < self.regions@.len() implies disjoint(
                block, span(#[trigger] self.regions@[j])) by {
                assert(disjoint(span(self.regions@[j]), l0[k]));
            }
        }
        self.add_free_region(addr, size);
    }
}

/// A block that was just served and given straight back is served again, at the same
/// address, by the next request of the same size and alignment, provided the block can hold
/// a header (a smaller block is dropped when given back).
pub proof fn lemma_freed_block_is_reused(s: Seq<FreeRegion>, i: int, size: usize, align: usize)
    requires
        is_power_of_two(align),
        is_first_fit(s, i, size, align),
        s[i].addr + s[i].size <= usize::MAX,
        size >= NODE_SIZE,
    ensures
        ({
            let a = alloc_start(s[i], align);
            let after_free = with_region(after_alloc(s, i, size, align), a, size as int);
            is_first_fit(after_free, 0, size, align) && alloc_start(after_free[0], align) == a
        }),
{
    let a = alloc_start(s[i], align);
    lemma_align_up_properties(s[i].addr as int, align as int);
    let after_free = with_region(after_alloc(s, i, size, align), a, size as int);
    let r = FreeRegion { addr: a as usize, size };
    assert(after_free[0] == r);
    lemma_aligned_no_overflow(a as usize, align);
    lemma_align_up_properties(a, align as int);
    assert(align_up_spec(a, align as int) == a);
}

/// No two live blocks of a free-list allocator overlap.
pub proof fn lemma_live_blocks_disjoint(h: &LinkedListAllocator, k: int, l: int)
    requires
        h.wf(),
        0 <= k < h.live().len(),
        0 <= l < h.live().len(),
        k != l,
    ensures
        disjoint(h.live()[k], h.live()[l]),
{
}

} // verus!
