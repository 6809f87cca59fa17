use vstd::prelude::*;

use crate::align::{align_up, align_up_spec, is_power_of_two, lemma_aligned_no_overflow};
use crate::allocator::{disjoint, AllocError};

verus! {

/// An allocator that hands out memory by moving a pointer forward, and takes the whole
/// heap back at once when the last live block is given back.
pub struct BumpAllocator {
    heap_start: usize,
    heap_end: usize,
    next: usize,
    allocations: usize,
    live: Ghost<Seq<(int, int)>>,
}

impl BumpAllocator {
    /// First byte of the heap.
    pub closed spec fn start(&self) -> int {
        self.heap_start as int
    }

    /// One past the last byte of the heap.
    pub closed spec fn end(&self) -> int {
        self.heap_end as int
    }

    /// Where the next search for free memory begins.
    pub closed spec fn next_free(&self) -> int {
        self.next as int
    }

    /// The blocks handed out and not yet given back, as (start, length) pairs.
    pub closed spec fn live(&self) -> Seq<(int, int)> {
        self.live@
    }

    /// The bump pointer lies in the heap, the count matches the live blocks, every live
    /// block lies below the bump pointer, no two live blocks overlap, and with no live block
    /// the pointer is back at the start.
    pub closed spec fn wf(&self) -> bool {
        &&& self.heap_start <= self.next <= self.heap_end
        &&& self.allocations == self.live@.len()
        &&& self.live@.len() == 0 ==> self.next == self.heap_start
        &&& forall|k: int|
            0 <= k < self.live@.len() ==> self.heap_start <= (#[trigger] self.live@[k]).0
                && self.live@[k].1 >= 0 && self.live@[k].0 + self.live@[k].1 <= self.next
        &&& forall|k: int, l: int|
            0 <= k < self.live@.len() && 0 <= l < self.live@.len() && k != l
                ==> disjoint(#[trigger] self.live@[k], #[trigger] self.live@[l])
    }

    /// An allocator over an empty heap; `init` gives it its heap.
    pub fn new() -> (r: Self)
        ensures
            r.wf(),
            r.start() == 0 && r.end() == 0 && r.next_free() == 0,
            r.live() == Seq::<(int, int)>::empty(),
    {
        BumpAllocator { heap_start: 0, heap_end: 0, next: 0, allocations: 0, live: Ghost(Seq::empty()) }
    }

    /// Serves from `[heap_start, heap_start + heap_size)`.
    pub fn init(&mut self, heap_start: usize, heap_size: usize)
        requires
            old(self).wf(),
            old(self).live().len() == 0,
            heap_start + heap_size <= usize::MAX,
        ensures
            final(self).wf(),
            final(self).start() == heap_start,
            final(self).end() == heap_start + heap_size,
            final(self).next_free() == heap_start,
            final(self).live() == Seq::<(int, int)>::empty(),
    {
        self.heap_start = heap_start;
        self.heap_end = heap_start + heap_size;
        self.next = heap_start;
    }

    /// How many blocks are live.
    pub fn allocations(&self) -> (r: usize)
        requires
            self.wf(),
        ensures
            r == self.live().len(),
    {
        self.allocations
    }

    /// Serves `size` bytes aligned to `align` at the bump pointer rounded up, when they fit
    /// before the end of the heap.
    pub fn allocate(&mut self, size: usize, align: usize) -> (r: Result<usize, AllocError>)
        requires
            old(self).wf(),
            is_power_of_two(align),
            old(self).live().len() < usize::MAX,
        ensures
            final(self).wf(),
            final(self).start() == old(self).start(),
            final(self).end() == old(self).end(),
            r is Ok <==> bump_fits(old(self).next_free(), old(self).end(), size, align),
            match r {
                Ok(a) => {
                    &&& a as int == align_up_spec(old(self).next_free(), align as int)
                    &&& final(self).next_free() == a + size
                    &&& final(self).live() == old(self).live().push((a as int, size as int))
                    &&& forall|k: int| 0 <= k < old(self).live().len()
                        ==> disjoint((a as int, size as int), #[trigger] old(self).live()[k])
                },
                Err(e) => {
                    &&& e == AllocError::OutOfMemory
                    &&& final(self).next_free() == old(self).next_free()
                    &&& final(self).live() == old(self).live()
                },
            },
    {
        if self.next > usize::MAX - (align - 1) {
            return Err(AllocError::OutOfMemory);
        }
        let start = align_up(self.next, align);
        if start > self.heap_end || size > self.heap_end - start {
            return Err(AllocError::OutOfMemory);
        }
        let ghost l0 = self.live@;
        let ghost block = (start as int, size as int);
        self.next = start + size;
        self.allocations = self.allocations + 1;
        proof {
            self.live@ = l0.push(block);
            assert forall|k: int| 0 <= k < self.live@.len() implies
                #[trigger] self.live@[k] == if k < l0.len() { l0[k] } else { block } by {}
        }
        Ok(start)
    }

    /// Gives back a block that `allocate` handed out; when it was the last live block, the
    /// whole heap becomes free again.
    pub fn deallocate(&mut self, addr: usize, size: usize)
        requires
            old(self).wf(),
            old(self).live().contains((addr as int, size as int)),
        ensures
            final(self).wf(),
            final(self).start() == old(self).start(),
            final(self).end() == old(self).end(),
            final(self).next_free() == if old(self).live().len() == 1 {
                old(self).start()
            } else {
                old(self).next_free()
            },
            exists|k: int|
                0 <= k < old(self).live().len() && #[trigger] old(self).live()[k] == (addr as int, size as int)
                    && final(self).live() == old(self).live().remove(k),
    {
        let ghost l0 = self.live@;
        let ghost k = choose|k: int| 0 <= k < l0.len() && l0[k] == (addr as int, size as int);
        self.allocations = self.allocations - 1;
        if self.allocations == 0 {
            self.next = self.heap_start;
        }
        proof {
            self.live@ = l0.remove(k);
            assert forall|m: int| 0 <= m < self.live@.len() implies
                #[trigger] self.live@[m] == l0[if m < k { m } else { m + 1 }] by {}
        }
    }
}

/// A block of `size` bytes aligned to `align` fits between the bump pointer `next` and `end`.
pub open spec fn bump_fits(next: int, end: int, size: usize, align: usize) -> bool {
    next + align - 1 <= usize::MAX && align_up_spec(next, align as int) + size <= end
}

/// Once every block has been given back, a single block as large as the whole heap is
/// served again, at the start of the heap, for any alignment that the start meets.
pub proof fn lemma_empty_bump_serves_whole_heap(b: &BumpAllocator, align: usize)
    requires
        b.wf(),
        b.live().len() == 0,
        is_power_of_two(align),
        b.start() % align as int == 0,
    ensures
        bump_fits(b.next_free(), b.end(), (b.end() - b.start()) as usize, align),
        align_up_spec(b.next_free(), align as int) == b.start(),
{
    lemma_aligned_no_overflow(b.start() as usize, align);
}

/// No two live blocks of a bump allocator overlap.
pub proof fn lemma_bump_live_disjoint(b: &BumpAllocator, k: int, l: int)
    requires
        b.wf(),
        0 <= k < b.live().len(),
        0 <= l < b.live().len(),
        k != l,
    ensures
        disjoint(b.live()[k], b.live()[l]),
{
}

} // verus!
