use vstd::prelude::*;

use crate::linked_list::{FreeRegion, LinkedListAllocator};
use crate::memory::BootInfoFrameAllocator;
use crate::paging::{page_key, MapToError, Page, PageMapper, PRESENT, WRITABLE};

verus! {

/// Why a request for heap memory was refused.
#[derive(Clone, Copy, Debug, PartialEq, Eq, Structural)]
pub enum AllocError {
    /// No free memory can serve the request.
    OutOfMemory,
}

/// Two byte ranges, each a (start, length) pair, share no byte.
pub open spec fn disjoint(a: (int, int), b: (int, int)) -> bool {
    a.0 + a.1 <= b.0 || b.0 + b.1 <= a.0
}

/// First byte of the kernel heap, a canonical address in the lower half.
pub const HEAP_START: u64 = 0x4444_4444_0000;

/// Bytes in the kernel heap (100 KiB).
pub const HEAP_SIZE: u64 = 100 * 1024;

/// Pages the kernel heap spans.
pub const HEAP_PAGES: u64 = HEAP_SIZE / 4096;

/// The `k`-th page of the heap.
pub open spec fn heap_page(k: int) -> Page {
    Page { start: (HEAP_START + k * 4096) as u64 }
}

/// Maps every page of the heap to a fresh frame, present and writable, then hands the
/// whole heap to `heap`. Stops at the first page that cannot be mapped, leaving the
/// heap allocator untouched; the pages mapped before it stay mapped.
pub fn init_heap(mapper: &mut PageMapper, frames: &mut BootInfoFrameAllocator, heap: &mut LinkedListAllocator)
    -> (r: Result<(), MapToError>)
    requires
        old(mapper).wf(),
        old(frames).wf(),
        old(heap).wf(),
        old(heap).regions().len() == 0,
        old(heap).live().len() == 0,
        HEAP_START + HEAP_SIZE <= usize::MAX,
    ensures
        final(mapper).wf(),
        final(frames).wf(),
        final(heap).wf(),
        final(frames).memory_map() == old(frames).memory_map(),
        r is Ok ==> {
            &&& forall|k: int| 0 <= k < HEAP_PAGES ==> {
                &&& #[trigger] final(mapper).mappings().contains_key(page_key(heap_page(k)))
                &&& final(mapper).mappings()[page_key(heap_page(k))].1 == PRESENT | WRITABLE
            }
            &&& final(heap).regions() == seq![FreeRegion { addr: HEAP_START as usize, size: HEAP_SIZE as usize }]
            &&& final(heap).live() == old(heap).live()
        },
        r is Err ==> final(heap).regions() == old(heap).regions() && final(heap).live() == old(heap).live(),
        r matches Err(MapToError::PageAlreadyMapped(_)) ==> exists|k: int|
            0 <= k < HEAP_PAGES && #[trigger] old(mapper).mappings().contains_key(page_key(heap_page(k))),
        r matches Err(MapToError::FrameAllocationFailed) ==> final(frames).remaining() == 0,
        (forall|k: int| 0 <= k < HEAP_PAGES ==> !#[trigger] old(mapper).mappings().contains_key(page_key(heap_page(k))))
            && old(frames).remaining() >= 4 * HEAP_PAGES ==> r is Ok,
{
    let flags: u64 = PRESENT | WRITABLE;
    let mut k: u64 = 0;
    proof {
        frames.lemma_remaining_nonneg();
    }
    while k < HEAP_PAGES
        invariant
            mapper.wf(),
            frames.wf(),
            frames.memory_map() == old(frames).memory_map(),
            *heap == *old(heap),
            heap.wf(),
            k <= HEAP_PAGES,
            flags == PRESENT | WRITABLE,
            forall|j: int| 0 <= j < k ==> {
                &&& #[trigger] mapper.mappings().contains_key(page_key(heap_page(j)))
                &&& mapper.mappings()[page_key(heap_page(j))].1 == PRESENT | WRITABLE
            },
            forall|j: int| k <= j < HEAP_PAGES ==> (#[trigger] mapper.mappings().contains_key(page_key(heap_page(j))))
                == old(mapper).mappings().contains_key(page_key(heap_page(j))),
            (forall|j: int| 0 <= j < HEAP_PAGES ==> !#[trigger] old(mapper).mappings().contains_key(page_key(heap_page(j))))
                && old(frames).remaining() >= 4 * HEAP_PAGES ==> frames.remaining() >= 4 * (HEAP_PAGES - k),
        decreases HEAP_PAGES - k,
    {
        let page = Page { start: HEAP_START + k * 4096 };
        assert(page == heap_page(k as int));
        let ghost m0 = mapper.mappings();
        let frame = match frames.allocate_frame() {
            Some(f) => f,
            None => {
                return Err(MapToError::FrameAllocationFailed);
            },
        };
        match mapper.map_to(page, frame, flags, frames) {
            Ok(flush) => {
                let _ = flush.flush();
            },
            Err(e) => {
                proof {
                    if e matches MapToError::PageAlreadyMapped(_) {
                        assert(old(mapper).mappings().contains_key(page_key(heap_page(k as int))));
                    }
                }
                return Err(e);
            },
        }
        proof {
            assert forall|j: int| k < j < HEAP_PAGES implies page_key(heap_page(j)) != page_key(page) by {
                assert(page_key(heap_page(j)) == 0x4_4444_4440 + j);
                assert(page_key(page) == 0x4_4444_4440 + k);
            }
            assert forall|j: int| 0 <= j < k implies page_key(heap_page(j)) != page_key(page) by {
                assert(page_key(heap_page(j)) == 0x4_4444_4440 + j);
                assert(page_key(page) == 0x4_4444_4440 + k);
            }
        }
        k = k + 1;
    }
    heap.init(HEAP_START as usize, HEAP_SIZE as usize);
    Ok(())
}

/// An allocator that never has memory to give.
pub struct Dummy;

impl Dummy {
    /// Refuses every request.
    pub fn allocate(&self, size: usize, align: usize) -> (r: Result<usize, AllocError>)
        ensures
            r == Err::<usize, AllocError>(AllocError::OutOfMemory),
    {
        Err(AllocError::OutOfMemory)
    }
}

/// Declares spin's lock so that it can be a field.
#[verifier::external_type_specification]
#[verifier::external_body]
#[verifier::reject_recursive_types(T)]
pub struct ExSpinMutex<T: ?Sized>(spin::Mutex<T>);

/// Declares the guard that spin's `lock` returns.
#[verifier::external_type_specification]
#[verifier::external_body]
#[verifier::reject_recursive_types(T)]
pub struct ExSpinMutexGuard<'a, T: ?Sized + 'a>(spin::MutexGuard<'a, T>);

/// Relies on spin::Mutex::new: it wraps the value in an unlocked spin lock.
pub assume_specification<T>[ spin::Mutex::<T>::new ](user_data: T) -> spin::Mutex<T>;

/// Relies on spin::Mutex::lock: it spins until the lock is free, then hands out a guard
/// that releases it when dropped.
pub assume_specification<T: ?Sized>[ spin::Mutex::<T>::lock ](m: &spin::Mutex<T>) -> spin::MutexGuard<'_, T>;

/// Mutual exclusion around an allocator, so that one shared instance can serve every
/// execution context. The lock spins; it must not be taken again by its holder.
#[verifier::reject_recursive_types(A)]
pub struct Locked<A> {
    inner: spin::Mutex<A>,
}

impl<A> Locked<A> {
    /// Puts `inner` under an unlocked lock.
    pub fn new(inner: A) -> Self {
        Locked { inner: spin::Mutex::new(inner) }
    }

    /// Waits for the lock and gives exclusive access to the allocator until the guard is
    /// dropped.
    pub fn lock(&self) -> spin::MutexGuard<'_, A> {
        self.inner.lock()
    }
}

} // verus!


