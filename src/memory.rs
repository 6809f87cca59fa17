use vstd::prelude::*;

verus! {

/// Bytes in a physical frame and in a virtual page.
pub const PAGE_SIZE: u64 = 4096;

/// A physical frame, identified by its first byte.
#[derive(Clone, Copy, Debug, PartialEq, Eq, Structural)]
pub struct PhysFrame {
    pub start: u64,
}

impl PhysFrame {
    /// The frame that holds byte `addr`.
    pub fn containing_address(addr: u64) -> (r: PhysFrame)
        ensures
            r.start == addr - addr % PAGE_SIZE,
    {
        PhysFrame { start: addr - addr % PAGE_SIZE }
    }

    /// The first byte of the frame.
    pub fn start_address(&self) -> (r: u64)
        ensures
            r == self.start,
    {
        self.start
    }
}

/// What the boot firmware says a stretch of physical memory is for.
#[derive(Clone, Copy, Debug, PartialEq, Eq, Structural)]
pub enum MemoryRegionType {
    /// Free for the kernel to use.
    Usable,
    /// Taken by firmware, the kernel image, the boot data or a device.
    Reserved,
}

/// A stretch `[start, end)` of physical memory from the boot memory map.
#[derive(Clone, Copy, Debug, PartialEq, Eq, Structural)]
pub struct MemoryRegion {
    pub start: u64,
    pub end: u64,
    pub region_type: MemoryRegionType,
}

/// Region bounds are frame aligned and regions come in increasing address order without
/// overlapping.
pub open spec fn memory_map_wf(m: Seq<MemoryRegion>) -> bool {
    &&& forall|i: int|
        0 <= i < m.len() ==> (#[trigger] m[i]).start % PAGE_SIZE == 0
            && m[i].end % PAGE_SIZE == 0 && m[i].start <= m[i].end
    &&& forall|i: int, j: int| 0 <= i < j < m.len() ==> (#[trigger] m[i]).end <= (#[trigger] m[j]).start
}

/// The frames of one region that may be handed out, in address order.
pub open spec fn region_frames(r: MemoryRegion) -> Seq<int> {
    if r.region_type == MemoryRegionType::Usable {
        Seq::new(((r.end - r.start) / PAGE_SIZE as int) as nat, |k: int| r.start + k * PAGE_SIZE)
    } else {
        Seq::empty()
    }
}

/// The start addresses of all usable frames of the map, region after region.
pub open spec fn usable_frames(m: Seq<MemoryRegion>) -> Seq<int>
    decreases m.len(),
{
    if m.len() == 0 {
        Seq::empty()
    } else {
        region_frames(m[0]) + usable_frames(m.drop_first())
    }
}

proof fn lemma_usable_frames_split(m: Seq<MemoryRegion>, i: int)
    requires
        0 <= i <= m.len(),
    ensures
        usable_frames(m) == usable_frames(m.take(i)) + usable_frames(m.skip(i)),
    decreases m.len(),
{
    if i == 0 {
        assert(m.take(0) =~= Seq::<MemoryRegion>::empty());
        assert(m.skip(0) =~= m);
        assert(usable_frames(m.take(0)) + usable_frames(m) =~= usable_frames(m));
    } else {
        lemma_usable_frames_split(m.drop_first(), i - 1);
        assert(m.take(i).drop_first() =~= m.drop_first().take(i - 1));
        assert(m.drop_first().skip(i - 1) =~= m.skip(i));
        assert(m.take(i)[0] == m[0]);
        assert(usable_frames(m) =~= usable_frames(m.take(i)) + usable_frames(m.skip(i)));
    }
}

proof fn lemma_region_frames_bounds(r: MemoryRegion)
    requires
        r.start <= r.end,
        r.start % PAGE_SIZE == 0,
        r.end % PAGE_SIZE == 0,
    ensures
        forall|k: int| 0 <= k < region_frames(r).len() ==> r.start <= #[trigger] region_frames(r)[k]
            && region_frames(r)[k] + PAGE_SIZE <= r.end
            && region_frames(r)[k] % PAGE_SIZE as int == 0,
{
    assert forall|k: int| 0 <= k < region_frames(r).len() implies r.start <= #[trigger] region_frames(r)[k]
        && region_frames(r)[k] + PAGE_SIZE <= r.end && region_frames(r)[k] % PAGE_SIZE as int == 0 by {
        let n = (r.end - r.start) / PAGE_SIZE as int;
        assert(k * PAGE_SIZE + PAGE_SIZE <= r.end - r.start) by (nonlinear_arith)
            requires 0 <= k < n, n == (r.end - r.start) / 4096, r.end - r.start >= 0;
        assert((r.start + k * 4096) % 4096 == 0) by (nonlinear_arith)
            requires r.start % 4096 == 0, k >= 0;
    }
}

/// In a well-formed map the usable frames come in strictly increasing order, each frame
/// aligned and inside the map.
proof fn lemma_usable_frames_sorted(m: Seq<MemoryRegion>)
    requires
        memory_map_wf(m),
    ensures
        forall|i: int, j: int| 0 <= i < j < usable_frames(m).len()
            ==> usable_frames(m)[i] < usable_frames(m)[j],
        forall|i: int| 0 <= i < usable_frames(m).len() ==> m[0].start <= #[trigger] usable_frames(m)[i]
            && usable_frames(m)[i] % PAGE_SIZE as int == 0,
    decreases m.len(),
{
    if m.len() > 0 {
        let rest = m.drop_first();
        assert(memory_map_wf(rest)) by {
            assert forall|i: int, j: int| 0 <= i < j < rest.len() implies
                (#[trigger] rest[i]).end <= (#[trigger] rest[j]).start by {
                assert(m[i + 1].end <= m[j + 1].start);
            }
            assert forall|i: int| 0 <= i < rest.len() implies (#[trigger] rest[i]).start % PAGE_SIZE == 0
                && rest[i].end % PAGE_SIZE == 0 && rest[i].start <= rest[i].end by {
                assert(m[i + 1] == rest[i]);
            }
        }
        lemma_usable_frames_sorted(rest);
        assert(m[0].start % PAGE_SIZE == 0 && m[0].start <= m[0].end);
        lemma_region_frames_bounds(m[0]);
        let a = region_frames(m[0]);
        let b = usable_frames(rest);
        if rest.len() > 0 {
            assert(m[0].end <= m[1].start);
        }
        assert forall|i: int, j: int| 0 <= i < j < usable_frames(m).len() implies
            usable_frames(m)[i] < usable_frames(m)[j] by {
            if j < a.len() {
                if m[0].region_type == MemoryRegionType::Usable {
                    assert(a[i] == m[0].start + i * PAGE_SIZE && a[j] == m[0].start + j * PAGE_SIZE);
                    assert(i * 4096 < j * 4096) by (nonlinear_arith) requires i < j;
                }
            } else if i >= a.len() {
                assert(b[i - a.len()] < b[j - a.len()]);
            } else {
                assert(a[i] + PAGE_SIZE <= m[0].end);
                assert(rest[0] == m[1]);
                assert(m[1].start <= b[j - a.len()]);
            }
        }
        assert forall|i: int| 0 <= i < usable_frames(m).len() implies m[0].start <= #[trigger] usable_frames(m)[i]
            && usable_frames(m)[i] % PAGE_SIZE as int == 0 by {
            if i >= a.len() {
                assert(rest[0] == m[1]);
                assert(m[0].start <= m[0].end && m[0].end <= m[1].start);
                assert(usable_frames(m)[i] == b[i - a.len()]);
            }
        }
    }
}

/// The frame at position `k` of a well-formed map starts at or above `k` frames.
proof fn lemma_frame_index_bound(m: Seq<MemoryRegion>, k: int)
    requires
        memory_map_wf(m),
        0 <= k < usable_frames(m).len(),
    ensures
        usable_frames(m)[k] >= k * PAGE_SIZE,
    decreases k,
{
    lemma_usable_frames_sorted(m);
    if k > 0 {
        lemma_frame_index_bound(m, k - 1);
        let a = usable_frames(m)[k - 1];
        let b = usable_frames(m)[k];
        assert(a < b && a % 4096 == 0 && b % 4096 == 0);
        assert(b >= a + 4096) by (nonlinear_arith)
            requires a < b, a % 4096 == 0, b % 4096 == 0, a >= 0;
        assert(k * 4096 == (k - 1) * 4096 + 4096) by (nonlinear_arith);
    } else {
        assert(m.len() > 0) by {
            if m.len() == 0 {
                assert(usable_frames(m).len() == 0);
            }
        }
    }
}

/// Frame numbers in a well-formed map never repeat: frames issued at two different
/// positions of the catalog's order are different frames.
pub proof fn lemma_frames_never_repeat(m: Seq<MemoryRegion>, i: int, j: int)
    requires
        memory_map_wf(m),
        0 <= i < usable_frames(m).len(),
        0 <= j < usable_frames(m).len(),
        i != j,
    ensures
        usable_frames(m)[i] != usable_frames(m)[j],
{
    lemma_usable_frames_sorted(m);
}

/// A frame source that never has a frame to give.
pub struct EmptyFrameAllocator;

impl EmptyFrameAllocator {
    /// Always reports exhaustion.
    pub fn allocate_frame(&mut self) -> (r: Option<PhysFrame>)
        ensures
            r is None,
    {
        None
    }
}

/// Hands out the usable frames of the boot memory map one by one, in address order, and
/// never takes one back.
pub struct BootInfoFrameAllocator {
    memory_map: Vec<MemoryRegion>,
    next: u64,
}

impl BootInfoFrameAllocator {
    /// The boot memory map the frames come from.
    pub closed spec fn memory_map(&self) -> Seq<MemoryRegion> {
        self.memory_map@
    }

    /// How many frames have been handed out so far.
    pub closed spec fn issued_count(&self) -> int {
        self.next as int
    }

    /// The frames handed out so far, in the order they were handed out.
    pub open spec fn issued(&self) -> Seq<int> {
        usable_frames(self.memory_map()).take(self.issued_count())
    }

    /// How many frames are left to hand out.
    pub open spec fn remaining(&self) -> int {
        usable_frames(self.memory_map()).len() - self.issued_count()
    }

    /// The map is well formed and the catalog has not run past its end.
    pub closed spec fn wf(&self) -> bool {
        memory_map_wf(self.memory_map@) && self.next <= usable_frames(self.memory_map@).len()
    }

    /// A well-formed catalog never owes more frames than its map has.
    pub proof fn lemma_remaining_nonneg(&self)
        requires
            self.wf(),
        ensures
            0 <= self.remaining(),
            self.issued().len() == self.issued_count(),
    {
    }

    /// A catalog over `memory_map`, which must describe physical memory truthfully: every
    /// frame of a usable region is really unused.
    pub fn init(memory_map: Vec<MemoryRegion>) -> (r: Self)
        requires
            memory_map_wf(memory_map@),
        ensures
            r.wf(),
            r.memory_map() == memory_map@,
            r.issued_count() == 0,
    {
        BootInfoFrameAllocator { memory_map, next: 0 }
    }

    /// Hands out the next usable frame of the map, or `None` once every one of them has been
    /// handed out. A frame is never handed out twice.
    pub fn allocate_frame(&mut self) -> (r: Option<PhysFrame>)
        requires
            old(self).wf(),
        ensures
            final(self).wf(),
            final(self).memory_map() == old(self).memory_map(),
            match r {
                Some(f) => {
                    &&& old(self).remaining() > 0
                    &&& f.start as int == usable_frames(old(self).memory_map())[old(self).issued_count()]
                    &&& final(self).issued_count() == old(self).issued_count() + 1
                    &&& forall|k: int| 0 <= k < old(self).issued().len()
                        ==> #[trigger] old(self).issued()[k] != f.start as int
                },
                None => old(self).remaining() == 0 && final(self).issued_count() == old(self).issued_count(),
            },
            final(self).issued() == match r {
                Some(f) => old(self).issued().push(f.start as int),
                None => old(self).issued(),
            },
    {
        let ghost m = self.memory_map@;
        let mut n: u64 = self.next as u64;
        let mut i: usize = 0;
        proof {
            lemma_usable_frames_split(m, 0);
            lemma_usable_frames_sorted(m);
        }
        while i < self.memory_map.len()
            invariant
                self.memory_map@ == m,
                old(self).memory_map@ == m,
                memory_map_wf(m),
                self.next == old(self).next,
                self.next <= usable_frames(m).len(),
                0 <= i <= m.len(),
                usable_frames(m) == usable_frames(m.take(i as int)) + usable_frames(m.skip(i as int)),
                self.next == usable_frames(m.take(i as int)).len() + n,
            decreases m.len() - i,
        {
            let region = self.memory_map[i];
            proof {
                assert(m.skip(i as int).drop_first() =~= m.skip(i as int + 1));
                assert(m.skip(i as int)[0] == region);
                assert(usable_frames(m.skip(i as int)) == region_frames(region) + usable_frames(m.skip(i as int + 1)));
                lemma_usable_frames_split(m, i as int + 1);
                assert(m.take(i as int + 1) =~= m.take(i as int).push(region));
                lemma_usable_frames_split(m.take(i as int + 1), i as int);
                assert(m.take(i as int + 1).take(i as int) =~= m.take(i as int));
                assert(m.take(i as int + 1).skip(i as int) =~= seq![region]);
                assert(seq![region].drop_first() =~= Seq::<MemoryRegion>::empty());
                assert(usable_frames(seq![region]) =~= region_frames(region));
                assert(m[i as int] == region);
            }
            if region.region_type == MemoryRegionType::Usable {
                let count: u64 = (region.end - region.start) / PAGE_SIZE;
                if n < count {
                    proof {
                        assert(n * 4096 < region.end - region.start) by (nonlinear_arith)
                            requires n < count, count == (region.end - region.start) / 4096,
                                region.end - region.start >= 0;
                        assert(usable_frames(m)[self.next as int] == region_frames(region)[n as int]);
                    }
                    let frame = PhysFrame { start: region.start + n * PAGE_SIZE };
                    proof {
                        lemma_frame_index_bound(m, self.next as int);
                    }
                    self.next = self.next + 1;
                    proof {
                        lemma_usable_frames_sorted(m);
                        assert forall|k: int| 0 <= k < old(self).issued().len() implies
                            #[trigger] old(self).issued()[k] != frame.start as int by {
                            assert(old(self).issued()[k] == usable_frames(m)[k]);
                            assert(usable_frames(m)[k] < usable_frames(m)[old(self).next as int]);
                        }
                        assert(self.issued() =~= old(self).issued().push(frame.start as int));
                    }
                    return Some(frame);
                }
                n = n - count;
            }
            i = i + 1;
        }
        proof {
            assert(m.take(m.len() as int) =~= m);
            assert(m.skip(m.len() as int) =~= Seq::<MemoryRegion>::empty());
        }
        None
    }
}

} // verus!
