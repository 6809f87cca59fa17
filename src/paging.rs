use vstd::prelude::*;

use crate::memory::{BootInfoFrameAllocator, PhysFrame};
use vstd::arithmetic::div_mod::lemma_fundamental_div_mod_converse;

verus! {

/// Entries in one page table.
pub const ENTRY_COUNT: usize = 512;

/// Flag bit: the entry is present.
pub const PRESENT: u64 = 1;

/// Flag bit: the mapped memory may be written.
pub const WRITABLE: u64 = 2;

/// Number of distinct page keys that four levels of tables can tell apart (`512^4`).
pub const PAGE_KEY_SPACE: u64 = 0x10_0000_0000;

/// A virtual page, identified by its first byte.
#[derive(Clone, Copy, Debug, PartialEq, Eq, Structural)]
pub struct Page {
    pub start: u64,
}

impl Page {
    /// The page that holds byte `addr`.
    pub fn containing_address(addr: u64) -> (r: Page)
        ensures
            r.start == addr - addr % 4096,
    {
        Page { start: addr - addr % 4096 }
    }
}

/// One entry of a page table.
#[derive(Clone, Copy, Debug, PartialEq, Eq, Structural)]
pub enum PageTableEntry {
    /// Nothing is mapped through this entry.
    Unused,
    /// Present and writable; the next-level table lives in `frame` and is kept at
    /// position `index` of the mapper's table store.
    Table { frame: u64, index: usize },
    /// A last-level mapping of a page to `frame` with `flags`.
    Mapped { frame: u64, flags: u64 },
}

/// Why `map_to` could not install a mapping.
#[derive(Clone, Copy, Debug, PartialEq, Eq, Structural)]
pub enum MapToError {
    /// A table had to be created and no frame was left for it.
    FrameAllocationFailed,
    /// The page is already mapped, to this frame.
    PageAlreadyMapped(PhysFrame),
}

/// Proof that a mapping was installed; `flush` names the page whose stale TLB entry must go.
#[must_use]
pub struct MapperFlush {
    page: Page,
}

impl MapperFlush {
    /// The page whose mapping changed.
    pub closed spec fn page(&self) -> Page {
        self.page
    }

    /// Consumes the token, giving the page to invalidate in the TLB.
    pub fn flush(self) -> (r: Page)
        ensures
            r == self.page(),
    {
        self.page
    }
}

/// The part of a page's address that the four levels of tables look at: bits 12 to 47.
pub open spec fn page_key(page: Page) -> int {
    (page.start as int / 4096) % PAGE_KEY_SPACE as int
}

/// The key with its lowest `lv` groups of nine bits removed: a level-`lv` table serves all
/// keys that share this prefix.
pub open spec fn prefix(key: int, lv: int) -> int
    decreases lv,
{
    if lv <= 0 {
        key
    } else {
        prefix(key, lv - 1) / 512
    }
}

/// `e`, an entry of a level-`lv` table, is the one the directory and the mappings call for
/// at the place `c` it stands for.
pub open spec fn entry_ok(
    e: PageTableEntry,
    lv: int,
    c: int,
    dirs: Map<(int, int), int>,
    leaves: Map<int, (u64, u64)>,
) -> bool {
    if lv > 1 {
        match e {
            PageTableEntry::Unused => !dirs.contains_key((lv - 1, c)),
            PageTableEntry::Table { frame, index } => dirs.contains_key((lv - 1, c))
                && dirs[(lv - 1, c)] == index,
            PageTableEntry::Mapped { .. } => false,
        }
    } else {
        match e {
            PageTableEntry::Unused => !leaves.contains_key(c),
            PageTableEntry::Mapped { frame, flags } => leaves.contains_key(c)
                && leaves[c] == (frame, flags),
            PageTableEntry::Table { .. } => false,
        }
    }
}

/// How many tables `map_to` has to create to reach the last-level entry of `key`.
pub open spec fn tables_needed(dirs: Map<(int, int), int>, key: int) -> int {
    if !dirs.contains_key((3, prefix(key, 3))) {
        3
    } else if !dirs.contains_key((2, prefix(key, 2))) {
        2
    } else if !dirs.contains_key((1, prefix(key, 1))) {
        1
    } else {
        0
    }
}

/// Splitting `p * 512 + i` by 512 gives back `p` and `i`.
proof fn lemma_split_slot(p: int, i: int)
    requires
        0 <= i < 512,
    ensures
        (p * 512 + i) / 512 == p,
        (p * 512 + i) % 512 == i,
{
    lemma_fundamental_div_mod_converse(p * 512 + i, 512, p, i);
}

/// A four-level page-table hierarchy. The tables are kept in a store of `ENTRY_COUNT`
/// entries each; table 0 is the top-level table.
pub struct PageMapper {
    entries: Vec<PageTableEntry>,
    root: PhysFrame,
    owner: Ghost<Seq<(int, int)>>,
    dirs: Ghost<Map<(int, int), int>>,
    leaves: Ghost<Map<int, (u64, u64)>>,
}

impl PageMapper {
    /// The installed mappings: page key to (frame, flags).
    pub closed spec fn mappings(&self) -> Map<int, (u64, u64)> {
        self.leaves@
    }

    /// The frame of the top-level table.
    pub closed spec fn root(&self) -> PhysFrame {
        self.root
    }

    /// The tables below the top level: (level, key prefix) to position in the store.
    pub closed spec fn tables(&self) -> Map<(int, int), int> {
        self.dirs@
    }

    /// Every entry agrees with the directory and the mappings, every table below the top is
    /// reached from a present entry of its parent, and every mapped page from a present
    /// path of entries.
    pub closed spec fn wf(&self) -> bool {
        let owner = self.owner@;
        let dirs = self.dirs@;
        let leaves = self.leaves@;
        &&& owner.len() >= 1
        &&& owner[0] == (4int, 0int)
        &&& self.entries@.len() == owner.len() * 512
        &&& forall|s: int|
            0 <= s < self.entries@.len() ==> entry_ok(
                #[trigger] self.entries@[s],
                owner[s / 512].0,
                owner[s / 512].1 * 512 + s % 512,
                dirs,
                leaves,
            )
        &&& forall|t: int|
            1 <= t < owner.len() ==> dirs.contains_key(#[trigger] owner[t]) && dirs[owner[t]] == t
                && 1 <= owner[t].0 <= 3
        &&& forall|d: (int, int)|
            #[trigger] dirs.contains_key(d) ==> 1 <= d.0 <= 3 && 0 <= d.1 && 1 <= dirs[d] < owner.len()
                && owner[dirs[d]] == d
                && (d.0 == 3 ==> d.1 < 512)
                && (d.0 < 3 ==> dirs.contains_key((d.0 + 1, d.1 / 512)))
        &&& forall|k: int| #[trigger] leaves.contains_key(k) ==> 0 <= k && dirs.contains_key((1int, k / 512))
    }

    /// A hierarchy whose empty top-level table lives in `root`.
    pub fn new(root: PhysFrame) -> (r: Self)
        ensures
            r.wf(),
            r.mappings() == Map::<int, (u64, u64)>::empty(),
            r.tables() == Map::<(int, int), int>::empty(),
            r.root() == root,
    {
        let mut entries: Vec<PageTableEntry> = Vec::new();
        let mut k: usize = 0;
        while k < ENTRY_COUNT
            invariant
                entries@.len() == k,
                k <= ENTRY_COUNT,
                forall|s: int| 0 <= s < k ==> #[trigger] entries@[s] == PageTableEntry::Unused,
            decreases ENTRY_COUNT - k,
        {
            entries.push(PageTableEntry::Unused);
            k = k + 1;
        }
        let ghost top = seq![(4int, 0int)];
        let r = PageMapper {
            entries,
            root,
            owner: Ghost(top),
            dirs: Ghost(Map::empty()),
            leaves: Ghost(Map::empty()),
        };
        assert forall|s: int| 0 <= s < r.entries@.len() implies entry_ok(
            #[trigger] r.entries@[s],
            r.owner@[s / 512].0,
            r.owner@[s / 512].1 * 512 + s % 512,
            r.dirs@,
            r.leaves@,
        ) by {
            assert(s / 512 == 0);
        }
        r
    }

    /// The frame of the top-level table.
    pub fn root_frame(&self) -> (r: PhysFrame)
        ensures
            r == self.root(),
    {
        self.root
    }

    /// Two entries of the store that stand for the same place of the same level are the
    /// same entry.
    proof fn lemma_slot_unique(&self, s1: int, s2: int)
        requires
            self.wf(),
            0 <= s1 < self.entries@.len(),
            0 <= s2 < self.entries@.len(),
            self.owner@[s1 / 512].0 == self.owner@[s2 / 512].0,
            self.owner@[s1 / 512].1 * 512 + s1 % 512 == self.owner@[s2 / 512].1 * 512 + s2 % 512,
        ensures
            s1 == s2,
    {
        let t1 = s1 / 512;
        let t2 = s2 / 512;
        let o1 = self.owner@[t1];
        let o2 = self.owner@[t2];
        assert(0 <= t1 < self.owner@.len()) by (nonlinear_arith)
            requires 0 <= s1 < self.owner@.len() * 512, t1 == s1 / 512;
        assert(0 <= t2 < self.owner@.len()) by (nonlinear_arith)
            requires 0 <= s2 < self.owner@.len() * 512, t2 == s2 / 512;
        if t1 >= 1 {
            assert(self.dirs@.contains_key(o1));
        }
        if t2 >= 1 {
            assert(self.dirs@.contains_key(o2));
        }
        assert(o1.1 >= 0 && o2.1 >= 0);
        lemma_split_slot(o1.1, s1 % 512);
        lemma_split_slot(o2.1, s2 % 512);
        assert(o1 == o2);
        if t1 >= 1 && t2 >= 1 {
            assert(t1 == self.dirs@[o1]);
        } else if t1 >= 1 || t2 >= 1 {
            assert(false);
        }
        lemma_fundamental_div_mod_converse(s1, 512, t1, s1 % 512);
        lemma_fundamental_div_mod_converse(s2, 512, t2, s2 % 512);
    }

    /// Follows entry `i` of table `t` to the next-level table, creating that table from a
    /// fresh frame when the entry is unused.
    fn next_table(&mut self, t: usize, i: usize, frames: &mut BootInfoFrameAllocator) -> (r: Result<usize, MapToError>)
        requires
            old(self).wf(),
            old(frames).wf(),
            t < old(self).owner@.len(),
            i < ENTRY_COUNT,
            old(self).owner@[t as int].0 >= 2,
        ensures
            final(self).wf(),
            final(frames).wf(),
            final(frames).memory_map() == old(frames).memory_map(),
            final(self).leaves@ == old(self).leaves@,
            final(self).root == old(self).root,
            final(self).owner@.len() >= old(self).owner@.len(),
            forall|j: int| 0 <= j < old(self).owner@.len() ==> #[trigger] final(self).owner@[j] == old(self).owner@[j],
            ({
                let d = (old(self).owner@[t as int].0 - 1, old(self).owner@[t as int].1 * 512 + i);
                match r {
                    Ok(t2) => {
                        &&& final(self).dirs@ == (if old(self).dirs@.contains_key(d) {
                            old(self).dirs@
                        } else {
                            old(self).dirs@.insert(d, t2 as int)
                        })
                        &&& final(self).dirs@.contains_key(d)
                        &&& final(self).dirs@[d] == t2
                        &&& t2 < final(self).owner@.len()
                        &&& final(self).owner@[t2 as int] == d
                        &&& old(self).dirs@.contains_key(d) ==> final(frames).issued() == old(frames).issued()
                            && final(frames).remaining() == old(frames).remaining()
                        &&& !old(self).dirs@.contains_key(d) ==> old(frames).remaining() > 0
                            && final(frames).remaining() == old(frames).remaining() - 1
                    },
                    Err(e) => {
                        &&& e == MapToError::FrameAllocationFailed
                        &&& !old(self).dirs@.contains_key(d)
                        &&& old(frames).remaining() == 0
                        &&& final(self).dirs@ == old(self).dirs@
                        &&& final(frames).issued() == old(frames).issued()
                        &&& final(frames).remaining() == old(frames).remaining()
                    },
                }
            }),
    {
        let ghost lv = self.owner@[t as int].0;
        let ghost p = self.owner@[t as int].1;
        let ghost c = p * 512 + i;
        let ghost d = (lv - 1, c);
        let len = self.entries.len();
        assert(t * 512 + i < len) by (nonlinear_arith)
            requires t < self.owner@.len(), i < 512, len == self.owner@.len() * 512;
        assert(t * 512 <= t * 512 + i);
        let s: usize = t * 512 + i;
        proof {
            lemma_split_slot(t as int, i as int);
            assert(entry_ok(self.entries@[s as int], lv, c, self.dirs@, self.leaves@));
        }
        match self.entries[s] {
            PageTableEntry::Table { frame, index } => {
                assert(self.dirs@.contains_key(d));
                Ok(index)
            },
            PageTableEntry::Mapped { .. } => {
                assert(false);
                Err(MapToError::FrameAllocationFailed)
            },
            PageTableEntry::Unused => {
                match frames.allocate_frame() {
                    None => Err(MapToError::FrameAllocationFailed),
                    Some(frame) => {
                        let ghost old_entries = self.entries@;
                        let ghost old_owner = self.owner@;
                        let ghost old_dirs = self.dirs@;
                        let n = self.entries.len();
                        let mut k: usize = 0;
                        while k < ENTRY_COUNT
                            invariant
                                self.entries@.len() == n + k,
                                k <= ENTRY_COUNT,
                                n == old_entries.len(),
                                old_entries == old(self).entries@,
                                self.owner@ == old(self).owner@,
                                self.dirs@ == old(self).dirs@,
                                self.leaves@ == old(self).leaves@,
                                self.root == old(self).root,
                                forall|j: int| 0 <= j < n ==> #[trigger] self.entries@[j] == old_entries[j],
                                forall|j: int| n <= j < n + k ==> #[trigger] self.entries@[j] == PageTableEntry::Unused,
                            decreases ENTRY_COUNT - k,
                        {
                            self.entries.push(PageTableEntry::Unused);
                            k = k + 1;
                        }
                        let t2: usize = n / ENTRY_COUNT;
                        proof {
                            lemma_split_slot(old_owner.len() as int, 0);
                            assert(t2 == old_owner.len());
                            self.owner@ = old_owner.push(d);
                            self.dirs@ = old_dirs.insert(d, t2 as int);
                        }
                        self.entries.set(s, PageTableEntry::Table { frame: frame.start, index: t2 });
                        proof {
                            assert(lv == 4 ==> t == 0) by {
                                if t >= 1 {
                                    assert(old_dirs.contains_key(old_owner[t as int]));
                                }
                            }
                            assert(lv < 4 ==> t >= 1);
                            if lv == 4 {
                                assert(p == 0);
                            }
                            lemma_split_slot(p, i as int);
                            assert(self.entries@.len() == self.owner@.len() * 512);
                            assert forall|s1: int| 0 <= s1 < self.entries@.len() implies entry_ok(
                                #[trigger] self.entries@[s1],
                                self.owner@[s1 / 512].0,
                                self.owner@[s1 / 512].1 * 512 + s1 % 512,
                                self.dirs@,
                                self.leaves@,
                            ) by {
                                if s1 == s {
                                } else if s1 < n {
                                    assert(s1 / 512 < old_owner.len()) by (nonlinear_arith)
                                        requires 0 <= s1 < old_owner.len() * 512;
                                    assert(self.owner@[s1 / 512] == old_owner[s1 / 512]);
                                    let lv1 = old_owner[s1 / 512].0;
                                    let c1 = old_owner[s1 / 512].1 * 512 + s1 % 512;
                                    assert(old(self).entries@ == old_entries && old(self).owner@ == old_owner);
                                    assert(old(self).dirs@ == old_dirs && old(self).leaves@ == self.leaves@);
                                    assert(entry_ok(old(self).entries@[s1], lv1, c1, old(self).dirs@, old(self).leaves@));
                                    if lv1 > 1 && lv1 - 1 == d.0 && c1 == c {
                                        old(self).lemma_slot_unique(s1, s as int);
                                    }
                                } else {
                                    assert(s1 / 512 == t2) by {
                                        lemma_fundamental_div_mod_converse(s1, 512, t2 as int, s1 - n);
                                    }
                                    assert(s1 % 512 < 512);
                                    let x = c * 512 + s1 % 512;
                                    lemma_split_slot(c, s1 % 512);
                                    if lv - 1 > 1 {
                                        if old_dirs.contains_key((lv - 2, x)) {
                                            assert(old_dirs.contains_key((lv - 1, x / 512)));
                                        }
                                    } else {
                                        assert(old(self).leaves@ == self.leaves@ && old(self).dirs@ == old_dirs);
                                        if old(self).leaves@.contains_key(x) {
                                            assert(old_dirs.contains_key((1int, x / 512)));
                                        }
                                    }
                                }
                            }
                            assert forall|t1: int| 1 <= t1 < self.owner@.len() implies
                                self.dirs@.contains_key(#[trigger] self.owner@[t1]) && self.dirs@[self.owner@[t1]] == t1
                                && 1 <= self.owner@[t1].0 <= 3 by {
                                if t1 < old_owner.len() {
                                    assert(old_dirs.contains_key(old_owner[t1]));
                                }
                            }
                            assert forall|d1: (int, int)| #[trigger] self.dirs@.contains_key(d1) implies
                                1 <= d1.0 <= 3 && 0 <= d1.1 && 1 <= self.dirs@[d1] < self.owner@.len()
                                && self.owner@[self.dirs@[d1]] == d1
                                && (d1.0 == 3 ==> d1.1 < 512)
                                && (d1.0 < 3 ==> self.dirs@.contains_key((d1.0 + 1, d1.1 / 512))) by {
                                if d1 != d {
                                    assert(old_dirs.contains_key(d1));
                                } else if d.0 < 3 {
                                    assert(old_dirs.contains_key(old_owner[t as int]));
                                }
                            }
                        }
                        Ok(t2)
                    },
                }
            },
        }
    }

    /// Key of `page`, and the index its walk takes at each level, from the top.
    fn walk_indices(page: Page) -> (r: (u64, usize, usize, usize, usize))
        ensures
            r.0 == page_key(page),
            r.1 == prefix(r.0 as int, 3) && r.1 < 512,
            r.2 == prefix(r.0 as int, 2) % 512,
            r.3 == prefix(r.0 as int, 1) % 512,
            r.4 == r.0 % 512,
            prefix(r.0 as int, 2) == prefix(r.0 as int, 3) * 512 + r.2,
            prefix(r.0 as int, 1) == prefix(r.0 as int, 2) * 512 + r.3,
            r.0 == prefix(r.0 as int, 1) * 512 + r.4,
            prefix(r.0 as int, 1) == r.0 / 512,
    {
        let key: u64 = (page.start / 4096) % PAGE_KEY_SPACE;
        let k1: u64 = key / 512;
        let k2: u64 = k1 / 512;
        let k3: u64 = k2 / 512;
        proof {
            reveal_with_fuel(prefix, 4);
            assert(prefix(key as int, 1) == k1);
            assert(prefix(key as int, 2) == k2);
            assert(prefix(key as int, 3) == k3);
            assert(k3 < 512) by (nonlinear_arith)
                requires key < 0x10_0000_0000, k1 == key / 512, k2 == k1 / 512, k3 == k2 / 512;
            vstd::arithmetic::div_mod::lemma_fundamental_div_mod(k2 as int, 512);
            vstd::arithmetic::div_mod::lemma_fundamental_div_mod(k1 as int, 512);
            vstd::arithmetic::div_mod::lemma_fundamental_div_mod(key as int, 512);
        }
        (key, k3 as usize, (k2 % 512) as usize, (k1 % 512) as usize, (key % 512) as usize)
    }

    /// Maps `page` to `frame` with `flags`, creating the missing tables on the way down from
    /// frames of `frames`. Fails when the page is already mapped, or when a table is missing
    /// and no frame is left for it; tables created before such a failure stay in place.
    pub fn map_to(&mut self, page: Page, frame: PhysFrame, flags: u64, frames: &mut BootInfoFrameAllocator)
        -> (r: Result<MapperFlush, MapToError>)
        requires
            old(self).wf(),
            old(frames).wf(),
        ensures
            final(self).wf(),
            final(frames).wf(),
            final(frames).memory_map() == old(frames).memory_map(),
            final(self).root() == old(self).root(),
            old(self).mappings().contains_key(page_key(page)) ==> r matches Err(MapToError::PageAlreadyMapped(_)),
            r matches Ok(flush) ==> {
                &&& !old(self).mappings().contains_key(page_key(page))
                &&& tables_needed(old(self).tables(), page_key(page)) <= old(frames).remaining()
                &&& final(self).mappings() == old(self).mappings().insert(page_key(page), (frame.start, flags))
                &&& flush.page() == page
                &&& final(frames).remaining() == old(frames).remaining()
                    - tables_needed(old(self).tables(), page_key(page))
            },
            r matches Err(MapToError::PageAlreadyMapped(f)) ==> {
                &&& old(self).mappings().contains_key(page_key(page))
                &&& f.start == old(self).mappings()[page_key(page)].0
                &&& final(self).mappings() == old(self).mappings()
                &&& final(frames).issued() == old(frames).issued()
            },
            r matches Err(MapToError::FrameAllocationFailed) ==> {
                &&& !old(self).mappings().contains_key(page_key(page))
                &&& old(frames).remaining() < tables_needed(old(self).tables(), page_key(page))
                &&& final(self).mappings() == old(self).mappings()
                &&& final(frames).remaining() == 0
            },
    {
        let (key, i4, i3, i2, i1) = Self::walk_indices(page);
        let ghost k1 = prefix(key as int, 1);
        let ghost k2 = prefix(key as int, 2);
        let ghost k3 = prefix(key as int, 3);
        let ghost d0 = self.dirs@;
        let ghost f0 = frames.issued();
        let ghost rem0 = frames.remaining();
        proof {
            if self.leaves@.contains_key(key as int) {
                assert(d0.contains_key((1int, k1)));
                assert(d0.contains_key((2int, k1 / 512)));
                assert(d0.contains_key((3int, k2 / 512)));
            }
            if d0.contains_key((1int, k1)) {
                assert(d0.contains_key((2int, k1 / 512)));
            }
            if d0.contains_key((2int, k2)) {
                assert(d0.contains_key((3int, k2 / 512)));
            }
            lemma_split_slot(0, i4 as int);
        }
        let ghost n0 = tables_needed(d0, key as int);
        let t3 = match self.next_table(0, i4, frames) {
            Ok(t) => t,
            Err(e) => {
                return Err(e);
            },
        };
        proof {
            assert(self.owner@[t3 as int] == (3int, k3));
            if self.dirs@.contains_key((1int, k1)) {
                assert(self.dirs@.contains_key((2int, k1 / 512)));
            }
            assert(rem0 - frames.remaining() == n0 - tables_needed(self.dirs@, key as int));
        }
        let t2 = match self.next_table(t3, i3, frames) {
            Ok(t) => t,
            Err(e) => {
                return Err(e);
            },
        };
        proof {
            assert(self.owner@[t2 as int] == (2int, k2));
            assert(rem0 - frames.remaining() == n0 - tables_needed(self.dirs@, key as int));
        }
        let t1 = match self.next_table(t2, i2, frames) {
            Ok(t) => t,
            Err(e) => {
                return Err(e);
            },
        };
        proof {
            assert(self.owner@[t1 as int] == (1int, k1));
            assert(tables_needed(self.dirs@, key as int) == 0);
            assert(rem0 - frames.remaining() == n0);
            frames.lemma_remaining_nonneg();
        }
        let len = self.entries.len();
        assert(t1 * 512 + i1 < len) by (nonlinear_arith)
            requires t1 < self.owner@.len(), i1 < 512, len == self.owner@.len() * 512;
        assert(t1 * 512 <= t1 * 512 + i1);
        let s: usize = t1 * 512 + i1;
        proof {
            lemma_split_slot(t1 as int, i1 as int);
        }
        match self.entries[s] {
            PageTableEntry::Mapped { frame: mapped, flags: _ } => {
                Err(MapToError::PageAlreadyMapped(PhysFrame { start: mapped }))
            },
            PageTableEntry::Table { .. } => {
                assert(false);
                Err(MapToError::FrameAllocationFailed)
            },
            PageTableEntry::Unused => {
                let ghost before = *self;
                proof {
                    assert(entry_ok(self.entries@[s as int], 1, k1 * 512 + i1, self.dirs@, self.leaves@));
                    assert(!old(self).leaves@.contains_key(key as int));
                }
                self.entries.set(s, PageTableEntry::Mapped { frame: frame.start, flags });
                proof {
                    self.leaves@ = before.leaves@.insert(key as int, (frame.start, flags));
                    assert forall|s1: int| 0 <= s1 < self.entries@.len() implies entry_ok(
                        #[trigger] self.entries@[s1],
                        self.owner@[s1 / 512].0,
                        self.owner@[s1 / 512].1 * 512 + s1 % 512,
                        self.dirs@,
                        self.leaves@,
                    ) by {
                        if s1 != s {
                            assert(entry_ok(before.entries@[s1], before.owner@[s1 / 512].0,
                                before.owner@[s1 / 512].1 * 512 + s1 % 512, before.dirs@, before.leaves@));
                            if before.owner@[s1 / 512].0 == 1 && before.owner@[s1 / 512].1 * 512 + s1 % 512 == key {
                                before.lemma_slot_unique(s1, s as int);
                            }
                        }
                    }
                    assert forall|k: int| #[trigger] self.leaves@.contains_key(k) implies
                        0 <= k && self.dirs@.contains_key((1int, k / 512)) by {
                        if k != key {
                            assert(before.leaves@.contains_key(k));
                        }
                    }
                }
                Ok(MapperFlush { page })
            },
        }
    }

    /// The frame `page` is mapped to, if any.
    pub fn frame_of(&self, page: Page) -> (r: Option<PhysFrame>)
        requires
            self.wf(),
        ensures
            r == (if self.mappings().contains_key(page_key(page)) {
                Some(PhysFrame { start: self.mappings()[page_key(page)].0 })
            } else {
                None
            }),
    {
        let (key, i4, i3, i2, i1) = Self::walk_indices(page);
        let ghost k1 = prefix(key as int, 1);
        let ghost k2 = prefix(key as int, 2);
        let ghost k3 = prefix(key as int, 3);
        proof {
            if self.leaves@.contains_key(key as int) {
                assert(self.dirs@.contains_key((1int, k1)));
                assert(self.dirs@.contains_key((2int, k1 / 512)));
                assert(self.dirs@.contains_key((3int, k2 / 512)));
            }
            if self.dirs@.contains_key((1int, k1)) {
                assert(self.dirs@.contains_key((2int, k1 / 512)));
            }
            if self.dirs@.contains_key((2int, k2)) {
                assert(self.dirs@.contains_key((3int, k2 / 512)));
            }
            lemma_split_slot(0, i4 as int);
        }
        let t3 = match self.child(0, i4) {
            Some(t) => t,
            None => {
                return None;
            },
        };
        let t2 = match self.child(t3, i3) {
            Some(t) => t,
            None => {
                return None;
            },
        };
        let t1 = match self.child(t2, i2) {
            Some(t) => t,
            None => {
                return None;
            },
        };
        let len = self.entries.len();
        assert(t1 * 512 + i1 < len) by (nonlinear_arith)
            requires t1 < self.owner@.len(), i1 < 512, len == self.owner@.len() * 512;
        assert(t1 * 512 <= t1 * 512 + i1);
        let s: usize = t1 * 512 + i1;
        proof {
            lemma_split_slot(t1 as int, i1 as int);
        }
        match self.entries[s] {
            PageTableEntry::Mapped { frame, flags: _ } => Some(PhysFrame { start: frame }),
            _ => None,
        }
    }

    /// The table that entry `i` of table `t` leads to, if the entry is present.
    fn child(&self, t: usize, i: usize) -> (r: Option<usize>)
        requires
            self.wf(),
            t < self.owner@.len(),
            i < ENTRY_COUNT,
            self.owner@[t as int].0 >= 2,
        ensures
            ({
                let d = (self.owner@[t as int].0 - 1, self.owner@[t as int].1 * 512 + i);
                match r {
                    Some(t2) => self.dirs@.contains_key(d) && self.dirs@[d] == t2 && t2 < self.owner@.len()
                        && self.owner@[t2 as int] == d,
                    None => !self.dirs@.contains_key(d),
                }
            }),
    {
        let len = self.entries.len();
        assert(t * 512 + i < len) by (nonlinear_arith)
            requires t < self.owner@.len(), i < 512, len == self.owner@.len() * 512;
        assert(t * 512 <= t * 512 + i);
        let s: usize = t * 512 + i;
        proof {
            lemma_split_slot(t as int, i as int);
        }
        match self.entries[s] {
            PageTableEntry::Table { frame: _, index } => Some(index),
            _ => None,
        }
    }
}

/// Frame of the text-mode screen buffer.
pub const SCREEN_BUFFER_FRAME: u64 = 0xb8000;

/// Maps `page` to the screen buffer frame, present and writable. The page must be unmapped,
/// and `frames` must have a frame for every table the walk lacks.
pub fn create_example_mapping(page: Page, mapper: &mut PageMapper, frames: &mut BootInfoFrameAllocator)
    requires
        old(mapper).wf(),
        old(frames).wf(),
        !old(mapper).mappings().contains_key(page_key(page)),
        tables_needed(old(mapper).tables(), page_key(page)) <= old(frames).remaining(),
    ensures
        final(mapper).wf(),
        final(frames).wf(),
        final(mapper).mappings() == old(mapper).mappings().insert(
            page_key(page),
            (SCREEN_BUFFER_FRAME, PRESENT | WRITABLE),
        ),
{
    let frame = PhysFrame::containing_address(SCREEN_BUFFER_FRAME);
    match mapper.map_to(page, frame, PRESENT | WRITABLE, frames) {
        Ok(flush) => {
            let _ = flush.flush();
        },
        Err(_) => {},
    }
}

} // verus!
