//! Address spaces: logical areas of contiguous virtual pages and the page
//! table that maps them.
use vstd::prelude::*;
use std::collections::BTreeMap;
use crate::config::{PAGE_SIZE, MAX_VPN, TRAMPOLINE, KERNEL_STACK_SIZE, MEMORY_END, USER_STACK_SIZE, TRAP_CONTEXT_BASE};
use crate::elf::{ProgramSegment, SegmentKind, flag_read, flag_write, flag_execute, is_read, is_write, is_execute, read_elf, elf_headers_readable, elf_segments, elf_header_of, elf_magic};
use crate::address::{floor_vpn, ceil_vpn, va_floor, va_ceil};
use crate::frame_allocator::{FrameAllocator, FrameTracker, frame_alloc, zero_page};
use crate::page_table::{PageTable, PageTableEntry, PTE_V, PTE_R, PTE_W, PTE_X};

verus! {

broadcast use vstd::std_specs::btree::group_btree_axioms, vstd::laws_cmp::group_laws_cmp;

/// Area is readable.
pub const MAP_R: u8 = 2;
/// Area is writable.
pub const MAP_W: u8 = 4;
/// Area is executable.
pub const MAP_X: u8 = 8;
/// Area is accessible in user mode.
pub const MAP_U: u8 = 16;

/// How the pages of an area reach physical memory.
#[derive(Clone, Copy, PartialEq, Eq, Structural, Debug)]
pub enum MapType {
    /// Each page maps to the physical page of the same number.
    Identical,
    /// Each page maps to a frame of its own, taken from the frame allocator.
    Framed,
}

/// Access rights of an area: a subset of the page table flags R, W, X and U.
#[derive(Clone, Copy, PartialEq, Eq, Structural, Debug)]
pub struct MapPermission {
    pub bits: u8,
}

impl MapPermission {
    /// The rights whose bits are set in `bits`, keeping only R, W, X and U.
    pub fn from_bits_truncate(bits: u8) -> (p: Self)
        ensures
            p.bits == bits & (MAP_R | MAP_W | MAP_X | MAP_U),
    {
        MapPermission { bits: bits & (MAP_R | MAP_W | MAP_X | MAP_U) }
    }

    /// The rights of both.
    pub fn union(self, other: Self) -> (p: Self)
        ensures
            p.bits == self.bits | other.bits,
    {
        MapPermission { bits: self.bits | other.bits }
    }

    /// Whether all rights of `other` are among these.
    pub fn contains(self, other: Self) -> (b: bool)
        ensures
            b == (self.bits & other.bits == other.bits),
    {
        self.bits & other.bits == other.bits
    }
}

/// A logical area: the virtual pages `[start_vpn, end_vpn)`, mapped alike.
pub struct MapArea {
    pub start_vpn: usize,
    pub end_vpn: usize,
    pub data_frames: BTreeMap<usize, FrameTracker>,
    pub map_type: MapType,
    pub map_perm: MapPermission,
}

/// Two page tables agree everywhere outside `[lo, hi)`.
pub open spec fn agree_outside(a: Map<usize, PageTableEntry>, b: Map<usize, PageTableEntry>, lo: int, hi: int) -> bool {
    forall|v: usize| #![trigger a.contains_key(v)] #![trigger b.contains_key(v)]
        !(lo <= v < hi) ==> (a.contains_key(v) == b.contains_key(v) && (a.contains_key(v) ==> a[v] == b[v]))
}

/// Every page of `[lo, hi)` is mapped in `pt` as `area` says.
pub open spec fn maps_range(pt: Map<usize, PageTableEntry>, area: MapArea, lo: int, hi: int) -> bool {
    forall|v: usize| #![trigger pt.contains_key(v)] #![trigger pt[v]]
        lo <= v < hi ==> pt.contains_key(v) && pt[v] == area.entry_for(v)
}

/// The bytes of the `k`-th page of an area after the area received `data`
/// from its start: the part of `data` that falls into that page, over what
/// the page held before.
pub open spec fn page_after_copy(old_bytes: Seq<u8>, data: Seq<u8>, k: int) -> Seq<u8> {
    Seq::new(old_bytes.len(), |i: int| if k * PAGE_SIZE + i < data.len() { data[k * PAGE_SIZE + i] } else { old_bytes[i] })
}

impl MapArea {
    pub open spec fn contains_vpn(&self, vpn: int) -> bool {
        self.start_vpn <= vpn < self.end_vpn
    }

    /// Number of pages of the area.
    pub open spec fn num_pages(&self) -> nat {
        (self.end_vpn - self.start_vpn) as nat
    }

    /// The frame that backs `vpn` in a framed area.
    pub open spec fn frame_ppn(&self, vpn: usize) -> usize {
        self.data_frames@[vpn].ppn
    }

    /// The entry that the page table holds for a page of this area.
    pub open spec fn entry_for(&self, vpn: usize) -> PageTableEntry {
        PageTableEntry {
            ppn: if self.map_type == MapType::Identical { vpn } else { self.frame_ppn(vpn) },
            flags: self.map_perm.bits | PTE_V,
        }
    }

    /// A framed area holds one page-sized frame for each of its pages and no
    /// other; an identical area holds none. No frame backs two pages.
    pub open spec fn wf(&self) -> bool {
        &&& self.start_vpn <= self.end_vpn <= MAX_VPN
        &&& forall|v: usize| #[trigger] self.data_frames@.contains_key(v)
            <==> (self.map_type == MapType::Framed && self.start_vpn <= v < self.end_vpn)
        &&& forall|v: usize| #[trigger] self.data_frames@.contains_key(v)
            ==> self.data_frames@[v].bytes@.len() == PAGE_SIZE
        &&& self.frames_distinct()
    }

    pub open spec fn frames_distinct(&self) -> bool {
        forall|v: usize, w: usize|
            #![trigger self.data_frames@[v], self.data_frames@[w]]
            self.data_frames@.contains_key(v) && self.data_frames@.contains_key(w) && v != w
            ==> self.data_frames@[v].ppn != self.data_frames@[w].ppn
    }

    /// Every frame of the area is one that the allocator has handed out.
    pub open spec fn frames_allocated(&self, allocator: FrameAllocator) -> bool {
        forall|v: usize| #[trigger] self.data_frames@.contains_key(v)
            ==> self.data_frames@[v].ppn < allocator.end
                && !allocator.free_frames().contains(self.data_frames@[v].ppn)
    }

    /// Every page of the area is mapped in `pt` as the area says.
    pub open spec fn mapped_in(&self, pt: Map<usize, PageTableEntry>) -> bool {
        forall|v: usize| #![trigger pt.contains_key(v)] #![trigger pt[v]]
            self.start_vpn <= v < self.end_vpn ==> pt.contains_key(v) && pt[v] == self.entry_for(v)
    }

    /// No page of the area is mapped in `pt`.
    pub open spec fn unmapped_in(&self, pt: Map<usize, PageTableEntry>) -> bool {
        forall|v: usize| self.start_vpn <= v < self.end_vpn ==> !#[trigger] pt.contains_key(v)
    }

    /// The area of the pages from the one that holds `start_va` up to the one
    /// that holds the byte before `end_va`, holding no frame yet.
    pub fn new(start_va: usize, end_va: usize, map_type: MapType, map_perm: MapPermission) -> (r: Self)
        requires
            floor_vpn(start_va as int) <= ceil_vpn(end_va as int),
        ensures
            r.start_vpn == floor_vpn(start_va as int),
            r.end_vpn == ceil_vpn(end_va as int),
            r.data_frames@ == Map::<usize, FrameTracker>::empty(),
            r.map_type == map_type,
            r.map_perm == map_perm,
            end_va <= TRAMPOLINE ==> r.end_vpn <= MAX_VPN,
    {
        let start_vpn = va_floor(start_va);
        let end_vpn = va_ceil(end_va);
        proof {
            crate::config::lemma_layout_constants();
        }
        MapArea { start_vpn, end_vpn, data_frames: BTreeMap::new(), map_type, map_perm }
    }

    /// Maps one page: an identical area maps it to the physical page of the
    /// same number, a framed one to a fresh zeroed frame that it keeps; a
    /// frame that the framed area held for the page before goes back to the
    /// allocator.
    pub fn map_one(&mut self, page_table: &mut PageTable, allocator: &mut FrameAllocator, vpn: usize)
        requires
            !old(page_table)@.contains_key(vpn),
            old(allocator).wf(),
            old(self).map_type == MapType::Framed ==> old(allocator).num_free() > 0,
            old(self).map_type == MapType::Framed && old(self).data_frames@.contains_key(vpn) ==> {
                &&& old(self).frame_ppn(vpn) < old(allocator).end
                &&& !old(allocator).free_frames().contains(old(self).frame_ppn(vpn))
            },
        ensures
            final(self).start_vpn == old(self).start_vpn,
            final(self).end_vpn == old(self).end_vpn,
            final(self).map_type == old(self).map_type,
            final(self).map_perm == old(self).map_perm,
            final(page_table).root == old(page_table).root,
            final(allocator).wf(),
            final(allocator).end == old(allocator).end,
            final(page_table)@ == old(page_table)@.insert(vpn, final(self).entry_for(vpn)),
            old(self).map_type == MapType::Identical ==> {
                &&& final(self).data_frames@ == old(self).data_frames@
                &&& *final(allocator) == *old(allocator)
            },
            old(self).map_type == MapType::Framed ==> {
                let f = final(self).data_frames@[vpn];
                &&& final(self).data_frames@ == old(self).data_frames@.insert(vpn, f)
                &&& f.bytes@ == zero_page()
                &&& old(allocator).free_frames().contains(f.ppn)
                &&& if old(self).data_frames@.contains_key(vpn) {
                    &&& final(allocator).free_frames()
                        == old(allocator).free_frames().remove(f.ppn).insert(old(self).frame_ppn(vpn))
                    &&& final(allocator).num_free() == old(allocator).num_free()
                } else {
                    &&& final(allocator).free_frames() == old(allocator).free_frames().remove(f.ppn)
                    &&& final(allocator).num_free() + 1 == old(allocator).num_free()
                }
            },
    {
        let ppn: usize;
        match self.map_type {
            MapType::Identical => {
                ppn = vpn;
            },
            MapType::Framed => {
                let ghost a0 = *allocator;
                let frame = frame_alloc(allocator).unwrap();
                ppn = frame.ppn;
                match self.data_frames.insert(vpn, frame) {
                    Some(replaced) => {
                        proof {
                            assert(!allocator.free_frames().contains(replaced.ppn));
                            assert(replaced.ppn < allocator.end);
                        }
                        allocator.deallocate(replaced.ppn);
                    },
                    None => {},
                }
            },
        }
        page_table.map(vpn, ppn, self.map_perm.bits);
    }

    /// Unmaps one page, returning its frame to the allocator in a framed area.
    pub fn unmap_one(&mut self, page_table: &mut PageTable, allocator: &mut FrameAllocator, vpn: usize)
        requires
            old(page_table)@.contains_key(vpn),
            old(allocator).wf(),
            old(self).data_frames@.contains_key(vpn) ==> {
                &&& old(self).frame_ppn(vpn) < old(allocator).end
                &&& !old(allocator).free_frames().contains(old(self).frame_ppn(vpn))
            },
        ensures
            final(self).start_vpn == old(self).start_vpn,
            final(self).end_vpn == old(self).end_vpn,
            final(self).map_type == old(self).map_type,
            final(self).map_perm == old(self).map_perm,
            final(page_table).root == old(page_table).root,
            final(page_table)@ == old(page_table)@.remove(vpn),
            final(allocator).wf(),
            final(allocator).end == old(allocator).end,
            old(self).map_type == MapType::Framed ==> final(self).data_frames@ == old(self).data_frames@.remove(vpn),
            old(self).map_type == MapType::Identical ==> final(self).data_frames@ == old(self).data_frames@,
            old(self).map_type == MapType::Framed && old(self).data_frames@.contains_key(vpn) ==> {
                &&& final(allocator).free_frames() == old(allocator).free_frames().insert(old(self).frame_ppn(vpn))
                &&& final(allocator).num_free() == old(allocator).num_free() + 1
            },
            !(old(self).map_type == MapType::Framed && old(self).data_frames@.contains_key(vpn))
                ==> *final(allocator) == *old(allocator),
    {
        if self.map_type == MapType::Framed {
            match self.data_frames.remove(&vpn) {
                Some(frame) => {
                    allocator.deallocate(frame.ppn);
                },
                None => {},
            }
        }
        page_table.unmap(vpn);
    }

    /// Maps every page of a fresh area.
    pub fn map(&mut self, page_table: &mut PageTable, allocator: &mut FrameAllocator)
        requires
            old(self).start_vpn <= old(self).end_vpn <= MAX_VPN,
            old(self).data_frames@ == Map::<usize, FrameTracker>::empty(),
            old(self).unmapped_in(old(page_table)@),
            old(allocator).wf(),
            old(self).map_type == MapType::Framed ==> old(allocator).num_free() >= old(self).num_pages(),
        ensures
            final(self).start_vpn == old(self).start_vpn,
            final(self).end_vpn == old(self).end_vpn,
            final(self).map_type == old(self).map_type,
            final(self).map_perm == old(self).map_perm,
            final(self).wf(),
            final(self).mapped_in(final(page_table)@),
            final(self).frames_allocated(*final(allocator)),
            agree_outside(final(page_table)@, old(page_table)@, old(self).start_vpn as int, old(self).end_vpn as int),
            final(page_table).root == old(page_table).root,
            final(allocator).wf(),
            final(allocator).end == old(allocator).end,
            old(self).map_type == MapType::Identical ==> *final(allocator) == *old(allocator),
            old(self).map_type == MapType::Framed ==> {
                &&& forall|v: usize| #[trigger] final(self).data_frames@.contains_key(v) ==> {
                    &&& final(self).data_frames@[v].bytes@ == zero_page()
                    &&& old(allocator).free_frames().contains(final(self).data_frames@[v].ppn)
                }
                &&& forall|p: usize| #[trigger] final(allocator).free_frames().contains(p)
                    ==> old(allocator).free_frames().contains(p)
                &&& final(allocator).num_free() + old(self).num_pages() == old(allocator).num_free()
            },
    {
        let lo = self.start_vpn;
        let hi = self.end_vpn;
        let ghost fa0 = *allocator;
        self.map_pages(page_table, allocator, lo, hi);
        proof {
            assert forall|v: usize| #[trigger] self.data_frames@.contains_key(v)
                implies self.data_frames@[v].ppn < allocator.end
                    && !allocator.free_frames().contains(self.data_frames@[v].ppn) by {
                fa0.lemma_free_below_end(self.data_frames@[v].ppn);
            }
            assert forall|v: usize| #[trigger] self.data_frames@.contains_key(v)
                implies self.data_frames@[v].bytes@.len() == PAGE_SIZE by {
                assert(zero_page().len() == PAGE_SIZE);
            }
        }
    }

    /// Unmaps every page of the area, returning its frames to the allocator.
    pub fn unmap(&mut self, page_table: &mut PageTable, allocator: &mut FrameAllocator)
        requires
            old(self).wf(),
            old(self).frames_allocated(*old(allocator)),
            old(allocator).wf(),
            forall|v: usize| old(self).start_vpn <= v < old(self).end_vpn ==> #[trigger] old(page_table)@.contains_key(v),
        ensures
            final(self).start_vpn == old(self).start_vpn,
            final(self).end_vpn == old(self).end_vpn,
            final(self).map_type == old(self).map_type,
            final(self).map_perm == old(self).map_perm,
            final(self).data_frames@ == Map::<usize, FrameTracker>::empty(),
            final(self).unmapped_in(final(page_table)@),
            agree_outside(final(page_table)@, old(page_table)@, old(self).start_vpn as int, old(self).end_vpn as int),
            final(page_table).root == old(page_table).root,
            final(allocator).wf(),
            final(allocator).end == old(allocator).end,
            old(self).map_type == MapType::Identical ==> *final(allocator) == *old(allocator),
            old(self).map_type == MapType::Framed ==> {
                &&& forall|v: usize| #[trigger] old(self).data_frames@.contains_key(v)
                    ==> final(allocator).free_frames().contains(old(self).data_frames@[v].ppn)
                &&& forall|p: usize| #[trigger] old(allocator).free_frames().contains(p)
                    ==> final(allocator).free_frames().contains(p)
                &&& forall|p: usize| #[trigger] final(allocator).free_frames().contains(p)
                    && !old(allocator).free_frames().contains(p)
                    ==> exists|v: usize| #[trigger] old(self).data_frames@.contains_key(v)
                        && old(self).data_frames@[v].ppn == p
                &&& final(allocator).num_free() == old(allocator).num_free() + old(self).num_pages()
            },
    {
        let lo = self.start_vpn;
        let hi = self.end_vpn;
        self.unmap_pages(page_table, allocator, lo, hi);
        proof {
            assert(self.data_frames@ =~= Map::<usize, FrameTracker>::empty());
        }
    }

    /// Shrinks the area to end at `new_end`, unmapping the pages beyond it.
    pub fn shrink_to(&mut self, page_table: &mut PageTable, allocator: &mut FrameAllocator, new_end: usize)
        requires
            old(self).wf(),
            old(self).frames_allocated(*old(allocator)),
            old(allocator).wf(),
            old(self).start_vpn <= new_end <= old(self).end_vpn,
            forall|v: usize| new_end <= v < old(self).end_vpn ==> #[trigger] old(page_table)@.contains_key(v),
        ensures
            final(self).start_vpn == old(self).start_vpn,
            final(self).end_vpn == new_end,
            final(self).map_type == old(self).map_type,
            final(self).map_perm == old(self).map_perm,
            final(self).wf(),
            final(self).frames_allocated(*final(allocator)),
            forall|v: usize| #[trigger] final(self).data_frames@.contains_key(v)
                ==> final(self).data_frames@[v] == old(self).data_frames@[v],
            forall|v: usize| new_end <= v < old(self).end_vpn ==> !#[trigger] final(page_table)@.contains_key(v),
            agree_outside(final(page_table)@, old(page_table)@, new_end as int, old(self).end_vpn as int),
            final(page_table).root == old(page_table).root,
            final(allocator).wf(),
            final(allocator).end == old(allocator).end,
            old(self).map_type == MapType::Identical ==> *final(allocator) == *old(allocator),
            old(self).map_type == MapType::Framed ==> {
                &&& final(allocator).num_free() == old(allocator).num_free() + (old(self).end_vpn - new_end)
                &&& forall|p: usize| #[trigger] old(allocator).free_frames().contains(p)
                    ==> final(allocator).free_frames().contains(p)
                &&& forall|p: usize| #[trigger] final(allocator).free_frames().contains(p)
                    && !old(allocator).free_frames().contains(p)
                    ==> exists|v: usize| #[trigger] old(self).data_frames@.contains_key(v)
                        && old(self).data_frames@[v].ppn == p
            },
    {
        let hi = self.end_vpn;
        self.unmap_pages(page_table, allocator, new_end, hi);
        self.end_vpn = new_end;
    }

    /// Extends the area to end at `new_end`, mapping the new pages.
    pub fn append_to(&mut self, page_table: &mut PageTable, allocator: &mut FrameAllocator, new_end: usize)
        requires
            old(self).wf(),
            old(self).frames_allocated(*old(allocator)),
            old(allocator).wf(),
            old(self).end_vpn <= new_end <= MAX_VPN,
            forall|v: usize| old(self).end_vpn <= v < new_end ==> !#[trigger] old(page_table)@.contains_key(v),
            old(self).map_type == MapType::Framed ==> old(allocator).num_free() >= new_end - old(self).end_vpn,
        ensures
            final(self).start_vpn == old(self).start_vpn,
            final(self).end_vpn == new_end,
            final(self).map_type == old(self).map_type,
            final(self).map_perm == old(self).map_perm,
            final(self).wf(),
            final(self).frames_allocated(*final(allocator)),
            forall|v: usize| #[trigger] old(self).data_frames@.contains_key(v)
                ==> final(self).data_frames@[v] == old(self).data_frames@[v],
            maps_range(final(page_table)@, *final(self), old(self).end_vpn as int, new_end as int),
            agree_outside(final(page_table)@, old(page_table)@, old(self).end_vpn as int, new_end as int),
            final(page_table).root == old(page_table).root,
            final(allocator).wf(),
            final(allocator).end == old(allocator).end,
            old(self).map_type == MapType::Identical ==> *final(allocator) == *old(allocator),
            old(self).map_type == MapType::Framed ==> {
                &&& forall|p: usize| #[trigger] final(allocator).free_frames().contains(p)
                    ==> old(allocator).free_frames().contains(p)
                &&& final(allocator).num_free() + (new_end - old(self).end_vpn) == old(allocator).num_free()
                &&& forall|v: usize| #[trigger] final(self).data_frames@.contains_key(v) && !old(self).data_frames@.contains_key(v)
                    ==> old(allocator).free_frames().contains(final(self).data_frames@[v].ppn)
                        && final(self).data_frames@[v].bytes@ == zero_page()
            },
    {
        let lo = self.end_vpn;
        let ghost fa0 = *allocator;
        let ghost df0 = self.data_frames@;
        proof {
            assert forall|v: usize| lo <= v < new_end implies !#[trigger] self.data_frames@.contains_key(v) by {}
        }
        self.map_pages(page_table, allocator, lo, new_end);
        self.end_vpn = new_end;
        proof {
            assert forall|v: usize| #[trigger] self.data_frames@.contains_key(v)
                implies self.data_frames@[v].ppn < allocator.end
                    && !allocator.free_frames().contains(self.data_frames@[v].ppn) by {
                if df0.contains_key(v) {
                } else {
                    fa0.lemma_free_below_end(self.data_frames@[v].ppn);
                }
            }
            assert forall|v: usize| #[trigger] self.data_frames@.contains_key(v)
                implies self.data_frames@[v].bytes@.len() == PAGE_SIZE by {
                assert(zero_page().len() == PAGE_SIZE);
            }
            assert forall|v: usize, w: usize|
                #![trigger self.data_frames@[v], self.data_frames@[w]]
                self.data_frames@.contains_key(v) && self.data_frames@.contains_key(w) && v != w
                implies self.data_frames@[v].ppn != self.data_frames@[w].ppn by {
                if df0.contains_key(v) && df0.contains_key(w) {
                } else if df0.contains_key(v) {
                    assert(!fa0.free_frames().contains(df0[v].ppn));
                } else if df0.contains_key(w) {
                    assert(!fa0.free_frames().contains(df0[w].ppn));
                }
            }
        }
    }

    /// Writes `data` into the frames of a framed area, from its first byte on,
    /// one page at a time.
    pub fn copy_data(&mut self, data: &[u8])
        requires
            old(self).wf(),
            old(self).map_type == MapType::Framed,
            old(self).start_vpn < old(self).end_vpn,
            data@.len() <= old(self).num_pages() * PAGE_SIZE,
        ensures
            final(self).start_vpn == old(self).start_vpn,
            final(self).end_vpn == old(self).end_vpn,
            final(self).map_type == old(self).map_type,
            final(self).map_perm == old(self).map_perm,
            final(self).wf(),
            forall|v: usize| #[trigger] final(self).data_frames@.contains_key(v) <==> old(self).data_frames@.contains_key(v),
            forall|v: usize| #[trigger] old(self).data_frames@.contains_key(v) ==> {
                &&& final(self).data_frames@[v].ppn == old(self).data_frames@[v].ppn
                &&& final(self).data_frames@[v].bytes@
                    == page_after_copy(old(self).data_frames@[v].bytes@, data@, v - old(self).start_vpn)
            },
    {
        let ghost df0 = self.data_frames@;
        let ghost start_vpn = self.start_vpn;
        let len = data.len();
        let mut off: usize = 0;
        let mut vpn = self.start_vpn;
        proof {
            crate::config::lemma_layout_constants();
        }
        loop
            invariant_except_break
                start_vpn <= vpn < self.end_vpn,
                off == (vpn - start_vpn) * PAGE_SIZE,
                off == 0 || off < len,
                forall|v: usize| #[trigger] df0.contains_key(v) && v < vpn ==>
                    self.data_frames@[v].bytes@ == page_after_copy(df0[v].bytes@, data@, v - start_vpn),
                forall|v: usize| #[trigger] df0.contains_key(v) && v >= vpn ==>
                    self.data_frames@[v].bytes@ == df0[v].bytes@,
            invariant
                self.start_vpn == start_vpn,
                self.end_vpn == old(self).end_vpn,
                self.map_type == old(self).map_type,
                self.map_perm == old(self).map_perm,
                start_vpn == old(self).start_vpn,
                len == data@.len(),
                len <= (self.end_vpn - start_vpn) * PAGE_SIZE,
                self.end_vpn <= MAX_VPN,
                self.map_type == MapType::Framed,
                df0 == old(self).data_frames@,
                old(self).wf(),
                forall|v: usize| #[trigger] self.data_frames@.contains_key(v) <==> df0.contains_key(v),
                forall|v: usize| #[trigger] df0.contains_key(v) ==> self.data_frames@[v].ppn == df0[v].ppn,
            ensures
                forall|v: usize| #[trigger] df0.contains_key(v) ==>
                    self.data_frames@[v].bytes@ == page_after_copy(df0[v].bytes@, data@, v - start_vpn),
            decreases self.end_vpn - vpn,
        {
            let stop = if len < off + PAGE_SIZE { len } else { off + PAGE_SIZE };
            let ghost df1 = self.data_frames@;
            let mut frame = self.data_frames.remove(&vpn).unwrap();
            assert(df0.contains_key(vpn));
            assert(frame.bytes@ == df0[vpn].bytes@);
            let mut i: usize = 0;
            while i < stop - off
                invariant
                    off <= stop <= len,
                    stop - off <= PAGE_SIZE,
                    frame.bytes@.len() == PAGE_SIZE,
                    frame.ppn == df0[vpn].ppn,
                    df0[vpn].bytes@.len() == PAGE_SIZE,
                    len == data@.len(),
                    i <= stop - off,
                    forall|j: int| 0 <= j < i ==> frame.bytes@[j] == data@[off + j],
                    forall|j: int| i <= j < PAGE_SIZE ==> frame.bytes@[j] == df0[vpn].bytes@[j],
                decreases stop - off - i,
            {
                frame.bytes.set(i, data[off + i]);
                i = i + 1;
            }
            proof {
                let k = vpn - start_vpn;
                assert(frame.bytes@ =~= page_after_copy(df0[vpn].bytes@, data@, k));
            }
            self.data_frames.insert(vpn, frame);
            if stop == len {
                proof {
                    assert forall|v: usize| #[trigger] df0.contains_key(v) implies
                        self.data_frames@[v].bytes@ == page_after_copy(df0[v].bytes@, data@, v - start_vpn) by {
                        if v > vpn {
                            assert(df1.contains_key(v));
                            assert((v - start_vpn) * PAGE_SIZE >= off + PAGE_SIZE);
                            assert(page_after_copy(df0[v].bytes@, data@, v - start_vpn) =~= df0[v].bytes@);
                        } else if v < vpn {
                            assert(df1.contains_key(v));
                        }
                    }
                }
                break;
            }
            proof {
                assert forall|v: usize| #[trigger] df0.contains_key(v) && v < vpn + 1 implies
                    self.data_frames@[v].bytes@ == page_after_copy(df0[v].bytes@, data@, v - start_vpn) by {
                    if v < vpn {
                        assert(df1.contains_key(v));
                    }
                }
                assert(off + PAGE_SIZE < len);
                assert((vpn + 1 - start_vpn) * PAGE_SIZE < (self.end_vpn - start_vpn) * PAGE_SIZE);
            }
            off = off + PAGE_SIZE;
            vpn = vpn + 1;
        }
    }

    /// Maps the pages `[lo, hi)` one by one, in increasing order.
    fn map_pages(&mut self, page_table: &mut PageTable, allocator: &mut FrameAllocator, lo: usize, hi: usize)
        requires
            lo <= hi,
            old(allocator).wf(),
            forall|v: usize| lo <= v < hi ==> !#[trigger] old(page_table)@.contains_key(v),
            forall|v: usize| lo <= v < hi ==> !#[trigger] old(self).data_frames@.contains_key(v),
            old(self).map_type == MapType::Framed ==> old(allocator).num_free() >= hi - lo,
        ensures
            final(self).start_vpn == old(self).start_vpn,
            final(self).end_vpn == old(self).end_vpn,
            final(self).map_type == old(self).map_type,
            final(self).map_perm == old(self).map_perm,
            final(page_table).root == old(page_table).root,
            final(allocator).wf(),
            final(allocator).end == old(allocator).end,
            maps_range(final(page_table)@, *final(self), lo as int, hi as int),
            agree_outside(final(page_table)@, old(page_table)@, lo as int, hi as int),
            old(self).map_type == MapType::Identical ==> {
                &&& final(self).data_frames@ == old(self).data_frames@
                &&& *final(allocator) == *old(allocator)
            },
            old(self).map_type == MapType::Framed ==> {
                &&& forall|v: usize| #[trigger] final(self).data_frames@.contains_key(v)
                    <==> (old(self).data_frames@.contains_key(v) || lo <= v < hi)
                &&& forall|v: usize| #[trigger] old(self).data_frames@.contains_key(v)
                    ==> final(self).data_frames@[v] == old(self).data_frames@[v]
                &&& forall|v: usize| lo <= v < hi ==> {
                    &&& (#[trigger] final(self).data_frames@[v]).bytes@ == zero_page()
                    &&& old(allocator).free_frames().contains(final(self).data_frames@[v].ppn)
                    &&& !final(allocator).free_frames().contains(final(self).data_frames@[v].ppn)
                }
                &&& forall|v: usize, w: usize|
                    #![trigger final(self).data_frames@[v], final(self).data_frames@[w]]
                    lo <= v < hi && lo <= w < hi && v != w
                    ==> final(self).data_frames@[v].ppn != final(self).data_frames@[w].ppn
                &&& forall|p: usize| #[trigger] final(allocator).free_frames().contains(p)
                    ==> old(allocator).free_frames().contains(p)
                &&& final(allocator).num_free() + (hi - lo) == old(allocator).num_free()
            },
    {
        let ghost pt0 = page_table@;
        let ghost df0 = self.data_frames@;
        let ghost fa0 = *allocator;
        let mut vpn = lo;
        while vpn < hi
            invariant
                lo <= vpn <= hi,
                self.start_vpn == old(self).start_vpn,
                self.end_vpn == old(self).end_vpn,
                self.map_type == old(self).map_type,
                self.map_perm == old(self).map_perm,
                page_table.root == old(page_table).root,
                allocator.wf(),
                allocator.end == fa0.end,
                forall|v: usize| vpn <= v < hi ==> !#[trigger] page_table@.contains_key(v),
                forall|v: usize| vpn <= v < hi ==> !#[trigger] self.data_frames@.contains_key(v),
                maps_range(page_table@, *self, lo as int, vpn as int),
                agree_outside(page_table@, pt0, lo as int, vpn as int),
                self.map_type == MapType::Identical ==> {
                    &&& self.data_frames@ == df0
                    &&& *allocator == fa0
                },
                self.map_type == MapType::Framed ==> {
                    &&& forall|v: usize| #[trigger] self.data_frames@.contains_key(v)
                        <==> (df0.contains_key(v) || lo <= v < vpn)
                    &&& forall|v: usize| #[trigger] df0.contains_key(v) ==> self.data_frames@[v] == df0[v]
                    &&& forall|v: usize| lo <= v < vpn ==> {
                        &&& (#[trigger] self.data_frames@[v]).bytes@ == zero_page()
                        &&& fa0.free_frames().contains(self.data_frames@[v].ppn)
                        &&& !allocator.free_frames().contains(self.data_frames@[v].ppn)
                    }
                    &&& forall|v: usize, w: usize|
                        #![trigger self.data_frames@[v], self.data_frames@[w]]
                        lo <= v < vpn && lo <= w < vpn && v != w
                        ==> self.data_frames@[v].ppn != self.data_frames@[w].ppn
                    &&& forall|p: usize| #[trigger] allocator.free_frames().contains(p)
                        ==> fa0.free_frames().contains(p)
                    &&& allocator.num_free() + (vpn - lo) == fa0.num_free()
                    &&& fa0.num_free() >= hi - lo
                },
            decreases hi - vpn,
        {
            let ghost df1 = self.data_frames@;
            let ghost fa1 = *allocator;
            let ghost pt1 = page_table@;
            self.map_one(page_table, allocator, vpn);
            proof {
                assert forall|v: usize| lo <= v < vpn + 1 implies #[trigger] page_table@.contains_key(v)
                    && page_table@[v] == self.entry_for(v) by {
                    if v < vpn {
                        assert(pt1.contains_key(v));
                        if self.map_type == MapType::Framed {
                            assert(df1.contains_key(v));
                            assert(self.data_frames@[v] == df1[v]);
                        }
                    }
                }
                if self.map_type == MapType::Framed {
                    assert forall|v: usize| lo <= v < vpn + 1 implies {
                        &&& (#[trigger] self.data_frames@[v]).bytes@ == zero_page()
                        &&& fa0.free_frames().contains(self.data_frames@[v].ppn)
                        &&& !allocator.free_frames().contains(self.data_frames@[v].ppn)
                    } by {
                        if v < vpn {
                            assert(df1.contains_key(v));
                            assert(self.data_frames@[v] == df1[v]);
                        }
                    }
                    assert forall|v: usize, w: usize|
                        lo <= v < vpn + 1 && lo <= w < vpn + 1 && v != w
                        implies #[trigger] self.data_frames@[v].ppn != #[trigger] self.data_frames@[w].ppn by {
                        if v < vpn && w < vpn {
                            assert(df1.contains_key(v) && df1.contains_key(w));
                        } else if v < vpn {
                            assert(df1.contains_key(v));
                            assert(!fa1.free_frames().contains(df1[v].ppn));
                        } else {
                            assert(df1.contains_key(w));
                            assert(!fa1.free_frames().contains(df1[w].ppn));
                        }
                    }
                    assert forall|v: usize| #[trigger] df0.contains_key(v) implies self.data_frames@[v] == df0[v] by {
                        assert(df1.contains_key(v));
                        assert(v != vpn);
                    }
                }
            }
            vpn = vpn + 1;
        }
    }

    /// Unmaps the pages `[lo, hi)` one by one, in increasing order.
    fn unmap_pages(&mut self, page_table: &mut PageTable, allocator: &mut FrameAllocator, lo: usize, hi: usize)
        requires
            lo <= hi,
            old(allocator).wf(),
            old(self).frames_distinct(),
            old(self).frames_allocated(*old(allocator)),
            forall|v: usize| lo <= v < hi ==> #[trigger] old(page_table)@.contains_key(v),
        ensures
            final(self).start_vpn == old(self).start_vpn,
            final(self).end_vpn == old(self).end_vpn,
            final(self).map_type == old(self).map_type,
            final(self).map_perm == old(self).map_perm,
            final(page_table).root == old(page_table).root,
            final(allocator).wf(),
            final(allocator).end == old(allocator).end,
            forall|v: usize| lo <= v < hi ==> !#[trigger] final(page_table)@.contains_key(v),
            agree_outside(final(page_table)@, old(page_table)@, lo as int, hi as int),
            final(self).frames_distinct(),
            final(self).frames_allocated(*final(allocator)),
            (forall|v: usize| lo <= v < hi ==> !#[trigger] old(self).data_frames@.contains_key(v))
                ==> *final(allocator) == *old(allocator) && final(self).data_frames@ == old(self).data_frames@,
            old(self).map_type == MapType::Identical ==> {
                &&& final(self).data_frames@ == old(self).data_frames@
                &&& *final(allocator) == *old(allocator)
            },
            old(self).map_type == MapType::Framed ==> {
                &&& forall|v: usize| #[trigger] final(self).data_frames@.contains_key(v)
                    <==> (old(self).data_frames@.contains_key(v) && !(lo <= v < hi))
                &&& forall|v: usize| #[trigger] final(self).data_frames@.contains_key(v)
                    ==> final(self).data_frames@[v] == old(self).data_frames@[v]
                &&& forall|v: usize| lo <= v < hi && #[trigger] old(self).data_frames@.contains_key(v)
                    ==> final(allocator).free_frames().contains(old(self).data_frames@[v].ppn)
                &&& forall|p: usize| #[trigger] old(allocator).free_frames().contains(p)
                    ==> final(allocator).free_frames().contains(p)
                &&& forall|p: usize| #[trigger] final(allocator).free_frames().contains(p)
                    && !old(allocator).free_frames().contains(p)
                    ==> exists|v: usize| lo <= v < hi && #[trigger] old(self).data_frames@.contains_key(v)
                        && old(self).data_frames@[v].ppn == p
                &&& (forall|v: usize| lo <= v < hi ==> #[trigger] old(self).data_frames@.contains_key(v))
                    ==> final(allocator).num_free() == old(allocator).num_free() + (hi - lo)
            },
    {
        let ghost pt0 = page_table@;
        let ghost df0 = self.data_frames@;
        let ghost fa0 = *allocator;
        let mut vpn = lo;
        while vpn < hi
            invariant
                lo <= vpn <= hi,
                self.start_vpn == old(self).start_vpn,
                self.end_vpn == old(self).end_vpn,
                self.map_type == old(self).map_type,
                self.map_perm == old(self).map_perm,
                page_table.root == old(page_table).root,
                allocator.wf(),
                allocator.end == fa0.end,
                self.frames_distinct(),
                self.frames_allocated(*allocator),
                (forall|v: usize| lo <= v < hi ==> !#[trigger] df0.contains_key(v))
                    ==> *allocator == fa0 && self.data_frames@ == df0,
                forall|v: usize| vpn <= v < hi ==> #[trigger] page_table@.contains_key(v),
                forall|v: usize| lo <= v < vpn ==> !#[trigger] page_table@.contains_key(v),
                agree_outside(page_table@, pt0, lo as int, vpn as int),
                self.map_type == MapType::Identical ==> {
                    &&& self.data_frames@ == df0
                    &&& *allocator == fa0
                },
                self.map_type == MapType::Framed ==> {
                    &&& forall|v: usize| #[trigger] self.data_frames@.contains_key(v)
                        <==> (df0.contains_key(v) && !(lo <= v < vpn))
                    &&& forall|v: usize| #[trigger] self.data_frames@.contains_key(v)
                        ==> self.data_frames@[v] == df0[v]
                    &&& forall|v: usize| lo <= v < vpn && #[trigger] df0.contains_key(v)
                        ==> allocator.free_frames().contains(df0[v].ppn)
                    &&& forall|p: usize| #[trigger] fa0.free_frames().contains(p)
                        ==> allocator.free_frames().contains(p)
                    &&& forall|p: usize| #[trigger] allocator.free_frames().contains(p)
                        && !fa0.free_frames().contains(p)
                        ==> exists|v: usize| lo <= v < vpn && #[trigger] df0.contains_key(v) && df0[v].ppn == p
                    &&& (forall|v: usize| lo <= v < hi ==> #[trigger] df0.contains_key(v))
                        ==> allocator.num_free() == fa0.num_free() + (vpn - lo)
                },
            decreases hi - vpn,
        {
            let ghost df1 = self.data_frames@;
            let ghost fa1 = *allocator;
            self.unmap_one(page_table, allocator, vpn);
            proof {
                if self.map_type == MapType::Framed {
                    if df1.contains_key(vpn) {
                        let q = df1[vpn].ppn;
                        assert forall|v: usize| #[trigger] self.data_frames@.contains_key(v)
                            implies self.data_frames@[v].ppn < allocator.end
                                && !allocator.free_frames().contains(self.data_frames@[v].ppn) by {
                            assert(df1.contains_key(v) && v != vpn);
                            assert(df1[v].ppn != q);
                        }
                        assert forall|p: usize| #[trigger] allocator.free_frames().contains(p)
                            && !fa0.free_frames().contains(p)
                            implies exists|v: usize| lo <= v < vpn + 1 && #[trigger] df0.contains_key(v) && df0[v].ppn == p by {
                            if p == q {
                                assert(df0.contains_key(vpn));
                            } else {
                                assert(fa1.free_frames().contains(p));
                            }
                        }
                        assert forall|v: usize| lo <= v < vpn + 1 && #[trigger] df0.contains_key(v)
                            implies allocator.free_frames().contains(df0[v].ppn) by {
                            if v == vpn {
                                assert(df1[vpn] == df0[vpn]);
                            }
                        }
                    } else {
                        assert forall|v: usize| lo <= v < vpn + 1 && #[trigger] df0.contains_key(v)
                            implies allocator.free_frames().contains(df0[v].ppn) by {
                        }
                        assert forall|p: usize| #[trigger] allocator.free_frames().contains(p)
                            && !fa0.free_frames().contains(p)
                            implies exists|v: usize| lo <= v < vpn + 1 && #[trigger] df0.contains_key(v) && df0[v].ppn == p by {
                            let v = choose|v: usize| lo <= v < vpn && #[trigger] df0.contains_key(v) && df0[v].ppn == p;
                            assert(lo <= v < vpn + 1);
                        }
                    }
                }
            }
            vpn = vpn + 1;
        }
    }
}

} // verus!

verus! {

/// Every area is well formed.
pub open spec fn areas_wf(areas: Seq<MapArea>) -> bool {
    forall|i: int| 0 <= i < areas.len() ==> #[trigger] areas[i].wf()
}

/// Every page of every area is mapped in `pt` as its area says.
pub open spec fn areas_mapped(areas: Seq<MapArea>, pt: Map<usize, PageTableEntry>) -> bool {
    forall|i: int| 0 <= i < areas.len() ==> #[trigger] areas[i].mapped_in(pt)
}

/// No page belongs to two areas.
pub open spec fn areas_disjoint(areas: Seq<MapArea>) -> bool {
    forall|i: int, j: int, v: int|
        0 <= i < areas.len() && 0 <= j < areas.len() && i != j
        && #[trigger] areas[i].contains_vpn(v) ==> !#[trigger] areas[j].contains_vpn(v)
}

/// Every mapped page is the trampoline page or belongs to an area.
pub open spec fn pt_covered(areas: Seq<MapArea>, pt: Map<usize, PageTableEntry>) -> bool {
    forall|v: usize| #[trigger] pt.contains_key(v) ==> v == MAX_VPN
        || exists|i: int| 0 <= i < areas.len() && #[trigger] areas[i].contains_vpn(v as int)
}

/// `area` holds the frame `p` for one of its pages.
pub open spec fn holds_frame(area: MapArea, p: usize) -> bool {
    exists|v: usize| area.data_frames@.contains_key(v) && area.data_frames@[v].ppn == p
}

/// The frames that the areas hold.
pub open spec fn area_frames(areas: Seq<MapArea>) -> Set<usize> {
    Set::new(|p: usize| exists|i: int| 0 <= i < areas.len() && #[trigger] holds_frame(areas[i], p))
}

/// The frames of the areas are handed out by `allocator`, and no frame backs
/// pages of two areas.
pub open spec fn frames_owned(areas: Seq<MapArea>, allocator: FrameAllocator) -> bool {
    &&& forall|i: int| 0 <= i < areas.len() ==> #[trigger] areas[i].frames_allocated(allocator)
    &&& forall|i: int, j: int, v: usize, w: usize|
        0 <= i < areas.len() && 0 <= j < areas.len() && i != j
        && areas[i].data_frames@.contains_key(v) && areas[j].data_frames@.contains_key(w)
        ==> #[trigger] areas[i].data_frames@[v].ppn != #[trigger] areas[j].data_frames@[w].ppn
}

/// The index of the first area that starts at page `vpn`, looking from `from` on.
pub open spec fn first_area_from(areas: Seq<MapArea>, vpn: usize, from: int) -> Option<int>
    decreases areas.len() - from,
{
    if from < 0 || from >= areas.len() {
        None
    } else if areas[from].start_vpn == vpn {
        Some(from)
    } else {
        first_area_from(areas, vpn, from + 1)
    }
}

/// The index of the first area that starts at page `vpn`.
pub open spec fn first_area(areas: Seq<MapArea>, vpn: usize) -> Option<int> {
    first_area_from(areas, vpn, 0)
}

/// An area stays mapped when the table changes only on pages that were unmapped.
pub proof fn lemma_mapped_outside(area: MapArea, pt0: Map<usize, PageTableEntry>, pt: Map<usize, PageTableEntry>, lo: int, hi: int)
    requires
        area.mapped_in(pt0),
        agree_outside(pt, pt0, lo, hi),
        forall|v: usize| lo <= v < hi ==> !#[trigger] pt0.contains_key(v),
    ensures
        area.mapped_in(pt),
{
    assert forall|v: usize| area.start_vpn <= v < area.end_vpn implies
        #[trigger] pt.contains_key(v) && pt[v] == area.entry_for(v) by {
        assert(pt0.contains_key(v));
    }
}

/// An area stays mapped when only the contents of its frames change.
pub proof fn lemma_mapped_same_frames(a: MapArea, b: MapArea, pt: Map<usize, PageTableEntry>)
    requires
        a.mapped_in(pt),
        a.start_vpn == b.start_vpn,
        a.end_vpn == b.end_vpn,
        a.map_type == b.map_type,
        a.map_perm == b.map_perm,
        forall|v: usize| #[trigger] a.data_frames@.contains_key(v) ==> b.data_frames@[v].ppn == a.data_frames@[v].ppn,
        a.map_type == MapType::Framed ==> forall|v: usize| a.start_vpn <= v < a.end_vpn ==> #[trigger] a.data_frames@.contains_key(v),
    ensures
        b.mapped_in(pt),
{
    assert forall|v: usize| b.start_vpn <= v < b.end_vpn implies
        #[trigger] pt.contains_key(v) && pt[v] == b.entry_for(v) by {
        assert(pt.contains_key(v) && pt[v] == a.entry_for(v));
        if a.map_type == MapType::Framed {
            assert(a.data_frames@.contains_key(v));
        }
    }
}

/// The request of `len` bytes at `addr` reaches into the area, or touches its start.
pub open spec fn range_overlaps(area: MapArea, addr: int, len: int) -> bool {
    addr < crate::address::vpn_base(area.end_vpn as int) && addr + len >= crate::address::vpn_base(area.start_vpn as int)
}

/// The request of `len` bytes at `addr` lies within the area.
pub open spec fn range_inside(area: MapArea, addr: int, len: int) -> bool {
    addr >= crate::address::vpn_base(area.start_vpn as int) && addr + len <= crate::address::vpn_base(area.end_vpn as int)
}

/// An area stays mapped when the table changes only on pages outside it.
pub proof fn lemma_mapped_disjoint(area: MapArea, pt0: Map<usize, PageTableEntry>, pt: Map<usize, PageTableEntry>, lo: int, hi: int)
    requires
        area.mapped_in(pt0),
        agree_outside(pt, pt0, lo, hi),
        forall|v: int| #[trigger] area.contains_vpn(v) ==> !(lo <= v < hi),
    ensures
        area.mapped_in(pt),
{
    assert forall|v: usize| area.start_vpn <= v < area.end_vpn implies
        #[trigger] pt.contains_key(v) && pt[v] == area.entry_for(v) by {
        assert(area.contains_vpn(v as int));
        assert(pt0.contains_key(v));
    }
}

/// Where the linker placed the kernel image: the bounds of its sections and
/// the physical address of the trampoline code.
#[derive(Clone, Copy, Debug)]
pub struct KernelLayout {
    pub stext: usize,
    pub etext: usize,
    pub srodata: usize,
    pub erodata: usize,
    pub sdata: usize,
    pub edata: usize,
    pub sbss_with_stack: usize,
    pub ebss: usize,
    pub ekernel: usize,
    pub strampoline: usize,
}

/// The sections follow each other in order without sharing a page, and the
/// image ends below the end of memory.
pub open spec fn kernel_layout_ok(l: KernelLayout) -> bool {
    &&& l.stext <= l.etext
    &&& ceil_vpn(l.etext as int) <= floor_vpn(l.srodata as int)
    &&& l.srodata <= l.erodata
    &&& ceil_vpn(l.erodata as int) <= floor_vpn(l.sdata as int)
    &&& l.sdata <= l.edata
    &&& ceil_vpn(l.edata as int) <= floor_vpn(l.sbss_with_stack as int)
    &&& l.sbss_with_stack <= l.ebss
    &&& ceil_vpn(l.ebss as int) <= floor_vpn(l.ekernel as int)
    &&& l.ekernel <= MEMORY_END
}

/// Decides `kernel_layout_ok`.
pub fn kernel_layout_is_ok(l: &KernelLayout) -> (b: bool)
    ensures
        b == kernel_layout_ok(*l),
{
    l.stext <= l.etext && va_ceil(l.etext) <= va_floor(l.srodata)
        && l.srodata <= l.erodata && va_ceil(l.erodata) <= va_floor(l.sdata)
        && l.sdata <= l.edata && va_ceil(l.edata) <= va_floor(l.sbss_with_stack)
        && l.sbss_with_stack <= l.ebss && va_ceil(l.ebss) <= va_floor(l.ekernel)
        && l.ekernel <= MEMORY_END
}

/// `area` maps the pages of `[start, end)` to themselves with the rights `bits`.
pub open spec fn is_identical_area(area: MapArea, start: usize, end: usize, bits: u8) -> bool {
    &&& area.start_vpn == floor_vpn(start as int)
    &&& area.end_vpn == ceil_vpn(end as int)
    &&& area.map_type == MapType::Identical
    &&& area.map_perm.bits == bits
}

/// The first area at a page is an area that starts there.
pub proof fn lemma_first_area_range(areas: Seq<MapArea>, vpn: usize, from: int)
    requires
        first_area_from(areas, vpn, from).is_some(),
    ensures
        from <= first_area_from(areas, vpn, from).unwrap() < areas.len(),
        0 <= first_area_from(areas, vpn, from).unwrap(),
        areas[first_area_from(areas, vpn, from).unwrap()].start_vpn == vpn,
    decreases areas.len() - from,
{
    if from >= 0 && from < areas.len() && areas[from].start_vpn != vpn {
        lemma_first_area_range(areas, vpn, from + 1);
    }
}

/// An address space stays well formed when the allocator hands out more
/// frames (its free frames only shrink).
pub proof fn lemma_wf_fewer_free(ms: MemorySet, a: FrameAllocator, b: FrameAllocator)
    requires
        ms.wf(a),
        b.wf(),
        b.end == a.end,
        forall|p: usize| #[trigger] b.free_frames().contains(p) ==> a.free_frames().contains(p),
    ensures
        ms.wf(b),
{
    assert forall|i: int| 0 <= i < ms.areas@.len() implies #[trigger] ms.areas@[i].frames_allocated(b) by {
        assert(ms.areas@[i].frames_allocated(a));
    }
}

/// An address space: a page table and the areas it maps.
pub struct MemorySet {
    pub page_table: PageTable,
    pub areas: Vec<MapArea>,
}

impl MemorySet {
    /// The areas are well formed, disjoint and mapped, the page table maps
    /// nothing else but the trampoline, and the frames are owned.
    pub open spec fn wf(&self, allocator: FrameAllocator) -> bool {
        &&& allocator.wf()
        &&& areas_wf(self.areas@)
        &&& areas_mapped(self.areas@, self.page_table@)
        &&& areas_disjoint(self.areas@)
        &&& pt_covered(self.areas@, self.page_table@)
        &&& frames_owned(self.areas@, allocator)
    }

    /// An empty address space.
    pub fn new_bare(allocator: &mut FrameAllocator) -> (r: Self)
        requires
            old(allocator).wf(),
            old(allocator).num_free() > 0,
        ensures
            r.wf(*final(allocator)),
            r.areas@ == Seq::<MapArea>::empty(),
            r.page_table@ == Map::<usize, PageTableEntry>::empty(),
            final(allocator).end == old(allocator).end,
            old(allocator).free_frames().contains(r.page_table.root.ppn),
            final(allocator).free_frames() == old(allocator).free_frames().remove(r.page_table.root.ppn),
            final(allocator).num_free() + 1 == old(allocator).num_free(),
    {
        let page_table = PageTable::new(allocator).unwrap();
        MemorySet { page_table, areas: Vec::new() }
    }

    /// The `satp` value of the address space.
    pub fn token(&self) -> (t: usize)
        ensures
            t == crate::page_table::satp_token(self.page_table.root.ppn),
    {
        self.page_table.token()
    }

    /// The page table entry of `vpn`, if it is mapped.
    pub fn translate(&self, vpn: usize) -> (r: Option<PageTableEntry>)
        ensures
            r == (if self.page_table@.contains_key(vpn) { Some(self.page_table@[vpn]) } else { None::<PageTableEntry> }),
    {
        self.page_table.translate(vpn)
    }

    /// Adds an area: maps all of its pages, writes `data` into its frames if
    /// some is given, and keeps it.
    pub(crate) fn push(&mut self, map_area: MapArea, data: Option<&[u8]>, allocator: &mut FrameAllocator)
        requires
            old(self).wf(*old(allocator)),
            map_area.start_vpn <= map_area.end_vpn <= MAX_VPN,
            map_area.data_frames@ == Map::<usize, FrameTracker>::empty(),
            map_area.unmapped_in(old(self).page_table@),
            map_area.map_type == MapType::Framed ==> old(allocator).num_free() >= map_area.num_pages(),
            data.is_some() ==> {
                &&& map_area.map_type == MapType::Framed
                &&& map_area.start_vpn < map_area.end_vpn
                &&& data.unwrap()@.len() <= map_area.num_pages() * PAGE_SIZE
            },
        ensures
            final(self).wf(*final(allocator)),
            final(self).areas@.len() == old(self).areas@.len() + 1,
            final(self).areas@.drop_last() == old(self).areas@,
            final(self).areas@.last().start_vpn == map_area.start_vpn,
            final(self).areas@.last().end_vpn == map_area.end_vpn,
            final(self).areas@.last().map_type == map_area.map_type,
            final(self).areas@.last().map_perm == map_area.map_perm,
            final(self).page_table.root == old(self).page_table.root,
            agree_outside(final(self).page_table@, old(self).page_table@, map_area.start_vpn as int, map_area.end_vpn as int),
            final(self).areas@.last().mapped_in(final(self).page_table@),
            forall|v: usize| #[trigger] final(self).areas@.last().data_frames@.contains_key(v) ==>
                final(self).areas@.last().data_frames@[v].bytes@ == (match data {
                    Some(d) => page_after_copy(zero_page(), d@, v - map_area.start_vpn),
                    None => zero_page(),
                }),
            final(allocator).end == old(allocator).end,
            map_area.map_type == MapType::Identical ==> *final(allocator) == *old(allocator),
            map_area.map_type == MapType::Framed ==>
                final(allocator).num_free() + map_area.num_pages() == old(allocator).num_free(),
            forall|p: usize| #[trigger] final(allocator).free_frames().contains(p) ==> old(allocator).free_frames().contains(p),
            forall|v: usize| #[trigger] final(self).areas@.last().data_frames@.contains_key(v) ==>
                old(allocator).free_frames().contains(final(self).areas@.last().data_frames@[v].ppn),
    {
        let ghost areas0 = self.areas@;
        let ghost pt0 = self.page_table@;
        let ghost fa0 = *allocator;
        let ghost orig = map_area;
        let mut map_area = map_area;
        map_area.map(&mut self.page_table, allocator);
        let ghost after_map = map_area;
        match data {
            Some(d) => {
                map_area.copy_data(d);
            },
            None => {},
        }
        let ghost new_area = map_area;
        self.areas.push(map_area);
        proof {
            let areas = self.areas@;
            let pt = self.page_table@;
            assert(areas.drop_last() =~= areas0);
            assert(areas[areas0.len() as int] == new_area);
            assert forall|i: int| 0 <= i < areas.len() implies #[trigger] areas[i].wf() by {
                if i < areas0.len() {
                    assert(areas[i] == areas0[i]);
                }
            }
            assert forall|i: int| 0 <= i < areas.len() implies #[trigger] areas[i].mapped_in(pt) by {
                if i < areas0.len() {
                    assert(areas[i] == areas0[i]);
                    assert(areas0[i].mapped_in(pt0));
                    lemma_mapped_outside(areas0[i], pt0, pt, orig.start_vpn as int, orig.end_vpn as int);
                } else {
                    assert(areas[i] == new_area);
                    lemma_mapped_same_frames(after_map, new_area, pt);
                }
            }
            assert forall|i: int, j: int, v: int|
                0 <= i < areas.len() && 0 <= j < areas.len() && i != j
                && #[trigger] areas[i].contains_vpn(v) implies !#[trigger] areas[j].contains_vpn(v) by {
                if i < areas0.len() && j < areas0.len() {
                    assert(areas[i] == areas0[i]);
                    assert(areas[j] == areas0[j]);
                } else if i < areas0.len() {
                    assert(areas[i] == areas0[i]);
                    assert(areas0[i].mapped_in(pt0));
                    assert(pt0.contains_key(v as usize));
                } else {
                    assert(areas[j] == areas0[j]);
                    assert(areas0[j].mapped_in(pt0));
                    if areas[j].contains_vpn(v) {
                        assert(pt0.contains_key(v as usize));
                    }
                }
            }
            assert forall|v: usize| #[trigger] pt.contains_key(v) implies v == MAX_VPN
                || exists|i: int| 0 <= i < areas.len() && #[trigger] areas[i].contains_vpn(v as int) by {
                if new_area.contains_vpn(v as int) {
                    assert(areas[areas0.len() as int].contains_vpn(v as int));
                } else {
                    assert(pt0.contains_key(v));
                    if v != MAX_VPN {
                        let i = choose|i: int| 0 <= i < areas0.len() && #[trigger] areas0[i].contains_vpn(v as int);
                        assert(areas[i] == areas0[i]);
                    }
                }
            }
            assert forall|i: int| 0 <= i < areas.len() implies #[trigger] areas[i].frames_allocated(*allocator) by {
                if i < areas0.len() {
                    assert(areas[i] == areas0[i]);
                    assert(areas0[i].frames_allocated(fa0));
                }
            }
            assert forall|i: int, j: int, v: usize, w: usize|
                0 <= i < areas.len() && 0 <= j < areas.len() && i != j
                && areas[i].data_frames@.contains_key(v) && areas[j].data_frames@.contains_key(w)
                implies #[trigger] areas[i].data_frames@[v].ppn != #[trigger] areas[j].data_frames@[w].ppn by {
                if i < areas0.len() && j < areas0.len() {
                    assert(areas[i] == areas0[i]);
                    assert(areas[j] == areas0[j]);
                } else if i < areas0.len() {
                    assert(areas[i] == areas0[i]);
                    assert(areas0[i].frames_allocated(fa0));
                } else {
                    assert(areas[j] == areas0[j]);
                    assert(areas0[j].frames_allocated(fa0));
                }
            }
        }
    }

    /// Adds a framed area over `[start_va, end_va)` with the rights `permission`;
    /// the range must not meet a mapped page.
    pub fn insert_framed_area(&mut self, start_va: usize, end_va: usize, permission: MapPermission, allocator: &mut FrameAllocator)
        requires
            old(self).wf(*old(allocator)),
            floor_vpn(start_va as int) <= ceil_vpn(end_va as int),
            end_va <= TRAMPOLINE,
            forall|v: usize| floor_vpn(start_va as int) <= v < ceil_vpn(end_va as int)
                ==> !#[trigger] old(self).page_table@.contains_key(v),
            old(allocator).num_free() >= ceil_vpn(end_va as int) - floor_vpn(start_va as int),
        ensures
            final(self).wf(*final(allocator)),
            final(self).areas@.len() == old(self).areas@.len() + 1,
            final(self).areas@.drop_last() == old(self).areas@,
            final(self).areas@.last().start_vpn == floor_vpn(start_va as int),
            final(self).areas@.last().end_vpn == ceil_vpn(end_va as int),
            final(self).areas@.last().map_type == MapType::Framed,
            final(self).areas@.last().map_perm == permission,
            final(self).page_table.root == old(self).page_table.root,
            agree_outside(final(self).page_table@, old(self).page_table@, floor_vpn(start_va as int), ceil_vpn(end_va as int)),
            final(self).areas@.last().mapped_in(final(self).page_table@),
            final(allocator).end == old(allocator).end,
            final(allocator).num_free() + (ceil_vpn(end_va as int) - floor_vpn(start_va as int)) == old(allocator).num_free(),
            forall|p: usize| #[trigger] final(allocator).free_frames().contains(p) ==> old(allocator).free_frames().contains(p),
            forall|v: usize| #[trigger] final(self).areas@.last().data_frames@.contains_key(v)
                ==> final(self).areas@.last().data_frames@[v].bytes@ == zero_page(),
    {
        let area = MapArea::new(start_va, end_va, MapType::Framed, permission);
        self.push(area, None, allocator);
    }

    fn addr_in_range(&self, addr: usize, len: usize, area: &MapArea) -> (b: bool)
        requires
            area.end_vpn <= MAX_VPN,
            area.start_vpn <= area.end_vpn,
            addr + len <= usize::MAX,
        ensures
            b == range_overlaps(*area, addr as int, len as int),
    {
        addr < crate::address::vpn_to_va(area.end_vpn) && addr + len >= crate::address::vpn_to_va(area.start_vpn)
    }

    /// Whether the `len` bytes at `start` reach into some area (touching the
    /// first byte of an area counts).
    pub fn is_mapped(&self, start: usize, len: usize) -> (b: bool)
        requires
            areas_wf(self.areas@),
            start + len <= usize::MAX,
        ensures
            b == exists|i: int| 0 <= i < self.areas@.len() && #[trigger] range_overlaps(self.areas@[i], start as int, len as int),
    {
        let mut i: usize = 0;
        while i < self.areas.len()
            invariant
                i <= self.areas@.len(),
                areas_wf(self.areas@),
                start + len <= usize::MAX,
                forall|j: int| 0 <= j < i ==> !#[trigger] range_overlaps(self.areas@[j], start as int, len as int),
            decreases self.areas@.len() - i,
        {
            assert(self.areas@[i as int].wf());
            if self.addr_in_range(start, len, &self.areas[i]) {
                return true;
            }
            i = i + 1;
        }
        false
    }

    fn addr_in_range_unmap(&self, addr: usize, len: usize, area: &MapArea) -> (b: bool)
        requires
            area.end_vpn <= MAX_VPN,
            area.start_vpn <= area.end_vpn,
            addr + len <= usize::MAX,
        ensures
            b == range_inside(*area, addr as int, len as int),
    {
        addr >= crate::address::vpn_to_va(area.start_vpn) && addr + len <= crate::address::vpn_to_va(area.end_vpn)
    }

    /// Whether the `len` bytes at `start` lie within some area.
    pub fn can_munmap(&self, start: usize, len: usize) -> (b: bool)
        requires
            areas_wf(self.areas@),
            start + len <= usize::MAX,
        ensures
            b == exists|i: int| 0 <= i < self.areas@.len() && #[trigger] range_inside(self.areas@[i], start as int, len as int),
    {
        let mut i: usize = 0;
        while i < self.areas.len()
            invariant
                i <= self.areas@.len(),
                areas_wf(self.areas@),
                start + len <= usize::MAX,
                forall|j: int| 0 <= j < i ==> !#[trigger] range_inside(self.areas@[j], start as int, len as int),
            decreases self.areas@.len() - i,
        {
            assert(self.areas@[i as int].wf());
            if self.addr_in_range_unmap(start, len, &self.areas[i]) {
                return true;
            }
            i = i + 1;
        }
        false
    }

    /// Removes the first area that starts at page `start_vpn`, unmapping its
    /// pages and returning its frames; nothing happens if no area starts there.
    pub fn remove_area_with_start_vpn(&mut self, start_vpn: usize, allocator: &mut FrameAllocator)
        requires
            old(self).wf(*old(allocator)),
        ensures
            final(self).wf(*final(allocator)),
            final(self).page_table.root == old(self).page_table.root,
            final(allocator).end == old(allocator).end,
            match first_area(old(self).areas@, start_vpn) {
                Some(i) => {
                    let area = old(self).areas@[i];
                    &&& final(self).areas@ == old(self).areas@.remove(i)
                    &&& area.unmapped_in(final(self).page_table@)
                    &&& agree_outside(final(self).page_table@, old(self).page_table@, area.start_vpn as int, area.end_vpn as int)
                    &&& (area.map_type == MapType::Framed ==>
                        final(allocator).num_free() == old(allocator).num_free() + area.num_pages())
                    &&& (area.map_type == MapType::Identical ==> *final(allocator) == *old(allocator))
                    &&& forall|p: usize| #[trigger] final(allocator).free_frames().contains(p)
                        <==> (old(allocator).free_frames().contains(p) || holds_frame(area, p))
                },
                None => {
                    &&& final(self).areas@ == old(self).areas@
                    &&& final(self).page_table@ == old(self).page_table@
                    &&& *final(allocator) == *old(allocator)
                },
            },
    {
        match self.find_area(start_vpn) {
            Some(idx) => {
                let ghost areas0 = self.areas@;
                let ghost pt0 = self.page_table@;
                let ghost fa0 = *allocator;
                let mut area = self.areas.remove(idx);
                let ghost a0 = area;
                proof {
                    assert(areas0[idx as int].wf());
                    assert(a0.frames_distinct());
                    assert(areas0[idx as int].frames_allocated(fa0));
                    assert(areas0[idx as int].mapped_in(pt0));
                    assert forall|v: usize| a0.start_vpn <= v < a0.end_vpn implies #[trigger] pt0.contains_key(v) by {}
                }
                area.unmap(&mut self.page_table, allocator);
                proof {
                    let areas = self.areas@;
                    let pt = self.page_table@;
                    let i = idx as int;
                    assert(area.start_vpn == a0.start_vpn && area.end_vpn == a0.end_vpn);
                    assert forall|v: usize| a0.start_vpn <= v < a0.end_vpn implies !#[trigger] pt.contains_key(v) by {
                        assert(area.start_vpn <= v < area.end_vpn);
                    }
                    assert(a0 == areas0[i]);
                    assert(areas =~= areas0.remove(i));
                    assert forall|k: int| 0 <= k < areas.len() implies #[trigger] areas[k].wf() by {
                        if k < i { assert(areas[k] == areas0[k]); } else { assert(areas[k] == areas0[k + 1]); }
                    }
                    assert forall|k: int| 0 <= k < areas.len() implies #[trigger] areas[k].mapped_in(pt) by {
                        let k0 = if k < i { k } else { k + 1 };
                        assert(areas[k] == areas0[k0]);
                        assert(areas0[k0].mapped_in(pt0));
                        assert forall|v: int| #[trigger] areas0[k0].contains_vpn(v) implies !(a0.start_vpn <= v < a0.end_vpn) by {
                            if a0.start_vpn <= v < a0.end_vpn {
                                assert(areas0[i].contains_vpn(v));
                            }
                        }
                        lemma_mapped_disjoint(areas0[k0], pt0, pt, a0.start_vpn as int, a0.end_vpn as int);
                    }
                    assert forall|k: int, l: int, v: int|
                        0 <= k < areas.len() && 0 <= l < areas.len() && k != l
                        && #[trigger] areas[k].contains_vpn(v) implies !#[trigger] areas[l].contains_vpn(v) by {
                        let k0 = if k < i { k } else { k + 1 };
                        let l0 = if l < i { l } else { l + 1 };
                        assert(areas[k] == areas0[k0]);
                        assert(areas[l] == areas0[l0]);
                        assert(areas0[k0].contains_vpn(v));
                    }
                    assert forall|v: usize| #[trigger] pt.contains_key(v) implies v == MAX_VPN
                        || exists|k: int| 0 <= k < areas.len() && #[trigger] areas[k].contains_vpn(v as int) by {
                        assert(!(a0.start_vpn <= v < a0.end_vpn));
                        assert(pt0.contains_key(v));
                        if v != MAX_VPN {
                            let k0 = choose|k: int| 0 <= k < areas0.len() && #[trigger] areas0[k].contains_vpn(v as int);
                            assert(k0 != i);
                            let k = if k0 < i { k0 } else { k0 - 1 };
                            assert(areas[k] == areas0[k0]);
                            assert(areas[k].contains_vpn(v as int));
                        }
                    }
                    assert forall|k: int| 0 <= k < areas.len() implies #[trigger] areas[k].frames_allocated(*allocator) by {
                        let k0 = if k < i { k } else { k + 1 };
                        assert(areas[k] == areas0[k0]);
                        assert(areas0[k0].frames_allocated(fa0));
                        assert forall|v: usize| #[trigger] areas[k].data_frames@.contains_key(v) implies
                            areas[k].data_frames@[v].ppn < allocator.end
                            && !allocator.free_frames().contains(areas[k].data_frames@[v].ppn) by {
                            let p = areas[k].data_frames@[v].ppn;
                            if allocator.free_frames().contains(p) && a0.map_type == MapType::Framed {
                                let w = choose|w: usize| #[trigger] a0.data_frames@.contains_key(w) && a0.data_frames@[w].ppn == p;
                                assert(areas0[k0].data_frames@[v].ppn != areas0[i].data_frames@[w].ppn);
                            }
                        }
                    }
                    assert forall|k: int, l: int, v: usize, w: usize|
                        0 <= k < areas.len() && 0 <= l < areas.len() && k != l
                        && areas[k].data_frames@.contains_key(v) && areas[l].data_frames@.contains_key(w)
                        implies #[trigger] areas[k].data_frames@[v].ppn != #[trigger] areas[l].data_frames@[w].ppn by {
                        let k0 = if k < i { k } else { k + 1 };
                        let l0 = if l < i { l } else { l + 1 };
                        assert(areas[k] == areas0[k0]);
                        assert(areas[l] == areas0[l0]);
                        assert(areas0[k0].data_frames@[v].ppn != areas0[l0].data_frames@[w].ppn);
                    }
                    assert(first_area(areas0, start_vpn) == Some(i));
                    assert(a0.unmapped_in(pt));
                    assert(agree_outside(pt, pt0, a0.start_vpn as int, a0.end_vpn as int));
                    assert(a0.map_type == MapType::Framed ==> allocator.num_free() == fa0.num_free() + a0.num_pages());
                    assert(self.wf(*allocator));
                    assert forall|p: usize| #[trigger] allocator.free_frames().contains(p)
                        <== (fa0.free_frames().contains(p) || holds_frame(a0, p)) by {
                        if holds_frame(a0, p) {
                            let v = choose|v: usize| a0.data_frames@.contains_key(v) && a0.data_frames@[v].ppn == p;
                            assert(a0.data_frames@.contains_key(v));
                        }
                    }
                }
            },
            None => {},
        }
    }

    /// Ends the address space: removes every area, unmapping its pages and
    /// giving the frames that it holds back to the allocator. Only the
    /// trampoline mapping is left.
    pub fn release(&mut self, allocator: &mut FrameAllocator)
        requires
            old(self).wf(*old(allocator)),
        ensures
            final(self).wf(*final(allocator)),
            final(self).areas@.len() == 0,
            final(self).page_table.root == old(self).page_table.root,
            forall|v: usize| #[trigger] final(self).page_table@.contains_key(v) ==> v == MAX_VPN,
            final(self).page_table@.contains_key(MAX_VPN) == old(self).page_table@.contains_key(MAX_VPN),
            old(self).page_table@.contains_key(MAX_VPN)
                ==> final(self).page_table@[MAX_VPN] == old(self).page_table@[MAX_VPN],
            final(allocator).end == old(allocator).end,
            final(allocator).free_frames() == old(allocator).free_frames().union(area_frames(old(self).areas@)),
            final(allocator).num_free() >= old(allocator).num_free(),
    {
        let ghost areas0 = self.areas@;
        let ghost pt0 = self.page_table@;
        let ghost free0 = allocator.free_frames();
        let ghost mut k: int = 0;
        proof {
            assert(areas0.skip(0) =~= areas0);
            assert(free0.union(area_frames(areas0.take(0))) =~= free0);
        }
        while self.areas.len() > 0
            invariant
                self.wf(*allocator),
                allocator.end == old(allocator).end,
                self.page_table.root == old(self).page_table.root,
                0 <= k <= areas0.len(),
                self.areas@ == areas0.skip(k),
                allocator.free_frames() == free0.union(area_frames(areas0.take(k))),
                self.page_table@.contains_key(MAX_VPN) == pt0.contains_key(MAX_VPN),
                pt0.contains_key(MAX_VPN) ==> self.page_table@[MAX_VPN] == pt0[MAX_VPN],
                allocator.num_free() >= old(allocator).num_free(),
            decreases self.areas@.len(),
        {
            let start = self.areas[0].start_vpn;
            let ghost before = self.areas@;
            let ghost fb = allocator.free_frames();
            proof {
                assert(first_area(before, start) == Some(0int));
                assert(before[0].wf());
            }
            self.remove_area_with_start_vpn(start, allocator);
            proof {
                let a = before[0];
                assert(a == areas0[k]);
                assert(self.areas@ =~= areas0.skip(k + 1));
                assert(area_frames(areas0.take(k + 1)) =~= area_frames(areas0.take(k)).union(
                    Set::new(|p: usize| holds_frame(a, p)))) by {
                    assert forall|p: usize| (area_frames(areas0.take(k)).contains(p) || holds_frame(a, p))
                        implies area_frames(areas0.take(k + 1)).contains(p) by {
                        if holds_frame(a, p) {
                            assert(areas0.take(k + 1)[k] == a);
                        } else {
                            let i = choose|i: int| 0 <= i < areas0.take(k).len() && #[trigger] holds_frame(areas0.take(k)[i], p);
                            assert(areas0.take(k + 1)[i] == areas0.take(k)[i]);
                        }
                    }
                    assert forall|p: usize| area_frames(areas0.take(k + 1)).contains(p)
                        implies (area_frames(areas0.take(k)).contains(p) || holds_frame(a, p)) by {
                        {
                            let i = choose|i: int| 0 <= i < areas0.take(k + 1).len() && #[trigger] holds_frame(areas0.take(k + 1)[i], p);
                            if i < k {
                                assert(areas0.take(k)[i] == areas0.take(k + 1)[i]);
                            }
                        }
                    }
                }
                assert(allocator.free_frames() =~= free0.union(area_frames(areas0.take(k + 1))));
                assert(a.end_vpn <= MAX_VPN);
                k = k + 1;
            }
        }
        proof {
            assert(areas0.take(k) =~= areas0);
            assert forall|v: usize| #[trigger] self.page_table@.contains_key(v) implies v == MAX_VPN by {
                if v != MAX_VPN {
                    let i = choose|i: int| 0 <= i < self.areas@.len() && #[trigger] self.areas@[i].contains_vpn(v as int);
                }
            }
        }
    }

    /// Shrinks the first area that starts at the page of `start` so that it
    /// ends at the page boundary at or above `new_end`; `false` if no area
    /// starts there.
    pub fn shrink_to(&mut self, start: usize, new_end: usize, allocator: &mut FrameAllocator) -> (ok: bool)
        requires
            old(self).wf(*old(allocator)),
            match first_area(old(self).areas@, floor_vpn(start as int) as usize) {
                Some(i) => floor_vpn(start as int) <= ceil_vpn(new_end as int) <= old(self).areas@[i].end_vpn,
                None => true,
            },
        ensures
            final(self).wf(*final(allocator)),
            final(self).page_table.root == old(self).page_table.root,
            final(allocator).end == old(allocator).end,
            ok == first_area(old(self).areas@, floor_vpn(start as int) as usize).is_some(),
            match first_area(old(self).areas@, floor_vpn(start as int) as usize) {
                Some(i) => {
                    let area = old(self).areas@[i];
                    let new_area = final(self).areas@[i];
                    &&& final(self).areas@ == old(self).areas@.update(i, new_area)
                    &&& new_area.start_vpn == area.start_vpn
                    &&& new_area.end_vpn == ceil_vpn(new_end as int)
                    &&& new_area.map_type == area.map_type
                    &&& new_area.map_perm == area.map_perm
                    &&& forall|v: usize| ceil_vpn(new_end as int) <= v < area.end_vpn
                        ==> !#[trigger] final(self).page_table@.contains_key(v)
                    &&& agree_outside(final(self).page_table@, old(self).page_table@, ceil_vpn(new_end as int), area.end_vpn as int)
                    &&& (area.map_type == MapType::Framed ==>
                        final(allocator).num_free() == old(allocator).num_free() + (area.end_vpn - ceil_vpn(new_end as int)))
                    &&& (area.map_type == MapType::Identical ==> *final(allocator) == *old(allocator))
                },
                None => {
                    &&& *final(self) == *old(self)
                    &&& *final(allocator) == *old(allocator)
                },
            },
    {
        let start_vpn = va_floor(start);
        let end_vpn = va_ceil(new_end);
        match self.find_area(start_vpn) {
            Some(idx) => {
                let ghost areas0 = self.areas@;
                let ghost pt0 = self.page_table@;
                let ghost fa0 = *allocator;
                let mut area = self.areas.remove(idx);
                let ghost a0 = area;
                proof {
                    assert(a0 == areas0[idx as int]);
                    assert(a0.wf());
                    assert(a0.frames_allocated(fa0));
                    assert(a0.mapped_in(pt0));
                    assert forall|v: usize| end_vpn <= v < a0.end_vpn implies #[trigger] pt0.contains_key(v) by {}
                }
                area.shrink_to(&mut self.page_table, allocator, end_vpn);
                let ghost a1 = area;
                self.areas.insert(idx, area);
                proof {
                    let areas = self.areas@;
                    let pt = self.page_table@;
                    let i = idx as int;
                    assert(areas =~= areas0.update(i, a1));
                    assert forall|k: int| 0 <= k < areas.len() implies #[trigger] areas[k].wf() by {
                        if k != i { assert(areas[k] == areas0[k]); }
                    }
                    assert forall|k: int| 0 <= k < areas.len() implies #[trigger] areas[k].mapped_in(pt) by {
                        if k != i {
                            assert(areas[k] == areas0[k]);
                            assert(areas0[k].mapped_in(pt0));
                            assert forall|v: int| #[trigger] areas0[k].contains_vpn(v) implies !(end_vpn <= v < a0.end_vpn) by {
                                if end_vpn <= v < a0.end_vpn {
                                    assert(areas0[i].contains_vpn(v));
                                }
                            }
                            lemma_mapped_disjoint(areas0[k], pt0, pt, end_vpn as int, a0.end_vpn as int);
                        } else {
                            assert forall|v: usize| a1.start_vpn <= v < a1.end_vpn implies
                                #[trigger] pt.contains_key(v) && pt[v] == a1.entry_for(v) by {
                                assert(pt0.contains_key(v) && pt0[v] == a0.entry_for(v));
                                if a0.map_type == MapType::Framed {
                                    assert(a1.data_frames@.contains_key(v));
                                }
                            }
                        }
                    }
                    assert forall|k: int, l: int, v: int|
                        0 <= k < areas.len() && 0 <= l < areas.len() && k != l
                        && #[trigger] areas[k].contains_vpn(v) implies !#[trigger] areas[l].contains_vpn(v) by {
                        assert(areas0[k].contains_vpn(v));
                        if areas[l].contains_vpn(v) {
                            assert(areas0[l].contains_vpn(v));
                        }
                    }
                    assert forall|v: usize| #[trigger] pt.contains_key(v) implies v == MAX_VPN
                        || exists|k: int| 0 <= k < areas.len() && #[trigger] areas[k].contains_vpn(v as int) by {
                        assert(!(end_vpn <= v < a0.end_vpn));
                        assert(pt0.contains_key(v));
                        if v != MAX_VPN {
                            let k = choose|k: int| 0 <= k < areas0.len() && #[trigger] areas0[k].contains_vpn(v as int);
                            assert(areas[k].contains_vpn(v as int));
                        }
                    }
                    assert forall|k: int| 0 <= k < areas.len() implies #[trigger] areas[k].frames_allocated(*allocator) by {
                        if k != i {
                            assert(areas[k] == areas0[k]);
                            assert(areas0[k].frames_allocated(fa0));
                            assert forall|v: usize| #[trigger] areas[k].data_frames@.contains_key(v) implies
                                areas[k].data_frames@[v].ppn < allocator.end
                                && !allocator.free_frames().contains(areas[k].data_frames@[v].ppn) by {
                                let p = areas[k].data_frames@[v].ppn;
                                if allocator.free_frames().contains(p) && a0.map_type == MapType::Framed {
                                    let w = choose|w: usize| #[trigger] a0.data_frames@.contains_key(w) && a0.data_frames@[w].ppn == p;
                                    assert(areas0[k].data_frames@[v].ppn != areas0[i].data_frames@[w].ppn);
                                }
                            }
                        }
                    }
                    assert forall|k: int, l: int, v: usize, w: usize|
                        0 <= k < areas.len() && 0 <= l < areas.len() && k != l
                        && areas[k].data_frames@.contains_key(v) && areas[l].data_frames@.contains_key(w)
                        implies #[trigger] areas[k].data_frames@[v].ppn != #[trigger] areas[l].data_frames@[w].ppn by {
                        if k == i {
                            assert(a0.data_frames@.contains_key(v));
                            assert(areas0[k].data_frames@[v].ppn != areas0[l].data_frames@[w].ppn);
                        } else if l == i {
                            assert(a0.data_frames@.contains_key(w));
                            assert(areas0[k].data_frames@[v].ppn != areas0[l].data_frames@[w].ppn);
                        } else {
                            assert(areas0[k].data_frames@[v].ppn != areas0[l].data_frames@[w].ppn);
                        }
                    }
                    assert(self.wf(*allocator));
                    assert(areas[i] == a1);
                }
                true
            },
            None => false,
        }
    }

    /// Extends the first area that starts at the page of `start` so that it
    /// ends at the page boundary at or above `new_end`; `false` if no area
    /// starts there.
    pub fn append_to(&mut self, start: usize, new_end: usize, allocator: &mut FrameAllocator) -> (ok: bool)
        requires
            old(self).wf(*old(allocator)),
            match first_area(old(self).areas@, floor_vpn(start as int) as usize) {
                Some(i) => {
                    let area = old(self).areas@[i];
                    &&& area.end_vpn <= ceil_vpn(new_end as int) <= MAX_VPN
                    &&& forall|v: usize| area.end_vpn <= v < ceil_vpn(new_end as int)
                        ==> !#[trigger] old(self).page_table@.contains_key(v)
                    &&& area.map_type == MapType::Framed ==>
                        old(allocator).num_free() >= ceil_vpn(new_end as int) - area.end_vpn
                },
                None => true,
            },
        ensures
            final(self).wf(*final(allocator)),
            final(self).page_table.root == old(self).page_table.root,
            final(allocator).end == old(allocator).end,
            ok == first_area(old(self).areas@, floor_vpn(start as int) as usize).is_some(),
            match first_area(old(self).areas@, floor_vpn(start as int) as usize) {
                Some(i) => {
                    let area = old(self).areas@[i];
                    let new_area = final(self).areas@[i];
                    &&& final(self).areas@ == old(self).areas@.update(i, new_area)
                    &&& new_area.start_vpn == area.start_vpn
                    &&& new_area.end_vpn == ceil_vpn(new_end as int)
                    &&& new_area.map_type == area.map_type
                    &&& new_area.map_perm == area.map_perm
                    &&& new_area.mapped_in(final(self).page_table@)
                    &&& agree_outside(final(self).page_table@, old(self).page_table@, area.end_vpn as int, ceil_vpn(new_end as int))
                    &&& (area.map_type == MapType::Framed ==>
                        final(allocator).num_free() + (ceil_vpn(new_end as int) - area.end_vpn) == old(allocator).num_free())
                    &&& (area.map_type == MapType::Identical ==> *final(allocator) == *old(allocator))
                },
                None => {
                    &&& *final(self) == *old(self)
                    &&& *final(allocator) == *old(allocator)
                },
            },
    {
        let start_vpn = va_floor(start);
        let end_vpn = va_ceil(new_end);
        match self.find_area(start_vpn) {
            Some(idx) => {
                let ghost areas0 = self.areas@;
                let ghost pt0 = self.page_table@;
                let ghost fa0 = *allocator;
                let mut area = self.areas.remove(idx);
                let ghost a0 = area;
                proof {
                    assert(a0 == areas0[idx as int]);
                    assert(a0.wf());
                    assert(a0.frames_allocated(fa0));
                    assert(a0.mapped_in(pt0));
                }
                area.append_to(&mut self.page_table, allocator, end_vpn);
                let ghost a1 = area;
                self.areas.insert(idx, area);
                proof {
                    let areas = self.areas@;
                    let pt = self.page_table@;
                    let i = idx as int;
                    assert(areas =~= areas0.update(i, a1));
                    assert forall|k: int| 0 <= k < areas.len() implies #[trigger] areas[k].wf() by {
                        if k != i { assert(areas[k] == areas0[k]); }
                    }
                    assert forall|k: int| 0 <= k < areas.len() implies #[trigger] areas[k].mapped_in(pt) by {
                        if k != i {
                            assert(areas[k] == areas0[k]);
                            assert(areas0[k].mapped_in(pt0));
                            lemma_mapped_outside(areas0[k], pt0, pt, a0.end_vpn as int, end_vpn as int);
                        } else {
                            assert forall|v: usize| a1.start_vpn <= v < a1.end_vpn implies
                                #[trigger] pt.contains_key(v) && pt[v] == a1.entry_for(v) by {
                                if v < a0.end_vpn {
                                    assert(pt0.contains_key(v) && pt0[v] == a0.entry_for(v));
                                    if a0.map_type == MapType::Framed {
                                        assert(a0.data_frames@.contains_key(v));
                                    }
                                } else {
                                    assert(maps_range(pt, a1, a0.end_vpn as int, end_vpn as int));
                                }
                            }
                        }
                    }
                    assert forall|k: int, l: int, v: int|
                        0 <= k < areas.len() && 0 <= l < areas.len() && k != l
                        && #[trigger] areas[k].contains_vpn(v) implies !#[trigger] areas[l].contains_vpn(v) by {
                        if k == i && v >= a0.end_vpn {
                            if areas[l].contains_vpn(v) {
                                assert(areas0[l].mapped_in(pt0));
                                assert(pt0.contains_key(v as usize));
                            }
                        } else if l == i && v >= a0.end_vpn {
                            assert(areas0[k].mapped_in(pt0));
                            assert(pt0.contains_key(v as usize));
                        } else {
                            assert(areas0[k].contains_vpn(v));
                            if areas[l].contains_vpn(v) {
                                assert(areas0[l].contains_vpn(v));
                            }
                        }
                    }
                    assert forall|v: usize| #[trigger] pt.contains_key(v) implies v == MAX_VPN
                        || exists|k: int| 0 <= k < areas.len() && #[trigger] areas[k].contains_vpn(v as int) by {
                        if a0.end_vpn <= v < end_vpn {
                            assert(areas[i].contains_vpn(v as int));
                        } else {
                            assert(pt0.contains_key(v));
                            if v != MAX_VPN {
                                let k = choose|k: int| 0 <= k < areas0.len() && #[trigger] areas0[k].contains_vpn(v as int);
                                if k == i {
                                    assert(areas[i].contains_vpn(v as int));
                                } else {
                                    assert(areas[k].contains_vpn(v as int));
                                }
                            }
                        }
                    }
                    assert forall|k: int| 0 <= k < areas.len() implies #[trigger] areas[k].frames_allocated(*allocator) by {
                        if k != i {
                            assert(areas[k] == areas0[k]);
                            assert(areas0[k].frames_allocated(fa0));
                        }
                    }
                    assert forall|k: int, l: int, v: usize, w: usize|
                        0 <= k < areas.len() && 0 <= l < areas.len() && k != l
                        && areas[k].data_frames@.contains_key(v) && areas[l].data_frames@.contains_key(w)
                        implies #[trigger] areas[k].data_frames@[v].ppn != #[trigger] areas[l].data_frames@[w].ppn by {
                        if k == i {
                            if a0.data_frames@.contains_key(v) {
                                assert(areas0[k].data_frames@[v].ppn != areas0[l].data_frames@[w].ppn);
                            } else {
                                assert(areas0[l].frames_allocated(fa0));
                                assert(fa0.free_frames().contains(a1.data_frames@[v].ppn));
                            }
                        } else if l == i {
                            if a0.data_frames@.contains_key(w) {
                                assert(areas0[k].data_frames@[v].ppn != areas0[l].data_frames@[w].ppn);
                            } else {
                                assert(areas0[k].frames_allocated(fa0));
                                assert(fa0.free_frames().contains(a1.data_frames@[w].ppn));
                            }
                        } else {
                            assert(areas0[k].data_frames@[v].ppn != areas0[l].data_frames@[w].ppn);
                        }
                    }
                    assert(self.wf(*allocator));
                    assert(areas[i] == a1);
                }
                true
            },
            None => false,
        }
    }

    /// Maps the trampoline page, the highest virtual page, to the physical
    /// page at `strampoline`, readable and executable in kernel mode. The
    /// trampoline is not an area.
    pub(crate) fn map_trampoline(&mut self, strampoline: usize, allocator: Ghost<FrameAllocator>)
        requires
            old(self).wf(allocator@),
            !old(self).page_table@.contains_key(MAX_VPN),
        ensures
            final(self).wf(allocator@),
            final(self).areas@ == old(self).areas@,
            final(self).page_table.root == old(self).page_table.root,
            final(self).page_table@ == old(self).page_table@.insert(MAX_VPN,
                PageTableEntry { ppn: strampoline / PAGE_SIZE, flags: PTE_R | PTE_X | PTE_V }),
    {
        let ghost pt0 = self.page_table@;
        let tramp_vpn = va_floor(TRAMPOLINE);
        proof {
            crate::config::lemma_layout_constants();
        }
        self.page_table.map(tramp_vpn, strampoline / PAGE_SIZE, PTE_R | PTE_X);
        proof {
            let areas = self.areas@;
            assert(tramp_vpn == MAX_VPN);
            assert forall|i: int| 0 <= i < areas.len() implies #[trigger] areas[i].mapped_in(self.page_table@) by {
                assert(areas[i].mapped_in(pt0));
                assert(areas[i].wf());
                assert forall|v: usize| #![trigger self.page_table@.contains_key(v)] areas[i].start_vpn <= v < areas[i].end_vpn implies
                    self.page_table@.contains_key(v) && self.page_table@[v] == areas[i].entry_for(v) by {
                    assert(pt0.contains_key(v));
                }
            }
            assert forall|v: usize| #[trigger] self.page_table@.contains_key(v) implies v == MAX_VPN
                || exists|k: int| 0 <= k < areas.len() && #[trigger] areas[k].contains_vpn(v as int) by {
                if v != MAX_VPN {
                    assert(pt0.contains_key(v));
                }
            }
        }
    }

    /// Unmaps the pages of `[start_va, end_va)`; the areas stay as they are.
    pub fn remove_framed_area(&mut self, start_va: usize, end_va: usize, allocator: &mut FrameAllocator)
        requires
            old(allocator).wf(),
            floor_vpn(start_va as int) <= ceil_vpn(end_va as int),
            end_va <= TRAMPOLINE,
            forall|v: usize| floor_vpn(start_va as int) <= v < ceil_vpn(end_va as int)
                ==> #[trigger] old(self).page_table@.contains_key(v),
        ensures
            final(self).areas@ == old(self).areas@,
            final(self).page_table.root == old(self).page_table.root,
            forall|v: usize| floor_vpn(start_va as int) <= v < ceil_vpn(end_va as int)
                ==> !#[trigger] final(self).page_table@.contains_key(v),
            agree_outside(final(self).page_table@, old(self).page_table@, floor_vpn(start_va as int), ceil_vpn(end_va as int)),
            *final(allocator) == *old(allocator),
    {
        self.remove(MapArea::new(start_va, end_va, MapType::Framed, MapPermission { bits: 0 }), allocator);
    }

    fn remove(&mut self, map_area: MapArea, allocator: &mut FrameAllocator)
        requires
            old(allocator).wf(),
            map_area.start_vpn <= map_area.end_vpn,
            map_area.data_frames@ == Map::<usize, FrameTracker>::empty(),
            forall|v: usize| map_area.start_vpn <= v < map_area.end_vpn
                ==> #[trigger] old(self).page_table@.contains_key(v),
        ensures
            final(self).areas@ == old(self).areas@,
            final(self).page_table.root == old(self).page_table.root,
            forall|v: usize| map_area.start_vpn <= v < map_area.end_vpn
                ==> !#[trigger] final(self).page_table@.contains_key(v),
            agree_outside(final(self).page_table@, old(self).page_table@, map_area.start_vpn as int, map_area.end_vpn as int),
            *final(allocator) == *old(allocator),
    {
        let mut map_area = map_area;
        let ghost a0 = map_area;
        let lo = map_area.start_vpn;
        let hi = map_area.end_vpn;
        map_area.unmap_pages(&mut self.page_table, allocator, lo, hi);
        proof {
            assert(map_area.start_vpn == a0.start_vpn && map_area.end_vpn == a0.end_vpn);
            assert forall|v: usize| a0.start_vpn <= v < a0.end_vpn implies !#[trigger] self.page_table@.contains_key(v) by {
                assert(map_area.start_vpn <= v < map_area.end_vpn);
            }
        }
    }

    /// The kernel address space: the trampoline, then the sections of the
    /// kernel image and the rest of physical memory, each mapped to itself.
    pub fn new_kernel(layout: KernelLayout, allocator: &mut FrameAllocator) -> (r: Self)
        requires
            old(allocator).wf(),
            old(allocator).num_free() > 0,
            kernel_layout_ok(layout),
        ensures
            r.wf(*final(allocator)),
            final(allocator).end == old(allocator).end,
            final(allocator).num_free() + 1 == old(allocator).num_free(),
            kernel_sections_mapped(r, layout),
            r.areas@.len() == 5,
            r.page_table@.contains_key(MAX_VPN),
            r.page_table@[MAX_VPN] == (PageTableEntry { ppn: layout.strampoline / PAGE_SIZE, flags: PTE_R | PTE_X | PTE_V }),
    {
        let mut memory_set = Self::new_bare(allocator);
        proof {
            crate::config::lemma_layout_constants();
            assert(MEMORY_END <= TRAMPOLINE);
            assert(ceil_vpn(MEMORY_END as int) < MAX_VPN);
        }
        memory_set.map_trampoline(layout.strampoline, Ghost(*allocator));
        let sections: [(usize, usize, u8); 5] = [
            (layout.stext, layout.etext, MAP_R | MAP_X),
            (layout.srodata, layout.erodata, MAP_R),
            (layout.sdata, layout.edata, MAP_R | MAP_W),
            (layout.sbss_with_stack, layout.ebss, MAP_R | MAP_W),
            (layout.ekernel, MEMORY_END, MAP_R | MAP_W),
        ];
        let ghost tramp = memory_set.page_table@[MAX_VPN];
        let mut k: usize = 0;
        while k < 5
            invariant
                k <= 5,
                memory_set.wf(*allocator),
                memory_set.areas@.len() == k,
                allocator.end == old(allocator).end,
                allocator.num_free() + 1 == old(allocator).num_free(),
                kernel_layout_ok(layout),
                sections@ == seq![
                    (layout.stext, layout.etext, MAP_R | MAP_X),
                    (layout.srodata, layout.erodata, MAP_R),
                    (layout.sdata, layout.edata, MAP_R | MAP_W),
                    (layout.sbss_with_stack, layout.ebss, MAP_R | MAP_W),
                    (layout.ekernel, MEMORY_END, MAP_R | MAP_W),
                ],
                forall|i: int| 0 <= i < k ==> is_identical_area(#[trigger] memory_set.areas@[i],
                    sections@[i].0, sections@[i].1, sections@[i].2),
                forall|i: int| 0 <= i < k ==> #[trigger] memory_set.areas@[i].end_vpn
                    <= (if k < 5 { floor_vpn(sections@[k as int].0 as int) } else { ceil_vpn(MEMORY_END as int) }),
                memory_set.page_table@.contains_key(MAX_VPN),
                memory_set.page_table@[MAX_VPN] == tramp,
                tramp == (PageTableEntry { ppn: layout.strampoline / PAGE_SIZE, flags: PTE_R | PTE_X | PTE_V }),
            decreases 5 - k,
        {
            let (start, end, bits) = sections[k];
            proof {
                assert(start <= end);
                assert(end <= MEMORY_END);
                lemma_range_clear(memory_set, *allocator, floor_vpn(start as int), ceil_vpn(end as int));
            }
            let area = MapArea::new(start, end, MapType::Identical, MapPermission { bits });
            let ghost areas0 = memory_set.areas@;
            memory_set.push(area, None, allocator);
            proof {
                assert(memory_set.areas@.drop_last() == areas0);
                assert forall|i: int| 0 <= i < k + 1 implies is_identical_area(#[trigger] memory_set.areas@[i],
                    sections@[i].0, sections@[i].1, sections@[i].2) by {
                    if i < k {
                        assert(memory_set.areas@[i] == areas0[i]);
                    }
                }
                assert forall|i: int| 0 <= i < k + 1 implies #[trigger] memory_set.areas@[i].end_vpn
                    <= (if k + 1 < 5 { floor_vpn(sections@[k + 1].0 as int) } else { ceil_vpn(MEMORY_END as int) }) by {
                    if i < k {
                        assert(memory_set.areas@[i] == areas0[i]);
                    }
                }
                assert(memory_set.page_table@[MAX_VPN] == tramp);
            }
            k = k + 1;
        }
        memory_set
    }

    /// The index of the first area that starts at page `vpn`.
    fn find_area(&self, vpn: usize) -> (r: Option<usize>)
        ensures
            match first_area(self.areas@, vpn) {
                Some(i) => r == Some(i as usize),
                None => r.is_none(),
            },
            r.is_some() ==> r.unwrap() < self.areas@.len() && self.areas@[r.unwrap() as int].start_vpn == vpn,
            r.is_some() ==> first_area(self.areas@, vpn) == Some(r.unwrap() as int),
            r.is_none() ==> first_area(self.areas@, vpn).is_none(),
    {
        let mut i: usize = 0;
        while i < self.areas.len()
            invariant
                i <= self.areas@.len(),
                first_area(self.areas@, vpn) == first_area_from(self.areas@, vpn, i as int),
            decreases self.areas@.len() - i,
        {
            if self.areas[i].start_vpn == vpn {
                return Some(i);
            }
            i = i + 1;
        }
        None
    }
}

} // verus!

verus! {

/// The kernel stack of application `app_id`: `(bottom, top)`. Stacks are
/// laid out downwards from the trampoline, each below a guard page.
pub fn kernel_stack_position(app_id: usize) -> (r: (usize, usize))
    requires
        app_id * (KERNEL_STACK_SIZE + PAGE_SIZE) + KERNEL_STACK_SIZE <= TRAMPOLINE,
    ensures
        r.1 == TRAMPOLINE - app_id * (KERNEL_STACK_SIZE + PAGE_SIZE),
        r.0 == r.1 - KERNEL_STACK_SIZE,
{
    proof {
        crate::config::lemma_layout_constants();
    }
    let top = TRAMPOLINE - app_id * (KERNEL_STACK_SIZE + PAGE_SIZE);
    let bottom = top - KERNEL_STACK_SIZE;
    (bottom, top)
}

/// The kernel stacks of two different applications do not overlap, and a
/// guard page of at least one page separates them; each stack is
/// `KERNEL_STACK_SIZE` bytes and lies below the trampoline.
pub proof fn lemma_kernel_stacks_disjoint(a: int, b: int, bottom_a: int, top_a: int, bottom_b: int, top_b: int)
    requires
        0 <= a < b,
        top_a == TRAMPOLINE - a * (KERNEL_STACK_SIZE + PAGE_SIZE),
        bottom_a == top_a - KERNEL_STACK_SIZE,
        top_b == TRAMPOLINE - b * (KERNEL_STACK_SIZE + PAGE_SIZE),
        bottom_b == top_b - KERNEL_STACK_SIZE,
    ensures
        top_a - bottom_a == KERNEL_STACK_SIZE,
        top_a <= TRAMPOLINE,
        top_b + PAGE_SIZE <= bottom_a,
{
    assert(KERNEL_STACK_SIZE + PAGE_SIZE == 12288);
    assert(b * 12288 >= a * 12288 + 12288) by (nonlinear_arith)
        requires a < b, 0 <= a;
}

} // verus!

verus! {

/// The first five areas map the kernel image sections as `new_kernel`
/// maps them; areas added later (such as kernel stacks) follow them.
pub open spec fn kernel_sections_mapped(ms: MemorySet, layout: KernelLayout) -> bool {
    &&& ms.areas@.len() >= 5
    &&& is_identical_area(ms.areas@[0], layout.stext, layout.etext, MAP_R | MAP_X)
    &&& is_identical_area(ms.areas@[1], layout.srodata, layout.erodata, MAP_R)
    &&& is_identical_area(ms.areas@[2], layout.sdata, layout.edata, MAP_R | MAP_W)
    &&& is_identical_area(ms.areas@[3], layout.sbss_with_stack, layout.ebss, MAP_R | MAP_W)
    &&& is_identical_area(ms.areas@[4], layout.ekernel, MEMORY_END, MAP_R | MAP_W)
}

/// In the kernel address space every page of the image maps to itself; code
/// is executable and not writable, read-only data is neither writable nor
/// executable, and data is writable but not executable.
pub proof fn lemma_kernel_rights(ms: MemorySet, allocator: FrameAllocator, layout: KernelLayout, vpn: usize)
    requires
        ms.wf(allocator),
        kernel_sections_mapped(ms, layout),
    ensures
        floor_vpn(layout.stext as int) <= vpn < ceil_vpn(layout.etext as int) ==> {
            &&& ms.page_table@.contains_key(vpn)
            &&& ms.page_table@[vpn].ppn == vpn
            &&& ms.page_table@[vpn].flags & PTE_W == 0
            &&& ms.page_table@[vpn].flags & PTE_X != 0
        },
        floor_vpn(layout.srodata as int) <= vpn < ceil_vpn(layout.erodata as int) ==> {
            &&& ms.page_table@.contains_key(vpn)
            &&& ms.page_table@[vpn].ppn == vpn
            &&& ms.page_table@[vpn].flags & PTE_W == 0
            &&& ms.page_table@[vpn].flags & PTE_X == 0
        },
        floor_vpn(layout.sdata as int) <= vpn < ceil_vpn(layout.edata as int) ==> {
            &&& ms.page_table@.contains_key(vpn)
            &&& ms.page_table@[vpn].ppn == vpn
            &&& ms.page_table@[vpn].flags & PTE_W != 0
            &&& ms.page_table@[vpn].flags & PTE_X == 0
        },
{
    assert((2u8 | 8u8) | 1u8 == 11u8) by (bit_vector);
    assert(11u8 & 4u8 == 0u8 && 11u8 & 8u8 != 0u8) by (bit_vector);
    assert(2u8 | 1u8 == 3u8) by (bit_vector);
    assert(3u8 & 4u8 == 0u8 && 3u8 & 8u8 == 0u8) by (bit_vector);
    assert((2u8 | 4u8) | 1u8 == 7u8) by (bit_vector);
    assert(7u8 & 4u8 != 0u8 && 7u8 & 8u8 == 0u8) by (bit_vector);
    assert(ms.areas@[0].mapped_in(ms.page_table@));
    assert(ms.areas@[1].mapped_in(ms.page_table@));
    assert(ms.areas@[2].mapped_in(ms.page_table@));
}


/// The page that holds the middle byte of `[start, end)`.
pub open spec fn mid_vpn(start: usize, end: usize) -> usize {
    floor_vpn((start + end) / 2) as usize
}

/// The kernel space passes the remap check: the middle pages of the text
/// and read-only data are mapped and not writable, the middle page of the
/// data is mapped and not executable.
pub open spec fn remap_ok(pt: Map<usize, PageTableEntry>, l: KernelLayout) -> bool {
    &&& pt.contains_key(mid_vpn(l.stext, l.etext))
    &&& pt[mid_vpn(l.stext, l.etext)].flags & PTE_W == 0
    &&& pt.contains_key(mid_vpn(l.srodata, l.erodata))
    &&& pt[mid_vpn(l.srodata, l.erodata)].flags & PTE_W == 0
    &&& pt.contains_key(mid_vpn(l.sdata, l.edata))
    &&& pt[mid_vpn(l.sdata, l.edata)].flags & PTE_X == 0
}

fn mid_page(start: usize, end: usize) -> (v: usize)
    ensures
        v == mid_vpn(start, end),
{
    let mid: u128 = (start as u128 + end as u128) / 2;
    va_floor(mid as usize)
}

/// Checks that the kernel image is remapped with the right access: the
/// middle of the text and read-only sections cannot be written, and the
/// middle of the data section cannot be executed.
pub fn remap_test(kernel_space: &MemorySet, layout: &KernelLayout) -> (b: bool)
    ensures
        b == remap_ok(kernel_space.page_table@, *layout),
{
    let text = kernel_space.translate(mid_page(layout.stext, layout.etext));
    let rodata = kernel_space.translate(mid_page(layout.srodata, layout.erodata));
    let data = kernel_space.translate(mid_page(layout.sdata, layout.edata));
    match (text, rodata, data) {
        (Some(t), Some(r), Some(d)) => !t.writable() && !r.writable() && !d.executable(),
        _ => false,
    }
}

/// The kernel space that `new_kernel` builds, also with areas added after
/// it, passes the remap check when its sections are not empty.
pub proof fn lemma_remap_test_passes(ms: MemorySet, allocator: FrameAllocator, layout: KernelLayout)
    requires
        ms.wf(allocator),
        kernel_sections_mapped(ms, layout),
        layout.stext < layout.etext,
        layout.srodata < layout.erodata,
        layout.sdata < layout.edata,
    ensures
        remap_ok(ms.page_table@, layout),
{
    let t = mid_vpn(layout.stext, layout.etext);
    let r = mid_vpn(layout.srodata, layout.erodata);
    let d = mid_vpn(layout.sdata, layout.edata);
    assert(floor_vpn(layout.stext as int) <= t < ceil_vpn(layout.etext as int));
    assert(floor_vpn(layout.srodata as int) <= r < ceil_vpn(layout.erodata as int));
    assert(floor_vpn(layout.sdata as int) <= d < ceil_vpn(layout.edata as int));
    lemma_kernel_rights(ms, allocator, layout, t);
    lemma_kernel_rights(ms, allocator, layout, r);
    lemma_kernel_rights(ms, allocator, layout, d);
}

} // verus!

verus! {

/// The loadable segments among `segs`, in order.
pub open spec fn load_segments(segs: Seq<ProgramSegment>) -> Seq<ProgramSegment>
    decreases segs.len(),
{
    if segs.len() == 0 {
        Seq::empty()
    } else {
        let prev = load_segments(segs.drop_last());
        if segs.last().kind == SegmentKind::Load { prev.push(segs.last()) } else { prev }
    }
}

/// First page of a segment.
pub open spec fn seg_start_vpn(s: ProgramSegment) -> int {
    floor_vpn(s.vaddr as int)
}

/// Page boundary at or above the end of a segment.
pub open spec fn seg_end_vpn(s: ProgramSegment) -> int {
    ceil_vpn(s.vaddr + s.mem_size)
}

/// Pages that a segment spans.
pub open spec fn seg_pages(s: ProgramSegment) -> int {
    seg_end_vpn(s) - seg_start_vpn(s)
}

/// Pages that the segments span together.
pub open spec fn load_pages_total(loads: Seq<ProgramSegment>) -> int
    decreases loads.len(),
{
    if loads.len() == 0 { 0 } else { load_pages_total(loads.drop_last()) + seg_pages(loads.last()) }
}

/// The highest page boundary that a loadable segment reaches (0 if there is none).
pub open spec fn max_load_end_vpn(loads: Seq<ProgramSegment>) -> int
    decreases loads.len(),
{
    if loads.len() == 0 {
        0
    } else {
        let m = max_load_end_vpn(loads.drop_last());
        let e = seg_end_vpn(loads.last());
        if e > m { e } else { m }
    }
}

/// Every loadable segment ends at or below `max_load_end_vpn`, which is not
/// negative and is below any bound on the segment ends.
pub proof fn lemma_max_load_end(loads: Seq<ProgramSegment>, bound: int)
    requires
        bound >= 0,
        forall|k: int| 0 <= k < loads.len() ==> seg_end_vpn(#[trigger] loads[k]) <= bound,
    ensures
        0 <= max_load_end_vpn(loads) <= bound,
        forall|k: int| 0 <= k < loads.len() ==> seg_end_vpn(#[trigger] loads[k]) <= max_load_end_vpn(loads),
    decreases loads.len(),
{
    if loads.len() > 0 {
        let d = loads.drop_last();
        assert forall|k: int| 0 <= k < d.len() implies seg_end_vpn(#[trigger] d[k]) <= bound by {
            assert(d[k] == loads[k]);
        }
        lemma_max_load_end(d, bound);
        assert(seg_end_vpn(loads[loads.len() - 1]) <= bound);
        assert forall|k: int| 0 <= k < loads.len() implies seg_end_vpn(#[trigger] loads[k]) <= max_load_end_vpn(loads) by {
            if k < loads.len() - 1 {
                assert(loads[k] == d[k]);
            }
        }
    }
}

/// Bottom of the user stack: one guard page above the highest page that a
/// segment reaches.
pub open spec fn user_stack_bottom(loads: Seq<ProgramSegment>) -> int {
    crate::address::vpn_base(max_load_end_vpn(loads)) + PAGE_SIZE
}

/// Top of the user stack, which is also where the heap starts.
pub open spec fn user_stack_top(loads: Seq<ProgramSegment>) -> int {
    user_stack_bottom(loads) + USER_STACK_SIZE
}

/// The rights of the area of a segment: user mode, and what its flags grant.
pub open spec fn segment_perm_bits(flags: u32) -> u8 {
    let b0 = MAP_U;
    let b1 = if flag_read(flags) { b0 | MAP_R } else { b0 };
    let b2 = if flag_write(flags) { b1 | MAP_W } else { b1 };
    if flag_execute(flags) { b2 | MAP_X } else { b2 }
}

/// The area of a segment is always user-accessible, and readable, writable
/// or executable exactly when the segment's flags carry `PF_R` (4), `PF_W`
/// (2) or `PF_X` (1).
pub proof fn lemma_segment_rights(flags: u32)
    ensures
        segment_perm_bits(flags) & MAP_U != 0,
        (segment_perm_bits(flags) & MAP_R != 0) == (flags & 4 != 0),
        (segment_perm_bits(flags) & MAP_W != 0) == (flags & 2 != 0),
        (segment_perm_bits(flags) & MAP_X != 0) == (flags & 1 != 0),
{
    crate::elf::lemma_segment_flag_bits(flags);
    lemma_rights_bits(flags & 4 != 0, flags & 2 != 0, flags & 1 != 0);
}

/// The rights built from three independent choices: user mode always, then
/// read, write and execute.
pub open spec fn rights_of(r: bool, w: bool, x: bool) -> u8 {
    let b1: u8 = if r { 16u8 | 2u8 } else { 16u8 };
    let b2: u8 = if w { b1 | 4u8 } else { b1 };
    if x { b2 | 8u8 } else { b2 }
}

/// Each choice sets its own bit of the rights and no other.
pub proof fn lemma_rights_bits(r: bool, w: bool, x: bool)
    ensures
        rights_of(r, w, x) & 16 != 0,
        (rights_of(r, w, x) & 2 != 0) == r,
        (rights_of(r, w, x) & 4 != 0) == w,
        (rights_of(r, w, x) & 8 != 0) == x,
{
    let b = rights_of(r, w, x);
    if r {
        if w {
            if x { assert(b == 30u8) by (bit_vector) requires b == ((16u8 | 2u8) | 4u8) | 8u8; }
            else { assert(b == 22u8) by (bit_vector) requires b == (16u8 | 2u8) | 4u8; }
        } else {
            if x { assert(b == 26u8) by (bit_vector) requires b == (16u8 | 2u8) | 8u8; }
            else { assert(b == 18u8) by (bit_vector) requires b == 16u8 | 2u8; }
        }
    } else {
        if w {
            if x { assert(b == 28u8) by (bit_vector) requires b == (16u8 | 4u8) | 8u8; }
            else { assert(b == 20u8) by (bit_vector) requires b == 16u8 | 4u8; }
        } else {
            if x { assert(b == 24u8) by (bit_vector) requires b == 16u8 | 8u8; }
            else { assert(b == 16u8); }
        }
    }
    assert(30u8 & 16 != 0 && 30u8 & 2 != 0 && 30u8 & 4 != 0 && 30u8 & 8 != 0) by (bit_vector);
    assert(22u8 & 16 != 0 && 22u8 & 2 != 0 && 22u8 & 4 != 0 && 22u8 & 8 == 0) by (bit_vector);
    assert(26u8 & 16 != 0 && 26u8 & 2 != 0 && 26u8 & 4 == 0 && 26u8 & 8 != 0) by (bit_vector);
    assert(18u8 & 16 != 0 && 18u8 & 2 != 0 && 18u8 & 4 == 0 && 18u8 & 8 == 0) by (bit_vector);
    assert(28u8 & 16 != 0 && 28u8 & 2 == 0 && 28u8 & 4 != 0 && 28u8 & 8 != 0) by (bit_vector);
    assert(20u8 & 16 != 0 && 20u8 & 2 == 0 && 20u8 & 4 != 0 && 20u8 & 8 == 0) by (bit_vector);
    assert(24u8 & 16 != 0 && 24u8 & 2 == 0 && 24u8 & 4 == 0 && 24u8 & 8 != 0) by (bit_vector);
    assert(16u8 & 16 != 0 && 16u8 & 2 == 0 && 16u8 & 4 == 0 && 16u8 & 8 == 0) by (bit_vector);
}

/// Setting the valid bit of an entry keeps its other bits.
pub proof fn lemma_valid_bit(b: u8)
    ensures
        (b | 1u8) & 1 != 0,
        ((b | 1u8) & 16 != 0) == (b & 16 != 0),
        ((b | 1u8) & 2 != 0) == (b & 2 != 0),
        ((b | 1u8) & 4 != 0) == (b & 4 != 0),
        ((b | 1u8) & 8 != 0) == (b & 8 != 0),
{
    assert((b | 1u8) & 1 != 0) by (bit_vector);
    assert(((b | 1u8) & 16 != 0) == (b & 16 != 0)) by (bit_vector);
    assert(((b | 1u8) & 2 != 0) == (b & 2 != 0)) by (bit_vector);
    assert(((b | 1u8) & 4 != 0) == (b & 4 != 0)) by (bit_vector);
    assert(((b | 1u8) & 8 != 0) == (b & 8 != 0)) by (bit_vector);
}

/// In an address space loaded from an image, byte `i` of page `v` of the
/// area of loadable segment `k` is the image's byte at the segment's file
/// offset plus the byte's distance from the start of the area's first page,
/// while that distance is below the segment's file size, and zero beyond.
pub proof fn lemma_loaded_bytes(ms: MemorySet, allocator: FrameAllocator, segs: Seq<ProgramSegment>, data: Seq<u8>, strampoline: usize, k: int, v: usize, i: int)
    requires
        ms.wf(allocator),
        user_space_built(ms, segs, data, strampoline),
        0 <= k < load_segments(segs).len(),
        segment_ok(load_segments(segs)[k], data.len()),
        ms.areas@[k].start_vpn <= v < ms.areas@[k].end_vpn,
        0 <= i < PAGE_SIZE,
    ensures
        ({
            let s = load_segments(segs)[k];
            let a = (v - ms.areas@[k].start_vpn) * PAGE_SIZE + i;
            &&& ms.areas@[k].data_frames@.contains_key(v)
            &&& ms.areas@[k].data_frames@[v].bytes@.len() == PAGE_SIZE
            &&& ms.areas@[k].data_frames@[v].bytes@[i] == (if a < s.file_size { data[s.offset + a] } else { 0u8 })
        }),
{
    let loads = load_segments(segs);
    let s = loads[k];
    assert(area_matches_segment(ms.areas@[k], s, data));
    assert(ms.areas@[k].wf());
    assert(ms.areas@[k].data_frames@.contains_key(v));
}

/// In an address space loaded from an image, the area of each loadable
/// segment, and every page table entry of its pages, is user-accessible and
/// readable, writable or executable exactly as the segment's flags grant
/// with `PF_R` (4), `PF_W` (2) and `PF_X` (1).
pub proof fn lemma_loaded_rights(ms: MemorySet, allocator: FrameAllocator, segs: Seq<ProgramSegment>, data: Seq<u8>, strampoline: usize, k: int, v: usize)
    requires
        ms.wf(allocator),
        user_space_built(ms, segs, data, strampoline),
        0 <= k < load_segments(segs).len(),
    ensures
        ({
            let f = load_segments(segs)[k].flags;
            let bits = ms.areas@[k].map_perm.bits;
            &&& bits & MAP_U != 0
            &&& (bits & MAP_R != 0) == (f & 4 != 0)
            &&& (bits & MAP_W != 0) == (f & 2 != 0)
            &&& (bits & MAP_X != 0) == (f & 1 != 0)
        }),
        ms.areas@[k].start_vpn <= v < ms.areas@[k].end_vpn ==> {
            let f = load_segments(segs)[k].flags;
            let e = ms.page_table@[v];
            &&& ms.page_table@.contains_key(v)
            &&& e.flags & PTE_V != 0
            &&& e.flags & 16 != 0
            &&& (e.flags & PTE_R != 0) == (f & 4 != 0)
            &&& (e.flags & PTE_W != 0) == (f & 2 != 0)
            &&& (e.flags & PTE_X != 0) == (f & 1 != 0)
        },
{
    let loads = load_segments(segs);
    assert(area_matches_segment(ms.areas@[k], loads[k], data));
    lemma_segment_rights(loads[k].flags);
    let bits = ms.areas@[k].map_perm.bits;
    if ms.areas@[k].start_vpn <= v < ms.areas@[k].end_vpn {
        assert(ms.areas@[k].mapped_in(ms.page_table@));
        assert(ms.page_table@.contains_key(v) && ms.page_table@[v] == ms.areas@[k].entry_for(v));
        lemma_valid_bit(bits);
    }
}

/// A loadable segment is not empty, lies below the trap context, and its
/// file part lies in the image and fits in its pages.
pub open spec fn segment_ok(s: ProgramSegment, data_len: nat) -> bool {
    &&& s.mem_size > 0
    &&& s.vaddr + s.mem_size <= TRAP_CONTEXT_BASE
    &&& s.offset + s.file_size <= data_len
    &&& s.file_size <= seg_pages(s) * PAGE_SIZE
}

/// An image whose program headers are `segs` can be loaded with `num_free`
/// frames: every type is defined, the loadable segments are well placed and
/// share no page, the user stack fits below the trap context, and there are frames for the root table, the segments, the
/// stack and the trap context.
pub open spec fn segments_loadable(segs: Seq<ProgramSegment>, data_len: nat, num_free: nat) -> bool {
    let loads = load_segments(segs);
    &&& forall|i: int| 0 <= i < segs.len() ==> #[trigger] segs[i].kind != SegmentKind::Invalid
    &&& forall|k: int| 0 <= k < loads.len() ==> #[trigger] segment_ok(loads[k], data_len)
    &&& forall|k: int, l: int| 0 <= k < loads.len() && 0 <= l < loads.len() && k != l
        ==> seg_end_vpn(#[trigger] loads[k]) <= seg_start_vpn(#[trigger] loads[l]) || seg_end_vpn(loads[l]) <= seg_start_vpn(loads[k])
    &&& user_stack_top(loads) <= TRAP_CONTEXT_BASE
    &&& load_pages_total(loads) + 4 <= num_free
}

/// The area of a loadable segment: its pages, framed, with its rights, and
/// holding its file part from the first byte on.
pub open spec fn area_matches_segment(a: MapArea, s: ProgramSegment, data: Seq<u8>) -> bool {
    &&& a.start_vpn == seg_start_vpn(s)
    &&& a.end_vpn == seg_end_vpn(s)
    &&& a.map_type == MapType::Framed
    &&& a.map_perm.bits == segment_perm_bits(s.flags)
    &&& forall|v: usize| #[trigger] a.data_frames@.contains_key(v) ==> a.data_frames@[v].bytes@
        == page_after_copy(zero_page(), data.subrange(s.offset as int, s.offset + s.file_size), v - a.start_vpn)
}

/// `area` is framed over `[start, end)` with the rights `bits` and zeroed frames.
pub open spec fn is_zeroed_area(area: MapArea, start: int, end: int, bits: u8) -> bool {
    &&& area.start_vpn == floor_vpn(start)
    &&& area.end_vpn == ceil_vpn(end)
    &&& area.map_type == MapType::Framed
    &&& area.map_perm.bits == bits
    &&& forall|v: usize| #[trigger] area.data_frames@.contains_key(v) ==> area.data_frames@[v].bytes@ == zero_page()
}

/// The user address space built from the program headers `segs` of the image
/// `data`: one area per loadable segment, then the user stack, the (empty)
/// heap above it and the trap context page, plus the trampoline.
pub open spec fn user_space_built(ms: MemorySet, segs: Seq<ProgramSegment>, data: Seq<u8>, strampoline: usize) -> bool {
    let loads = load_segments(segs);
    let n = loads.len() as int;
    &&& ms.areas@.len() == n + 3
    &&& forall|k: int| 0 <= k < n ==> area_matches_segment(#[trigger] ms.areas@[k], loads[k], data)
    &&& is_zeroed_area(ms.areas@[n], user_stack_bottom(loads), user_stack_top(loads), MAP_R | MAP_W | MAP_U)
    &&& is_zeroed_area(ms.areas@[n + 1], user_stack_top(loads), user_stack_top(loads), MAP_R | MAP_W | MAP_U)
    &&& is_zeroed_area(ms.areas@[n + 2], TRAP_CONTEXT_BASE as int, TRAMPOLINE as int, MAP_R | MAP_W)
    &&& ms.page_table@.contains_key(MAX_VPN)
    &&& ms.page_table@[MAX_VPN] == (PageTableEntry { ppn: strampoline / PAGE_SIZE, flags: PTE_R | PTE_X | PTE_V })
}

/// The loadable segments of a prefix are a prefix of the loadable segments.
pub proof fn lemma_load_prefix(segs: Seq<ProgramSegment>, i: int)
    requires
        0 <= i <= segs.len(),
    ensures
        load_segments(segs.take(i)).len() <= load_segments(segs).len(),
        load_segments(segs.take(i)) == load_segments(segs).take(load_segments(segs.take(i)).len() as int),
    decreases segs.len(),
{
    if i == segs.len() {
        assert(segs.take(i) =~= segs);
    } else {
        let d = segs.drop_last();
        assert(segs.take(i) =~= d.take(i));
        lemma_load_prefix(d, i);
        let li = load_segments(d.take(i));
        let ld = load_segments(d);
        if segs.last().kind == SegmentKind::Load {
            assert(load_segments(segs) == ld.push(segs.last()));
            assert(ld.push(segs.last()).take(li.len() as int) =~= ld.take(li.len() as int));
        }
    }
}

/// The loadable segments of one more program header.
pub proof fn lemma_load_step(segs: Seq<ProgramSegment>, i: int)
    requires
        0 <= i < segs.len(),
    ensures
        load_segments(segs.take(i + 1)) == if segs[i].kind == SegmentKind::Load {
            load_segments(segs.take(i)).push(segs[i])
        } else {
            load_segments(segs.take(i))
        },
{
    assert(segs.take(i + 1).drop_last() =~= segs.take(i));
    assert(segs.take(i + 1).last() == segs[i]);
}

/// The pages of a prefix of segments are no more than those of all of them.
pub proof fn lemma_pages_prefix(loads: Seq<ProgramSegment>, k: int)
    requires
        0 <= k <= loads.len(),
        forall|j: int| 0 <= j < loads.len() ==> seg_pages(#[trigger] loads[j]) >= 0,
    ensures
        load_pages_total(loads.take(k)) <= load_pages_total(loads),
    decreases loads.len(),
{
    if k < loads.len() {
        let d = loads.drop_last();
        assert(loads.take(k) =~= d.take(k));
        assert forall|j: int| 0 <= j < d.len() implies seg_pages(#[trigger] d[j]) >= 0 by {
            assert(d[j] == loads[j]);
        }
        lemma_pages_prefix(d, k);
        assert(seg_pages(loads[loads.len() - 1]) >= 0);
    } else {
        assert(loads.take(k) =~= loads);
    }
}

/// In a well-formed address space, a range below the trampoline that meets
/// no area is unmapped.
pub proof fn lemma_range_clear(ms: MemorySet, allocator: FrameAllocator, lo: int, hi: int)
    requires
        ms.wf(allocator),
        forall|i: int| 0 <= i < ms.areas@.len() ==> #[trigger] ms.areas@[i].end_vpn <= lo || ms.areas@[i].start_vpn >= hi,
        hi <= MAX_VPN,
    ensures
        forall|v: usize| lo <= v < hi ==> !#[trigger] ms.page_table@.contains_key(v),
{
    assert forall|v: usize| lo <= v < hi implies !#[trigger] ms.page_table@.contains_key(v) by {
        if ms.page_table@.contains_key(v) {
            let k = choose|k: int| 0 <= k < ms.areas@.len() && #[trigger] ms.areas@[k].contains_vpn(v as int);
            assert(ms.areas@[k].end_vpn <= lo || ms.areas@[k].start_vpn >= hi);
        }
    }
}

} // verus!

verus! {

/// Page arithmetic of the user stack placed one guard page above page `x`.
pub proof fn lemma_stack_pages(x: int)
    requires
        0 <= x,
    ensures
        floor_vpn(x * PAGE_SIZE + PAGE_SIZE) == x + 1,
        ceil_vpn(x * PAGE_SIZE + PAGE_SIZE) == x + 1,
        floor_vpn(x * PAGE_SIZE + PAGE_SIZE + USER_STACK_SIZE) == x + 3,
        ceil_vpn(x * PAGE_SIZE + PAGE_SIZE + USER_STACK_SIZE) == x + 3,
{
    assert((x * 4096 + 4096) / 4096 == x + 1) by (nonlinear_arith) requires 0 <= x;
    assert((x * 4096 + 4096 + 4095) / 4096 == x + 1) by (nonlinear_arith) requires 0 <= x;
    assert((x * 4096 + 4096 + 8192) / 4096 == x + 3) by (nonlinear_arith) requires 0 <= x;
    assert((x * 4096 + 4096 + 8192 + 4095) / 4096 == x + 3) by (nonlinear_arith) requires 0 <= x;
}

/// The area at `j` starts at page `vpn` and none before it does.
pub proof fn lemma_first_area_at(areas: Seq<MapArea>, vpn: usize, j: int, from: int)
    requires
        0 <= from <= j < areas.len(),
        areas[j].start_vpn == vpn,
        forall|i: int| from <= i < j ==> #[trigger] areas[i].start_vpn != vpn,
    ensures
        first_area_from(areas, vpn, from) == Some(j),
    decreases j - from,
{
    if from < j {
        lemma_first_area_at(areas, vpn, j, from + 1);
    }
}

/// In a user address space, the heap area is the first area that starts at
/// the top of the user stack, and it ends at the page boundary at or above it.
pub proof fn lemma_heap_area_first(ms: MemorySet, allocator: FrameAllocator, segs: Seq<ProgramSegment>, data: Seq<u8>, strampoline: usize)
    requires
        ms.wf(allocator),
        user_space_built(ms, segs, data, strampoline),
    ensures
        first_area(ms.areas@, floor_vpn(user_stack_top(load_segments(segs))) as usize) == Some(load_segments(segs).len() as int + 1),
        ms.areas@[load_segments(segs).len() as int + 1].end_vpn == ceil_vpn(user_stack_top(load_segments(segs))),
        floor_vpn(user_stack_top(load_segments(segs))) == ceil_vpn(user_stack_top(load_segments(segs))),
{
    let loads = load_segments(segs);
    let n = loads.len() as int;
    assert forall|k: int| 0 <= k < loads.len() implies seg_end_vpn(#[trigger] loads[k]) <= MAX_VPN by {
        assert(area_matches_segment(ms.areas@[k], loads[k], data));
        assert(ms.areas@[k].wf());
    }
    lemma_max_load_end(loads, MAX_VPN as int);
    let m = max_load_end_vpn(loads);
    lemma_stack_pages(m);
    let vpn = floor_vpn(user_stack_top(loads)) as usize;
    assert(vpn == m + 3);
    assert forall|i: int| 0 <= i < n + 1 implies #[trigger] ms.areas@[i].start_vpn != vpn by {
        if i < n {
            assert(area_matches_segment(ms.areas@[i], loads[i], data));
            assert(ms.areas@[i].wf());
        }
    }
    lemma_first_area_at(ms.areas@, vpn, n + 1, 0);
}

impl MemorySet {
    /// Builds the address space of an application from its image `elf_data`
    /// and its program headers `segments`: the trampoline, one framed area
    /// per loadable segment holding the segment's file part, a user stack one
    /// guard page above the highest segment page, an empty heap area above the stack
    /// and the trap context page. Returns the space, the top of the user
    /// stack and the entry point.
    pub fn build_user_space(
        elf_data: &[u8],
        entry_point: u64,
        segments: &Vec<ProgramSegment>,
        strampoline: usize,
        allocator: &mut FrameAllocator,
    ) -> (r: (Self, usize, usize))
        requires
            old(allocator).wf(),
            segments_loadable(segments@, elf_data@.len(), old(allocator).num_free()),
        ensures
            r.0.wf(*final(allocator)),
            user_space_built(r.0, segments@, elf_data@, strampoline),
            r.1 == user_stack_top(load_segments(segments@)),
            r.2 == entry_point as usize,
            final(allocator).end == old(allocator).end,
            final(allocator).num_free() + load_pages_total(load_segments(segments@)) + 4 == old(allocator).num_free(),
            forall|p: usize| #[trigger] final(allocator).free_frames().contains(p) ==> old(allocator).free_frames().contains(p),
    {
        let ghost segs = segments@;
        let ghost loads = load_segments(segs);
        let ghost nf = old(allocator).num_free();
        proof {
            assert(segs.take(0) =~= Seq::<ProgramSegment>::empty());
            assert forall|j: int| 0 <= j < loads.len() implies seg_pages(#[trigger] loads[j]) >= 0 by {
                assert(segment_ok(loads[j], elf_data@.len()));
            }
            lemma_pages_prefix(loads, 0);
            assert(loads.take(0) =~= Seq::<ProgramSegment>::empty());
        }
        let mut memory_set = Self::new_bare(allocator);
        proof {
            crate::config::lemma_layout_constants();
        }
        memory_set.map_trampoline(strampoline, Ghost(*allocator));
        let ghost tramp = memory_set.page_table@[MAX_VPN];
        let mut max_end_vpn: usize = 0;
        let mut i: usize = 0;
        while i < segments.len()
            invariant
                i <= segs.len(),
                segs == segments@,
                loads == load_segments(segs),
                nf == old(allocator).num_free(),
                segments_loadable(segs, elf_data@.len(), nf),
                forall|j: int| 0 <= j < loads.len() ==> seg_pages(#[trigger] loads[j]) >= 0,
                memory_set.wf(*allocator),
                allocator.end == old(allocator).end,
                allocator.num_free() + 1 + load_pages_total(load_segments(segs.take(i as int))) == nf,
                forall|p: usize| #[trigger] allocator.free_frames().contains(p) ==> old(allocator).free_frames().contains(p),
                memory_set.areas@.len() == load_segments(segs.take(i as int)).len(),
                load_segments(segs.take(i as int)) == loads.take(memory_set.areas@.len() as int),
                memory_set.areas@.len() <= loads.len(),
                forall|k: int| 0 <= k < memory_set.areas@.len() ==> area_matches_segment(#[trigger] memory_set.areas@[k], loads[k], elf_data@),
                max_end_vpn == max_load_end_vpn(load_segments(segs.take(i as int))),
                memory_set.page_table@.contains_key(MAX_VPN),
                memory_set.page_table@[MAX_VPN] == tramp,
                tramp == (PageTableEntry { ppn: strampoline / PAGE_SIZE, flags: PTE_R | PTE_X | PTE_V }),
            decreases segs.len() - i,
        {
            let seg = segments[i];
            proof {
                lemma_load_step(segs, i as int);
                lemma_load_prefix(segs, i as int + 1);
            }
            if seg.kind == SegmentKind::Load {
                let ghost k = memory_set.areas@.len() as int;
                proof {
                    assert(load_segments(segs.take(i as int + 1)) == load_segments(segs.take(i as int)).push(seg));
                    assert(loads[k] == seg) by {
                        assert(load_segments(segs.take(i as int + 1))[k] == seg);
                    }
                    assert(segment_ok(loads[k], elf_data@.len()));
                    assert forall|j: int| 0 <= j < memory_set.areas@.len() implies
                        #[trigger] memory_set.areas@[j].end_vpn <= seg_start_vpn(seg) || memory_set.areas@[j].start_vpn >= seg_end_vpn(seg) by {
                        assert(area_matches_segment(memory_set.areas@[j], loads[j], elf_data@));
                        assert(j != k);
                        assert(seg_end_vpn(loads[j]) <= seg_start_vpn(loads[k]) || seg_end_vpn(loads[k]) <= seg_start_vpn(loads[j]));
                    }
                    lemma_range_clear(memory_set, *allocator, seg_start_vpn(seg), seg_end_vpn(seg));
                    lemma_pages_prefix(loads, k + 1);
                    assert(loads.take(k + 1) == load_segments(segs.take(i as int + 1)));
                    assert(load_pages_total(loads.take(k + 1)) == load_pages_total(load_segments(segs.take(i as int))) + seg_pages(seg)) by {
                        assert(loads.take(k + 1).drop_last() =~= loads.take(k));
                    }
                }
                let start_va = seg.vaddr as usize;
                let end_va = (seg.vaddr + seg.mem_size) as usize;
                let mut bits: u8 = MAP_U;
                if is_read(seg.flags) {
                    bits = bits | MAP_R;
                }
                if is_write(seg.flags) {
                    bits = bits | MAP_W;
                }
                if is_execute(seg.flags) {
                    bits = bits | MAP_X;
                }
                let area = MapArea::new(start_va, end_va, MapType::Framed, MapPermission { bits });
                if area.end_vpn > max_end_vpn {
                    max_end_vpn = area.end_vpn;
                }
                proof {
                    let lp = load_segments(segs.take(i as int + 1));
                    assert(lp.drop_last() =~= load_segments(segs.take(i as int)));
                    assert(lp.last() == seg);
                    assert(area.end_vpn == seg_end_vpn(seg));
                }
                let data_len = elf_data.len();
                assert(seg.offset + seg.file_size <= data_len);
                let data = &elf_data[seg.offset as usize..(seg.offset + seg.file_size) as usize];
                assert(data@ == elf_data@.subrange(seg.offset as int, seg.offset + seg.file_size));
                let ghost areas0 = memory_set.areas@;
                memory_set.push(area, Some(data), allocator);
                proof {
                    assert forall|j: int| 0 <= j < memory_set.areas@.len() implies
                        area_matches_segment(#[trigger] memory_set.areas@[j], loads[j], elf_data@) by {
                        if j < k {
                            assert(memory_set.areas@[j] == areas0[j]);
                        } else {
                            assert(memory_set.areas@.last() == memory_set.areas@[j]);
                        }
                    }
                    assert(load_segments(segs.take(i as int + 1)) =~= loads.take(memory_set.areas@.len() as int));
                }
            }
            i = i + 1;
        }
        proof {
            assert(segs.take(segs.len() as int) =~= segs);
            assert(memory_set.areas@.len() == loads.len());
        }
        let ghost n = loads.len() as int;
        proof {
            lemma_stack_pages(max_end_vpn as int);
            assert forall|k: int| 0 <= k < loads.len() implies seg_end_vpn(#[trigger] loads[k]) <= MAX_VPN by {
                assert(segment_ok(loads[k], elf_data@.len()));
            }
            lemma_max_load_end(loads, MAX_VPN as int);
            assert(max_end_vpn <= MAX_VPN - 1);
        }
        let max_end_va = crate::address::vpn_to_va(max_end_vpn);
        let user_stack_bottom = max_end_va + PAGE_SIZE;
        let user_stack_top = user_stack_bottom + USER_STACK_SIZE;
        proof {
            assert forall|j: int| 0 <= j < memory_set.areas@.len() implies
                #[trigger] memory_set.areas@[j].end_vpn <= max_end_vpn + 1 || memory_set.areas@[j].start_vpn >= max_end_vpn + 3 by {
                assert(area_matches_segment(memory_set.areas@[j], loads[j], elf_data@));
                assert(seg_end_vpn(loads[j]) <= max_end_vpn);
            }
            lemma_range_clear(memory_set, *allocator, max_end_vpn as int + 1, max_end_vpn as int + 3);
        }
        let ghost areas1 = memory_set.areas@;
        memory_set.push(
            MapArea::new(user_stack_bottom, user_stack_top, MapType::Framed, MapPermission { bits: MAP_R | MAP_W | MAP_U }),
            None,
            allocator,
        );
        let ghost areas2 = memory_set.areas@;
        memory_set.push(
            MapArea::new(user_stack_top, user_stack_top, MapType::Framed, MapPermission { bits: MAP_R | MAP_W | MAP_U }),
            None,
            allocator,
        );
        let ghost areas3 = memory_set.areas@;
        proof {
            assert(ceil_vpn(TRAP_CONTEXT_BASE as int) == MAX_VPN - 1);
            assert forall|j: int| 0 <= j < memory_set.areas@.len() implies
                #[trigger] memory_set.areas@[j].end_vpn <= MAX_VPN - 1 || memory_set.areas@[j].start_vpn >= MAX_VPN by {
                if j < n {
                    assert(memory_set.areas@[j] == areas1[j]);
                    assert(area_matches_segment(areas1[j], loads[j], elf_data@));
                    assert(segment_ok(loads[j], elf_data@.len()));
                } else if j == n {
                    assert(memory_set.areas@[j] == areas2[j]);
                }
            }
            lemma_range_clear(memory_set, *allocator, MAX_VPN - 1, MAX_VPN as int);
        }
        memory_set.push(
            MapArea::new(TRAP_CONTEXT_BASE, TRAMPOLINE, MapType::Framed, MapPermission { bits: MAP_R | MAP_W }),
            None,
            allocator,
        );
        proof {
            let areas = memory_set.areas@;
            assert(areas.drop_last() == areas3);
            assert(areas3.drop_last() == areas2);
            assert(areas2.drop_last() == areas1);
            assert forall|k: int| 0 <= k < n implies area_matches_segment(#[trigger] areas[k], loads[k], elf_data@) by {
                assert(areas[k] == areas3[k]);
                assert(areas3[k] == areas2[k]);
                assert(areas2[k] == areas1[k]);
            }
            assert(areas[n] == areas3[n]);
            assert(areas3[n] == areas2[n]);
            assert(areas[n + 1] == areas3[n + 1]);
        }
        (memory_set, user_stack_top, entry_point as usize)
    }
}

} // verus!

verus! {

/// The image can be read and loaded with `num_free` frames.
pub open spec fn elf_loadable(data: Seq<u8>, num_free: nat) -> bool {
    &&& elf_headers_readable(data)
    &&& segments_loadable(elf_segments(data), data.len(), num_free)
}

/// The loadable segments of `segs`, computed.
fn collect_loads(segs: &Vec<ProgramSegment>) -> (loads: Vec<ProgramSegment>)
    ensures
        loads@ == load_segments(segs@),
{
    let mut loads: Vec<ProgramSegment> = Vec::new();
    let mut i: usize = 0;
    proof {
        assert(segs@.take(0) =~= Seq::<ProgramSegment>::empty());
    }
    while i < segs.len()
        invariant
            i <= segs@.len(),
            loads@ == load_segments(segs@.take(i as int)),
        decreases segs@.len() - i,
    {
        proof {
            lemma_load_step(segs@, i as int);
        }
        if segs[i].kind == SegmentKind::Load {
            loads.push(segs[i]);
        }
        i = i + 1;
    }
    proof {
        assert(segs@.take(segs@.len() as int) =~= segs@);
    }
    loads
}

/// Decides `segments_loadable`.
pub fn check_segments_loadable(segs: &Vec<ProgramSegment>, data_len: usize, num_free: u128) -> (b: bool)
    ensures
        b == segments_loadable(segs@, data_len as nat, num_free as nat),
{
    let mut i: usize = 0;
    while i < segs.len()
        invariant
            i <= segs@.len(),
            forall|j: int| 0 <= j < i ==> #[trigger] segs@[j].kind != SegmentKind::Invalid,
        decreases segs@.len() - i,
    {
        if segs[i].kind == SegmentKind::Invalid {
            return false;
        }
        i = i + 1;
    }
    let loads = collect_loads(segs);
    let ghost ls = loads@;
    let mut total: u128 = 0;
    let mut k: usize = 0;
    proof {
        assert(ls.take(0) =~= Seq::<ProgramSegment>::empty());
        crate::config::lemma_layout_constants();
    }
    while k < loads.len()
        invariant
            ls == loads@,
            ls == load_segments(segs@),
            k <= ls.len(),
            forall|j: int| 0 <= j < k ==> #[trigger] segment_ok(ls[j], data_len as nat),
            total == load_pages_total(ls.take(k as int)),
            total <= k * (MAX_VPN as int),
        decreases ls.len() - k,
    {
        let s = loads[k];
        let end: u128 = s.vaddr as u128 + s.mem_size as u128;
        if !(s.mem_size > 0 && end <= TRAP_CONTEXT_BASE as u128
            && s.offset as u128 + s.file_size as u128 <= data_len as u128) {
            proof {
                assert(!segment_ok(ls[k as int], data_len as nat));
            }
            return false;
        }
        let pages: u128 = (end + (PAGE_SIZE as u128 - 1)) / PAGE_SIZE as u128 - s.vaddr as u128 / PAGE_SIZE as u128;
        proof {
            assert(pages == seg_pages(s));
        }
        if s.file_size as u128 > pages * PAGE_SIZE as u128 {
            proof {
                assert(!segment_ok(ls[k as int], data_len as nat));
            }
            return false;
        }
        proof {
            assert(ls.take(k as int + 1).drop_last() =~= ls.take(k as int));
            assert(seg_pages(s) <= MAX_VPN);
            assert((k + 1) * (MAX_VPN as int) == k * (MAX_VPN as int) + MAX_VPN) by (nonlinear_arith);
            assert(k * (MAX_VPN as int) <= usize::MAX * (MAX_VPN as int)) by (nonlinear_arith)
                requires k <= usize::MAX;
            assert(usize::MAX * (MAX_VPN as int) <= 0xffff_ffff_ffff_ffff * 0xf_ffff_ffff_ffff) by (nonlinear_arith)
                requires usize::MAX <= 0xffff_ffff_ffff_ffff, MAX_VPN <= 0xf_ffff_ffff_ffff;
        }
        total = total + pages;
        k = k + 1;
    }
    proof {
        assert(ls.take(ls.len() as int) =~= ls);
        assert(ls.len() * (MAX_VPN as int) <= usize::MAX * (MAX_VPN as int)) by (nonlinear_arith)
            requires ls.len() <= usize::MAX;
        assert(usize::MAX * (MAX_VPN as int) <= 0xffff_ffff_ffff_ffff * 0xf_ffff_ffff_ffff) by (nonlinear_arith)
            requires usize::MAX <= 0xffff_ffff_ffff_ffff, MAX_VPN <= 0xf_ffff_ffff_ffff;
    }
    let mut a: usize = 0;
    while a < loads.len()
        invariant
            ls == loads@,
            ls == load_segments(segs@),
            forall|j: int| 0 <= j < segs@.len() ==> #[trigger] segs@[j].kind != SegmentKind::Invalid,
            total == load_pages_total(ls),
            total <= ls.len() * (MAX_VPN as int),
            ls.len() * (MAX_VPN as int) <= 0xffff_ffff_ffff_ffff * 0xf_ffff_ffff_ffff,
            forall|j: int| 0 <= j < ls.len() ==> #[trigger] segment_ok(ls[j], data_len as nat),
            a <= ls.len(),
            forall|x: int, y: int| 0 <= x < a && 0 <= y < ls.len() && x != y
                ==> seg_end_vpn(#[trigger] ls[x]) <= seg_start_vpn(#[trigger] ls[y]) || seg_end_vpn(ls[y]) <= seg_start_vpn(ls[x]),
        decreases ls.len() - a,
    {
        let mut b: usize = 0;
        while b < loads.len()
            invariant
                ls == loads@,
                ls == load_segments(segs@),
                forall|j: int| 0 <= j < segs@.len() ==> #[trigger] segs@[j].kind != SegmentKind::Invalid,
                forall|j: int| 0 <= j < ls.len() ==> #[trigger] segment_ok(ls[j], data_len as nat),
                a < ls.len(),
                b <= ls.len(),
                forall|x: int, y: int| 0 <= x < a && 0 <= y < ls.len() && x != y
                    ==> seg_end_vpn(#[trigger] ls[x]) <= seg_start_vpn(#[trigger] ls[y]) || seg_end_vpn(ls[y]) <= seg_start_vpn(ls[x]),
                forall|y: int| 0 <= y < b && y != a
                    ==> seg_end_vpn(ls[a as int]) <= seg_start_vpn(#[trigger] ls[y]) || seg_end_vpn(ls[y]) <= seg_start_vpn(ls[a as int]),
            decreases ls.len() - b,
        {
            if a != b {
                let sa = loads[a];
                let sb = loads[b];
                assert(segment_ok(ls[a as int], data_len as nat));
                assert(segment_ok(ls[b as int], data_len as nat));
                let ea: u128 = (sa.vaddr as u128 + sa.mem_size as u128 + (PAGE_SIZE as u128 - 1)) / PAGE_SIZE as u128;
                let eb: u128 = (sb.vaddr as u128 + sb.mem_size as u128 + (PAGE_SIZE as u128 - 1)) / PAGE_SIZE as u128;
                let fa: u128 = sa.vaddr as u128 / PAGE_SIZE as u128;
                let fb: u128 = sb.vaddr as u128 / PAGE_SIZE as u128;
                if !(ea <= fb || eb <= fa) {
                    proof {
                        assert(!(seg_end_vpn(ls[a as int]) <= seg_start_vpn(ls[b as int]) || seg_end_vpn(ls[b as int]) <= seg_start_vpn(ls[a as int])));
                    }
                    return false;
                }
            }
            b = b + 1;
        }
        a = a + 1;
    }
    let mut max_end: u128 = 0;
    let mut c: usize = 0;
    proof {
        assert(ls.take(0) =~= Seq::<ProgramSegment>::empty());
    }
    while c < loads.len()
        invariant
            ls == loads@,
            forall|j: int| 0 <= j < ls.len() ==> #[trigger] segment_ok(ls[j], data_len as nat),
            c <= ls.len(),
            max_end == max_load_end_vpn(ls.take(c as int)),
            max_end <= MAX_VPN,
        decreases ls.len() - c,
    {
        let s = loads[c];
        assert(segment_ok(ls[c as int], data_len as nat));
        let e: u128 = (s.vaddr as u128 + s.mem_size as u128 + (PAGE_SIZE as u128 - 1)) / PAGE_SIZE as u128;
        proof {
            assert(ls.take(c as int + 1).drop_last() =~= ls.take(c as int));
            assert(ls.take(c as int + 1).last() == s);
            assert(e == seg_end_vpn(s));
        }
        if e > max_end {
            max_end = e;
        }
        c = c + 1;
    }
    proof {
        assert(ls.take(ls.len() as int) =~= ls);
        crate::config::lemma_layout_constants();
        assert(max_end * 4096 <= (MAX_VPN as int) * 4096) by (nonlinear_arith)
            requires max_end <= MAX_VPN;
    }
    let top: u128 = max_end * PAGE_SIZE as u128 + PAGE_SIZE as u128 + USER_STACK_SIZE as u128;
    if top > TRAP_CONTEXT_BASE as u128 {
        return false;
    }
    total + 4 <= num_free
}

impl MemorySet {
    /// The address space of an application from its ELF image, the top of
    /// its user stack, and its entry point.
    pub fn from_elf(elf_data: &[u8], strampoline: usize, allocator: &mut FrameAllocator) -> (r: (Self, usize, usize))
        requires
            old(allocator).wf(),
            elf_loadable(elf_data@, old(allocator).num_free()),
        ensures
            r.0.wf(*final(allocator)),
            user_space_built(r.0, elf_segments(elf_data@), elf_data@, strampoline),
            r.1 == user_stack_top(load_segments(elf_segments(elf_data@))),
            r.2 == elf_header_of(elf_data@).unwrap().entry_point as usize,
            final(allocator).end == old(allocator).end,
            final(allocator).num_free() + load_pages_total(load_segments(elf_segments(elf_data@))) + 4 == old(allocator).num_free(),
            forall|p: usize| #[trigger] final(allocator).free_frames().contains(p) ==> old(allocator).free_frames().contains(p),
    {
        let (header, segments) = read_elf(elf_data).unwrap();
        assert(header.magic@ == elf_magic());
        Self::build_user_space(elf_data, header.entry_point, &segments, strampoline, allocator)
    }

    /// Decides `elf_loadable`.
    pub fn elf_is_loadable(elf_data: &[u8], num_free: u128) -> (b: bool)
        ensures
            b == elf_loadable(elf_data@, num_free as nat),
    {
        match read_elf(elf_data) {
            Some((_header, segments)) => check_segments_loadable(&segments, elf_data.len(), num_free),
            None => false,
        }
    }

    /// `from_elf` on images that can be loaded; `None` (and nothing taken
    /// from the allocator) on the others.
    pub fn try_from_elf(elf_data: &[u8], strampoline: usize, allocator: &mut FrameAllocator) -> (r: Option<(Self, usize, usize)>)
        requires
            old(allocator).wf(),
        ensures
            r.is_some() <==> elf_loadable(elf_data@, old(allocator).num_free()),
            match r {
                Some(t) => {
                    &&& t.0.wf(*final(allocator))
                    &&& user_space_built(t.0, elf_segments(elf_data@), elf_data@, strampoline)
                    &&& t.1 == user_stack_top(load_segments(elf_segments(elf_data@)))
                    &&& t.2 == elf_header_of(elf_data@).unwrap().entry_point as usize
                    &&& final(allocator).end == old(allocator).end
                    &&& final(allocator).num_free() + load_pages_total(load_segments(elf_segments(elf_data@))) + 4 == old(allocator).num_free()
                    &&& forall|p: usize| #[trigger] final(allocator).free_frames().contains(p) ==> old(allocator).free_frames().contains(p)
                },
                None => *final(allocator) == *old(allocator),
            },
    {
        match read_elf(elf_data) {
            Some((header, segments)) => {
                let free = allocator.free_count();
                if check_segments_loadable(&segments, elf_data.len(), free) {
                    Some(Self::build_user_space(elf_data, header.entry_point, &segments, strampoline, allocator))
                } else {
                    None
                }
            },
            None => None,
        }
    }
}

} // verus!
