//! The page table of an address space, seen as a map from virtual page
//! numbers to page table entries.
use vstd::prelude::*;
use std::collections::BTreeMap;
use crate::frame_allocator::{FrameAllocator, FrameTracker, frame_alloc};

verus! {

broadcast use vstd::std_specs::btree::group_btree_axioms, vstd::laws_cmp::group_laws_cmp;

/// Entry is valid.
pub const PTE_V: u8 = 1;
/// Entry allows reads.
pub const PTE_R: u8 = 2;
/// Entry allows writes.
pub const PTE_W: u8 = 4;
/// Entry allows instruction fetch.
pub const PTE_X: u8 = 8;
/// Entry is accessible in user mode.
pub const PTE_U: u8 = 16;

/// A page table entry: the physical page it maps to and its flag bits.
#[derive(Clone, Copy, PartialEq, Eq, Structural, Debug)]
pub struct PageTableEntry {
    pub ppn: usize,
    pub flags: u8,
}

impl PageTableEntry {
    pub fn is_valid(&self) -> (b: bool)
        ensures
            b == (self.flags & PTE_V != 0),
    {
        self.flags & PTE_V != 0
    }

    pub fn readable(&self) -> (b: bool)
        ensures
            b == (self.flags & PTE_R != 0),
    {
        self.flags & PTE_R != 0
    }

    pub fn writable(&self) -> (b: bool)
        ensures
            b == (self.flags & PTE_W != 0),
    {
        self.flags & PTE_W != 0
    }

    pub fn executable(&self) -> (b: bool)
        ensures
            b == (self.flags & PTE_X != 0),
    {
        self.flags & PTE_X != 0
    }
}

/// A page table: its root frame and the entries of its mapped pages.
pub struct PageTable {
    pub root: FrameTracker,
    pub entries: BTreeMap<usize, PageTableEntry>,
}

impl View for PageTable {
    type V = Map<usize, PageTableEntry>;

    open spec fn view(&self) -> Map<usize, PageTableEntry> {
        self.entries@
    }
}

/// The value written into `satp` to switch to the table rooted at `root_ppn`:
/// Sv39 mode in the top bits, the root frame in the low ones.
pub open spec fn satp_token(root_ppn: usize) -> usize {
    ((8u64 << 60u64) | (root_ppn as u64)) as usize
}

impl PageTable {
    /// An empty page table with a fresh root frame; `None` when no frame is free.
    pub fn new(allocator: &mut FrameAllocator) -> (r: Option<Self>)
        requires
            old(allocator).wf(),
        ensures
            final(allocator).wf(),
            final(allocator).end == old(allocator).end,
            match r {
                Some(pt) => {
                    &&& pt@ == Map::<usize, PageTableEntry>::empty()
                    &&& old(allocator).free_frames().contains(pt.root.ppn)
                    &&& final(allocator).free_frames() == old(allocator).free_frames().remove(pt.root.ppn)
                    &&& final(allocator).num_free() + 1 == old(allocator).num_free()
                },
                None => old(allocator).num_free() == 0 && *final(allocator) == *old(allocator),
            },
    {
        match frame_alloc(allocator) {
            Some(root) => Some(PageTable { root, entries: BTreeMap::new() }),
            None => None,
        }
    }

    /// The `satp` value of this table.
    pub fn token(&self) -> (t: usize)
        ensures
            t == satp_token(self.root.ppn),
    {
        ((8u64 << 60u64) | (self.root.ppn as u64)) as usize
    }

    /// Maps `vpn` to `ppn` with `flags` and the valid bit; the page must not be mapped yet.
    pub fn map(&mut self, vpn: usize, ppn: usize, flags: u8)
        requires
            !old(self)@.contains_key(vpn),
        ensures
            final(self)@ == old(self)@.insert(vpn, PageTableEntry { ppn, flags: flags | PTE_V }),
            final(self).root == old(self).root,
    {
        self.entries.insert(vpn, PageTableEntry { ppn, flags: flags | PTE_V });
    }

    /// Removes the mapping of `vpn`; the page must be mapped.
    pub fn unmap(&mut self, vpn: usize)
        requires
            old(self)@.contains_key(vpn),
        ensures
            final(self)@ == old(self)@.remove(vpn),
            final(self).root == old(self).root,
    {
        self.entries.remove(&vpn);
    }

    /// The entry of `vpn`, if it is mapped.
    pub fn translate(&self, vpn: usize) -> (r: Option<PageTableEntry>)
        ensures
            r == (if self@.contains_key(vpn) { Some(self@[vpn]) } else { None::<PageTableEntry> }),
    {
        match self.entries.get(&vpn) {
            Some(e) => Some(*e),
            None => None,
        }
    }
}

/// Mapping an unmapped page and then unmapping it gives back the table, and
/// in between the page translates to what was mapped.
pub proof fn lemma_map_unmap(pt: Map<usize, PageTableEntry>, vpn: usize, ppn: usize, flags: u8)
    requires
        !pt.contains_key(vpn),
    ensures
        pt.insert(vpn, PageTableEntry { ppn, flags: flags | PTE_V }).contains_key(vpn),
        pt.insert(vpn, PageTableEntry { ppn, flags: flags | PTE_V })[vpn].ppn == ppn,
        pt.insert(vpn, PageTableEntry { ppn, flags: flags | PTE_V })[vpn].flags & PTE_V != 0,
        pt.insert(vpn, PageTableEntry { ppn, flags: flags | PTE_V }).remove(vpn) == pt,
{
    assert((flags | 1u8) & 1u8 != 0) by (bit_vector);
    assert(pt.insert(vpn, PageTableEntry { ppn, flags: flags | PTE_V }).remove(vpn) =~= pt);
}

} // verus!
