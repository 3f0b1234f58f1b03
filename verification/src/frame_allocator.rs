//! Physical page frames: a stack allocator over a range of physical page
//! numbers, and the frame that an allocation hands out.
use vstd::prelude::*;
use crate::config::PAGE_SIZE;

verus! {

/// A physical frame owned by its holder, with the bytes it holds.
pub struct FrameTracker {
    pub ppn: usize,
    pub bytes: Vec<u8>,
}

/// Hands out the frames `[current, end)` in order, and reuses returned frames
/// first, latest returned first.
pub struct FrameAllocator {
    pub current: usize,
    pub end: usize,
    pub recycled: Vec<usize>,
}

/// A page of zero bytes.
pub open spec fn zero_page() -> Seq<u8> {
    Seq::new(PAGE_SIZE as nat, |i: int| 0u8)
}

impl FrameAllocator {
    /// The recycled frames lie below `current` and occur once each.
    pub open spec fn wf(&self) -> bool {
        &&& self.current <= self.end
        &&& forall|i: int| 0 <= i < self.recycled@.len() ==> #[trigger] self.recycled@[i] < self.current
        &&& self.recycled@.no_duplicates()
    }

    /// The frames that can be handed out.
    pub open spec fn free_frames(&self) -> Set<usize> {
        Set::new(|p: usize| (self.current <= p < self.end) || self.recycled@.contains(p))
    }

    /// How many frames can be handed out.
    pub open spec fn num_free(&self) -> nat {
        ((self.end - self.current) + self.recycled@.len()) as nat
    }

    /// Every free frame lies below `end`.
    pub proof fn lemma_free_below_end(&self, p: usize)
        requires
            self.wf(),
            self.free_frames().contains(p),
        ensures
            p < self.end,
    {
        if self.recycled@.contains(p) {
            let j = choose|j: int| 0 <= j < self.recycled@.len() && self.recycled@[j] == p;
            assert(self.recycled@[j] < self.current);
        }
    }

    /// How many frames can be handed out.
    pub fn free_count(&self) -> (n: u128)
        requires
            self.wf(),
        ensures
            n == self.num_free(),
    {
        (self.end - self.current) as u128 + self.recycled.len() as u128
    }

    /// An allocator of the frames `[start, end)`.
    pub fn new(start: usize, end: usize) -> (r: Self)
        requires
            start <= end,
        ensures
            r.wf(),
            r.current == start,
            r.end == end,
            r.recycled@ == Seq::<usize>::empty(),
            r.num_free() == end - start,
    {
        FrameAllocator { current: start, end, recycled: Vec::new() }
    }

    /// Takes a free frame: the latest recycled one, else the next fresh one,
    /// else none.
    pub fn allocate(&mut self) -> (r: Option<usize>)
        requires
            old(self).wf(),
        ensures
            final(self).wf(),
            final(self).end == old(self).end,
            match r {
                Some(p) => {
                    &&& old(self).free_frames().contains(p)
                    &&& !final(self).free_frames().contains(p)
                    &&& final(self).free_frames() == old(self).free_frames().remove(p)
                    &&& final(self).num_free() + 1 == old(self).num_free()
                },
                None => old(self).num_free() == 0 && *final(self) == *old(self),
            },
    {
        if self.recycled.len() > 0 {
            let p = self.recycled.pop().unwrap();
            proof {
                let old_r = old(self).recycled@;
                assert(old_r == self.recycled@.push(p));
                assert(old_r[old_r.len() - 1] == p);
                assert forall|q: usize| #[trigger] self.free_frames().contains(q) == (old(self).free_frames().remove(p).contains(q)) by {
                    if self.recycled@.contains(q) {
                        let j = choose|j: int| 0 <= j < self.recycled@.len() && self.recycled@[j] == q;
                        assert(old_r[j] == q);
                    }
                    if old_r.contains(q) && q != p {
                        let j = choose|j: int| 0 <= j < old_r.len() && old_r[j] == q;
                        assert(j != old_r.len() - 1);
                        assert(self.recycled@[j] == q);
                    }
                }
                assert(self.free_frames() =~= old(self).free_frames().remove(p));
                assert(old_r[old_r.len() - 1] < old(self).current);
            }
            Some(p)
        } else if self.current == self.end {
            None
        } else {
            let p = self.current;
            self.current = self.current + 1;
            proof {
                assert(self.free_frames() =~= old(self).free_frames().remove(p));
            }
            Some(p)
        }
    }

    /// Returns an allocated frame.
    pub fn deallocate(&mut self, ppn: usize)
        requires
            old(self).wf(),
            ppn < old(self).current,
            !old(self).recycled@.contains(ppn),
        ensures
            final(self).wf(),
            final(self).end == old(self).end,
            final(self).current == old(self).current,
            final(self).free_frames() == old(self).free_frames().insert(ppn),
            final(self).num_free() == old(self).num_free() + 1,
    {
        self.recycled.push(ppn);
        proof {
            let old_r = old(self).recycled@;
            assert(self.recycled@ == old_r.push(ppn));
            assert(self.recycled@[old_r.len() as int] == ppn);
            assert forall|q: usize| #[trigger] self.recycled@.contains(q) == (old_r.contains(q) || q == ppn) by {
                if old_r.contains(q) {
                    let j = choose|j: int| 0 <= j < old_r.len() && old_r[j] == q;
                    assert(self.recycled@[j] == q);
                }
                if self.recycled@.contains(q) && q != ppn {
                    let j = choose|j: int| 0 <= j < self.recycled@.len() && self.recycled@[j] == q;
                    assert(old_r[j] == q);
                }
            }
            assert(self.free_frames() =~= old(self).free_frames().insert(ppn));
        }
    }
}

/// Taking a frame and giving it back leaves the same frames free.
pub proof fn lemma_allocate_deallocate(a0: FrameAllocator, a1: FrameAllocator, a2: FrameAllocator, p: usize)
    requires
        a0.free_frames().contains(p),
        a1.free_frames() == a0.free_frames().remove(p),
        a2.free_frames() == a1.free_frames().insert(p),
    ensures
        a2.free_frames() == a0.free_frames(),
{
    assert(a2.free_frames() =~= a0.free_frames());
}

/// A page of zero bytes.
pub fn zeroed_page() -> (v: Vec<u8>)
    ensures
        v@ == zero_page(),
{
    let mut v: Vec<u8> = Vec::new();
    while v.len() < PAGE_SIZE
        invariant
            v.len() <= PAGE_SIZE,
            forall|i: int| 0 <= i < v.len() ==> v@[i] == 0u8,
        decreases PAGE_SIZE - v.len(),
    {
        v.push(0u8);
    }
    assert(v@ =~= zero_page());
    v
}

/// Takes a free frame and clears it; `None` when no frame is free.
pub fn frame_alloc(allocator: &mut FrameAllocator) -> (r: Option<FrameTracker>)
    requires
        old(allocator).wf(),
    ensures
        final(allocator).wf(),
        final(allocator).end == old(allocator).end,
        match r {
            Some(f) => {
                &&& f.bytes@ == zero_page()
                &&& old(allocator).free_frames().contains(f.ppn)
                &&& final(allocator).free_frames() == old(allocator).free_frames().remove(f.ppn)
                &&& final(allocator).num_free() + 1 == old(allocator).num_free()
            },
            None => old(allocator).num_free() == 0 && *final(allocator) == *old(allocator),
        },
{
    match allocator.allocate() {
        Some(ppn) => Some(FrameTracker { ppn, bytes: zeroed_page() }),
        None => None,
    }
}

} // verus!
