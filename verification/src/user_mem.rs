//! Writing into the memory of an address space through its frames, as the
//! kernel does to hand results back to an application, and copying a whole
//! user address space into fresh frames.
use vstd::prelude::*;
use std::collections::BTreeMap;
use crate::config::PAGE_SIZE;
use crate::frame_allocator::FrameAllocator;
use crate::config::MAX_VPN;
use crate::page_table::{PageTable, PageTableEntry, PTE_R, PTE_X, PTE_V};
use crate::memory_set::{MemorySet, MapArea, MapType, areas_wf, areas_disjoint, area_frames, holds_frame};

verus! {

broadcast use vstd::std_specs::btree::group_btree_axioms;

/// Some area of `areas` holds a frame for page `vpn`.
pub open spec fn page_backed(areas: Seq<MapArea>, vpn: usize) -> bool {
    exists|i: int| 0 <= i < areas.len() && #[trigger] areas[i].data_frames@.contains_key(vpn)
}

/// The byte at user address `va` of `ms`: the byte of the frame that backs
/// its page, if an area holds one.
pub open spec fn user_byte(ms: MemorySet, va: int) -> Option<u8> {
    let vpn = (va / PAGE_SIZE as int) as usize;
    if 0 <= va <= usize::MAX && page_backed(ms.areas@, vpn) {
        let i = choose|i: int| 0 <= i < ms.areas@.len() && #[trigger] ms.areas@[i].data_frames@.contains_key(vpn);
        Some(ms.areas@[i].data_frames@[vpn].bytes@[va % PAGE_SIZE as int])
    } else {
        None
    }
}

/// `b` has the areas of `a` with the same pages, rights and frames; only the
/// contents of frames may differ.
pub open spec fn same_shape(a: Seq<MapArea>, b: Seq<MapArea>) -> bool {
    &&& a.len() == b.len()
    &&& forall|k: int| 0 <= k < a.len() ==> {
        &&& #[trigger] b[k].start_vpn == a[k].start_vpn
        &&& b[k].end_vpn == a[k].end_vpn
        &&& b[k].map_type == a[k].map_type
        &&& b[k].map_perm == a[k].map_perm
        &&& forall|v: usize| #[trigger] b[k].data_frames@.contains_key(v) <==> a[k].data_frames@.contains_key(v)
        &&& forall|v: usize| #[trigger] a[k].data_frames@.contains_key(v) ==> {
            &&& b[k].data_frames@[v].ppn == a[k].data_frames@[v].ppn
            &&& b[k].data_frames@[v].bytes@.len() == a[k].data_frames@[v].bytes@.len()
        }
    }
}

/// Having the same shape is transitive.
pub proof fn lemma_same_shape_trans(a: Seq<MapArea>, b: Seq<MapArea>, c: Seq<MapArea>)
    requires
        same_shape(a, b),
        same_shape(b, c),
    ensures
        same_shape(a, c),
{
    assert forall|k: int| 0 <= k < a.len() implies #[trigger] c[k].start_vpn == a[k].start_vpn
        && c[k].end_vpn == a[k].end_vpn && c[k].map_type == a[k].map_type && c[k].map_perm == a[k].map_perm
        && (forall|v: usize| #[trigger] c[k].data_frames@.contains_key(v) <==> a[k].data_frames@.contains_key(v))
        && (forall|v: usize| #[trigger] a[k].data_frames@.contains_key(v) ==> {
            &&& c[k].data_frames@[v].ppn == a[k].data_frames@[v].ppn
            &&& c[k].data_frames@[v].bytes@.len() == a[k].data_frames@[v].bytes@.len()
        }) by {
        assert(b[k].start_vpn == a[k].start_vpn);
        assert(c[k].start_vpn == b[k].start_vpn);
        assert forall|v: usize| #[trigger] a[k].data_frames@.contains_key(v) implies {
            &&& c[k].data_frames@[v].ppn == a[k].data_frames@[v].ppn
            &&& c[k].data_frames@[v].bytes@.len() == a[k].data_frames@[v].bytes@.len()
        } by {
            assert(b[k].data_frames@.contains_key(v));
        }
    }
}


/// Pages that the framed areas of `areas` span together.
pub open spec fn framed_pages(areas: Seq<MapArea>) -> int
    decreases areas.len(),
{
    if areas.len() == 0 {
        0
    } else {
        framed_pages(areas.drop_last())
            + if areas.last().map_type == MapType::Framed { areas.last().num_pages() as int } else { 0 }
    }
}

/// The framed pages of a prefix of the areas are no more than those of all.
pub proof fn lemma_framed_prefix(areas: Seq<MapArea>, k: int)
    requires
        0 <= k <= areas.len(),
    ensures
        0 <= framed_pages(areas.take(k)) <= framed_pages(areas),
    decreases areas.len(),
{
    if areas.len() > 0 {
        let d = areas.drop_last();
        if k == areas.len() {
            assert(areas.take(k) =~= areas);
            lemma_framed_prefix(d, k - 1);
            assert(d.take(k - 1) =~= d);
        } else {
            assert(areas.take(k) =~= d.take(k));
            lemma_framed_prefix(d, k);
        }
    } else {
        assert(areas.take(k) =~= areas);
    }
}

/// `child` copies `parent`: the same areas over the same pages with the same
/// rights, and each page of a framed area held in a frame with the same bytes.
pub open spec fn copied_space(parent: Seq<MapArea>, child: Seq<MapArea>) -> bool {
    &&& child.len() == parent.len()
    &&& forall|k: int| 0 <= k < parent.len() ==> {
        &&& #[trigger] child[k].start_vpn == parent[k].start_vpn
        &&& child[k].end_vpn == parent[k].end_vpn
        &&& child[k].map_type == parent[k].map_type
        &&& child[k].map_perm == parent[k].map_perm
        &&& forall|v: usize| #[trigger] child[k].data_frames@.contains_key(v) <==> parent[k].data_frames@.contains_key(v)
        &&& forall|v: usize| #[trigger] parent[k].data_frames@.contains_key(v)
            ==> child[k].data_frames@[v].bytes@ == parent[k].data_frames@[v].bytes@
    }
}

fn copy_bytes(src: &Vec<u8>) -> (r: Vec<u8>)
    ensures
        r@ == src@,
{
    let mut r: Vec<u8> = Vec::new();
    let mut i: usize = 0;
    while i < src.len()
        invariant
            i <= src@.len(),
            r@ == src@.take(i as int),
        decreases src@.len() - i,
    {
        r.push(src[i]);
        i = i + 1;
        assert(r@ =~= src@.take(i as int));
    }
    assert(src@.take(src@.len() as int) =~= src@);
    r
}

/// In well-formed disjoint areas at most one area holds a frame for a page.
pub proof fn lemma_one_holder(areas: Seq<MapArea>, vpn: usize, i: int, j: int)
    requires
        areas_wf(areas),
        areas_disjoint(areas),
        0 <= i < areas.len(),
        0 <= j < areas.len(),
        areas[i].data_frames@.contains_key(vpn),
        areas[j].data_frames@.contains_key(vpn),
    ensures
        i == j,
{
    assert(areas[i].wf());
    assert(areas[j].wf());
    assert(areas[i].contains_vpn(vpn as int));
    assert(areas[j].contains_vpn(vpn as int));
}

/// Areas of the same shape are as well formed and as disjoint.
pub proof fn lemma_same_shape_areas(x: Seq<MapArea>, y: Seq<MapArea>)
    requires
        same_shape(x, y),
    ensures
        areas_wf(x) ==> areas_wf(y),
        areas_disjoint(x) ==> areas_disjoint(y),
        forall|k: int| 0 <= k < y.len() && x[k].wf() ==> #[trigger] y[k].wf(),
{
    assert forall|k: int| 0 <= k < y.len() && x[k].wf() implies #[trigger] y[k].wf() by {
        assert(y[k].start_vpn == x[k].start_vpn);
        assert forall|v: usize, w: usize|
            #![trigger y[k].data_frames@[v], y[k].data_frames@[w]]
            y[k].data_frames@.contains_key(v) && y[k].data_frames@.contains_key(w) && v != w
            implies y[k].data_frames@[v].ppn != y[k].data_frames@[w].ppn by {
            assert(x[k].data_frames@[v].ppn != x[k].data_frames@[w].ppn);
        }
    }
    if areas_wf(x) {
        assert forall|k: int| 0 <= k < y.len() implies #[trigger] y[k].wf() by {
            assert(x[k].wf());
        }
    }
    if areas_disjoint(x) {
        assert forall|i: int, j: int, v: int|
            0 <= i < y.len() && 0 <= j < y.len() && i != j && #[trigger] y[i].contains_vpn(v)
            implies !#[trigger] y[j].contains_vpn(v) by {
            assert(y[i].start_vpn == x[i].start_vpn);
            assert(y[j].start_vpn == x[j].start_vpn);
            assert(x[i].contains_vpn(v));
            assert(!x[j].contains_vpn(v));
        }
    }
}

/// Address spaces with the same page table and areas of the same shape are
/// well formed alike.
pub proof fn lemma_same_shape_wf(a: MemorySet, b: MemorySet, allocator: FrameAllocator)
    requires
        same_shape(a.areas@, b.areas@),
        b.page_table == a.page_table,
    ensures
        a.wf(allocator) ==> b.wf(allocator),
{
    let x = a.areas@;
    let y = b.areas@;
    lemma_same_shape_areas(x, y);
    if a.wf(allocator) {
        let pt = b.page_table@;
        assert forall|k: int| 0 <= k < y.len() implies #[trigger] y[k].mapped_in(pt) by {
            assert(y[k].start_vpn == x[k].start_vpn);
            assert(x[k].mapped_in(pt));
            assert(x[k].wf());
            assert forall|v: usize| #![trigger pt.contains_key(v)] #![trigger pt[v]]
                y[k].start_vpn <= v < y[k].end_vpn implies pt.contains_key(v) && pt[v] == y[k].entry_for(v) by {
                assert(pt.contains_key(v) && pt[v] == x[k].entry_for(v));
                if x[k].map_type == MapType::Framed {
                    assert(x[k].data_frames@.contains_key(v));
                }
            }
        }
        assert forall|v: usize| #[trigger] pt.contains_key(v) implies v == crate::config::MAX_VPN
            || exists|k: int| 0 <= k < y.len() && #[trigger] y[k].contains_vpn(v as int) by {
            if v != crate::config::MAX_VPN {
                let k = choose|k: int| 0 <= k < x.len() && #[trigger] x[k].contains_vpn(v as int);
                assert(y[k].start_vpn == x[k].start_vpn);
                assert(y[k].contains_vpn(v as int));
            }
        }
        assert forall|k: int| 0 <= k < y.len() implies #[trigger] y[k].frames_allocated(allocator) by {
            assert(y[k].start_vpn == x[k].start_vpn);
            assert(x[k].frames_allocated(allocator));
            assert forall|v: usize| #[trigger] y[k].data_frames@.contains_key(v) implies
                y[k].data_frames@[v].ppn < allocator.end && !allocator.free_frames().contains(y[k].data_frames@[v].ppn) by {
                assert(x[k].data_frames@.contains_key(v));
            }
        }
        assert forall|i: int, j: int, v: usize, w: usize|
            0 <= i < y.len() && 0 <= j < y.len() && i != j
            && y[i].data_frames@.contains_key(v) && y[j].data_frames@.contains_key(w)
            implies #[trigger] y[i].data_frames@[v].ppn != #[trigger] y[j].data_frames@[w].ppn by {
            assert(y[i].start_vpn == x[i].start_vpn);
            assert(y[j].start_vpn == x[j].start_vpn);
            assert(x[i].data_frames@.contains_key(v));
            assert(x[j].data_frames@.contains_key(w));
            assert(x[i].data_frames@[v].ppn != x[j].data_frames@[w].ppn);
        }
    }
}

impl MemorySet {
    /// Replaces the bytes of the frame that area `i` holds for page `vpn`.
    fn set_frame_bytes(&mut self, i: usize, vpn: usize, bytes: Vec<u8>)
        requires
            i < old(self).areas@.len(),
            old(self).areas@[i as int].data_frames@.contains_key(vpn),
            bytes@.len() == old(self).areas@[i as int].data_frames@[vpn].bytes@.len(),
        ensures
            final(self).page_table == old(self).page_table,
            same_shape(old(self).areas@, final(self).areas@),
            forall|k: int| 0 <= k < final(self).areas@.len() && k != i ==> #[trigger] final(self).areas@[k] == old(self).areas@[k],
            forall|v: usize| v != vpn ==> #[trigger] final(self).areas@[i as int].data_frames@[v] == old(self).areas@[i as int].data_frames@[v],
            final(self).areas@[i as int].data_frames@[vpn].bytes@ == bytes@,
    {
        let ghost areas0 = self.areas@;
        let mut area = self.areas.remove(i);
        let mut frame = area.data_frames.remove(&vpn).unwrap();
        frame.bytes = bytes;
        area.data_frames.insert(vpn, frame);
        self.areas.insert(i, area);
        proof {
            assert(self.areas@ =~= areas0.update(i as int, area));
            assert forall|k: int| 0 <= k < areas0.len() && k != i implies #[trigger] self.areas@[k] == areas0[k] by {}
        }
    }

    /// A copy of the user address space `user_space`: the trampoline mapped
    /// to `strampoline`, and the same areas over the same pages with the same
    /// rights, each page of a framed area in a fresh frame holding the same
    /// bytes as in `user_space`.
    pub fn from_existed_user(user_space: &MemorySet, strampoline: usize, allocator: &mut FrameAllocator) -> (r: Self)
        requires
            old(allocator).wf(),
            user_space.wf(*old(allocator)),
            old(allocator).num_free() >= framed_pages(user_space.areas@) + 1,
        ensures
            r.wf(*final(allocator)),
            user_space.wf(*final(allocator)),
            copied_space(user_space.areas@, r.areas@),
            r.page_table@.contains_key(MAX_VPN),
            r.page_table@[MAX_VPN] == (PageTableEntry { ppn: strampoline / PAGE_SIZE, flags: PTE_R | PTE_X | PTE_V }),
            forall|p: usize| #[trigger] area_frames(r.areas@).contains(p) ==> !area_frames(user_space.areas@).contains(p),
            final(allocator).end == old(allocator).end,
            final(allocator).num_free() + framed_pages(user_space.areas@) + 1 == old(allocator).num_free(),
            forall|p: usize| #[trigger] final(allocator).free_frames().contains(p) ==> old(allocator).free_frames().contains(p),
    {
        let ghost a0 = *allocator;
        let ghost parent = user_space.areas@;
        proof {
            crate::config::lemma_layout_constants();
            lemma_framed_prefix(parent, 0);
            assert(parent.take(0) =~= Seq::<MapArea>::empty());
        }
        let mut ms = Self::new_bare(allocator);
        ms.map_trampoline(strampoline, Ghost(*allocator));
        let ghost tramp = ms.page_table@[MAX_VPN];
        let mut k: usize = 0;
        while k < user_space.areas.len()
            invariant
                parent == user_space.areas@,
                user_space.wf(a0),
                a0.wf(),
                a0.num_free() >= framed_pages(parent) + 1,
                k <= parent.len(),
                ms.wf(*allocator),
                allocator.end == a0.end,
                allocator.num_free() + framed_pages(parent.take(k as int)) + 1 == a0.num_free(),
                forall|p: usize| #[trigger] allocator.free_frames().contains(p) ==> a0.free_frames().contains(p),
                ms.areas@.len() == k,
                copied_space(parent.take(k as int), ms.areas@),
                forall|j: int, v: usize| 0 <= j < k && #[trigger] ms.areas@[j].data_frames@.contains_key(v)
                    ==> a0.free_frames().contains(ms.areas@[j].data_frames@[v].ppn),
                ms.page_table@.contains_key(MAX_VPN),
                ms.page_table@[MAX_VPN] == tramp,
                tramp == (PageTableEntry { ppn: strampoline / PAGE_SIZE, flags: PTE_R | PTE_X | PTE_V }),
            decreases parent.len() - k,
        {
            let area = &user_space.areas[k];
            proof {
                assert(parent[k as int].wf());
                assert forall|v: usize| area.start_vpn <= v < area.end_vpn implies !#[trigger] ms.page_table@.contains_key(v) by {
                    if ms.page_table@.contains_key(v) {
                        assert(v != MAX_VPN);
                        let j = choose|j: int| 0 <= j < ms.areas@.len() && #[trigger] ms.areas@[j].contains_vpn(v as int);
                        assert(ms.areas@[j].start_vpn == parent.take(k as int)[j].start_vpn);
                        assert(parent.take(k as int)[j] == parent[j]);
                        assert(parent[j].contains_vpn(v as int));
                        assert(parent[k as int].contains_vpn(v as int));
                    }
                }
                lemma_framed_prefix(parent, k as int + 1);
                assert(parent.take(k as int + 1).drop_last() =~= parent.take(k as int));
                assert(parent.take(k as int + 1).last() == parent[k as int]);
            }
            let new_area = MapArea {
                start_vpn: area.start_vpn,
                end_vpn: area.end_vpn,
                data_frames: BTreeMap::new(),
                map_type: area.map_type,
                map_perm: area.map_perm,
            };
            let ghost fb = *allocator;
            let ghost ms_before = ms;
            ms.push(new_area, None, allocator);
            let ghost ms_pushed = ms;
            proof {
                assert(ms.areas@[k as int] == ms.areas@.last());
                assert(ms.areas@.drop_last() == ms_before.areas@);
            }
            proof {
                assert(ms.areas@[k as int].wf());
                assert forall|w: usize| #[trigger] ms.areas@[k as int].data_frames@.contains_key(w)
                    implies w >= area.start_vpn by {}
            }
            if area.map_type == MapType::Framed {
                let mut v = area.start_vpn;
                while v < area.end_vpn
                    invariant
                        parent == user_space.areas@,
                        k < parent.len(),
                        *area == parent[k as int],
                        parent[k as int].wf(),
                        area.map_type == MapType::Framed,
                        area.start_vpn <= v <= area.end_vpn,
                        ms.page_table == ms_pushed.page_table,
                        same_shape(ms_pushed.areas@, ms.areas@),
                        ms.areas@.len() == k + 1,
                        forall|j: int| 0 <= j < k ==> #[trigger] ms.areas@[j] == ms_pushed.areas@[j],
                        ms_pushed.areas@[k as int].start_vpn == area.start_vpn,
                        ms_pushed.areas@[k as int].end_vpn == area.end_vpn,
                        ms_pushed.areas@[k as int].map_type == MapType::Framed,
                        ms_pushed.areas@[k as int].wf(),
                        forall|w: usize| #[trigger] ms.areas@[k as int].data_frames@.contains_key(w) && w < v
                            ==> ms.areas@[k as int].data_frames@[w].bytes@ == parent[k as int].data_frames@[w].bytes@,
                    decreases area.end_vpn - v,
                {
                    let ghost before = ms;
                    proof {
                        assert(ms.areas@[k as int].start_vpn == ms_pushed.areas@[k as int].start_vpn);
                        assert(ms_pushed.areas@[k as int].data_frames@.contains_key(v));
                        assert(parent[k as int].data_frames@.contains_key(v));
                    }
                    let fr = area.data_frames.get(&v).unwrap();
                    proof {
                        assert(*fr == parent[k as int].data_frames@[v]);
                        assert(ms.areas@[k as int].data_frames@[v].ppn == ms_pushed.areas@[k as int].data_frames@[v].ppn);
                    }
                    let bytes = copy_bytes(&fr.bytes);
                    ms.set_frame_bytes(k, v, bytes);
                    proof {
                        lemma_same_shape_trans(ms_pushed.areas@, before.areas@, ms.areas@);
                        assert forall|j: int| 0 <= j < k implies #[trigger] ms.areas@[j] == ms_pushed.areas@[j] by {
                            assert(ms.areas@[j] == before.areas@[j]);
                        }
                        assert forall|w: usize| #[trigger] ms.areas@[k as int].data_frames@.contains_key(w) && w < v + 1
                            implies ms.areas@[k as int].data_frames@[w].bytes@ == parent[k as int].data_frames@[w].bytes@ by {
                            assert(ms.areas@[k as int].start_vpn == before.areas@[k as int].start_vpn);
                            if w != v {
                                assert(before.areas@[k as int].data_frames@.contains_key(w));
                                assert(ms.areas@[k as int].data_frames@[w] == before.areas@[k as int].data_frames@[w]);
                            }
                        }
                    }
                    v = v + 1;
                }
            }
            proof {
                if area.map_type != MapType::Framed {
                    assert(ms == ms_pushed);
                    assert(same_shape(ms_pushed.areas@, ms.areas@)) by {
                        assert forall|j: int| 0 <= j < ms.areas@.len() implies #[trigger] ms.areas@[j].start_vpn == ms_pushed.areas@[j].start_vpn by {}
                    }
                }
                lemma_same_shape_wf(ms_pushed, ms, *allocator);
                let pk = parent[k as int];
                let ck = ms.areas@[k as int];
                let qk = ms_pushed.areas@[k as int];
                assert(ck.start_vpn == qk.start_vpn);
                assert(qk.wf());
                assert(pk.wf());
                assert forall|v: usize| #[trigger] ck.data_frames@.contains_key(v) <==> pk.data_frames@.contains_key(v) by {
                    assert(ck.data_frames@.contains_key(v) == qk.data_frames@.contains_key(v));
                }
                assert forall|v: usize| #[trigger] pk.data_frames@.contains_key(v)
                    implies ck.data_frames@[v].bytes@ == pk.data_frames@[v].bytes@ by {
                    assert(ck.data_frames@.contains_key(v));
                    assert(v < pk.end_vpn);
                }
                assert forall|j: int, v: usize| 0 <= j < k + 1 && #[trigger] ms.areas@[j].data_frames@.contains_key(v)
                    implies a0.free_frames().contains(ms.areas@[j].data_frames@[v].ppn) by {
                    if j < k {
                        assert(ms.areas@[j] == ms_pushed.areas@[j]);
                        assert(ms_pushed.areas@[j] == ms_before.areas@[j]);
                    } else {
                        assert(ms.areas@[j].start_vpn == ms_pushed.areas@[j].start_vpn);
                        assert(ms_pushed.areas@[j].data_frames@.contains_key(v));
                    }
                }
                assert forall|j: int| 0 <= j < k + 1 implies #[trigger] ms.areas@[j].start_vpn == parent.take(k as int + 1)[j].start_vpn
                    && ms.areas@[j].end_vpn == parent.take(k as int + 1)[j].end_vpn
                    && ms.areas@[j].map_type == parent.take(k as int + 1)[j].map_type
                    && ms.areas@[j].map_perm == parent.take(k as int + 1)[j].map_perm
                    && (forall|v: usize| #[trigger] ms.areas@[j].data_frames@.contains_key(v) <==> parent.take(k as int + 1)[j].data_frames@.contains_key(v))
                    && (forall|v: usize| #[trigger] parent.take(k as int + 1)[j].data_frames@.contains_key(v)
                        ==> ms.areas@[j].data_frames@[v].bytes@ == parent.take(k as int + 1)[j].data_frames@[v].bytes@) by {
                    if j < k {
                        assert(ms.areas@[j] == ms_pushed.areas@[j]);
                        assert(ms_pushed.areas@[j] == ms_before.areas@[j]);
                        assert(parent.take(k as int + 1)[j] == parent.take(k as int)[j]);
                        assert(ms_before.areas@[j].start_vpn == parent.take(k as int)[j].start_vpn);
                    } else {
                        assert(parent.take(k as int + 1)[j] == pk);
                    }
                }
                assert(ms.areas@.len() == k + 1);
                assert(parent.take(k as int + 1).len() == k + 1);
                assert(copied_space(parent.take(k as int + 1), ms.areas@));
            }
            k = k + 1;
        }
        proof {
            assert(parent.take(parent.len() as int) =~= parent);
            crate::memory_set::lemma_wf_fewer_free(*user_space, a0, *allocator);
            assert forall|p: usize| #[trigger] area_frames(ms.areas@).contains(p) implies !area_frames(parent).contains(p) by {
                let j = choose|j: int| 0 <= j < ms.areas@.len() && #[trigger] holds_frame(ms.areas@[j], p);
                let v = choose|v: usize| ms.areas@[j].data_frames@.contains_key(v) && ms.areas@[j].data_frames@[v].ppn == p;
                assert(a0.free_frames().contains(p));
                if area_frames(parent).contains(p) {
                    let i = choose|i: int| 0 <= i < parent.len() && #[trigger] holds_frame(parent[i], p);
                    let w = choose|w: usize| parent[i].data_frames@.contains_key(w) && parent[i].data_frames@[w].ppn == p;
                    assert(parent[i].frames_allocated(a0));
                }
            }
        }
        ms
    }

    /// The area that holds a frame for page `vpn`, if any.
    fn frame_holder(&self, vpn: usize) -> (r: Option<usize>)
        ensures
            match r {
                Some(i) => i < self.areas@.len() && self.areas@[i as int].data_frames@.contains_key(vpn),
                None => !page_backed(self.areas@, vpn),
            },
    {
        let mut i: usize = 0;
        while i < self.areas.len()
            invariant
                i <= self.areas@.len(),
                forall|k: int| 0 <= k < i ==> !#[trigger] self.areas@[k].data_frames@.contains_key(vpn),
            decreases self.areas@.len() - i,
        {
            if self.areas[i].data_frames.contains_key(&vpn) {
                return Some(i);
            }
            i = i + 1;
        }
        None
    }

    /// Sets byte `off` of the frame that area `i` holds for page `vpn`.
    fn write_frame_byte(&mut self, i: usize, vpn: usize, off: usize, b: u8)
        requires
            i < old(self).areas@.len(),
            old(self).areas@[i as int].data_frames@.contains_key(vpn),
            off < old(self).areas@[i as int].data_frames@[vpn].bytes@.len(),
        ensures
            final(self).page_table == old(self).page_table,
            same_shape(old(self).areas@, final(self).areas@),
            forall|k: int| 0 <= k < final(self).areas@.len() && k != i ==> #[trigger] final(self).areas@[k] == old(self).areas@[k],
            forall|v: usize| v != vpn ==> #[trigger] final(self).areas@[i as int].data_frames@[v] == old(self).areas@[i as int].data_frames@[v],
            final(self).areas@[i as int].data_frames@[vpn].bytes@ == old(self).areas@[i as int].data_frames@[vpn].bytes@.update(off as int, b),
    {
        let ghost areas0 = self.areas@;
        let mut area = self.areas.remove(i);
        let mut frame = area.data_frames.remove(&vpn).unwrap();
        frame.bytes.set(off, b);
        area.data_frames.insert(vpn, frame);
        self.areas.insert(i, area);
        proof {
            assert(self.areas@ =~= areas0.update(i as int, area));
            assert forall|k: int| 0 <= k < areas0.len() && k != i implies #[trigger] self.areas@[k] == areas0[k] by {}
        }
    }

    /// Writes `data` at user address `va` of the address space, through the
    /// frames that back its pages; `false`, and nothing written, if some byte
    /// of the range lies in a page that no area holds a frame for.
    pub fn write_user(&mut self, va: usize, data: &[u8]) -> (ok: bool)
        requires
            va + data@.len() <= usize::MAX,
            areas_wf(old(self).areas@),
            areas_disjoint(old(self).areas@),
        ensures
            ok == forall|j: int| 0 <= j < data@.len() ==> #[trigger] user_byte(*old(self), va + j).is_some(),
            !ok ==> *final(self) == *old(self),
            ok ==> forall|j: int| 0 <= j < data@.len() ==> #[trigger] user_byte(*final(self), va + j) == Some(data@[j]),
            ok ==> forall|a: int| !(va <= a < va + data@.len()) ==> #[trigger] user_byte(*final(self), a) == user_byte(*old(self), a),
            final(self).page_table == old(self).page_table,
            same_shape(old(self).areas@, final(self).areas@),
            forall|al: FrameAllocator| old(self).wf(al) ==> #[trigger] final(self).wf(al),
    {
        let len = data.len();
        let mut j: usize = 0;
        while j < len
            invariant
                len == data@.len(),
                va + len <= usize::MAX,
                j <= len,
                forall|k: int| 0 <= k < j ==> #[trigger] user_byte(*self, va + k).is_some(),
            decreases len - j,
        {
            let a = va + j;
            if self.frame_holder(a / PAGE_SIZE).is_none() {
                proof {
                    assert(!user_byte(*self, va + j).is_some());
                }
                return false;
            }
            j = j + 1;
        }
        assert(same_shape(self.areas@, self.areas@));
        let ghost old_ms = *self;
        let mut j: usize = 0;
        while j < len
            invariant
                len == data@.len(),
                va + len <= usize::MAX,
                j <= len,
                areas_wf(old_ms.areas@),
                areas_disjoint(old_ms.areas@),
                *old(self) == old_ms,
                forall|k: int| 0 <= k < len ==> #[trigger] user_byte(old_ms, va + k).is_some(),
                self.page_table == old_ms.page_table,
                same_shape(old_ms.areas@, self.areas@),
                forall|k: int| 0 <= k < j ==> #[trigger] user_byte(*self, va + k) == Some(data@[k]),
                forall|a: int| !(va <= a < va + j) ==> #[trigger] user_byte(*self, a) == user_byte(old_ms, a),
            decreases len - j,
        {
            proof {
                lemma_same_shape_areas(old_ms.areas@, self.areas@);
            }
            let a = va + j;
            let vpn = a / PAGE_SIZE;
            let off = a % PAGE_SIZE;
            proof {
                assert(user_byte(old_ms, va + j).is_some());
                let p = choose|p: int| 0 <= p < old_ms.areas@.len() && #[trigger] old_ms.areas@[p].data_frames@.contains_key(vpn);
                assert(self.areas@[p].start_vpn == old_ms.areas@[p].start_vpn);
                assert(self.areas@[p].data_frames@.contains_key(vpn));
            }
            let i = self.frame_holder(vpn).unwrap();
            proof {
                assert(self.areas@[i as int].wf());
            }
            let ghost before = *self;
            self.write_frame_byte(i, vpn, off, data[j]);
            proof {
                lemma_same_shape_trans(old_ms.areas@, before.areas@, self.areas@);
                lemma_same_shape_areas(old_ms.areas@, self.areas@);
                assert forall|x: int| #[trigger] user_byte(*self, x) == (if x == a { Some(data@[j as int]) } else { user_byte(before, x) }) by {
                    let w = (x / PAGE_SIZE as int) as usize;
                    if !(0 <= x <= usize::MAX) {
                    } else if page_backed(before.areas@, w) {
                        let p = choose|p: int| 0 <= p < before.areas@.len() && #[trigger] before.areas@[p].data_frames@.contains_key(w);
                        assert(self.areas@[p].start_vpn == before.areas@[p].start_vpn);
                        assert(self.areas@[p].data_frames@.contains_key(w));
                        assert(page_backed(self.areas@, w));
                        let q = choose|q: int| 0 <= q < self.areas@.len() && #[trigger] self.areas@[q].data_frames@.contains_key(w);
                        lemma_one_holder(self.areas@, w, p, q);
                        if w == vpn {
                            lemma_one_holder(before.areas@, w, p, i as int);
                            if x != a {
                                assert(x % 4096 != a % 4096) by (nonlinear_arith)
                                    requires x / 4096 == a / 4096, x != a, x >= 0, a >= 0;
                            }
                        }
                    } else {
                        if page_backed(self.areas@, w) {
                            let q = choose|q: int| 0 <= q < self.areas@.len() && #[trigger] self.areas@[q].data_frames@.contains_key(w);
                            assert(self.areas@[q].start_vpn == before.areas@[q].start_vpn);
                            assert(before.areas@[q].data_frames@.contains_key(w));
                        }
                        assert(w != vpn);
                    }
                }
            }
            j = j + 1;
        }
        proof {
            assert forall|al: FrameAllocator| old(self).wf(al) implies #[trigger] self.wf(al) by {
                lemma_same_shape_wf(old_ms, *self, al);
            }
        }
        true
    }
}

} // verus!
