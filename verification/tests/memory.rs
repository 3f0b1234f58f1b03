use rcore_os::address::{va_ceil, va_floor, vpn_to_va};
use rcore_os::config::{KERNEL_STACK_SIZE, MAX_VPN, MEMORY_END, PAGE_SIZE, TRAMPOLINE, TRAP_CONTEXT_BASE};
use rcore_os::frame_allocator::{frame_alloc, FrameAllocator};
use rcore_os::memory_set::{
    kernel_layout_is_ok, kernel_stack_position, remap_test, KernelLayout, MapArea, MapPermission, MapType, MemorySet, MAP_R, MAP_U, MAP_W, MAP_X,
};
use rcore_os::page_table::{PageTable, PTE_R, PTE_V, PTE_W, PTE_X};

#[test]
fn page_rounding() {
    assert_eq!(va_floor(0x1fff), 1);
    assert_eq!(va_floor(0x2000), 2);
    assert_eq!(va_ceil(0x2000), 2);
    assert_eq!(va_ceil(0x2001), 3);
    assert_eq!(va_ceil(0), 0);
    assert_eq!(vpn_to_va(3), 0x3000);
    assert_eq!(vpn_to_va(MAX_VPN), TRAMPOLINE);
    assert_eq!(va_floor(TRAMPOLINE), MAX_VPN);
    assert_eq!(TRAP_CONTEXT_BASE + PAGE_SIZE, TRAMPOLINE);
}

#[test]
fn allocator_hands_out_in_order_and_reuses_latest() {
    let mut a = FrameAllocator::new(10, 13);
    assert_eq!(a.allocate(), Some(10));
    assert_eq!(a.allocate(), Some(11));
    a.deallocate(10);
    a.deallocate(11);
    assert_eq!(a.allocate(), Some(11));
    assert_eq!(a.allocate(), Some(10));
    assert_eq!(a.allocate(), Some(12));
    assert_eq!(a.allocate(), None);
    assert_eq!(a.free_count(), 0);
}

#[test]
fn allocate_then_deallocate_restores_free_frames() {
    let mut a = FrameAllocator::new(0, 2);
    let before = a.free_count();
    let p = a.allocate().unwrap();
    assert_eq!(a.free_count(), before - 1);
    a.deallocate(p);
    assert_eq!(a.free_count(), before);
    assert_eq!(a.allocate(), Some(p));
}

#[test]
fn frames_come_zeroed() {
    let mut a = FrameAllocator::new(5, 6);
    let f = frame_alloc(&mut a).unwrap();
    assert_eq!(f.ppn, 5);
    assert_eq!(f.bytes.len(), PAGE_SIZE);
    assert!(f.bytes.iter().all(|b| *b == 0));
    assert!(frame_alloc(&mut a).is_none());
}

#[test]
fn page_table_map_translate_unmap() {
    let mut a = FrameAllocator::new(0x80000, 0x80010);
    let mut pt = PageTable::new(&mut a).unwrap();
    assert_eq!(pt.root.ppn, 0x80000);
    assert_eq!(pt.token(), (8usize << 60) | 0x80000);
    assert!(pt.translate(7).is_none());
    pt.map(7, 0x1234, PTE_R | PTE_W);
    let e = pt.translate(7).unwrap();
    assert_eq!(e.ppn, 0x1234);
    assert_eq!(e.flags, PTE_R | PTE_W | PTE_V);
    assert!(e.is_valid() && e.readable() && e.writable() && !e.executable());
    pt.unmap(7);
    assert!(pt.translate(7).is_none());
}

#[test]
fn permissions_combine() {
    let p = MapPermission { bits: MAP_R }.union(MapPermission { bits: MAP_W });
    assert_eq!(p.bits, MAP_R | MAP_W);
    assert!(p.contains(MapPermission { bits: MAP_W }));
    assert!(!p.contains(MapPermission { bits: MAP_X }));
    assert_eq!(MapPermission::from_bits_truncate(0xff).bits, MAP_R | MAP_W | MAP_X | MAP_U);
}

#[test]
fn map_area_rounds_outwards() {
    let area = MapArea::new(0x1800, 0x3001, MapType::Framed, MapPermission { bits: MAP_R });
    assert_eq!(area.start_vpn, 1);
    assert_eq!(area.end_vpn, 4);
    assert!(area.data_frames.is_empty());
}

#[test]
fn framed_area_maps_fresh_frames_and_copies_data() {
    let mut a = FrameAllocator::new(100, 110);
    let mut pt = PageTable::new(&mut a).unwrap();
    let mut area = MapArea::new(0x10000, 0x12000, MapType::Framed, MapPermission { bits: MAP_R | MAP_U });
    area.map(&mut pt, &mut a);
    assert_eq!(a.free_count(), 7);
    let e0 = pt.translate(0x10).unwrap();
    let e1 = pt.translate(0x11).unwrap();
    assert_eq!(e0.ppn, 101);
    assert_eq!(e1.ppn, 102);
    assert_eq!(e0.flags, MAP_R | MAP_U | PTE_V);
    let mut data = vec![0u8; PAGE_SIZE + 3];
    data[0] = 0xaa;
    data[PAGE_SIZE] = 0xbb;
    data[PAGE_SIZE + 2] = 0xcc;
    area.copy_data(&data);
    let f0 = area.data_frames.get(&0x10).unwrap();
    let f1 = area.data_frames.get(&0x11).unwrap();
    assert_eq!(f0.bytes[0], 0xaa);
    assert_eq!(f1.bytes[0], 0xbb);
    assert_eq!(f1.bytes[2], 0xcc);
    assert_eq!(f1.bytes[3], 0);
    area.unmap(&mut pt, &mut a);
    assert!(pt.translate(0x10).is_none());
    assert!(pt.translate(0x11).is_none());
    assert_eq!(a.free_count(), 9);
    assert!(area.data_frames.is_empty());
}

#[test]
fn identical_area_maps_pages_to_themselves() {
    let mut a = FrameAllocator::new(100, 101);
    let mut pt = PageTable::new(&mut a).unwrap();
    let mut area = MapArea::new(0x5000, 0x7000, MapType::Identical, MapPermission { bits: MAP_R | MAP_X });
    area.map(&mut pt, &mut a);
    assert_eq!(pt.translate(5).unwrap().ppn, 5);
    assert_eq!(pt.translate(6).unwrap().ppn, 6);
    assert!(pt.translate(7).is_none());
    assert_eq!(a.free_count(), 0);
}

#[test]
fn area_append_and_shrink() {
    let mut a = FrameAllocator::new(100, 110);
    let mut pt = PageTable::new(&mut a).unwrap();
    let mut area = MapArea::new(0x10000, 0x10000, MapType::Framed, MapPermission { bits: MAP_R | MAP_W });
    area.map(&mut pt, &mut a);
    area.append_to(&mut pt, &mut a, 0x13);
    assert_eq!(area.end_vpn, 0x13);
    assert!(pt.translate(0x12).is_some());
    assert_eq!(a.free_count(), 6);
    area.shrink_to(&mut pt, &mut a, 0x11);
    assert_eq!(area.end_vpn, 0x11);
    assert!(pt.translate(0x10).is_some());
    assert!(pt.translate(0x11).is_none());
    assert!(pt.translate(0x12).is_none());
    assert_eq!(a.free_count(), 8);
}

#[test]
fn map_one_and_unmap_one() {
    let mut a = FrameAllocator::new(100, 103);
    let mut pt = PageTable::new(&mut a).unwrap();
    let mut area = MapArea::new(0x40000, 0x42000, MapType::Framed, MapPermission { bits: MAP_W });
    area.map_one(&mut pt, &mut a, 0x41);
    assert_eq!(pt.translate(0x41).unwrap().ppn, 101);
    assert!(area.data_frames.contains_key(&0x41));
    area.unmap_one(&mut pt, &mut a, 0x41);
    assert!(pt.translate(0x41).is_none());
    assert!(!area.data_frames.contains_key(&0x41));
    assert_eq!(a.free_count(), 2);
}

#[test]
fn map_one_replaces_a_kept_frame() {
    let mut a = FrameAllocator::new(100, 103);
    let mut pt = PageTable::new(&mut a).unwrap();
    let mut area = MapArea::new(0x40000, 0x42000, MapType::Framed, MapPermission { bits: MAP_W });
    area.map_one(&mut pt, &mut a, 0x41);
    pt.unmap(0x41);
    assert_eq!(a.free_count(), 1);
    area.map_one(&mut pt, &mut a, 0x41);
    assert_eq!(pt.translate(0x41).unwrap().ppn, 102);
    assert_eq!(area.data_frames.get(&0x41).unwrap().ppn, 102);
    assert_eq!(a.free_count(), 1);
    assert_eq!(a.allocate(), Some(101));
}

fn user_space(a: &mut FrameAllocator) -> MemorySet {
    let mut ms = MemorySet::new_bare(a);
    ms.insert_framed_area(0x10000, 0x12000, MapPermission { bits: MAP_R | MAP_U }, a);
    ms.insert_framed_area(0x20000, 0x20000, MapPermission { bits: MAP_R | MAP_W | MAP_U }, a);
    ms
}

#[test]
fn memory_set_insert_and_queries() {
    let mut a = FrameAllocator::new(100, 120);
    let ms = user_space(&mut a);
    assert_eq!(ms.areas.len(), 2);
    assert_eq!(ms.token(), (8usize << 60) | 100);
    assert!(ms.translate(0x11).is_some());
    assert!(ms.translate(0x12).is_none());
    // reaching into the first area, or touching its first byte
    assert!(ms.is_mapped(0x11000, 0x10));
    assert!(ms.is_mapped(0x0f000, 0x1000));
    assert!(!ms.is_mapped(0x0f000, 0xfff));
    assert!(!ms.is_mapped(0x12000, 0x1000));
    // lying within an area
    assert!(ms.can_munmap(0x10000, 0x2000));
    assert!(!ms.can_munmap(0x10000, 0x2001));
    assert!(!ms.can_munmap(0x30000, 0));
}

#[test]
fn memory_set_append_shrink_by_start() {
    let mut a = FrameAllocator::new(100, 120);
    let mut ms = user_space(&mut a);
    assert!(ms.append_to(0x20000, 0x22800, &mut a));
    assert_eq!(ms.areas[1].end_vpn, 0x23);
    assert!(ms.translate(0x22).is_some());
    assert!(ms.shrink_to(0x20000, 0x21000, &mut a));
    assert_eq!(ms.areas[1].end_vpn, 0x21);
    assert!(ms.translate(0x21).is_none());
    assert!(ms.translate(0x20).is_some());
    assert!(!ms.append_to(0x50000, 0x51000, &mut a));
    assert!(!ms.shrink_to(0x50000, 0x50000, &mut a));
}

#[test]
fn remove_area_by_start_returns_frames() {
    let mut a = FrameAllocator::new(100, 120);
    let mut ms = user_space(&mut a);
    let free = a.free_count();
    ms.remove_area_with_start_vpn(0x10, &mut a);
    assert_eq!(ms.areas.len(), 1);
    assert!(ms.translate(0x10).is_none());
    assert!(ms.translate(0x11).is_none());
    assert_eq!(a.free_count(), free + 2);
    ms.remove_area_with_start_vpn(0x77, &mut a);
    assert_eq!(ms.areas.len(), 1);
}

#[test]
fn remove_framed_area_keeps_the_area() {
    let mut a = FrameAllocator::new(100, 120);
    let mut ms = user_space(&mut a);
    ms.remove_framed_area(0x10000, 0x11000, &mut a);
    assert_eq!(ms.areas.len(), 2);
    assert!(ms.translate(0x10).is_none());
    assert!(ms.translate(0x11).is_some());
}

fn layout() -> KernelLayout {
    KernelLayout {
        stext: 0x8020_0000,
        etext: 0x8020_3000,
        srodata: 0x8020_3000,
        erodata: 0x8020_5000,
        sdata: 0x8020_5000,
        edata: 0x8020_6000,
        sbss_with_stack: 0x8020_6000,
        ebss: 0x8022_0000,
        ekernel: 0x8022_0000,
        strampoline: 0x8020_1000,
    }
}

#[test]
fn kernel_space_remap_rights() {
    let mut a = FrameAllocator::new(0x80300, 0x80310);
    let ks = MemorySet::new_kernel(layout(), &mut a);
    assert_eq!(ks.areas.len(), 5);
    let mid_text = va_floor((0x8020_0000 + 0x8020_3000) / 2);
    let mid_rodata = va_floor((0x8020_3000 + 0x8020_5000) / 2);
    let mid_data = va_floor((0x8020_5000 + 0x8020_6000) / 2);
    let t = ks.translate(mid_text).unwrap();
    let r = ks.translate(mid_rodata).unwrap();
    let d = ks.translate(mid_data).unwrap();
    assert!(!t.writable() && t.executable());
    assert!(!r.writable() && !r.executable());
    assert!(d.writable() && !d.executable());
    assert_eq!(t.ppn, mid_text);
    let tramp = ks.translate(MAX_VPN).unwrap();
    assert_eq!(tramp.ppn, 0x80201);
    assert_eq!(tramp.flags, PTE_R | PTE_X | PTE_V);
    assert!(ks.translate(va_floor(MEMORY_END - 1)).is_some());
    assert!(ks.translate(va_floor(MEMORY_END)).is_none());
    assert_eq!(a.free_count(), 15);
}

#[test]
fn remap_check_on_kernel_and_bare_spaces() {
    let mut a = FrameAllocator::new(0x80300, 0x80310);
    let mut ks = MemorySet::new_kernel(layout(), &mut a);
    assert!(remap_test(&ks, &layout()));
    let (bottom, top) = kernel_stack_position(0);
    ks.insert_framed_area(bottom, top, MapPermission { bits: MAP_R | MAP_W }, &mut a);
    assert!(remap_test(&ks, &layout()));
    let bare = MemorySet::new_bare(&mut a);
    assert!(!remap_test(&bare, &layout()));
}

#[test]
fn kernel_stacks_are_separated_by_guard_pages() {
    let (b0, t0) = kernel_stack_position(0);
    let (b1, t1) = kernel_stack_position(1);
    assert_eq!(t0, TRAMPOLINE);
    assert_eq!(t0 - b0, KERNEL_STACK_SIZE);
    assert_eq!(t1, TRAMPOLINE - KERNEL_STACK_SIZE - PAGE_SIZE);
    assert_eq!(b0 - t1, PAGE_SIZE);
    assert_eq!(t1 - b1, KERNEL_STACK_SIZE);
}

#[test]
fn kernel_layout_checks() {
    assert!(kernel_layout_is_ok(&layout()));
    let mut overlapping = layout();
    overlapping.etext = 0x8020_3001;
    assert!(!kernel_layout_is_ok(&overlapping));
    let mut unaligned = layout();
    unaligned.strampoline = 0x8020_1010;
    assert!(kernel_layout_is_ok(&unaligned));
    let mut too_big = layout();
    too_big.ekernel = MEMORY_END + 1;
    assert!(!kernel_layout_is_ok(&too_big));
}
