use rcore_os::config::{MAX_VPN, PAGE_SIZE, TRAP_CONTEXT_BASE, USER_STACK_SIZE};
use rcore_os::elf::read_elf;
use rcore_os::elf::SegmentKind;
use rcore_os::frame_allocator::FrameAllocator;
use rcore_os::memory_set::{KernelLayout, MapType, MemorySet, MAP_R, MAP_U, MAP_W, MAP_X};
use rcore_os::syscall::process::{sys_exec, sys_fork, sys_sbrk, sys_spawn, ChildProcess};
use rcore_os::task::{KernelEntry, TaskControlBlock, TaskStatus};

const PT_LOAD: u32 = 1;
const PT_NOTE: u32 = 4;

struct Seg {
    kind: u32,
    flags: u32,
    offset: u64,
    vaddr: u64,
    file_size: u64,
    mem_size: u64,
}

fn put16(v: &mut Vec<u8>, at: usize, x: u16) {
    v[at..at + 2].copy_from_slice(&x.to_le_bytes());
}
fn put32(v: &mut Vec<u8>, at: usize, x: u32) {
    v[at..at + 4].copy_from_slice(&x.to_le_bytes());
}
fn put64(v: &mut Vec<u8>, at: usize, x: u64) {
    v[at..at + 8].copy_from_slice(&x.to_le_bytes());
}

/// A 64-bit RISC-V executable with the given program headers, `len` bytes long.
fn elf_image(entry: u64, segs: &[Seg], len: usize) -> Vec<u8> {
    let mut v = vec![0u8; len];
    v[0..4].copy_from_slice(&[0x7f, b'E', b'L', b'F']);
    v[4] = 2;
    v[5] = 1;
    v[6] = 1;
    put16(&mut v, 16, 2);
    put16(&mut v, 18, 0xf3);
    put32(&mut v, 20, 1);
    put64(&mut v, 24, entry);
    put64(&mut v, 32, 64);
    put16(&mut v, 52, 64);
    put16(&mut v, 54, 56);
    put16(&mut v, 56, segs.len() as u16);
    for (i, s) in segs.iter().enumerate() {
        let at = 64 + 56 * i;
        put32(&mut v, at, s.kind);
        put32(&mut v, at + 4, s.flags);
        put64(&mut v, at + 8, s.offset);
        put64(&mut v, at + 16, s.vaddr);
        put64(&mut v, at + 24, s.vaddr);
        put64(&mut v, at + 32, s.file_size);
        put64(&mut v, at + 40, s.mem_size);
        put64(&mut v, at + 48, 0x1000);
    }
    v
}

/// Code (R X) at 0x10000 holding 0x30 bytes from offset 0x100, data (R W) at
/// 0x11000 with 0x10 bytes from offset 0x200 and 0x1800 bytes in memory, and
/// a note.
fn sample_image() -> Vec<u8> {
    let mut v = elf_image(
        0x10004,
        &[
            Seg { kind: PT_LOAD, flags: 5, offset: 0x100, vaddr: 0x10000, file_size: 0x30, mem_size: 0x30 },
            Seg { kind: PT_NOTE, flags: 4, offset: 0, vaddr: 0, file_size: 0, mem_size: 0 },
            Seg { kind: PT_LOAD, flags: 6, offset: 0x200, vaddr: 0x11000, file_size: 0x10, mem_size: 0x1800 },
        ],
        0x300,
    );
    for i in 0..0x30 {
        v[0x100 + i] = (i + 1) as u8;
    }
    for i in 0..0x10 {
        v[0x200 + i] = 0xd0 + i as u8;
    }
    v
}

#[test]
fn read_elf_reads_headers() {
    let img = sample_image();
    let (h, segs) = read_elf(&img).unwrap();
    assert_eq!(h.magic, [0x7f, b'E', b'L', b'F']);
    assert!(h.is_64);
    assert_eq!(h.entry_point, 0x10004);
    assert_eq!(h.ph_count, 3);
    assert_eq!(segs.len(), 3);
    assert_eq!(segs[0].kind, SegmentKind::Load);
    assert_eq!(segs[1].kind, SegmentKind::Other);
    assert_eq!(segs[2].vaddr, 0x11000);
    assert_eq!(segs[2].mem_size, 0x1800);
    assert_eq!(segs[2].offset, 0x200);
    assert_eq!(segs[2].flags, 6);
}

#[test]
fn read_elf_rejects_bad_images() {
    let mut img = sample_image();
    img[1] = b'X';
    assert!(read_elf(&img).is_none());
    assert!(read_elf(&[0x7f, b'E']).is_none());
    let mut short = sample_image();
    short.truncate(40);
    assert!(read_elf(&short).is_none());
}

#[test]
fn from_elf_lays_out_user_space() {
    let img = sample_image();
    let mut a = FrameAllocator::new(0x90000, 0x90020);
    let (ms, user_sp, entry) = MemorySet::from_elf(&img, 0x80201000, &mut a);
    assert_eq!(entry, 0x10004);
    assert_eq!(ms.areas.len(), 5);
    let code = &ms.areas[0];
    assert_eq!((code.start_vpn, code.end_vpn), (0x10, 0x11));
    assert_eq!(code.map_perm.bits, MAP_U | MAP_R | MAP_X);
    let data = &ms.areas[1];
    assert_eq!((data.start_vpn, data.end_vpn), (0x11, 0x13));
    assert_eq!(data.map_perm.bits, MAP_U | MAP_R | MAP_W);
    let f = code.data_frames.get(&0x10).unwrap();
    assert_eq!(f.bytes[0], 1);
    assert_eq!(f.bytes[0x2f], 0x30);
    assert_eq!(f.bytes[0x30], 0);
    let g = data.data_frames.get(&0x11).unwrap();
    assert_eq!(g.bytes[0xf], 0xdf);
    assert_eq!(g.bytes[0x10], 0);
    // stack one guard page above the highest segment
    let bottom = 0x13000 + PAGE_SIZE;
    assert_eq!(user_sp, bottom + USER_STACK_SIZE);
    let stack = &ms.areas[2];
    assert_eq!((stack.start_vpn, stack.end_vpn), (0x14, 0x16));
    let heap = &ms.areas[3];
    assert_eq!((heap.start_vpn, heap.end_vpn), (0x16, 0x16));
    let trap = &ms.areas[4];
    assert_eq!((trap.start_vpn, trap.end_vpn), (MAX_VPN - 1, MAX_VPN));
    assert_eq!(trap.map_type, MapType::Framed);
    assert!(ms.translate(0x13).is_none());
    assert!(ms.translate(MAX_VPN - 1).is_some());
    assert_eq!(ms.translate(MAX_VPN).unwrap().ppn, 0x80201);
    // root, 1 + 2 segment pages, 2 stack pages, 1 trap context page
    assert_eq!(a.free_count(), 0x20 - 7);
}

#[test]
fn try_from_elf_refuses_what_would_not_load() {
    let img = sample_image();
    let mut a = FrameAllocator::new(0, 6);
    assert!(MemorySet::try_from_elf(&img, 0x80201000, &mut a).is_none());
    assert_eq!(a.free_count(), 6);
    let mut b = FrameAllocator::new(0, 7);
    assert!(MemorySet::try_from_elf(&img, 0x80201000, &mut b).is_some());
    // overlapping segments
    let clash = elf_image(
        0x10000,
        &[
            Seg { kind: PT_LOAD, flags: 5, offset: 0, vaddr: 0x10000, file_size: 0, mem_size: 0x1000 },
            Seg { kind: PT_LOAD, flags: 6, offset: 0, vaddr: 0x10800, file_size: 0, mem_size: 0x1000 },
        ],
        0x100,
    );
    let mut c = FrameAllocator::new(0, 40);
    assert!(MemorySet::try_from_elf(&clash, 0x80201000, &mut c).is_none());
    // file part out of the image
    let outside = elf_image(
        0x10000,
        &[Seg { kind: PT_LOAD, flags: 5, offset: 0x80, vaddr: 0x10000, file_size: 0x1000, mem_size: 0x1000 }],
        0x100,
    );
    assert!(MemorySet::try_from_elf(&outside, 0x80201000, &mut c).is_none());
    // undefined segment type
    let odd = elf_image(0x10000, &[Seg { kind: 0x9, flags: 5, offset: 0, vaddr: 0x10000, file_size: 0, mem_size: 1 }], 0x100);
    assert!(MemorySet::try_from_elf(&odd, 0x80201000, &mut c).is_none());
    assert!(!MemorySet::elf_is_loadable(&odd, 40));
    assert!(MemorySet::elf_is_loadable(&img, 7));
    assert!(!MemorySet::elf_is_loadable(&img, 6));
}

fn kernel() -> (MemorySet, FrameAllocator) {
    let mut a = FrameAllocator::new(0x80300, 0x80400);
    let layout = KernelLayout {
        stext: 0x8020_0000,
        etext: 0x8020_3000,
        srodata: 0x8020_3000,
        erodata: 0x8020_5000,
        sdata: 0x8020_5000,
        edata: 0x8020_6000,
        sbss_with_stack: 0x8020_6000,
        ebss: 0x8022_0000,
        ekernel: 0x8022_0000,
        strampoline: 0x8020_1000,
    };
    let ks = MemorySet::new_kernel(layout, &mut a);
    (ks, a)
}

fn entry() -> KernelEntry {
    KernelEntry { strampoline: 0x8020_1000, trap_handler: 0x8020_2000, trap_return: 0x8020_2100, sstatus: 0x122 }
}

#[test]
fn task_control_block_starts_at_entry() {
    let (mut ks, mut a) = kernel();
    let img = sample_image();
    let t = TaskControlBlock::new(&img, 1, &mut ks, &mut a, entry());
    assert_eq!(t.task_status, TaskStatus::Ready);
    assert_eq!(t.base_size, 0x14000 + USER_STACK_SIZE);
    assert_eq!(t.heap_bottom, t.base_size);
    assert_eq!(t.program_brk, t.base_size);
    let cx = t.get_trap_cx();
    assert_eq!(cx.sepc, 0x10004);
    assert_eq!(cx.x[2], t.base_size);
    assert_eq!(cx.sstatus, 0x22);
    assert_eq!(cx.kernel_satp, ks.token());
    assert_eq!(cx.trap_handler, 0x8020_2000);
    let (kb, kt) = rcore_os::memory_set::kernel_stack_position(1);
    assert_eq!(cx.kernel_sp, kt);
    assert_eq!(t.task_cx.sp, kt);
    assert_eq!(t.task_cx.ra, 0x8020_2100);
    assert_eq!(t.trap_cx_ppn, t.memory_set.translate(MAX_VPN - 1).unwrap().ppn);
    assert_eq!(t.get_user_token(), t.memory_set.token());
    let last = ks.areas.last().unwrap();
    assert_eq!(last.start_vpn, kb / PAGE_SIZE);
    assert_eq!(last.end_vpn, kt / PAGE_SIZE);
    assert!(ks.translate(kb / PAGE_SIZE).is_some());
    assert_eq!(TRAP_CONTEXT_BASE / PAGE_SIZE, MAX_VPN - 1);
}

#[test]
fn try_new_refuses_a_taken_kernel_stack() {
    let (mut ks, mut a) = kernel();
    let img = sample_image();
    let t = TaskControlBlock::try_new(&img, 2, &mut ks, &mut a, entry());
    assert!(t.is_some());
    let areas = ks.areas.len();
    assert!(TaskControlBlock::try_new(&img, 2, &mut ks, &mut a, entry()).is_none());
    assert_eq!(ks.areas.len(), areas);
    let mut bad = img.clone();
    bad[0] = 0;
    assert!(TaskControlBlock::try_new(&bad, 3, &mut ks, &mut a, entry()).is_none());
}

#[test]
fn program_break_grows_and_shrinks_back() {
    let (mut ks, mut a) = kernel();
    let img = sample_image();
    let mut t = TaskControlBlock::new(&img, 0, &mut ks, &mut a, entry());
    let brk0 = t.program_brk;
    let free0 = a.free_count();
    assert_eq!(t.change_program_brk(0x1800, &mut a), Some(brk0));
    assert_eq!(t.program_brk, brk0 + 0x1800);
    assert!(t.memory_set.translate(brk0 / PAGE_SIZE).is_some());
    assert!(t.memory_set.translate(brk0 / PAGE_SIZE + 1).is_some());
    assert_eq!(a.free_count(), free0 - 2);
    assert_eq!(sys_sbrk(&mut t, &mut a, -0x1800), (brk0 + 0x1800) as isize);
    assert_eq!(t.program_brk, brk0);
    assert!(t.memory_set.translate(brk0 / PAGE_SIZE).is_none());
    assert_eq!(a.free_count(), free0);
    // below the heap bottom
    assert_eq!(t.change_program_brk(-1, &mut a), None);
    assert_eq!(sys_sbrk(&mut t, &mut a, -1), -1);
    assert_eq!(t.program_brk, brk0);
}

#[test]
fn user_stack_goes_above_the_highest_segment() {
    let mut img = elf_image(
        0x0,
        &[
            Seg { kind: PT_LOAD, flags: 5, offset: 0x100, vaddr: 0xa000, file_size: 0x10, mem_size: 0x10 },
            Seg { kind: PT_LOAD, flags: 6, offset: 0x200, vaddr: 0x0, file_size: 0x10, mem_size: 0x10 },
        ],
        0x300,
    );
    img[0x100] = 1;
    let mut a = FrameAllocator::new(0x90000, 0x90020);
    let (ms, user_sp, _) = MemorySet::from_elf(&img, 0x80201000, &mut a);
    assert_eq!(user_sp, 0xb000 + PAGE_SIZE + USER_STACK_SIZE);
    let stack = &ms.areas[2];
    assert_eq!((stack.start_vpn, stack.end_vpn), (0xc, 0xe));
    assert!(ms.translate(0xb).is_none());
}

#[test]
fn misaligned_program_headers_are_refused() {
    let mut img = sample_image();
    put64(&mut img, 32, 65);
    assert!(read_elf(&img).is_none());
}

#[test]
fn release_returns_every_frame() {
    let img = sample_image();
    let mut a = FrameAllocator::new(0x90000, 0x90020);
    let before = a.free_count();
    let (mut ms, _, _) = MemorySet::from_elf(&img, 0x80201000, &mut a);
    let used = before - a.free_count();
    ms.release(&mut a);
    assert!(ms.areas.is_empty());
    assert!(ms.translate(0x10).is_none());
    assert!(ms.translate(MAX_VPN).is_some());
    assert!(used > 1);
    assert_eq!(a.free_count(), before - 1);
}

#[test]
fn images_at_odd_addresses_are_read() {
    let img = sample_image();
    let mut shifted = vec![0u8; 1];
    shifted.extend_from_slice(&img);
    for start in 1..shifted.len().min(9) {
        let mut v = vec![0u8; start];
        v.extend_from_slice(&img);
        let (h, segs) = read_elf(&v[start..]).unwrap();
        assert_eq!(h.entry_point, 0x10004);
        assert_eq!(segs.len(), 3);
    }
    let (_, segs) = read_elf(&shifted[1..]).unwrap();
    assert_eq!(segs[2].mem_size, 0x1800);
}

#[test]
fn exec_replaces_the_program() {
    let (mut ks, mut a) = kernel();
    let img = sample_image();
    let mut t = TaskControlBlock::new(&img, 1, &mut ks, &mut a, entry());
    let kernel_sp = t.trap_cx.kernel_sp;
    let mut other = elf_image(
        0x40008,
        &[Seg { kind: PT_LOAD, flags: 5, offset: 0x100, vaddr: 0x40000, file_size: 0x8, mem_size: 0x8 }],
        0x200,
    );
    other[0x100] = 0xaa;
    assert_eq!(sys_exec(&mut t, None, &mut a, entry()), -1);
    assert_eq!(t.trap_cx.sepc, 0x10004);
    assert_eq!(sys_exec(&mut t, Some(&other), &mut a, entry()), 0);
    assert_eq!(t.trap_cx.sepc, 0x40008);
    assert_eq!(t.trap_cx.kernel_sp, kernel_sp);
    assert_eq!(t.base_size, 0x42000 + USER_STACK_SIZE);
    assert_eq!(t.program_brk, t.base_size);
    assert!(t.memory_set.translate(0x10).is_none());
    let code = &t.memory_set.areas[0];
    assert_eq!(code.start_vpn, 0x40);
    assert_eq!(code.data_frames.get(&0x40).unwrap().bytes[0], 0xaa);
}

#[test]
fn spawn_builds_a_queued_child() {
    let (mut ks, mut a) = kernel();
    let img = sample_image();
    let mut children = vec![ChildProcess { pid: 1, is_zombie: true, exit_code: 3 }];
    let mut ready = vec![1usize];
    let (r, none) = sys_spawn(&mut children, &mut ready, None, 4, &mut ks, &mut a, entry());
    assert_eq!(r, -1);
    assert!(none.is_none());
    assert_eq!((children.len(), ready.len()), (1, 1));
    let (r, child) = sys_spawn(&mut children, &mut ready, Some(&img), 4, &mut ks, &mut a, entry());
    assert_eq!(r, 4);
    let child = child.unwrap();
    assert_eq!(child.trap_cx.sepc, 0x10004);
    assert_eq!(children[1], ChildProcess { pid: 4, is_zombie: false, exit_code: 0 });
    assert_eq!(ready, vec![1, 4]);
}

#[test]
fn fork_copies_into_fresh_frames() {
    let (mut ks, mut a) = kernel();
    let img = sample_image();
    let mut parent = TaskControlBlock::new(&img, 1, &mut ks, &mut a, entry());
    parent.trap_cx.x[10] = 77;
    parent.trap_cx.x[5] = 5;
    let mut children = Vec::new();
    let mut ready = Vec::new();
    let (r, child) = sys_fork(&parent, &mut children, &mut ready, 2, &mut ks, &mut a, entry());
    assert_eq!(r, 2);
    assert_eq!(child.trap_cx.x[10], 0);
    assert_eq!(child.trap_cx.x[5], 5);
    assert_eq!(child.trap_cx.sepc, parent.trap_cx.sepc);
    let (_, kt) = rcore_os::memory_set::kernel_stack_position(2);
    assert_eq!(child.trap_cx.kernel_sp, kt);
    assert_eq!(child.memory_set.areas.len(), parent.memory_set.areas.len());
    for (p, c) in parent.memory_set.areas.iter().zip(child.memory_set.areas.iter()) {
        assert_eq!((p.start_vpn, p.end_vpn), (c.start_vpn, c.end_vpn));
        for (v, f) in p.data_frames.iter() {
            let g = c.data_frames.get(v).unwrap();
            assert_eq!(f.bytes, g.bytes);
            assert_ne!(f.ppn, g.ppn);
        }
    }
    assert_eq!(child.program_brk, parent.program_brk);
    assert_eq!(children, vec![ChildProcess { pid: 2, is_zombie: false, exit_code: 0 }]);
    assert_eq!(ready, vec![2]);
}
