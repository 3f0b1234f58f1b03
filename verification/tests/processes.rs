use rcore_os::config::PAGE_SIZE;
use rcore_os::frame_allocator::FrameAllocator;
use rcore_os::memory_set::{MapPermission, MemorySet, MAP_R, MAP_U, MAP_W, MAP_X};
use rcore_os::page_table::PTE_V;
use rcore_os::syscall::process::{
    sys_exit, sys_getpid, sys_mmap, sys_munmap, sys_set_priority, sys_waitpid,
    sys_yield, put_time_val, sys_get_time, ChildProcess,
};
use rcore_os::task::TaskStatus;

fn space(a: &mut FrameAllocator) -> MemorySet {
    let mut ms = MemorySet::new_bare(a);
    ms.insert_framed_area(0x10000, 0x11000, MapPermission { bits: MAP_R | MAP_U }, a);
    ms
}

#[test]
fn mmap_rejects_bad_requests() {
    let mut a = FrameAllocator::new(0, 32);
    let mut ms = space(&mut a);
    assert_eq!(sys_mmap(&mut ms, &mut a, 0x20001, 0x1000, 3), -1);
    assert_eq!(sys_mmap(&mut ms, &mut a, 0x20000, 0x1000, 0), -1);
    assert_eq!(sys_mmap(&mut ms, &mut a, 0x20000, 0x1000, 8 | 1), -1);
    // reaches into the existing area
    assert_eq!(sys_mmap(&mut ms, &mut a, 0x10000, 0x10, 1), -1);
    assert_eq!(ms.areas.len(), 1);
}

#[test]
fn mmap_maps_with_requested_rights() {
    let mut a = FrameAllocator::new(0, 32);
    let mut ms = space(&mut a);
    let free = a.free_count();
    assert_eq!(sys_mmap(&mut ms, &mut a, 0x20000, 0x1800, 7), 0);
    assert_eq!(ms.areas.len(), 2);
    let e = ms.translate(0x21).unwrap();
    assert_eq!(e.flags, MAP_U | MAP_R | MAP_W | MAP_X | PTE_V);
    assert_eq!(a.free_count(), free - 2);
    let r = ms.translate(0x20).unwrap();
    assert_eq!(r.flags & MAP_W, MAP_W);
    assert_eq!(sys_mmap(&mut ms, &mut a, 0x30000, PAGE_SIZE, 1), 0);
    assert_eq!(ms.translate(0x30).unwrap().flags, MAP_U | MAP_R | PTE_V);
    // the same range again is refused
    assert_eq!(sys_mmap(&mut ms, &mut a, 0x20000, 0x1800, 7), -1);
}

#[test]
fn munmap_undoes_mmap() {
    let mut a = FrameAllocator::new(0, 32);
    let mut ms = space(&mut a);
    let free = a.free_count();
    assert_eq!(sys_mmap(&mut ms, &mut a, 0x20000, 0x2000, 3), 0);
    assert_eq!(sys_munmap(&mut ms, &mut a, 0x20000, 0x2000), 0);
    assert_eq!(ms.areas.len(), 1);
    assert!(ms.translate(0x20).is_none());
    assert!(ms.translate(0x21).is_none());
    assert!(ms.translate(0x10).is_some());
    assert_eq!(a.free_count(), free);
}

#[test]
fn munmap_rejects_bad_requests() {
    let mut a = FrameAllocator::new(0, 32);
    let mut ms = space(&mut a);
    assert_eq!(sys_munmap(&mut ms, &mut a, 0x10001, 0x10), -1);
    assert_eq!(sys_munmap(&mut ms, &mut a, 0x10000, 0x1001), -1);
    assert_eq!(sys_munmap(&mut ms, &mut a, 0x40000, 0x1000), -1);
    assert_eq!(ms.areas.len(), 1);
}

fn child(pid: usize, is_zombie: bool, exit_code: i32) -> ChildProcess {
    ChildProcess { pid, is_zombie, exit_code }
}

#[test]
fn waitpid_reports_missing_running_and_exited_children() {
    let mut children = vec![child(3, false, 0), child(4, true, 17), child(5, true, 9)];
    let none = sys_waitpid(&mut children, 8);
    assert_eq!((none.ret, none.exit_code), (-1, None));
    let running = sys_waitpid(&mut children, 3);
    assert_eq!((running.ret, running.exit_code), (-2, None));
    assert_eq!(children.len(), 3);
    let any = sys_waitpid(&mut children, -1);
    assert_eq!((any.ret, any.exit_code), (4, Some(17)));
    assert_eq!(children, vec![child(3, false, 0), child(5, true, 9)]);
    let five = sys_waitpid(&mut children, 5);
    assert_eq!((five.ret, five.exit_code), (5, Some(9)));
    let five_again = sys_waitpid(&mut children, 5);
    assert_eq!((five_again.ret, five_again.exit_code), (-1, None));
    let still = sys_waitpid(&mut children, -1);
    assert_eq!(still.ret, -2);
    let mut empty: Vec<ChildProcess> = Vec::new();
    assert_eq!(sys_waitpid(&mut empty, -1).ret, -1);
}

#[test]
fn simple_process_calls() {
    let mut status = TaskStatus::Running;
    assert_eq!(sys_yield(&mut status), 0);
    assert_eq!(status, TaskStatus::Ready);
    assert_eq!(sys_exit(&mut status, 42), 42);
    assert_eq!(status, TaskStatus::Exited);
    assert_eq!(sys_getpid(7), 7);
    assert_eq!(sys_set_priority(16), -1);
    assert_eq!(TaskStatus::UnInit, TaskStatus::UnInit);
}


#[test]
fn time_val_written_across_two_pages() {
    let mut a = FrameAllocator::new(0x90000, 0x90010);
    let mut ms = MemorySet::new_bare(&mut a);
    ms.insert_framed_area(0x10000, 0x12000, MapPermission { bits: MAP_R | MAP_W | MAP_U }, &mut a);
    let t = sys_get_time(5_000_123);
    assert!(put_time_val(&mut ms, 0x10ffc, t));
    let area = &ms.areas[0];
    let first = &area.data_frames.get(&0x10).unwrap().bytes;
    let second = &area.data_frames.get(&0x11).unwrap().bytes;
    let mut got: Vec<u8> = first[0xffc..0x1000].to_vec();
    got.extend_from_slice(&second[0..12]);
    let mut want: Vec<u8> = (5u64).to_le_bytes().to_vec();
    want.extend_from_slice(&(123u64).to_le_bytes());
    assert_eq!(got, want);
    assert_eq!(first[0xffb], 0);
    assert_eq!(second[12], 0);
    assert!(!put_time_val(&mut ms, 0x11ff8, t));
    assert_eq!(ms.areas[0].data_frames.get(&0x11).unwrap().bytes[0xff8], 0);
}
