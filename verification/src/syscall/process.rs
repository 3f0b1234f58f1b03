//! Process management system calls.
use vstd::prelude::*;
use crate::config::{PAGE_SIZE, TRAMPOLINE};
use crate::address::{floor_vpn, ceil_vpn};
use crate::frame_allocator::FrameAllocator;
use crate::memory_set::{
    first_area_from,
    MemorySet, MapType, MapPermission, MapArea, MAP_R, MAP_W, MAP_X, MAP_U, range_overlaps, range_inside,
    first_area, agree_outside, lemma_first_area_range,
};
use crate::task::{TaskControlBlock, TaskStatus, KernelEntry, brk_change_ok, brk_moved, task_built, task_creatable, exec_done, forked, kstack_added, kstack_free};
use crate::user_mem::framed_pages;
use crate::config::MAX_VPN;
use crate::trap::TrapContext;
use crate::page_table::{PageTableEntry, PTE_V, PTE_R, PTE_W, PTE_X, PTE_U};
use crate::user_mem::{user_byte, same_shape};
use crate::memory_set::{areas_wf, areas_disjoint, elf_loadable};
use vstd::bytes::{spec_u64_to_le_bytes, u64_to_le_bytes};

verus! {

/// A time as seconds and microseconds.
#[derive(Clone, Copy, PartialEq, Eq, Structural, Debug)]
pub struct TimeVal {
    pub sec: usize,
    pub usec: usize,
}

/// Ends the current task with `exit_code`: the task is marked exited and the
/// code is handed on.
pub fn sys_exit(status: &mut TaskStatus, exit_code: i32) -> (code: i32)
    ensures
        *final(status) == TaskStatus::Exited,
        code == exit_code,
{
    *status = TaskStatus::Exited;
    exit_code
}

/// Gives up the processor: the current task is marked ready again; returns 0.
pub fn sys_yield(status: &mut TaskStatus) -> (r: isize)
    ensures
        *final(status) == TaskStatus::Ready,
        r == 0,
{
    *status = TaskStatus::Ready;
    0
}

/// The pid of the current process.
pub fn sys_getpid(pid: usize) -> (r: isize)
    requires
        pid <= isize::MAX,
    ensures
        r == pid,
{
    pid as isize
}

/// Forks the current task `parent` into a child with pid `new_pid`: the
/// child is `parent.fork(..)` (a copy of the address space in frames of its
/// own, its own kernel stack) whose trap context gives 0 as the result of
/// `fork` (register `a0`); it becomes a running child of the parent and
/// joins the ready queue once. The parent sees the child's pid.
pub fn sys_fork(
    parent: &TaskControlBlock,
    children: &mut Vec<ChildProcess>,
    ready: &mut Vec<usize>,
    new_pid: usize,
    kernel_space: &mut MemorySet,
    allocator: &mut FrameAllocator,
    entry: KernelEntry,
) -> (r: (isize, TaskControlBlock))
    requires
        new_pid <= isize::MAX,
        old(allocator).wf(),
        parent.memory_set.wf(*old(allocator)),
        old(kernel_space).wf(*old(allocator)),
        parent.memory_set.page_table@.contains_key((MAX_VPN - 1) as usize),
        old(allocator).num_free() >= framed_pages(parent.memory_set.areas@) + 3,
        kstack_free(new_pid as int, *old(kernel_space)),
    ensures
        r.0 == new_pid as isize,
        final(allocator).wf(),
        final(kernel_space).wf(*final(allocator)),
        parent.memory_set.wf(*final(allocator)),
        r.1.memory_set.wf(*final(allocator)),
        parent.wf(*old(allocator)) ==> r.1.wf(*final(allocator)),
        forked(*parent, r.1, new_pid as int, entry),
        r.1.trap_cx.x@ == parent.trap_cx.x@.update(10, 0usize),
        kstack_added(new_pid as int, *old(kernel_space), *final(kernel_space)),
        final(children)@ == old(children)@.push(ChildProcess { pid: new_pid, is_zombie: false, exit_code: 0 }),
        final(ready)@ == old(ready)@.push(new_pid),
{
    let mut child = parent.fork(new_pid, kernel_space, allocator, entry);
    child.trap_cx.x[10] = 0;
    proof {
        assert(child.trap_cx.x@ =~= parent.trap_cx.x@.update(10, 0usize));
    }
    children.push(ChildProcess { pid: new_pid, is_zombie: false, exit_code: 0 });
    ready.push(new_pid);
    (new_pid as isize, child)
}

/// Replaces the program of the current task by the application `data`
/// (`None`: there is no application of that name): 0, with the task as
/// `TaskControlBlock::exec` leaves it; -1 and nothing changed otherwise.
pub fn sys_exec(task: &mut TaskControlBlock, data: Option<&[u8]>, allocator: &mut FrameAllocator, entry: KernelEntry) -> (r: isize)
    requires
        old(allocator).wf(),
        old(task).memory_set.wf(*old(allocator)),
        match data {
            Some(d) => elf_loadable(d@, old(allocator).num_free()),
            None => true,
        },
    ensures
        match data {
            Some(d) => r == 0 && exec_done(*old(task), *final(task), d@, entry, *old(allocator), *final(allocator)),
            None => r == -1 && *final(task) == *old(task) && *final(allocator) == *old(allocator),
        },
{
    match data {
        Some(d) => {
            task.exec(d, allocator, entry);
            0
        },
        None => -1,
    }
}

/// A child of the current process: its pid, whether it has exited (is a
/// zombie), and its exit code.
#[derive(Clone, Copy, PartialEq, Eq, Structural, Debug)]
pub struct ChildProcess {
    pub pid: usize,
    pub is_zombie: bool,
    pub exit_code: i32,
}

/// Whether a child is one that `waitpid(pid)` waits for: any child for -1.
pub open spec fn child_matches(p: ChildProcess, pid: isize) -> bool {
    pid == -1 || pid as usize == p.pid
}

/// The first exited child that `waitpid(pid)` waits for, from index `from` on.
pub open spec fn first_zombie_from(children: Seq<ChildProcess>, pid: isize, from: int) -> Option<int>
    decreases children.len() - from,
{
    if from < 0 || from >= children.len() {
        None
    } else if children[from].is_zombie && child_matches(children[from], pid) {
        Some(from)
    } else {
        first_zombie_from(children, pid, from + 1)
    }
}

pub open spec fn first_zombie(children: Seq<ChildProcess>, pid: isize) -> Option<int> {
    first_zombie_from(children, pid, 0)
}

/// The result of `waitpid`, and the exit code to write to the user.
#[derive(Clone, Copy, PartialEq, Eq, Structural, Debug)]
pub struct WaitOutcome {
    pub ret: isize,
    pub exit_code: Option<i32>,
}

proof fn lemma_first_zombie_range(children: Seq<ChildProcess>, pid: isize, from: int)
    requires
        first_zombie_from(children, pid, from).is_some(),
    ensures
        from <= first_zombie_from(children, pid, from).unwrap() < children.len(),
        0 <= first_zombie_from(children, pid, from).unwrap(),
        children[first_zombie_from(children, pid, from).unwrap()].is_zombie,
        child_matches(children[first_zombie_from(children, pid, from).unwrap()], pid),
    decreases children.len() - from,
{
    if from >= 0 && from < children.len() && !(children[from].is_zombie && child_matches(children[from], pid)) {
        lemma_first_zombie_range(children, pid, from + 1);
    }
}

/// With distinct pids, `waitpid` of a particular pid that finds an exited
/// child returns that pid, and the child is gone afterwards: no remaining
/// child matches, so waiting for the same pid again returns -1.
pub proof fn lemma_waitpid_reaps_once(children: Seq<ChildProcess>, pid: isize)
    requires
        pid != -1,
        forall|i: int, j: int| 0 <= i < j < children.len() ==> #[trigger] children[i].pid != #[trigger] children[j].pid,
        first_zombie(children, pid).is_some(),
    ensures
        children[first_zombie(children, pid).unwrap()].pid == pid as usize,
        !(exists|i: int| 0 <= i < children.len() - 1
            && #[trigger] child_matches(children.remove(first_zombie(children, pid).unwrap())[i], pid)),
{
    lemma_first_zombie_range(children, pid, 0);
    let k = first_zombie(children, pid).unwrap();
    let rest = children.remove(k);
    assert forall|i: int| 0 <= i < children.len() - 1 implies !#[trigger] child_matches(rest[i], pid) by {
        if i < k {
            assert(rest[i] == children[i]);
            assert(children[i].pid != children[k].pid);
        } else {
            assert(rest[i] == children[i + 1]);
            assert(children[k].pid != children[i + 1].pid);
        }
    }
}

/// Waits for a child: -1 if no child is `pid` (any child for -1), -2 if the
/// matching children are all still running; otherwise the first exited
/// matching child is removed and its pid returned, with its exit code.
pub fn sys_waitpid(children: &mut Vec<ChildProcess>, pid: isize) -> (r: WaitOutcome)
    requires
        forall|i: int| 0 <= i < old(children)@.len() ==> #[trigger] old(children)@[i].pid <= isize::MAX,
    ensures
        !(exists|i: int| 0 <= i < old(children)@.len() && #[trigger] child_matches(old(children)@[i], pid)) ==> {
            &&& r == WaitOutcome { ret: -1isize, exit_code: None }
            &&& final(children)@ == old(children)@
        },
        (exists|i: int| 0 <= i < old(children)@.len() && #[trigger] child_matches(old(children)@[i], pid))
            && first_zombie(old(children)@, pid).is_none() ==> {
            &&& r == WaitOutcome { ret: -2isize, exit_code: None }
            &&& final(children)@ == old(children)@
        },
        match first_zombie(old(children)@, pid) {
            Some(i) => {
                &&& 0 <= i < old(children)@.len()
                &&& r == WaitOutcome { ret: old(children)@[i].pid as isize, exit_code: Some(old(children)@[i].exit_code) }
                &&& final(children)@ == old(children)@.remove(i)
            },
            None => true,
        },
{
    let mut any = false;
    let mut k: usize = 0;
    while k < children.len()
        invariant
            k <= children@.len(),
            children@ == old(children)@,
            any <==> exists|i: int| 0 <= i < k && #[trigger] child_matches(children@[i], pid),
        decreases children@.len() - k,
    {
        let p = children[k];
        if pid == -1 || pid as usize == p.pid {
            any = true;
            assert(child_matches(children@[k as int], pid));
        } else {
            assert(!child_matches(children@[k as int], pid));
        }
        k = k + 1;
    }
    if !any {
        proof {
            if first_zombie(old(children)@, pid).is_some() {
                lemma_first_zombie_range(old(children)@, pid, 0);
            }
        }
        return WaitOutcome { ret: -1, exit_code: None };
    }
    let mut idx: usize = 0;
    while idx < children.len()
        invariant
            idx <= children@.len(),
            children@ == old(children)@,
            first_zombie(children@, pid) == first_zombie_from(children@, pid, idx as int),
        decreases children@.len() - idx,
    {
        let p = children[idx];
        if p.is_zombie && (pid == -1 || pid as usize == p.pid) {
            let child = children.remove(idx);
            let found_pid = child.pid;
            let exit_code = child.exit_code;
            return WaitOutcome { ret: found_pid as isize, exit_code: Some(exit_code) };
        }
        idx = idx + 1;
    }
    WaitOutcome { ret: -2, exit_code: None }
}

/// Splits `us` microseconds into seconds and microseconds.
pub fn sys_get_time(us: usize) -> (t: TimeVal)
    ensures
        t.sec == us / 1_000_000,
        t.usec == us % 1_000_000,
        t.sec * 1_000_000 + t.usec == us,
        t.usec < 1_000_000,
{
    TimeVal { sec: us / 1_000_000, usec: us % 1_000_000 }
}

/// The bytes of a `TimeVal` in user memory on the 64-bit little-endian
/// target: the seconds, then the microseconds, eight bytes each.
pub open spec fn timeval_bytes(t: TimeVal) -> Seq<u8> {
    spec_u64_to_le_bytes(t.sec as u64) + spec_u64_to_le_bytes(t.usec as u64)
}

/// Writes `t` to the user address `ts` of the address space, through the
/// frames that back it, also where it spans two pages; `false`, and nothing
/// written, if a byte of it lies in a page that no area backs (the kernel
/// then faults).
pub fn put_time_val(memory_set: &mut MemorySet, ts: usize, t: TimeVal) -> (ok: bool)
    requires
        ts + 16 <= usize::MAX,
        areas_wf(old(memory_set).areas@),
        areas_disjoint(old(memory_set).areas@),
    ensures
        ok == forall|j: int| 0 <= j < 16 ==> #[trigger] user_byte(*old(memory_set), ts + j).is_some(),
        !ok ==> *final(memory_set) == *old(memory_set),
        ok ==> forall|j: int| 0 <= j < 16 ==> #[trigger] user_byte(*final(memory_set), ts + j) == Some(timeval_bytes(t)[j]),
        ok ==> forall|a: int| !(ts <= a < ts + 16) ==> #[trigger] user_byte(*final(memory_set), a) == user_byte(*old(memory_set), a),
        final(memory_set).page_table == old(memory_set).page_table,
        same_shape(old(memory_set).areas@, final(memory_set).areas@),
        forall|al: FrameAllocator| old(memory_set).wf(al) ==> #[trigger] final(memory_set).wf(al),
{
    let mut bytes = u64_to_le_bytes(t.sec as u64);
    let mut usec = u64_to_le_bytes(t.usec as u64);
    bytes.append(&mut usec);
    assert(bytes@ == timeval_bytes(t));
    memory_set.write_user(ts, bytes.as_slice())
}

/// The rights of a mapping requested with `prot`: user mode, and read,
/// write and execute for bits 0, 1 and 2.
pub open spec fn mmap_perm_bits(prot: usize) -> u8 {
    let b0 = MAP_U;
    let b1 = if prot & 1 != 0 { b0 | MAP_R } else { b0 };
    let b2 = if prot & 2 != 0 { b1 | MAP_W } else { b1 };
    if prot & 4 != 0 { b2 | MAP_X } else { b2 }
}

/// The rights of a mapping are user mode always, and read, write or execute
/// exactly when bit 0, 1 or 2 of `prot` is set.
pub proof fn lemma_mmap_rights(prot: usize)
    ensures
        mmap_perm_bits(prot) & MAP_U != 0,
        (mmap_perm_bits(prot) & MAP_R != 0) == (prot & 1 != 0),
        (mmap_perm_bits(prot) & MAP_W != 0) == (prot & 2 != 0),
        (mmap_perm_bits(prot) & MAP_X != 0) == (prot & 4 != 0),
{
    crate::memory_set::lemma_rights_bits(prot & 1 != 0, prot & 2 != 0, prot & 4 != 0);
}

/// The rights that every page of the range holds after an `mmap`.
pub open spec fn mmap_page_rights(pt: Map<usize, PageTableEntry>, start: usize, len: usize, prot: usize) -> bool {
    forall|v: usize| floor_vpn(start as int) <= v < ceil_vpn(start + len) ==> {
        &&& #[trigger] pt.contains_key(v)
        &&& pt[v].flags & PTE_V != 0
        &&& pt[v].flags & PTE_U != 0
        &&& (pt[v].flags & PTE_R != 0) == (prot & 1 != 0)
        &&& (pt[v].flags & PTE_W != 0) == (prot & 2 != 0)
        &&& (pt[v].flags & PTE_X != 0) == (prot & 4 != 0)
    }
}

/// After a successful `mmap`, every page of the range is mapped valid and
/// user-accessible, and readable, writable or executable exactly when bit 0,
/// 1 or 2 of `prot` is set.
pub proof fn lemma_mmap_page_rights(m0: MemorySet, m1: MemorySet, start: usize, len: usize, prot: usize)
    requires
        mmap_effect(m0, m1, start, len, prot),
    ensures
        mmap_page_rights(m1.page_table@, start, len, prot),
{
    lemma_mmap_rights(prot);
    let a = m1.areas@.last();
    let bits = mmap_perm_bits(prot);
    crate::memory_set::lemma_valid_bit(bits);
    assert forall|v: usize| floor_vpn(start as int) <= v < ceil_vpn(start + len) implies {
        &&& #[trigger] m1.page_table@.contains_key(v)
        &&& m1.page_table@[v].flags & PTE_V != 0
        &&& m1.page_table@[v].flags & PTE_U != 0
        &&& (m1.page_table@[v].flags & PTE_R != 0) == (prot & 1 != 0)
        &&& (m1.page_table@[v].flags & PTE_W != 0) == (prot & 2 != 0)
        &&& (m1.page_table@[v].flags & PTE_X != 0) == (prot & 4 != 0)
    } by {
        assert(a.start_vpn <= v < a.end_vpn);
        assert(m1.page_table@.contains_key(v) && m1.page_table@[v] == a.entry_for(v));
    }
}

/// `mmap` accepts a page-aligned start and a `prot` that has some of the
/// three low bits and no other.
pub open spec fn mmap_args_ok(start: usize, prot: usize) -> bool {
    &&& start % PAGE_SIZE == 0
    &&& prot & !7usize == 0
    &&& prot & 7 != 0
}

/// The request of `len` bytes at `start` reaches into an area of `ms`.
pub open spec fn mmap_overlaps(ms: MemorySet, start: usize, len: usize) -> bool {
    exists|i: int| 0 <= i < ms.areas@.len() && #[trigger] range_overlaps(ms.areas@[i], start as int, len as int)
}

/// `mmap` of `len` bytes at `start` with `prot` maps a new area.
pub open spec fn mmap_maps(ms: MemorySet, start: usize, len: usize, prot: usize) -> bool {
    mmap_args_ok(start, prot) && !mmap_overlaps(ms, start, len)
}

/// The address space after a successful `mmap`: a new framed area over the
/// pages of the request, with the requested rights, mapped where nothing was.
pub open spec fn mmap_effect(old: MemorySet, new: MemorySet, start: usize, len: usize, prot: usize) -> bool {
    let lo = floor_vpn(start as int);
    let hi = ceil_vpn(start + len);
    &&& new.areas@.len() == old.areas@.len() + 1
    &&& new.areas@.drop_last() == old.areas@
    &&& new.areas@.last().start_vpn == lo
    &&& new.areas@.last().end_vpn == hi
    &&& new.areas@.last().map_type == MapType::Framed
    &&& new.areas@.last().map_perm.bits == mmap_perm_bits(prot)
    &&& new.areas@.last().mapped_in(new.page_table@)
    &&& forall|v: usize| lo <= v < hi ==> !#[trigger] old.page_table@.contains_key(v)
    &&& agree_outside(new.page_table@, old.page_table@, lo, hi)
    &&& new.page_table.root == old.page_table.root
}

/// Maps `len` bytes at `start` with the rights `prot`: -1 if `start` is not
/// page aligned, `prot` is invalid, or the range reaches into an existing
/// area; otherwise a new area is mapped and 0 returned.
pub fn sys_mmap(memory_set: &mut MemorySet, allocator: &mut FrameAllocator, start: usize, len: usize, prot: usize) -> (r: isize)
    requires
        old(memory_set).wf(*old(allocator)),
        start + len <= usize::MAX,
        mmap_maps(*old(memory_set), start, len, prot) ==> {
            &&& start + len <= TRAMPOLINE
            &&& old(allocator).num_free() >= ceil_vpn(start + len) - floor_vpn(start as int)
        },
    ensures
        final(memory_set).wf(*final(allocator)),
        r == (if mmap_maps(*old(memory_set), start, len, prot) { 0isize } else { -1isize }),
        r == -1 ==> *final(memory_set) == *old(memory_set) && *final(allocator) == *old(allocator),
        r == 0 ==> {
            &&& mmap_effect(*old(memory_set), *final(memory_set), start, len, prot)
            &&& mmap_page_rights(final(memory_set).page_table@, start, len, prot)
            &&& final(allocator).num_free() + (ceil_vpn(start + len) - floor_vpn(start as int)) == old(allocator).num_free()
        },
{
    if start % PAGE_SIZE != 0 {
        return -1;
    }
    if prot & !7usize != 0 || prot & 7 == 0 {
        return -1;
    }
    let mut bits: u8 = MAP_U;
    if prot & 1 != 0 {
        bits = bits | MAP_R;
    }
    if prot & 2 != 0 {
        bits = bits | MAP_W;
    }
    if prot & 4 != 0 {
        bits = bits | MAP_X;
    }
    if memory_set.is_mapped(start, len) {
        return -1;
    }
    proof {
        crate::config::lemma_layout_constants();
        let lo = floor_vpn(start as int);
        let hi = ceil_vpn(start + len);
        assert(hi <= crate::config::MAX_VPN);
        assert forall|i: int| 0 <= i < memory_set.areas@.len() implies
            #[trigger] memory_set.areas@[i].end_vpn <= lo || memory_set.areas@[i].start_vpn >= hi by {
            let a = memory_set.areas@[i];
            assert(!range_overlaps(a, start as int, len as int));
            assert(a.wf());
            if start >= a.end_vpn * PAGE_SIZE {
                assert(lo >= a.end_vpn) by (nonlinear_arith)
                    requires start >= a.end_vpn * 4096, lo == start / 4096;
            } else {
                assert(start + len < a.start_vpn * PAGE_SIZE);
                assert(hi <= a.start_vpn) by (nonlinear_arith)
                    requires start + len < a.start_vpn * 4096, hi == (start + len + 4095) / 4096;
            }
        }
        crate::memory_set::lemma_range_clear(*memory_set, *allocator, lo, hi);
    }
    let ghost m0 = *memory_set;
    memory_set.insert_framed_area(start, start + len, MapPermission { bits }, allocator);
    proof {
        lemma_mmap_page_rights(m0, *memory_set, start, len, prot);
    }
    0
}

/// Unmaps the area that starts at `start`: -1 if `start` is not page
/// aligned or the `len` bytes at `start` lie in no area; otherwise the first
/// area that starts at that page is removed and 0 returned.
pub fn sys_munmap(memory_set: &mut MemorySet, allocator: &mut FrameAllocator, start: usize, len: usize) -> (r: isize)
    requires
        old(memory_set).wf(*old(allocator)),
        start + len <= usize::MAX,
    ensures
        final(memory_set).wf(*final(allocator)),
        r == (if start % PAGE_SIZE == 0 && exists|i: int| 0 <= i < old(memory_set).areas@.len()
            && #[trigger] range_inside(old(memory_set).areas@[i], start as int, len as int) { 0isize } else { -1isize }),
        r == -1 ==> *final(memory_set) == *old(memory_set) && *final(allocator) == *old(allocator),
        r == 0 ==> munmap_effect(*old(memory_set), *final(memory_set), start),
{
    if start % PAGE_SIZE != 0 {
        return -1;
    }
    if !memory_set.can_munmap(start, len) {
        return -1;
    }
    let vpn = start / PAGE_SIZE;
    memory_set.remove_area_with_start_vpn(vpn, allocator);
    proof {
        match first_area(old(memory_set).areas@, vpn) {
            Some(i) => {
                lemma_first_area_range(old(memory_set).areas@, vpn, 0);
            },
            None => {},
        }
    }
    0
}

/// The address space after a successful `munmap` at `start`: the first area
/// that starts at that page, if any, is gone and its pages are unmapped.
pub open spec fn munmap_effect(old: MemorySet, new: MemorySet, start: usize) -> bool {
    let vpn = (start / PAGE_SIZE) as usize;
    &&& new.page_table.root == old.page_table.root
    &&& match first_area(old.areas@, vpn) {
        Some(i) => {
            let area = old.areas@[i];
            &&& 0 <= i < old.areas@.len()
            &&& new.areas@ == old.areas@.remove(i)
            &&& area.unmapped_in(new.page_table@)
            &&& agree_outside(new.page_table@, old.page_table@, area.start_vpn as int, area.end_vpn as int)
        },
        None => {
            &&& new.areas@ == old.areas@
            &&& new.page_table@ == old.page_table@
        },
    }
}

/// Moves the program break by `size`: the old break, or -1.
pub fn sys_sbrk(task: &mut TaskControlBlock, allocator: &mut FrameAllocator, size: i32) -> (r: isize)
    requires
        old(task).memory_set.wf(*old(allocator)),
        old(task).program_brk + 0x8000_0000 <= isize::MAX,
        old(task).heap_bottom <= isize::MAX,
        brk_change_ok(*old(task), size as int, *old(allocator)),
    ensures
        final(task).memory_set.wf(*final(allocator)),
        r == -1 ==> *final(task) == *old(task) && *final(allocator) == *old(allocator),
        r != -1 ==> r == old(task).program_brk && brk_moved(*old(task), *final(task), size as int),
        (r != -1) <==> (old(task).program_brk + size >= old(task).heap_bottom
            && first_area(old(task).memory_set.areas@, crate::task::heap_start_vpn(*old(task))).is_some()),
{
    match task.change_program_brk(size, allocator) {
        Some(old_brk) => old_brk as isize,
        None => -1,
    }
}

/// Starts a new child running the application `data` (`None`: there is no
/// application of that name): the child, with pid `new_pid`, gets its
/// address space, trap context and kernel stack built from the image as
/// `TaskControlBlock::new` builds them (not a copy of the parent's), becomes a
/// running child of the current process and joins the ready queue once.
/// Returns the pid and the child, or -1 and nothing changed.
pub fn sys_spawn(
    children: &mut Vec<ChildProcess>,
    ready: &mut Vec<usize>,
    data: Option<&[u8]>,
    new_pid: usize,
    kernel_space: &mut MemorySet,
    allocator: &mut FrameAllocator,
    entry: KernelEntry,
) -> (r: (isize, Option<TaskControlBlock>))
    requires
        new_pid <= isize::MAX,
        old(allocator).wf(),
        old(kernel_space).wf(*old(allocator)),
        match data {
            Some(d) => task_creatable(d@, new_pid as int, *old(kernel_space), *old(allocator)),
            None => true,
        },
    ensures
        final(allocator).wf(),
        final(kernel_space).wf(*final(allocator)),
        match data {
            None => {
                &&& r.0 == -1 && r.1.is_none()
                &&& final(children)@ == old(children)@ && final(ready)@ == old(ready)@
                &&& *final(kernel_space) == *old(kernel_space) && *final(allocator) == *old(allocator)
            },
            Some(d) => {
                &&& r.0 == new_pid as isize
                &&& r.1.is_some()
                &&& task_built(r.1.unwrap(), d@, new_pid as int, *old(kernel_space), *final(kernel_space), *final(allocator), entry)
                &&& final(children)@ == old(children)@.push(ChildProcess { pid: new_pid, is_zombie: false, exit_code: 0 })
                &&& final(ready)@ == old(ready)@.push(new_pid)
            },
        },
{
    match data {
        Some(d) => {
            let child = TaskControlBlock::new(d, new_pid, kernel_space, allocator, entry);
            children.push(ChildProcess { pid: new_pid, is_zombie: false, exit_code: 0 });
            ready.push(new_pid);
            (new_pid as isize, Some(child))
        },
        None => (-1, None),
    }
}

/// Setting a priority is not supported: -1.
pub fn sys_set_priority(_prio: isize) -> (r: isize)
    ensures
        r == -1,
{
    -1
}

/// An area appended after areas none of which starts at `vpn` is the first
/// one that starts there, if it does.
proof fn lemma_first_area_push(areas: Seq<MapArea>, a: MapArea, vpn: usize, from: int)
    requires
        0 <= from <= areas.len(),
        first_area_from(areas, vpn, from).is_none(),
        a.start_vpn == vpn,
    ensures
        first_area_from(areas.push(a), vpn, from) == Some(areas.len() as int),
    decreases areas.len() - from,
{
    if from < areas.len() {
        assert(areas.push(a)[from] == areas[from]);
        lemma_first_area_push(areas, a, vpn, from + 1);
    } else {
        assert(areas.push(a)[from] == a);
    }
}

/// After a successful `mmap` of a non-empty range (`mmap_effect` is what
/// `sys_mmap` ensures when it returns 0), `mmap` of the same range fails: the
/// range now reaches into an area, so by `sys_mmap`'s contract a second call
/// returns -1 and changes nothing. No page is mapped twice.
pub proof fn lemma_mmap_twice(m0: MemorySet, m1: MemorySet, start: usize, len: usize, prot: usize)
    requires
        mmap_effect(m0, m1, start, len, prot),
        len > 0,
    ensures
        mmap_overlaps(m1, start, len),
        !mmap_maps(m1, start, len, prot),
{
    let i = m1.areas@.len() - 1;
    let a = m1.areas@[i];
    assert(a == m1.areas@.last());
    assert(a.start_vpn * PAGE_SIZE <= start) by (nonlinear_arith)
        requires a.start_vpn == start / 4096;
    assert(start < a.end_vpn * PAGE_SIZE) by (nonlinear_arith)
        requires a.end_vpn == (start + len + 4095) / 4096, len > 0;
    assert(range_overlaps(m1.areas@[i], start as int, len as int));
}

/// A successful `mmap` followed by `munmap` of the same range gives back the
/// areas and the page table, when no area started at the range's first page
/// before; and that `munmap` succeeds.
pub proof fn lemma_mmap_munmap(m0: MemorySet, m1: MemorySet, m2: MemorySet, start: usize, len: usize, prot: usize)
    requires
        mmap_args_ok(start, prot),
        mmap_effect(m0, m1, start, len, prot),
        first_area(m0.areas@, (start / PAGE_SIZE) as usize).is_none(),
        munmap_effect(m1, m2, start),
    ensures
        exists|i: int| 0 <= i < m1.areas@.len() && #[trigger] range_inside(m1.areas@[i], start as int, len as int),
        m2.areas@ == m0.areas@,
        m2.page_table@ == m0.page_table@,
{
    let n = m0.areas@.len() as int;
    let a = m1.areas@[n];
    let vpn = (start / PAGE_SIZE) as usize;
    assert(m1.areas@ == m0.areas@.push(a)) by {
        assert(m1.areas@ =~= m1.areas@.drop_last().push(m1.areas@.last()));
    }
    assert(a.start_vpn == vpn);
    lemma_first_area_push(m0.areas@, a, vpn, 0);
    assert(first_area(m1.areas@, vpn) == Some(n));
    assert(m2.areas@ =~= m0.areas@);
    assert(a.start_vpn * PAGE_SIZE == start) by (nonlinear_arith)
        requires a.start_vpn == start / 4096, start % 4096 == 0;
    assert(start + len <= a.end_vpn * PAGE_SIZE) by (nonlinear_arith)
        requires a.end_vpn == (start + len + 4095) / 4096;
    assert(range_inside(m1.areas@[n], start as int, len as int));
    let pt0 = m0.page_table@;
    let pt1 = m1.page_table@;
    let pt2 = m2.page_table@;
    assert forall|v: usize| #[trigger] pt2.contains_key(v) == pt0.contains_key(v) && (pt2.contains_key(v) ==> pt2[v] == pt0[v]) by {
        if a.start_vpn <= v < a.end_vpn {
            assert(!pt2.contains_key(v));
            assert(!pt0.contains_key(v));
        } else {
            assert(pt2.contains_key(v) == pt1.contains_key(v));
            assert(pt1.contains_key(v) == pt0.contains_key(v));
        }
    }
    assert(pt2 =~= pt0);
}

} // verus!
