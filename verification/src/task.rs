//! Task control blocks: the address space, trap context and program break of
//! an application, and how the program break moves.
use vstd::prelude::*;
use crate::config::{PAGE_SIZE, MAX_VPN, TRAMPOLINE, TRAP_CONTEXT_BASE, KERNEL_STACK_SIZE};
use crate::address::{floor_vpn, ceil_vpn, va_floor};
use crate::frame_allocator::FrameAllocator;
use crate::memory_set::{
    MemorySet, MapArea, MapType, MapPermission, MAP_R, MAP_W, first_area, agree_outside, elf_loadable,
    user_space_built, user_stack_top, load_segments, load_pages_total, kernel_stack_position,
    lemma_wf_fewer_free, is_zeroed_area, KernelLayout, kernel_sections_mapped, area_frames, first_area_from,
};
use crate::elf::{elf_segments, elf_header_of};
use crate::page_table::{PageTableEntry, satp_token, PTE_R, PTE_X, PTE_V};
use crate::user_mem::{copied_space, framed_pages};
use crate::trap::{TrapContext, SSTATUS_SPP};

verus! {

/// The state of a task.
#[derive(Clone, Copy, PartialEq, Eq, Structural, Debug)]
pub enum TaskStatus {
    /// Not initialized.
    UnInit,
    /// Ready to run.
    Ready,
    /// Running.
    Running,
    /// Exited.
    Exited,
}

/// The kernel-mode registers saved by a task switch: the return address, the
/// stack pointer and the callee-saved registers.
#[derive(Clone, Copy, Debug)]
pub struct TaskContext {
    pub ra: usize,
    pub sp: usize,
    pub s: [usize; 12],
}

impl TaskContext {
    /// A context that, when switched to, runs `trap_return` on the kernel
    /// stack whose top is `kstack_ptr`.
    pub fn goto_trap_return(trap_return: usize, kstack_ptr: usize) -> (cx: Self)
        ensures
            cx.ra == trap_return,
            cx.sp == kstack_ptr,
            cx.s@ == Seq::new(12, |i: int| 0usize),
    {
        let cx = TaskContext { ra: trap_return, sp: kstack_ptr, s: [0usize; 12] };
        assert(cx.s@ =~= Seq::new(12, |i: int| 0usize));
        cx
    }
}

/// Addresses that only the running kernel knows and a new task needs: the
/// trampoline code, the trap handler, the `trap_return` routine, and the
/// current `sstatus`.
#[derive(Clone, Copy, Debug)]
pub struct KernelEntry {
    pub strampoline: usize,
    pub trap_handler: usize,
    pub trap_return: usize,
    pub sstatus: usize,
}

/// The task control block of an application.
pub struct TaskControlBlock {
    pub task_cx: TaskContext,
    pub task_status: TaskStatus,
    pub memory_set: MemorySet,
    /// The frame that holds the trap context.
    pub trap_cx_ppn: usize,
    /// The trap context held in that frame.
    pub trap_cx: TrapContext,
    /// The top of the program as loaded from the image.
    pub base_size: usize,
    pub heap_bottom: usize,
    pub program_brk: usize,
}

/// Bottom and top of the kernel stack of application `app_id`.
pub open spec fn kstack_top(app_id: int) -> int {
    TRAMPOLINE - app_id * (KERNEL_STACK_SIZE + PAGE_SIZE)
}

pub open spec fn kstack_bottom(app_id: int) -> int {
    kstack_top(app_id) - KERNEL_STACK_SIZE
}

/// A task can be created for `elf_data` as application `app_id`: the image
/// loads with two frames to spare for the kernel stack, whose place in the
/// kernel space is free.
pub open spec fn task_creatable(elf_data: Seq<u8>, app_id: int, kernel_space: MemorySet, allocator: FrameAllocator) -> bool {
    &&& allocator.num_free() >= 2
    &&& elf_loadable(elf_data, (allocator.num_free() - 2) as nat)
    &&& kstack_bottom(app_id) >= 0
    &&& forall|v: usize| floor_vpn(kstack_bottom(app_id)) <= v < ceil_vpn(kstack_top(app_id))
        ==> !#[trigger] kernel_space.page_table@.contains_key(v)
}

/// The page at which the heap starts.
pub open spec fn heap_start_vpn(t: TaskControlBlock) -> usize {
    floor_vpn(t.heap_bottom as int) as usize
}

/// The heap area (the first area that starts at the heap's page) ends at the
/// page boundary at or above the program break.
pub open spec fn heap_tracks_brk(t: TaskControlBlock) -> bool {
    match first_area(t.memory_set.areas@, heap_start_vpn(t)) {
        Some(i) => t.memory_set.areas@[i].end_vpn == ceil_vpn(t.program_brk as int),
        None => true,
    }
}

/// Moving the program break of `t` by `size` keeps the area bounds in order
/// and, when growing, meets no mapped page and finds the frames it needs.
pub open spec fn brk_change_ok(t: TaskControlBlock, size: int, allocator: FrameAllocator) -> bool {
    let new_brk = t.program_brk + size;
    new_brk >= t.heap_bottom ==> match first_area(t.memory_set.areas@, heap_start_vpn(t)) {
        Some(i) => {
            let area = t.memory_set.areas@[i];
            if size < 0 {
                ceil_vpn(new_brk) <= area.end_vpn
            } else {
                &&& area.end_vpn <= ceil_vpn(new_brk) <= MAX_VPN
                &&& forall|v: usize| area.end_vpn <= v < ceil_vpn(new_brk)
                    ==> !#[trigger] t.memory_set.page_table@.contains_key(v)
                &&& area.map_type == MapType::Framed ==> allocator.num_free() >= ceil_vpn(new_brk) - area.end_vpn
            }
        },
        None => true,
    }
}

/// The program break of `old` moved by `size` to give `new`: the first area
/// that starts at the heap's page now ends at the page boundary at or above
/// the new break, and the pages between the old and new ends were mapped or
/// unmapped.
pub open spec fn brk_moved(old: TaskControlBlock, new: TaskControlBlock, size: int) -> bool {
    let new_brk = old.program_brk + size;
    match first_area(old.memory_set.areas@, heap_start_vpn(old)) {
        Some(i) => {
            let area = old.memory_set.areas@[i];
            let new_area = new.memory_set.areas@[i];
            &&& new.program_brk == new_brk
            &&& new.heap_bottom == old.heap_bottom
            &&& new.base_size == old.base_size
            &&& new.task_status == old.task_status
            &&& new.trap_cx_ppn == old.trap_cx_ppn
            &&& new.memory_set.page_table.root == old.memory_set.page_table.root
            &&& new.memory_set.areas@ == old.memory_set.areas@.update(i, new_area)
            &&& new_area.start_vpn == area.start_vpn
            &&& new_area.end_vpn == ceil_vpn(new_brk)
            &&& new_area.map_type == area.map_type
            &&& new_area.map_perm == area.map_perm
            &&& if size < 0 {
                &&& forall|v: usize| ceil_vpn(new_brk) <= v < area.end_vpn
                    ==> !#[trigger] new.memory_set.page_table@.contains_key(v)
                &&& agree_outside(new.memory_set.page_table@, old.memory_set.page_table@, ceil_vpn(new_brk), area.end_vpn as int)
            } else {
                &&& forall|v: usize| area.end_vpn <= v < ceil_vpn(new_brk)
                    ==> !#[trigger] old.memory_set.page_table@.contains_key(v)
                &&& new_area.mapped_in(new.memory_set.page_table@)
                &&& agree_outside(new.memory_set.page_table@, old.memory_set.page_table@, area.end_vpn as int, ceil_vpn(new_brk))
            }
        },
        None => false,
    }
}

/// `tcb` is application `app_id` loaded from `elf_data`: its address space
/// built from the image, ready to start at the entry point with the user
/// stack, with its kernel stack, a fresh zeroed area, added to the kernel
/// space `old_ks` to give `new_ks`.
pub open spec fn task_built(
    tcb: TaskControlBlock,
    elf_data: Seq<u8>,
    app_id: int,
    old_ks: MemorySet,
    new_ks: MemorySet,
    allocator: FrameAllocator,
    entry: KernelEntry,
) -> bool {
    &&& tcb.wf(allocator)
    &&& user_space_built(tcb.memory_set, elf_segments(elf_data), elf_data, entry.strampoline)
    &&& tcb.task_status == TaskStatus::Ready
    &&& tcb.base_size == user_stack_top(load_segments(elf_segments(elf_data)))
    &&& tcb.heap_bottom == tcb.base_size
    &&& tcb.program_brk == tcb.base_size
    &&& tcb.memory_set.page_table@.contains_key((MAX_VPN - 1) as usize)
    &&& tcb.trap_cx_ppn == tcb.memory_set.page_table@[(MAX_VPN - 1) as usize].ppn
    &&& tcb.task_cx.ra == entry.trap_return
    &&& tcb.task_cx.sp == kstack_top(app_id)
    &&& tcb.trap_cx.sepc == elf_header_of(elf_data).unwrap().entry_point as usize
    &&& tcb.trap_cx.x@ == Seq::new(32, |i: int| if i == 2 { tcb.base_size } else { 0usize })
    &&& tcb.trap_cx.sstatus == entry.sstatus & !SSTATUS_SPP
    &&& tcb.trap_cx.kernel_satp == satp_token(new_ks.page_table.root.ppn)
    &&& tcb.trap_cx.kernel_sp == kstack_top(app_id)
    &&& tcb.trap_cx.trap_handler == entry.trap_handler
    &&& new_ks.areas@.drop_last() == old_ks.areas@
    &&& is_zeroed_area(new_ks.areas@.last(), kstack_bottom(app_id), kstack_top(app_id), MAP_R | MAP_W)
    &&& new_ks.areas@.last().mapped_in(new_ks.page_table@)
    &&& new_ks.page_table.root == old_ks.page_table.root
    &&& agree_outside(new_ks.page_table@, old_ks.page_table@, floor_vpn(kstack_bottom(app_id)), ceil_vpn(kstack_top(app_id)))
    &&& forall|l: KernelLayout| kernel_sections_mapped(old_ks, l) ==> #[trigger] kernel_sections_mapped(new_ks, l)
    &&& first_area(tcb.memory_set.areas@, heap_start_vpn(tcb)).is_some()
}

/// `new` is task `old` after it ran the application `elf_data`: a new
/// address space built from the image, a trap context that starts at the
/// image's entry point with the new user stack (the kernel stack and the
/// kernel's `satp` stay), the break at the top of the new stack, and every
/// frame that the allocator now holds free either was free or belonged to
/// an area of the old address space.
pub open spec fn exec_done(
    old: TaskControlBlock,
    new: TaskControlBlock,
    elf_data: Seq<u8>,
    entry: KernelEntry,
    old_alloc: FrameAllocator,
    new_alloc: FrameAllocator,
) -> bool {
    &&& new_alloc.wf()
    &&& new_alloc.end == old_alloc.end
    &&& new.wf(new_alloc)
    &&& user_space_built(new.memory_set, elf_segments(elf_data), elf_data, entry.strampoline)
    &&& new.base_size == user_stack_top(load_segments(elf_segments(elf_data)))
    &&& new.heap_bottom == new.base_size
    &&& new.program_brk == new.base_size
    &&& new.task_status == old.task_status
    &&& new.task_cx == old.task_cx
    &&& new.memory_set.page_table@.contains_key((MAX_VPN - 1) as usize)
    &&& new.trap_cx_ppn == new.memory_set.page_table@[(MAX_VPN - 1) as usize].ppn
    &&& new.trap_cx.sepc == elf_header_of(elf_data).unwrap().entry_point as usize
    &&& new.trap_cx.x@ == Seq::new(32, |i: int| if i == 2 { new.base_size } else { 0usize })
    &&& new.trap_cx.sstatus == entry.sstatus & !SSTATUS_SPP
    &&& new.trap_cx.kernel_satp == old.trap_cx.kernel_satp
    &&& new.trap_cx.kernel_sp == old.trap_cx.kernel_sp
    &&& new.trap_cx.trap_handler == entry.trap_handler
    &&& forall|p: usize| #[trigger] new_alloc.free_frames().contains(p) ==> old_alloc.free_frames().contains(p) || area_frames(old.memory_set.areas@).contains(p)
}

/// Every area of `a` starts where the area at the same place in `b` starts.
pub open spec fn same_starts(a: Seq<MapArea>, b: Seq<MapArea>) -> bool {
    &&& a.len() == b.len()
    &&& forall|k: int| 0 <= k < a.len() ==> #[trigger] a[k].start_vpn == b[k].start_vpn
}

/// Which area comes first at a page depends only on where the areas start.
pub proof fn lemma_first_area_same_starts(a: Seq<MapArea>, b: Seq<MapArea>, vpn: usize, from: int)
    requires
        same_starts(a, b),
    ensures
        first_area_from(a, vpn, from) == first_area_from(b, vpn, from),
    decreases a.len() - from,
{
    if from >= 0 && from < a.len() {
        assert(a[from].start_vpn == b[from].start_vpn);
        lemma_first_area_same_starts(a, b, vpn, from + 1);
    }
}

/// The kernel stack of the task with kernel stack slot `app_id` is a fresh
/// zeroed area added at the end of the kernel space `old_ks` to give `new_ks`,
/// which is otherwise unchanged.
pub open spec fn kstack_added(app_id: int, old_ks: MemorySet, new_ks: MemorySet) -> bool {
    &&& new_ks.areas@.drop_last() == old_ks.areas@
    &&& is_zeroed_area(new_ks.areas@.last(), kstack_bottom(app_id), kstack_top(app_id), MAP_R | MAP_W)
    &&& new_ks.areas@.last().mapped_in(new_ks.page_table@)
    &&& new_ks.page_table.root == old_ks.page_table.root
    &&& agree_outside(new_ks.page_table@, old_ks.page_table@, floor_vpn(kstack_bottom(app_id)), ceil_vpn(kstack_top(app_id)))
    &&& forall|l: KernelLayout| kernel_sections_mapped(old_ks, l) ==> #[trigger] kernel_sections_mapped(new_ks, l)
}

/// The kernel stack of slot `app_id` fits below the trampoline and its pages
/// are free in the kernel space.
pub open spec fn kstack_free(app_id: int, kernel_space: MemorySet) -> bool {
    &&& kstack_bottom(app_id) >= 0
    &&& forall|v: usize| floor_vpn(kstack_bottom(app_id)) <= v < ceil_vpn(kstack_top(app_id))
        ==> !#[trigger] kernel_space.page_table@.contains_key(v)
}

/// `child` is the task that `fork` makes of `parent` with pid `new_pid`: a
/// copy of the parent's address space in frames of its own, the parent's
/// trap context (but the registers, which `sys_fork` sets) with the child's
/// kernel stack, ready to run, and the same program break.
pub open spec fn forked(parent: TaskControlBlock, child: TaskControlBlock, new_pid: int, entry: KernelEntry) -> bool {
    &&& copied_space(parent.memory_set.areas@, child.memory_set.areas@)
    &&& forall|p: usize| #[trigger] area_frames(child.memory_set.areas@).contains(p)
        ==> !area_frames(parent.memory_set.areas@).contains(p)
    &&& child.memory_set.page_table@.contains_key(MAX_VPN)
    &&& child.memory_set.page_table@[MAX_VPN] == (PageTableEntry { ppn: entry.strampoline / PAGE_SIZE, flags: PTE_R | PTE_X | PTE_V })
    &&& child.memory_set.page_table@.contains_key((MAX_VPN - 1) as usize)
    &&& child.trap_cx_ppn == child.memory_set.page_table@[(MAX_VPN - 1) as usize].ppn
    &&& child.trap_cx.sstatus == parent.trap_cx.sstatus
    &&& child.trap_cx.sepc == parent.trap_cx.sepc
    &&& child.trap_cx.kernel_satp == parent.trap_cx.kernel_satp
    &&& child.trap_cx.kernel_sp == kstack_top(new_pid)
    &&& child.trap_cx.trap_handler == parent.trap_cx.trap_handler
    &&& child.task_cx.ra == entry.trap_return
    &&& child.task_cx.sp == kstack_top(new_pid)
    &&& child.task_status == TaskStatus::Ready
    &&& child.base_size == parent.base_size
    &&& child.heap_bottom == parent.heap_bottom
    &&& child.program_brk == parent.program_brk
}

/// Page arithmetic of a kernel stack.
proof fn lemma_kstack_pages(app_id: int)
    requires
        0 <= app_id,
        kstack_bottom(app_id) >= 0,
    ensures
        floor_vpn(kstack_bottom(app_id)) + 2 == ceil_vpn(kstack_top(app_id)),
        kstack_top(app_id) <= TRAMPOLINE,
{
    crate::config::lemma_layout_constants();
    let m = crate::config::MAX_VPN as int;
    assert(kstack_top(app_id) == (m - 3 * app_id) * 4096) by (nonlinear_arith)
        requires m * 4096 == TRAMPOLINE, kstack_top(app_id) == TRAMPOLINE - app_id * 12288;
    assert(((m - 3 * app_id) * 4096 + 4095) / 4096 == m - 3 * app_id) by (nonlinear_arith)
        requires m - 3 * app_id >= 0;
    assert(((m - 3 * app_id) * 4096 - 8192) / 4096 == m - 3 * app_id - 2) by (nonlinear_arith)
        requires m - 3 * app_id >= 2;
}

impl TaskControlBlock {
    /// The task's invariant: its address space is well formed and its heap
    /// area ends at the page boundary at or above the program break.
    pub open spec fn wf(&self, allocator: FrameAllocator) -> bool {
        &&& self.memory_set.wf(allocator)
        &&& heap_tracks_brk(*self)
    }

    /// The trap context of the task.
    pub fn get_trap_cx(&self) -> (cx: &TrapContext)
        ensures
            *cx == self.trap_cx,
    {
        &self.trap_cx
    }

    /// The `satp` value of the task's address space.
    pub fn get_user_token(&self) -> (t: usize)
        ensures
            t == satp_token(self.memory_set.page_table.root.ppn),
    {
        self.memory_set.token()
    }

    /// Moves the program break by `size` bytes and returns the old break;
    /// `None` when the break would fall below the heap bottom or no area
    /// starts at the heap's page, and then nothing changes.
    pub fn change_program_brk(&mut self, size: i32, allocator: &mut FrameAllocator) -> (r: Option<usize>)
        requires
            old(self).memory_set.wf(*old(allocator)),
            old(self).program_brk + 0x8000_0000 <= isize::MAX,
            old(self).heap_bottom <= isize::MAX,
            brk_change_ok(*old(self), size as int, *old(allocator)),
        ensures
            final(self).memory_set.wf(*final(allocator)),
            final(allocator).end == old(allocator).end,
            old(self).program_brk + size < old(self).heap_bottom ==> r.is_none(),
            first_area(old(self).memory_set.areas@, heap_start_vpn(*old(self))).is_none() ==> r.is_none(),
            r.is_none() ==> *final(self) == *old(self) && *final(allocator) == *old(allocator),
            r.is_some() <==> (old(self).program_brk + size >= old(self).heap_bottom
                && first_area(old(self).memory_set.areas@, heap_start_vpn(*old(self))).is_some()),
            r.is_some() ==> r.unwrap() == old(self).program_brk && brk_moved(*old(self), *final(self), size as int),
            r.is_some() ==> heap_tracks_brk(*final(self)),
            old(self).wf(*old(allocator)) ==> final(self).wf(*final(allocator)),
    {
        let old_break = self.program_brk;
        let new_brk: isize = self.program_brk as isize + size as isize;
        if new_brk < self.heap_bottom as isize {
            return None;
        }
        let ghost ms0 = self.memory_set;
        let result = if size < 0 {
            self.memory_set.shrink_to(self.heap_bottom, new_brk as usize, allocator)
        } else {
            self.memory_set.append_to(self.heap_bottom, new_brk as usize, allocator)
        };
        if result {
            self.program_brk = new_brk as usize;
            proof {
                let i = first_area(ms0.areas@, heap_start_vpn(*old(self))).unwrap();
                crate::memory_set::lemma_first_area_range(ms0.areas@, heap_start_vpn(*old(self)), 0);
                lemma_first_area_update(ms0.areas@, i, self.memory_set.areas@[i], heap_start_vpn(*old(self)), 0);
            }
            Some(old_break)
        } else {
            None
        }
    }

    /// Replaces the program of the task by the application `elf_data`: the
    /// areas of the old address space are removed and their frames given
    /// back, then a new address space is built from the image; the trap
    /// context starts at the image's entry point with the new user stack (the
    /// kernel stack and the kernel's `satp` stay), and the program break sits
    /// at the top of the new stack.
    pub fn exec(&mut self, elf_data: &[u8], allocator: &mut FrameAllocator, entry: KernelEntry)
        requires
            old(allocator).wf(),
            old(self).memory_set.wf(*old(allocator)),
            elf_loadable(elf_data@, old(allocator).num_free()),
        ensures
            exec_done(*old(self), *final(self), elf_data@, entry, *old(allocator), *final(allocator)),
    {
        let ghost a0 = *allocator;
        self.memory_set.release(allocator);
        let ghost a1 = *allocator;
        proof {
            assert(load_pages_total(load_segments(elf_segments(elf_data@))) + 4 <= a0.num_free());
        }
        let (memory_set, user_sp, entry_point) = MemorySet::from_elf(elf_data, entry.strampoline, allocator);
        let ghost am = *allocator;
        proof {
            crate::memory_set::lemma_heap_area_first(memory_set, am, elf_segments(elf_data@), elf_data@, entry.strampoline);
            crate::config::lemma_layout_constants();
            let loads = load_segments(elf_segments(elf_data@));
            let n = loads.len() as int;
            assert(memory_set.areas@[n + 2].mapped_in(memory_set.page_table@));
            assert(floor_vpn(TRAP_CONTEXT_BASE as int) == MAX_VPN - 1);
            assert(memory_set.page_table@.contains_key((MAX_VPN - 1) as usize));
        }
        let trap_cx_ppn = memory_set.translate(va_floor(TRAP_CONTEXT_BASE)).unwrap().ppn;
        self.memory_set = memory_set;
        self.trap_cx_ppn = trap_cx_ppn;
        self.base_size = user_sp;
        self.heap_bottom = user_sp;
        self.program_brk = user_sp;
        self.trap_cx = TrapContext::app_init_context(
            entry_point,
            user_sp,
            self.trap_cx.kernel_satp,
            self.trap_cx.kernel_sp,
            entry.trap_handler,
            entry.sstatus,
        );
        proof {
            assert forall|p: usize| #[trigger] allocator.free_frames().contains(p) implies
                a0.free_frames().contains(p) || area_frames(old(self).memory_set.areas@).contains(p) by {
                assert(a1.free_frames().contains(p));
            }
        }
    }

    /// A copy of the task for a child with pid `new_pid`: its address space
    /// copied into fresh frames, its kernel stack (slot `new_pid`) mapped in
    /// the kernel space, and the parent's trap context pointed at that stack.
    pub fn fork(
        &self,
        new_pid: usize,
        kernel_space: &mut MemorySet,
        allocator: &mut FrameAllocator,
        entry: KernelEntry,
    ) -> (child: Self)
        requires
            old(allocator).wf(),
            self.memory_set.wf(*old(allocator)),
            old(kernel_space).wf(*old(allocator)),
            self.memory_set.page_table@.contains_key((MAX_VPN - 1) as usize),
            old(allocator).num_free() >= framed_pages(self.memory_set.areas@) + 3,
            kstack_free(new_pid as int, *old(kernel_space)),
        ensures
            final(allocator).wf(),
            final(allocator).end == old(allocator).end,
            final(kernel_space).wf(*final(allocator)),
            self.memory_set.wf(*final(allocator)),
            child.memory_set.wf(*final(allocator)),
            self.wf(*old(allocator)) ==> child.wf(*final(allocator)),
            forked(*self, child, new_pid as int, entry),
            child.trap_cx.x == self.trap_cx.x,
            kstack_added(new_pid as int, *old(kernel_space), *final(kernel_space)),
    {
        let ghost a0 = *allocator;
        let memory_set = MemorySet::from_existed_user(&self.memory_set, entry.strampoline, allocator);
        let ghost a1 = *allocator;
        proof {
            lemma_wf_fewer_free(*kernel_space, a0, a1);
            crate::config::lemma_layout_constants();
            assert(floor_vpn(TRAP_CONTEXT_BASE as int) == MAX_VPN - 1);
            let t = (MAX_VPN - 1) as usize;
            let k = choose|k: int| 0 <= k < self.memory_set.areas@.len()
                && #[trigger] self.memory_set.areas@[k].contains_vpn(t as int);
            assert(memory_set.areas@[k].start_vpn == self.memory_set.areas@[k].start_vpn);
            assert(memory_set.areas@[k].mapped_in(memory_set.page_table@));
            assert(memory_set.page_table@.contains_key(t));
        }
        let trap_cx_ppn = memory_set.translate(va_floor(TRAP_CONTEXT_BASE)).unwrap().ppn;
        proof {
            assert(kstack_bottom(new_pid as int) == TRAMPOLINE - new_pid * 12288 - 8192);
            lemma_kstack_pages(new_pid as int);
        }
        let (kernel_stack_bottom, kernel_stack_top) = kernel_stack_position(new_pid);
        kernel_space.insert_framed_area(
            kernel_stack_bottom,
            kernel_stack_top,
            MapPermission { bits: MAP_R | MAP_W },
            allocator,
        );
        proof {
            lemma_wf_fewer_free(memory_set, a1, *allocator);
            lemma_wf_fewer_free(self.memory_set, a1, *allocator);
        }
        let mut trap_cx = self.trap_cx;
        trap_cx.kernel_sp = kernel_stack_top;
        let child = TaskControlBlock {
            task_cx: TaskContext::goto_trap_return(entry.trap_return, kernel_stack_top),
            task_status: TaskStatus::Ready,
            memory_set,
            trap_cx_ppn,
            trap_cx,
            base_size: self.base_size,
            heap_bottom: self.heap_bottom,
            program_brk: self.program_brk,
        };
        proof {
            let pa = self.memory_set.areas@;
            let ca = child.memory_set.areas@;
            assert(same_starts(ca, pa)) by {
                assert forall|k: int| 0 <= k < ca.len() implies #[trigger] ca[k].start_vpn == pa[k].start_vpn by {
                    assert(ca[k].start_vpn == pa[k].start_vpn);
                }
            }
            lemma_first_area_same_starts(ca, pa, heap_start_vpn(child), 0);
            assert(heap_start_vpn(child) == heap_start_vpn(*self));
            let fa = first_area(pa, heap_start_vpn(*self));
            if fa.is_some() {
                crate::memory_set::lemma_first_area_range(pa, heap_start_vpn(*self), 0);
                let i = fa.unwrap();
                assert(ca[i].start_vpn == pa[i].start_vpn);
            }
        }
        child
    }

    /// `new` when the task can be created; `None` (and nothing changed) otherwise.
    pub fn try_new(
        elf_data: &[u8],
        app_id: usize,
        kernel_space: &mut MemorySet,
        allocator: &mut FrameAllocator,
        entry: KernelEntry,
    ) -> (r: Option<Self>)
        requires
            old(allocator).wf(),
            old(kernel_space).wf(*old(allocator)),
        ensures
            r.is_some() <==> task_creatable(elf_data@, app_id as int, *old(kernel_space), *old(allocator)),
            r.is_none() ==> *final(kernel_space) == *old(kernel_space) && *final(allocator) == *old(allocator),
            final(allocator).wf(),
            final(kernel_space).wf(*final(allocator)),
            match r {
                Some(tcb) => task_built(tcb, elf_data@, app_id as int, *old(kernel_space), *final(kernel_space), *final(allocator), entry),
                None => true,
            },
    {
        let free = allocator.free_count();
        if free < 2 {
            return None;
        }
        if !MemorySet::elf_is_loadable(elf_data, free - 2) {
            return None;
        }
        // 3 * app_id pages of stacks and guards lie below the trampoline page
        if app_id > (MAX_VPN - 2) / 3 {
            proof {
                assert(kstack_bottom(app_id as int) < 0) by (nonlinear_arith)
                    requires app_id > (MAX_VPN - 2) / 3, MAX_VPN * 4096 == TRAMPOLINE,
                        kstack_bottom(app_id as int) == TRAMPOLINE - app_id * 12288 - 8192;
            }
            return None;
        }
        proof {
            crate::config::lemma_layout_constants();
            assert(kstack_bottom(app_id as int) >= 0) by (nonlinear_arith)
                requires app_id <= (MAX_VPN - 2) / 3, MAX_VPN * 4096 == TRAMPOLINE,
                    kstack_bottom(app_id as int) == TRAMPOLINE - app_id * 12288 - 8192;
            lemma_kstack_pages(app_id as int);
        }
        let (bottom, top) = kernel_stack_position(app_id);
        let lo = va_floor(bottom);
        let hi = crate::address::va_ceil(top);
        let mut v = lo;
        while v < hi
            invariant
                lo <= v <= hi,
                lo == floor_vpn(kstack_bottom(app_id as int)),
                hi == ceil_vpn(kstack_top(app_id as int)),
                forall|w: usize| lo <= w < v ==> !#[trigger] kernel_space.page_table@.contains_key(w),
                *kernel_space == *old(kernel_space),
                *allocator == *old(allocator),
                allocator.wf(),
                kernel_space.wf(*allocator),
            decreases hi - v,
        {
            if kernel_space.translate(v).is_some() {
                return None;
            }
            v = v + 1;
        }
        Some(Self::new(elf_data, app_id, kernel_space, allocator, entry))
    }

    /// Loads application `app_id` from its image: builds its address space,
    /// maps its kernel stack in the kernel space, and prepares its trap
    /// context so that it starts at the entry point with the user stack.
    pub fn new(
        elf_data: &[u8],
        app_id: usize,
        kernel_space: &mut MemorySet,
        allocator: &mut FrameAllocator,
        entry: KernelEntry,
    ) -> (tcb: Self)
        requires
            old(allocator).wf(),
            old(kernel_space).wf(*old(allocator)),
            task_creatable(elf_data@, app_id as int, *old(kernel_space), *old(allocator)),
        ensures
            final(allocator).wf(),
            final(kernel_space).wf(*final(allocator)),
            task_built(tcb, elf_data@, app_id as int, *old(kernel_space), *final(kernel_space), *final(allocator), entry),
    {
        let ghost a0 = *allocator;
        let (memory_set, user_sp, entry_point) = MemorySet::from_elf(elf_data, entry.strampoline, allocator);
        let ghost am = *allocator;
        proof {
            crate::memory_set::lemma_heap_area_first(memory_set, am, elf_segments(elf_data@), elf_data@, entry.strampoline);
        }
        proof {
            crate::config::lemma_layout_constants();
            lemma_wf_fewer_free(*kernel_space, a0, *allocator);
            let loads = load_segments(elf_segments(elf_data@));
            let n = loads.len() as int;
            assert(memory_set.areas@[n + 2].mapped_in(memory_set.page_table@));
            assert(floor_vpn(TRAP_CONTEXT_BASE as int) == MAX_VPN - 1);
            assert(memory_set.page_table@.contains_key((MAX_VPN - 1) as usize));
        }
        let trap_cx_ppn = memory_set.translate(va_floor(TRAP_CONTEXT_BASE)).unwrap().ppn;
        let task_status = TaskStatus::Ready;
        proof {
            lemma_kstack_pages(app_id as int);
        }
        let (kernel_stack_bottom, kernel_stack_top) = kernel_stack_position(app_id);
        kernel_space.insert_framed_area(
            kernel_stack_bottom,
            kernel_stack_top,
            MapPermission { bits: MAP_R | MAP_W },
            allocator,
        );
        let ghost a1 = *allocator;
        proof {
            lemma_wf_fewer_free(memory_set, am, a1);
        }
        let kernel_token = kernel_space.token();
        let trap_cx = TrapContext::app_init_context(
            entry_point,
            user_sp,
            kernel_token,
            kernel_stack_top,
            entry.trap_handler,
            entry.sstatus,
        );
        TaskControlBlock {
            task_cx: TaskContext::goto_trap_return(entry.trap_return, kernel_stack_top),
            task_status,
            memory_set,
            trap_cx_ppn,
            trap_cx,
            base_size: user_sp,
            heap_bottom: user_sp,
            program_brk: user_sp,
        }
    }
}

} // verus!

verus! {

/// Replacing an area by one with the same start does not change which area
/// comes first at a page.
pub proof fn lemma_first_area_update(areas: Seq<MapArea>, i: int, a: MapArea, vpn: usize, from: int)
    requires
        0 <= i < areas.len(),
        a.start_vpn == areas[i].start_vpn,
    ensures
        crate::memory_set::first_area_from(areas.update(i, a), vpn, from)
            == crate::memory_set::first_area_from(areas, vpn, from),
    decreases areas.len() - from,
{
    if from >= 0 && from < areas.len() {
        lemma_first_area_update(areas, i, a, vpn, from + 1);
    }
}

/// Moving the program break of a well-formed task up by `n` bytes and then
/// down by `n` bytes gives back the break and every page table entry. Every
/// task that `new` builds is well formed, and `change_program_brk` keeps it so.
pub proof fn lemma_brk_grow_shrink(t0: TaskControlBlock, allocator: FrameAllocator, t1: TaskControlBlock, t2: TaskControlBlock, n: int)
    requires
        t0.wf(allocator),
        n > 0,
        brk_moved(t0, t1, n),
        brk_moved(t1, t2, -n),
    ensures
        t2.program_brk == t0.program_brk,
        t2.memory_set.page_table@ == t0.memory_set.page_table@,
        t2.memory_set.areas@.len() == t0.memory_set.areas@.len(),
{
    let i = first_area(t0.memory_set.areas@, heap_start_vpn(t0)).unwrap();
    crate::memory_set::lemma_first_area_range(t0.memory_set.areas@, heap_start_vpn(t0), 0);
    let a1 = t1.memory_set.areas@[i];
    lemma_first_area_update(t0.memory_set.areas@, i, a1, heap_start_vpn(t0), 0);
    assert(first_area(t1.memory_set.areas@, heap_start_vpn(t1)) == Some(i));
    let pt0 = t0.memory_set.page_table@;
    let pt1 = t1.memory_set.page_table@;
    let pt2 = t2.memory_set.page_table@;
    let lo = ceil_vpn(t0.program_brk as int);
    let hi = ceil_vpn(t0.program_brk + n);
    assert forall|v: usize| #[trigger] pt2.contains_key(v) == pt0.contains_key(v) && (pt2.contains_key(v) ==> pt2[v] == pt0[v]) by {
        if lo <= v < hi {
            assert(!pt2.contains_key(v));
            assert(!pt0.contains_key(v));
        } else {
            assert(pt2.contains_key(v) == pt1.contains_key(v));
            assert(pt1.contains_key(v) == pt0.contains_key(v));
        }
    }
    assert(pt2 =~= pt0);
}

} // verus!
