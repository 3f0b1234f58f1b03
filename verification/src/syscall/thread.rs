//! Thread system calls.
use vstd::prelude::*;
use crate::trap::{TrapContext, SSTATUS_SPP};

verus! {

/// A thread of a process: its exit code once it has exited, and its trap context.
#[derive(Clone, Copy, Debug)]
pub struct ThreadSlot {
    pub exit_code: Option<i32>,
    pub trap_cx: TrapContext,
}

/// The threads of a process, by thread id, and the per-thread rows of the
/// deadlock detector when it is on.
pub struct ProcessThreads {
    pub tasks: Vec<Option<ThreadSlot>>,
    pub is_enable_deadlock_detect: bool,
    pub allocation: Vec<Vec<usize>>,
    pub need: Vec<Vec<usize>>,
}

/// Where a new thread starts.
#[derive(Clone, Copy, Debug)]
pub struct ThreadStart {
    pub entry: usize,
    pub arg: usize,
    pub ustack_top: usize,
    pub kernel_token: usize,
    pub kstack_top: usize,
    pub trap_handler: usize,
    pub sstatus: usize,
}

/// The trap context a new thread starts from: the entry point, its user
/// stack, user mode, and the argument in `a0`.
pub open spec fn thread_start_context(cx: TrapContext, start: ThreadStart) -> bool {
    &&& cx.x@ == Seq::new(32, |i: int| if i == 2 { start.ustack_top } else if i == 10 { start.arg } else { 0usize })
    &&& cx.sstatus == start.sstatus & !SSTATUS_SPP
    &&& cx.sepc == start.entry
    &&& cx.kernel_satp == start.kernel_token
    &&& cx.kernel_sp == start.kstack_top
    &&& cx.trap_handler == start.trap_handler
}

/// Registers a new thread with id `new_tid` in process `pid`: the table
/// grows with empty slots up to that id, the slot gets the thread ready to
/// start at `start.entry` with `start.arg`, the thread joins the ready queue
/// (entries are `(pid, tid)`) once, at its end, and the deadlock detector
/// gets a row for it when on. Returns the id. The id comes from the
/// process's id allocator, which hands out ids whose slot is free.
pub fn sys_thread_create(
    process: &mut ProcessThreads,
    ready: &mut Vec<(usize, usize)>,
    pid: usize,
    new_tid: usize,
    start: ThreadStart,
) -> (r: isize)
    requires
        new_tid < isize::MAX,
    ensures
        r == new_tid,
        final(ready)@ == old(ready)@.push((pid, new_tid)),
        final(process).tasks@.len() == (if old(process).tasks@.len() > new_tid { old(process).tasks@.len() } else { (new_tid + 1) as nat }),
        final(process).tasks@[new_tid as int].is_some(),
        final(process).tasks@[new_tid as int].unwrap().exit_code.is_none(),
        thread_start_context(final(process).tasks@[new_tid as int].unwrap().trap_cx, start),
        forall|i: int| 0 <= i < final(process).tasks@.len() && i != new_tid ==>
            #[trigger] final(process).tasks@[i] == (if i < old(process).tasks@.len() { old(process).tasks@[i] } else { None }),
        final(process).is_enable_deadlock_detect == old(process).is_enable_deadlock_detect,
        old(process).is_enable_deadlock_detect ==> {
            &&& final(process).allocation@.drop_last() == old(process).allocation@
            &&& final(process).allocation@.len() == old(process).allocation@.len() + 1
            &&& final(process).allocation@.last()@ == Seq::<usize>::empty()
            &&& final(process).need@.drop_last() == old(process).need@
            &&& final(process).need@.len() == old(process).need@.len() + 1
            &&& final(process).need@.last()@ == Seq::<usize>::empty()
        },
        !old(process).is_enable_deadlock_detect ==> {
            &&& final(process).allocation@ == old(process).allocation@
            &&& final(process).need@ == old(process).need@
        },
{
    let mut cx = TrapContext::app_init_context(
        start.entry,
        start.ustack_top,
        start.kernel_token,
        start.kstack_top,
        start.trap_handler,
        start.sstatus,
    );
    cx.x[10] = start.arg;
    proof {
        assert(cx.x@ =~= Seq::new(32, |i: int| if i == 2 { start.ustack_top } else if i == 10 { start.arg } else { 0usize }));
    }
    while process.tasks.len() < new_tid + 1
        invariant
            new_tid < isize::MAX,
            process.tasks@.len() >= old(process).tasks@.len(),
            process.tasks@.len() <= (if old(process).tasks@.len() > new_tid { old(process).tasks@.len() } else { (new_tid + 1) as nat }),
            forall|i: int| 0 <= i < process.tasks@.len() ==>
                #[trigger] process.tasks@[i] == (if i < old(process).tasks@.len() { old(process).tasks@[i] } else { None }),
            process.is_enable_deadlock_detect == old(process).is_enable_deadlock_detect,
            process.allocation@ == old(process).allocation@,
            process.need@ == old(process).need@,
        decreases new_tid + 1 - process.tasks@.len(),
    {
        process.tasks.push(None);
    }
    process.tasks.set(new_tid, Some(ThreadSlot { exit_code: None, trap_cx: cx }));
    ready.push((pid, new_tid));
    if process.is_enable_deadlock_detect {
        process.allocation.push(Vec::new());
        process.need.push(Vec::new());
    }
    new_tid as isize
}

/// The id of the current thread.
pub fn sys_gettid(tid: usize) -> (r: isize)
    requires
        tid <= isize::MAX,
    ensures
        r == tid,
{
    tid as isize
}

/// The slot of thread `tid`, or `None` if the table has no such thread.
pub open spec fn thread_slot(tasks: Seq<Option<ThreadSlot>>, tid: int) -> Option<ThreadSlot> {
    if 0 <= tid < tasks.len() { tasks[tid] } else { None }
}

/// What waiting for thread `tid` from thread `current_tid` returns, and the
/// thread table after it.
pub open spec fn waittid_result(tasks: Seq<Option<ThreadSlot>>, current_tid: int, tid: int) -> (i32, Seq<Option<ThreadSlot>>) {
    if current_tid == tid {
        (-1i32, tasks)
    } else {
        match thread_slot(tasks, tid) {
            None => (-1i32, tasks),
            Some(t) => match t.exit_code {
                Some(c) => (c, tasks.update(tid, None)),
                None => (-2i32, tasks),
            },
        }
    }
}

/// Waiting for an exited thread returns its exit code and frees its slot,
/// so that waiting for it again returns -1; a thread never waits for itself.
pub proof fn lemma_waittid_reaps_once(tasks: Seq<Option<ThreadSlot>>, current_tid: int, tid: int, code: i32)
    requires
        current_tid != tid,
        thread_slot(tasks, tid) matches Some(t) && t.exit_code == Some(code),
    ensures
        waittid_result(tasks, current_tid, tid).0 == code,
        waittid_result(waittid_result(tasks, current_tid, tid).1, current_tid, tid).0 == -1,
        waittid_result(tasks, tid, tid) == (-1i32, tasks),
{
}

/// Waiting never touches another thread's slot, keeps the table's length,
/// and empties the slot of `tid` only when that thread has exited, returning
/// its exit code.
pub proof fn lemma_waittid_frame(tasks: Seq<Option<ThreadSlot>>, current_tid: int, tid: int)
    ensures
        waittid_result(tasks, current_tid, tid).1.len() == tasks.len(),
        forall|i: int| 0 <= i < tasks.len() && i != tid ==> #[trigger] waittid_result(tasks, current_tid, tid).1[i] == tasks[i],
        waittid_result(tasks, current_tid, tid).1 != tasks ==> {
            &&& current_tid != tid
            &&& 0 <= tid < tasks.len()
            &&& tasks[tid] matches Some(t) && t.exit_code == Some(waittid_result(tasks, current_tid, tid).0)
            &&& waittid_result(tasks, current_tid, tid).1[tid].is_none()
        },
{
}

/// Waiting for a thread that exists and is still running returns -2 and
/// leaves the table as it was; once that thread exits with `code`, waiting
/// again returns `code`.
pub proof fn lemma_waittid_running(tasks: Seq<Option<ThreadSlot>>, current_tid: int, tid: int, code: i32)
    requires
        current_tid != tid,
        thread_slot(tasks, tid) matches Some(t) && t.exit_code.is_none(),
    ensures
        waittid_result(tasks, current_tid, tid) == (-2i32, tasks),
        ({
            let t = thread_slot(tasks, tid).unwrap();
            let exited = waittid_result(tasks, current_tid, tid).1.update(tid, Some(ThreadSlot { exit_code: Some(code), ..t }));
            waittid_result(exited, current_tid, tid).0 == code
        }),
{
}

/// Waits for thread `tid` from thread `current_tid`: -1 if it is the caller
/// or does not exist, -2 if it has not exited; otherwise its slot is freed
/// and its exit code returned.
pub fn sys_waittid(process: &mut ProcessThreads, current_tid: usize, tid: usize) -> (r: i32)
    ensures
        (r, final(process).tasks@) == waittid_result(old(process).tasks@, current_tid as int, tid as int),
        final(process).is_enable_deadlock_detect == old(process).is_enable_deadlock_detect,
        final(process).allocation@ == old(process).allocation@,
        final(process).need@ == old(process).need@,
{
    if current_tid == tid {
        return -1;
    }
    if tid >= process.tasks.len() {
        return -1;
    }
    let mut exit_code: Option<i32> = None;
    match process.tasks[tid] {
        Some(waited) => {
            if let Some(c) = waited.exit_code {
                exit_code = Some(c);
            }
        },
        None => {
            return -1;
        },
    }
    if let Some(c) = exit_code {
        process.tasks.set(tid, None);
        c
    } else {
        -2
    }
}

} // verus!
