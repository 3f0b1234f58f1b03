//! Trap handling: the saved user context, what to do with each trap cause,
//! and where to jump when returning to user mode.
use vstd::prelude::*;
use crate::config::{TRAMPOLINE, TRAP_CONTEXT_BASE, PAGE_SIZE};

verus! {

/// The `SPP` bit of `sstatus`: the privilege level the trap came from (set: supervisor).
pub const SSTATUS_SPP: usize = 0x100;

/// The user context saved on a trap: the general registers, `sstatus`,
/// `sepc`, and what the trap entry needs to reach the kernel.
#[derive(Clone, Copy, Debug)]
pub struct TrapContext {
    pub x: [usize; 32],
    pub sstatus: usize,
    pub sepc: usize,
    pub kernel_satp: usize,
    pub kernel_sp: usize,
    pub trap_handler: usize,
}

impl TrapContext {
    /// Sets the stack pointer register `x2`.
    pub fn set_sp(&mut self, sp: usize)
        ensures
            final(self).x@ == old(self).x@.update(2, sp),
            final(self).sstatus == old(self).sstatus,
            final(self).sepc == old(self).sepc,
            final(self).kernel_satp == old(self).kernel_satp,
            final(self).kernel_sp == old(self).kernel_sp,
            final(self).trap_handler == old(self).trap_handler,
    {
        self.x[2] = sp;
    }

    /// The context in which an application starts: all registers zero but
    /// the stack pointer, user mode in `sstatus` (the other bits as in
    /// `sstatus`), and the entry point in `sepc`.
    pub fn app_init_context(
        entry: usize,
        sp: usize,
        kernel_satp: usize,
        kernel_sp: usize,
        trap_handler: usize,
        sstatus: usize,
    ) -> (cx: Self)
        ensures
            cx.x@ == Seq::new(32, |i: int| if i == 2 { sp } else { 0usize }),
            cx.sstatus == sstatus & !SSTATUS_SPP,
            cx.sepc == entry,
            cx.kernel_satp == kernel_satp,
            cx.kernel_sp == kernel_sp,
            cx.trap_handler == trap_handler,
    {
        let mut cx = TrapContext {
            x: [0usize; 32],
            sstatus: sstatus & !SSTATUS_SPP,
            sepc: entry,
            kernel_satp,
            kernel_sp,
            trap_handler,
        };
        cx.set_sp(sp);
        assert(cx.x@ =~= Seq::new(32, |i: int| if i == 2 { sp } else { 0usize }));
        cx
    }
}

/// The cause of a trap from user mode, as `scause` reports it.
#[derive(Clone, Copy, PartialEq, Eq, Structural, Debug)]
pub enum TrapCause {
    UserEnvCall,
    StoreFault,
    StorePageFault,
    LoadFault,
    LoadPageFault,
    IllegalInstruction,
    SupervisorTimer,
    Other,
}

/// What the kernel does about a trap.
#[derive(Clone, Copy, PartialEq, Eq, Structural, Debug)]
pub enum TrapAction {
    /// Run system call `id` with three arguments, then return to user mode.
    Syscall { id: usize, a0: usize, a1: usize, a2: usize },
    /// Kill the application for a bad memory access.
    KillPageFault,
    /// Kill the application for an illegal instruction.
    KillIllegalInstruction,
    /// Set the next timer interrupt and switch to another task.
    Preempt,
}

/// Decides what to do about a trap of cause `cause` on the context `cx`. A
/// system call moves `sepc` past the `ecall` and takes its number from `x17`
/// and its arguments from `x10`, `x11`, `x12`. The kernel handles no other
/// cause than these (it panics on any other).
pub fn trap_handler(cx: &mut TrapContext, cause: TrapCause) -> (a: TrapAction)
    requires
        cause != TrapCause::Other,
        cause == TrapCause::UserEnvCall ==> old(cx).sepc + 4 <= usize::MAX,
    ensures
        cause == TrapCause::UserEnvCall ==> {
            &&& final(cx).sepc == old(cx).sepc + 4
            &&& a == TrapAction::Syscall { id: old(cx).x@[17], a0: old(cx).x@[10], a1: old(cx).x@[11], a2: old(cx).x@[12] }
        },
        cause != TrapCause::UserEnvCall ==> *final(cx) == *old(cx),
        final(cx).x == old(cx).x,
        (cause == TrapCause::StoreFault || cause == TrapCause::StorePageFault
            || cause == TrapCause::LoadFault || cause == TrapCause::LoadPageFault) ==> a == TrapAction::KillPageFault,
        cause == TrapCause::IllegalInstruction ==> a == TrapAction::KillIllegalInstruction,
        cause == TrapCause::SupervisorTimer ==> a == TrapAction::Preempt,
{
    match cause {
        TrapCause::UserEnvCall => {
            cx.sepc = cx.sepc + 4;
            TrapAction::Syscall { id: cx.x[17], a0: cx.x[10], a1: cx.x[11], a2: cx.x[12] }
        },
        TrapCause::StoreFault | TrapCause::StorePageFault | TrapCause::LoadFault | TrapCause::LoadPageFault => {
            TrapAction::KillPageFault
        },
        TrapCause::IllegalInstruction => TrapAction::KillIllegalInstruction,
        TrapCause::SupervisorTimer => TrapAction::Preempt,
        TrapCause::Other => {
            proof {
                assert(false);  // excluded by the precondition
            }
            TrapAction::Preempt
        },
    }
}

/// Stores the result of a system call in `x10`.
pub fn finish_syscall(cx: &mut TrapContext, ret: isize)
    ensures
        final(cx).x@ == old(cx).x@.update(10, ret as usize),
        final(cx).sepc == old(cx).sepc,
        final(cx).sstatus == old(cx).sstatus,
        final(cx).kernel_satp == old(cx).kernel_satp,
        final(cx).kernel_sp == old(cx).kernel_sp,
        final(cx).trap_handler == old(cx).trap_handler,
{
    cx.x[10] = ret as usize;
}

/// Where the return to user mode goes.
#[derive(Clone, Copy, PartialEq, Eq, Structural, Debug)]
pub struct TrapReturn {
    /// Virtual address of `__restore` in the trampoline page.
    pub restore_va: usize,
    /// Virtual address of the trap context, passed in `a0`.
    pub trap_cx_ptr: usize,
    /// `satp` of the user address space, passed in `a1`.
    pub user_satp: usize,
}

/// The jump of the return to user mode: `__restore` sits at the same offset
/// from `__alltraps` in the trampoline page as in the kernel image.
pub fn trap_return(alltraps: usize, restore: usize, user_satp: usize) -> (r: TrapReturn)
    requires
        alltraps <= restore,
        restore - alltraps < PAGE_SIZE,
    ensures
        r.restore_va == restore - alltraps + TRAMPOLINE,
        r.trap_cx_ptr == TRAP_CONTEXT_BASE,
        r.user_satp == user_satp,
{
    proof {
        crate::config::lemma_layout_constants();
    }
    TrapReturn { restore_va: restore - alltraps + TRAMPOLINE, trap_cx_ptr: TRAP_CONTEXT_BASE, user_satp }
}

} // verus!
