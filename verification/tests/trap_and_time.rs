use rcore_os::syscall::process::sys_get_time;
use rcore_os::trap::{trap_handler, trap_return, finish_syscall, TrapAction, TrapCause, TrapContext, SSTATUS_SPP};
use rcore_os::config::{TRAMPOLINE, TRAP_CONTEXT_BASE};

#[test]
fn get_time_splits_microseconds() {
    let t = sys_get_time(3_250_017);
    assert_eq!(t.sec, 3);
    assert_eq!(t.usec, 250_017);
    let z = sys_get_time(0);
    assert_eq!((z.sec, z.usec), (0, 0));
}

#[test]
fn user_env_call_becomes_syscall() {
    let mut cx = TrapContext::app_init_context(0x1000, 0x8000, 7, 9, 11, SSTATUS_SPP | 2);
    cx.x[17] = 64;
    cx.x[10] = 1;
    cx.x[11] = 2;
    cx.x[12] = 3;
    let action = trap_handler(&mut cx, TrapCause::UserEnvCall);
    assert_eq!(action, TrapAction::Syscall { id: 64, a0: 1, a1: 2, a2: 3 });
    assert_eq!(cx.sepc, 0x1004);
    finish_syscall(&mut cx, -1);
    assert_eq!(cx.x[10], usize::MAX);
    assert_eq!(cx.sstatus, 2);
    assert_eq!(cx.x[2], 0x8000);
}

#[test]
fn trap_return_jumps_into_trampoline() {
    let r = trap_return(0x8020_0000, 0x8020_0060, 42);
    assert_eq!(r.restore_va, TRAMPOLINE + 0x60);
    assert_eq!(r.trap_cx_ptr, TRAP_CONTEXT_BASE);
    assert_eq!(r.user_satp, 42);
}

#[test]
fn faults_timer_and_others_map_to_actions() {
    let base = TrapContext::app_init_context(0x2000, 0x9000, 1, 2, 3, 0);
    let cases = [
        (TrapCause::StoreFault, TrapAction::KillPageFault),
        (TrapCause::StorePageFault, TrapAction::KillPageFault),
        (TrapCause::LoadFault, TrapAction::KillPageFault),
        (TrapCause::LoadPageFault, TrapAction::KillPageFault),
        (TrapCause::IllegalInstruction, TrapAction::KillIllegalInstruction),
        (TrapCause::SupervisorTimer, TrapAction::Preempt),
    ];
    for (cause, expected) in cases {
        let mut cx = base;
        assert_eq!(trap_handler(&mut cx, cause), expected);
        assert_eq!(cx.sepc, 0x2000);
        assert_eq!(cx.x, base.x);
    }
}
