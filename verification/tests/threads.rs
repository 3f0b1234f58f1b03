use rcore_os::syscall::thread::{sys_gettid, sys_thread_create, sys_waittid, ProcessThreads, ThreadSlot, ThreadStart};
use rcore_os::trap::TrapContext;

fn start() -> ThreadStart {
    ThreadStart {
        entry: 0x10400,
        arg: 99,
        ustack_top: 0x7000,
        kernel_token: 5,
        kstack_top: 0x9000,
        trap_handler: 0x8020_2000,
        sstatus: 0x100,
    }
}

fn slot(exit_code: Option<i32>) -> Option<ThreadSlot> {
    Some(ThreadSlot { exit_code, trap_cx: TrapContext::app_init_context(0, 0, 0, 0, 0, 0) })
}

#[test]
fn thread_create_fills_the_table() {
    let mut p = ProcessThreads { tasks: vec![slot(None)], is_enable_deadlock_detect: true, allocation: vec![], need: vec![] };
    let mut ready = vec![(1usize, 0usize)];
    assert_eq!(sys_thread_create(&mut p, &mut ready, 7, 3, start()), 3);
    assert_eq!(ready, vec![(1, 0), (7, 3)]);
    assert_eq!(p.tasks.len(), 4);
    assert!(p.tasks[1].is_none() && p.tasks[2].is_none());
    let t = p.tasks[3].unwrap();
    assert_eq!(t.exit_code, None);
    assert_eq!(t.trap_cx.sepc, 0x10400);
    assert_eq!(t.trap_cx.x[10], 99);
    assert_eq!(t.trap_cx.x[2], 0x7000);
    assert_eq!(t.trap_cx.sstatus, 0);
    assert_eq!(t.trap_cx.kernel_sp, 0x9000);
    assert_eq!(p.allocation.len(), 1);
    assert_eq!(p.need.len(), 1);
    assert_eq!(sys_thread_create(&mut p, &mut ready, 7, 1, start()), 1);
    assert_eq!(ready.len(), 3);
    assert_eq!(p.tasks.len(), 4);
    assert!(p.tasks[1].is_some());
}

#[test]
fn thread_create_without_deadlock_detection() {
    let mut p = ProcessThreads { tasks: vec![], is_enable_deadlock_detect: false, allocation: vec![], need: vec![] };
    let mut ready = Vec::new();
    assert_eq!(sys_thread_create(&mut p, &mut ready, 2, 0, start()), 0);
    assert_eq!(ready, vec![(2, 0)]);
    assert_eq!(p.tasks.len(), 1);
    assert!(p.allocation.is_empty() && p.need.is_empty());
}

#[test]
fn waittid_cases() {
    let mut p = ProcessThreads { tasks: vec![slot(None), slot(Some(5)), None, slot(None)], is_enable_deadlock_detect: false, allocation: vec![], need: vec![] };
    assert_eq!(sys_waittid(&mut p, 0, 0), -1);
    assert_eq!(sys_waittid(&mut p, 0, 2), -1);
    assert_eq!(sys_waittid(&mut p, 0, 3), -2);
    assert_eq!(sys_waittid(&mut p, 0, 1), 5);
    assert!(p.tasks[1].is_none());
    assert_eq!(sys_waittid(&mut p, 0, 1), -1);
    assert_eq!(sys_waittid(&mut p, 0, 9), -1);
    assert_eq!(p.tasks.len(), 4);
    assert_eq!(sys_gettid(3), 3);
}
