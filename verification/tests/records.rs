use proc_core::config::MAX_SYSCALL_NUM;
use proc_core::kernel::Kernel;
use proc_core::mm::ExecImage;
use proc_core::process::FileHandle;
use proc_core::syscall::{TaskInfo, TimeVal};
use proc_core::task::{TaskControlBlock, TaskStatus};

#[test]
fn time_val_splits_microseconds() {
    let t = TimeVal::from_micros(3456789);
    assert_eq!(t.sec, 3);
    assert_eq!(t.usec, 456789);
    let z = TimeVal::from_micros(0);
    assert_eq!(z.sec, 0);
    assert_eq!(z.usec, 0);
    let exact = TimeVal::from_micros(2000000);
    assert_eq!(exact.sec, 2);
    assert_eq!(exact.usec, 0);
}

#[test]
fn syscall_times_count_each_invocation() {
    let mut t = TaskControlBlock::new();
    assert_eq!(t.syscall_times.len(), MAX_SYSCALL_NUM);
    t.update_syscall_times(5);
    t.update_syscall_times(5);
    t.update_syscall_times(93);
    assert_eq!(t.syscall_times[5], 2);
    assert_eq!(t.syscall_times[93], 1);
    assert_eq!(t.syscall_times[0], 0);
}

#[test]
fn task_info_mirrors_the_task() {
    let mut t = TaskControlBlock::new();
    t.task_status = TaskStatus::Running;
    t.time = 42;
    t.update_syscall_times(7);
    let info = TaskInfo::from_task(&t);
    assert_eq!(info.status, TaskStatus::Running);
    assert_eq!(info.time, 42);
    assert_eq!(info.syscall_times[7], 1);
    assert_eq!(info.syscall_times.len(), MAX_SYSCALL_NUM);
}

#[test]
fn fresh_task_starts_uninitialized() {
    let t = TaskControlBlock::new();
    assert_eq!(t.task_status, TaskStatus::UnInit);
    assert_eq!(t.stride, 0);
    assert_eq!(t.priority, 16);
    assert!(t.has_res);
}

#[test]
fn descriptor_table_reuses_the_lowest_free_slot() {
    let mut k = Kernel::new();
    let img = ExecImage { entry_point: 0, ustack_base: 1 << 20, brk_init: 0, token: 1 };
    assert_eq!(k.create_process(&img), 0);
    let inner = &mut k.procs[0].as_mut().unwrap().inner;
    // the three standard descriptors are preopened
    assert_eq!(inner.fd_table[0], Some(FileHandle::Stdin));
    assert_eq!(inner.fd_table[1], Some(FileHandle::Stdout));
    assert_eq!(inner.fd_table[2], Some(FileHandle::Stdout));
    // a full table is extended
    assert_eq!(inner.alloc_fd(), 3);
    inner.fd_table[3] = Some(FileHandle::Stdout);
    // a hole is reused before the table grows again
    inner.fd_table[1] = None;
    assert_eq!(inner.alloc_fd(), 1);
}

#[test]
fn thread_table_lookups() {
    let mut k = Kernel::new();
    let img = ExecImage { entry_point: 0, ustack_base: 1 << 20, brk_init: 0, token: 1 };
    assert_eq!(k.create_process(&img), 0);
    let p = k.procs[0].as_ref().unwrap();
    assert_eq!(p.getpid(), 0);
    let inner = p.inner_exclusive_access();
    assert_eq!(inner.thread_count(), 1);
    assert_eq!(inner.get_task(0).tid, 0);
    assert_eq!(inner.get_user_token(), 1);
}

#[test]
fn thread_id_allocation_recycles() {
    let mut k = Kernel::new();
    let img = ExecImage { entry_point: 0, ustack_base: 1 << 20, brk_init: 0, token: 1 };
    assert_eq!(k.create_process(&img), 0);
    let inner = &mut k.procs[0].as_mut().unwrap().inner;
    // tid 0 went to the main thread
    let t1 = inner.alloc_tid();
    assert_eq!(t1, 1);
    inner.dealloc_tid(t1);
    assert_eq!(inner.alloc_tid(), 1);
}
