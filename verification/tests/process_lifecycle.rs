use proc_core::kernel::Kernel;
use proc_core::mm::ExecImage;
use proc_core::task::TaskStatus;

fn image() -> ExecImage {
    ExecImage { entry_point: 4096, ustack_base: 1 << 20, brk_init: 1 << 19, token: 77 }
}

#[test]
fn wait_poll_cycle_reaps_exactly_once() {
    let mut k = Kernel::new();
    let root = k.create_process(&image());
    assert_eq!(root, 0);
    assert!(k.run_next());
    assert_eq!(k.sys_getpid(), 0);

    // no children yet
    assert_eq!(k.sys_waitpid(-1, 0x100), -1);

    // spawn one child
    let c = k.sys_spawn(Some(&image()));
    assert_eq!(c, 1);

    // the child exists but has not exited
    assert_eq!(k.sys_waitpid(-1, 0x100), -2);
    assert_eq!(k.sys_waitpid(1, 0x100), -2);
    // no child carries pid 5
    assert_eq!(k.sys_waitpid(5, 0x100), -1);

    // let the child run and exit with code 7
    assert_eq!(k.sys_yield(), 0);
    assert!(k.run_next());
    assert_eq!(k.sys_getpid(), 1);
    k.sys_exit(7);
    assert!(k.run_next());
    assert_eq!(k.sys_getpid(), 0);

    // the wait now reaps the child and stores its exit code
    assert_eq!(k.sys_waitpid(-1, 0x100), 1);
    let stored = k.procs[0].as_ref().unwrap().inner_exclusive_access().memory_set.read_int(0x100);
    assert_eq!(stored, Some(7));

    // the child is fully removed: a second wait finds nothing
    assert_eq!(k.sys_waitpid(-1, 0x100), -1);
    assert_eq!(k.sys_waitpid(1, 0x100), -1);
    assert!(k.procs[1].is_none());
}

#[test]
fn fork_distinguishes_parent_and_child() {
    let mut k = Kernel::new();
    let root = k.create_process(&image());
    assert_eq!(root, 0);
    assert!(k.run_next());

    let child_pid = k.sys_fork();
    assert_eq!(child_pid, 1);
    // the parent keeps its own pid; the pids differ
    assert_eq!(k.sys_getpid(), 0);
    assert_ne!(k.sys_getpid(), child_pid);

    // the child's first return-value slot reads zero, while the parent
    // observes the child's pid as the call's result
    let child = k.procs[1].as_ref().unwrap();
    let ct = child.inner_exclusive_access().tasks[0].as_ref().unwrap().clone();
    assert_eq!(ct.trap_cx.a0, 0);
    assert_eq!(ct.task_status, TaskStatus::Ready);
    assert_eq!(child.getpid(), 1);

    // the child inherited the parent's address-space contents and file
    // table but runs under its own pid
    let parent = k.procs[0].as_ref().unwrap();
    assert_eq!(
        child.inner_exclusive_access().fd_table.len(),
        parent.inner_exclusive_access().fd_table.len()
    );
    assert_eq!(child.inner_exclusive_access().parent, Some(0));
}

#[test]
fn exit_reparents_children_to_root() {
    let mut k = Kernel::new();
    assert_eq!(k.create_process(&image()), 0);
    assert!(k.run_next());
    // the first process spawns a middle child, which spawns its own
    let mid = k.sys_spawn(Some(&image()));
    assert_eq!(mid, 1);
    k.sys_yield();
    assert!(k.run_next());
    assert_eq!(k.sys_getpid(), 1);
    let grand = k.sys_spawn(Some(&image()));
    assert_eq!(grand, 2);
    // the middle process exits: its child moves to the root process
    k.sys_exit(0);
    let root_children = k.procs[0].as_ref().unwrap().inner_exclusive_access().children.clone();
    assert_eq!(root_children, vec![1, 2]);
    let grand_parent = k.procs[2].as_ref().unwrap().inner_exclusive_access().parent;
    assert_eq!(grand_parent, Some(0));
}

#[test]
fn freed_pid_is_reused_for_the_next_process() {
    let mut k = Kernel::new();
    assert_eq!(k.create_process(&image()), 0);
    assert!(k.run_next());
    assert_eq!(k.sys_spawn(Some(&image())), 1);
    k.sys_yield();
    assert!(k.run_next());
    k.sys_exit(0);
    assert!(k.run_next());
    assert_eq!(k.sys_waitpid(1, 0x40), 1);
    // pid 1 is free again and is the smallest free id
    assert_eq!(k.sys_spawn(Some(&image())), 1);
}

#[test]
fn spawn_without_image_fails() {
    let mut k = Kernel::new();
    assert_eq!(k.create_process(&image()), 0);
    assert!(k.run_next());
    assert_eq!(k.sys_spawn(None), -1);
}

#[test]
fn set_priority_is_not_supported() {
    let k = Kernel::new();
    assert_eq!(k.sys_set_priority(10), -1);
}

#[test]
fn yield_requeues_the_caller() {
    let mut k = Kernel::new();
    assert_eq!(k.create_process(&image()), 0);
    assert!(k.run_next());
    assert_eq!(k.sys_yield(), 0);
    // the only runnable task is the one that yielded
    assert!(k.run_next());
    assert_eq!(k.sys_getpid(), 0);
    let status = k.procs[0].as_ref().unwrap().inner_exclusive_access().tasks[0]
        .as_ref()
        .unwrap()
        .task_status;
    assert_eq!(status, TaskStatus::Running);
}

#[test]
fn run_next_with_empty_queue_reports_idle() {
    let mut k = Kernel::new();
    assert!(!k.run_next());
}
