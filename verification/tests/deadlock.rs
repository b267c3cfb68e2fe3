use proc_core::detect::{MutexDeadlockDetect, SemaphoreDeadlockDetect};

#[test]
fn mutex_detect_safe_when_holder_can_finish() {
    // one mutex unit, held by thread 0 whose remaining need is zero;
    // thread 1 still needs it, but thread 0 can finish and release
    let mut d = MutexDeadlockDetect::new(0);
    d.open();
    d.need_resource(0, vec![0]);
    d.need_resource(1, vec![1]);
    d.allocate_resource(0, vec![1]);
    d.allocate_resource(1, vec![0]);
    d.consume_resource(0, 1);
    assert!(d.detect());
}

#[test]
fn mutex_detect_unsafe_when_no_thread_can_finish() {
    // thread 0 holds the only unit and still declares need for one
    // more, thread 1 needs one as well: nobody can finish
    let mut d = MutexDeadlockDetect::new(0);
    d.open();
    d.need_resource(0, vec![1]);
    d.need_resource(1, vec![1]);
    d.allocate_resource(0, vec![1]);
    d.allocate_resource(1, vec![0]);
    d.consume_resource(0, 1);
    assert!(!d.detect());
}

#[test]
fn mutex_detect_reports_safe_while_disabled() {
    let d = MutexDeadlockDetect::new(0);
    assert!(d.detect());
}

#[test]
fn mutex_mutators_are_noops_while_disabled() {
    let mut d = MutexDeadlockDetect::new(0);
    d.need_resource(0, vec![1]);
    d.allocate_resource(0, vec![1]);
    d.consume_resource(0, 1);
    d.open();
    // nothing was recorded, so the single unit is still available and
    // no thread row exists: trivially safe
    assert!(d.detect());
}

#[test]
fn semaphore_detect_safe_and_unsafe() {
    let mut d = SemaphoreDeadlockDetect::new();
    d.open();
    // two units of resource 0; threads 0 and 1 each hold one and each
    // declares one more: neither can finish
    d.put_resource(0, 2);
    d.allocate_resource(0, 0, 1);
    d.allocate_resource(1, 0, 1);
    d.consume_resource(0, 2);
    d.need_num_resource(0, 0, 1);
    d.need_num_resource(1, 0, 1);
    assert!(!d.detect());
    // thread 0 withdraws its extra demand: it can finish and release,
    // after which thread 1 can be satisfied
    d.release_need_num_resource(0, 0, 1);
    assert!(d.detect());
}

#[test]
fn semaphore_release_restores_availability() {
    let mut d = SemaphoreDeadlockDetect::new();
    d.open();
    d.put_resource(1, 1);
    d.consume_resource(1, 1);
    d.allocate_resource(2, 1, 1);
    d.need_num_resource(3, 1, 1);
    assert!(d.detect());
    d.deallocate_resource(2, 1, 1);
    d.put_resource(1, 1);
    assert!(d.detect());
}

#[test]
fn semaphore_detect_reports_safe_while_disabled() {
    let mut d = SemaphoreDeadlockDetect::new();
    d.need_num_resource(0, 0, 5);
    assert!(d.detect());
}
