use proc_core::config::BIG_STRIDE;
use proc_core::manager::TaskManager;
use proc_core::task::{TaskControlBlock, TaskStatus};

fn ready_task(pid: usize, stride: usize, priority: usize) -> TaskControlBlock {
    let mut t = TaskControlBlock::new();
    t.pid = pid;
    t.task_status = TaskStatus::Ready;
    t.stride = stride;
    t.priority = priority;
    t
}

#[test]
fn fetch_picks_minimum_stride() {
    let mut m = TaskManager::new();
    m.add(ready_task(1, 30, 16));
    m.add(ready_task(2, 10, 16));
    m.add(ready_task(3, 20, 16));
    let t = m.fetch().unwrap();
    assert_eq!(t.pid, 2);
    assert_eq!(t.stride, 10 + BIG_STRIDE / 16);
}

#[test]
fn fetch_breaks_ties_by_queue_order() {
    let mut m = TaskManager::new();
    m.add(ready_task(7, 5, 16));
    m.add(ready_task(8, 5, 16));
    let t = m.fetch().unwrap();
    assert_eq!(t.pid, 7);
    let t2 = m.fetch().unwrap();
    assert_eq!(t2.pid, 8);
}

#[test]
fn fetch_skips_tasks_that_are_not_ready() {
    let mut m = TaskManager::new();
    let mut blocked = ready_task(1, 0, 16);
    blocked.task_status = TaskStatus::Running;
    m.add(blocked);
    m.add(ready_task(2, 100, 16));
    let t = m.fetch().unwrap();
    assert_eq!(t.pid, 2);
    assert!(m.fetch().is_none());
}

#[test]
fn fetch_on_empty_queue_returns_none() {
    let mut m = TaskManager::new();
    assert!(m.fetch().is_none());
}

#[test]
fn stride_strictly_increases_at_each_dequeue() {
    let mut m = TaskManager::new();
    m.add(ready_task(1, 0, 2));
    let mut last: usize = 0;
    for round in 0..50 {
        let t = m.fetch().unwrap();
        if round > 0 {
            assert!(t.stride > last);
        }
        assert_eq!(t.stride, last + BIG_STRIDE / 2);
        last = t.stride;
        m.add(t);
    }
}

#[test]
fn proportional_share_over_many_rounds() {
    // one task at twice the priority of the other receives roughly
    // twice the dispatches over a long run
    let mut m = TaskManager::new();
    m.add(ready_task(1, 0, 4));
    m.add(ready_task(2, 0, 2));
    let mut count_hi: usize = 0;
    let mut count_lo: usize = 0;
    for _ in 0..1000 {
        let t = m.fetch().unwrap();
        if t.pid == 1 {
            count_hi += 1;
        } else {
            count_lo += 1;
        }
        m.add(t);
    }
    assert_eq!(count_hi + count_lo, 1000);
    // expected split 667 / 333; allow a small tolerance
    assert!(count_hi >= 650 && count_hi <= 680, "high-priority count {}", count_hi);
    assert!(count_lo >= 320 && count_lo <= 350, "low-priority count {}", count_lo);
}

#[test]
fn strides_near_the_limit_are_rebased_before_selection() {
    let mut m = TaskManager::new();
    // both Ready strides sit within one step of usize::MAX, so fetch
    // rebases by the smaller one before selecting
    m.add(ready_task(1, usize::MAX - 5, 2));
    m.add(ready_task(2, usize::MAX - 3, 2));
    let mut blocked = ready_task(3, 10, 2);
    blocked.task_status = TaskStatus::Running;
    m.add(blocked);
    let t = m.fetch().unwrap();
    assert_eq!(t.pid, 1);
    // rebased to 0, then advanced by one step
    assert_eq!(t.stride, BIG_STRIDE / 2);
    let t2 = m.fetch().unwrap();
    assert_eq!(t2.pid, 2);
    // rebased to 2; now far from the limit, no further rebase
    assert_eq!(t2.stride, 2 + BIG_STRIDE / 2);
    assert!(m.fetch().is_none());
}
