//! Value types of the system-call surface: the time value and the
//! per-task information record, with the computations that fill them.
//! Reading the clock and writing through user pointers stay with the
//! caller; the functions here only compute the record contents.

use vstd::prelude::*;
use crate::config::MAX_SYSCALL_NUM;
use crate::task::{TaskControlBlock, TaskStatus};

verus! {

/// A time split into whole seconds and the microseconds below them.
#[derive(Clone, Copy, PartialEq, Eq, Structural, Debug)]
pub struct TimeVal {
    /// whole seconds
    pub sec: usize,
    /// microseconds below one second
    pub usec: usize,
}

impl TimeVal {
    /// Split a microsecond count into seconds and microseconds.
    pub fn from_micros(time_us: usize) -> (r: TimeVal)
        ensures
            r.sec == time_us / 1000000,
            r.usec == time_us % 1000000,
            r.sec * 1000000 + r.usec == time_us,
    {
        proof {
            assert(time_us / 1000000 * 1000000 + time_us % 1000000 == time_us) by (nonlinear_arith);
        }
        TimeVal { sec: time_us / 1000000, usec: time_us % 1000000 }
    }
}

/// Information on one task as the system-call surface reports it.
pub struct TaskInfo {
    /// task status in its lifecycle
    pub status: TaskStatus,
    /// number of calls of each system call made by the task
    pub syscall_times: Vec<u32>,
    /// total running time of the task
    pub time: usize,
}

impl TaskInfo {
    /// Assemble the record for one task.
    pub fn from_task(task: &TaskControlBlock) -> (r: TaskInfo)
        requires
            task.wf(),
        ensures
            r.status == task.task_status,
            r.syscall_times@ == task.syscall_times@,
            r.syscall_times@.len() == MAX_SYSCALL_NUM,
            r.time == task.time,
    {
        let mut syscall_times: Vec<u32> = Vec::new();
        let mut i: usize = 0;
        while i < task.syscall_times.len()
            invariant
                i <= task.syscall_times@.len(),
                syscall_times@ == task.syscall_times@.take(i as int),
            decreases task.syscall_times@.len() - i,
        {
            syscall_times.push(task.syscall_times[i]);
            proof {
                assert(task.syscall_times@.take(i + 1) =~= task.syscall_times@.take(
                    i as int,
                ).push(task.syscall_times@[i as int]));
            }
            i = i + 1;
        }
        proof {
            assert(task.syscall_times@.take(task.syscall_times@.len() as int)
                =~= task.syscall_times@);
        }
        TaskInfo { status: task.task_status, syscall_times, time: task.time }
    }
}

} // verus!
