//! Task (thread) control blocks: per-thread execution state, the saved
//! context, and the stride-scheduling bookkeeping the scheduler reads.

use vstd::prelude::*;
use crate::config::{BIG_STRIDE, MAX_SYSCALL_NUM};

verus! {

/// The status of a task in its lifecycle.
#[derive(Clone, Copy, PartialEq, Eq, Structural, Debug)]
pub enum TaskStatus {
    /// uninitialized
    UnInit,
    /// ready to run
    Ready,
    /// running on the processor
    Running,
    /// terminated, exit state retained until reaped
    Exited,
}

/// Saved callee context of a suspended task; opaque to this core beyond
/// the return address, stack pointer and saved registers it carries.
#[derive(Clone, Copy, PartialEq, Eq, Structural, Debug)]
pub struct TaskContext {
    /// return address to resume at
    pub ra: usize,
    /// kernel stack pointer
    pub sp: usize,
}

impl TaskContext {
    /// An all-zero context, the state before first dispatch.
    pub fn zero_init() -> (r: TaskContext)
        ensures
            r.ra == 0,
            r.sp == 0,
    {
        TaskContext { ra: 0, sp: 0 }
    }
}

/// Trap context of a task: what user execution state the kernel saves on
/// entry and restores on return. The two return-value slots `a0`/`a1` are
/// what the resumed user program observes as results (and, after `exec`,
/// as its `main(argc, argv)` parameters).
#[derive(Clone, Copy, PartialEq, Eq, Structural, Debug)]
pub struct TrapContext {
    /// first return-value / argument slot
    pub a0: usize,
    /// second return-value / argument slot
    pub a1: usize,
    /// user stack pointer
    pub sp: usize,
    /// user program counter to resume at
    pub sepc: usize,
    /// token of the kernel address space
    pub kernel_satp: usize,
    /// highest address of the owning task's kernel stack
    pub kernel_sp: usize,
    /// address of the kernel's trap handler
    pub trap_handler: usize,
}

impl TrapContext {
    /// The entry context of a fresh user program: resume at `entry` with
    /// stack pointer `sp`, returning into the kernel via the given kernel
    /// stack and handler.
    pub fn app_init_context(
        entry: usize,
        sp: usize,
        kernel_satp: usize,
        kernel_sp: usize,
        trap_handler: usize,
    ) -> (r: TrapContext)
        ensures
            r == (TrapContext {
                a0: 0,
                a1: 0,
                sp,
                sepc: entry,
                kernel_satp,
                kernel_sp,
                trap_handler,
            }),
    {
        TrapContext { a0: 0, a1: 0, sp, sepc: entry, kernel_satp, kernel_sp, trap_handler }
    }
}

/// The task control block of one thread.
#[derive(Clone, Debug)]
pub struct TaskControlBlock {
    /// id of the owning process; never changes once the task is created
    pub pid: usize,
    /// thread id, unique within the owning process
    pub tid: usize,
    /// the task status in its lifecycle
    pub task_status: TaskStatus,
    /// the saved task context
    pub task_cx: TaskContext,
    /// the trap context of the task
    pub trap_cx: TrapContext,
    /// number of calls of each system call made by the task
    pub syscall_times: Vec<u32>,
    /// total running time of the task
    pub time: usize,
    /// start time of the task
    pub start_time: usize,
    /// stride-scheduling accumulator; grows on every dispatch
    pub stride: usize,
    /// scheduling priority; at least 2
    pub priority: usize,
    /// exit code, valid once the task has exited
    pub exit_code: i32,
    /// whether the user-stack and trap-context resources are still held;
    /// cleared on exit so the block can outlive its resources until reaped
    pub has_res: bool,
}

impl TaskControlBlock {
    /// Well-formedness: the syscall table has its fixed size and the
    /// priority lies in the supported range, so a stride step
    /// `BIG_STRIDE / priority` is at least 1.
    pub open spec fn wf(self) -> bool {
        &&& self.syscall_times@.len() == MAX_SYSCALL_NUM
        &&& 2 <= self.priority <= BIG_STRIDE
    }

    /// A fresh, uninitialized task control block.
    pub fn new() -> (r: TaskControlBlock)
        ensures
            r.wf(),
            r.pid == 0,
            r.tid == 0,
            r.task_status == TaskStatus::UnInit,
            r.task_cx.ra == 0,
            r.task_cx.sp == 0,
            forall|i: int| 0 <= i < MAX_SYSCALL_NUM ==> r.syscall_times@[i] == 0,
            r.time == 0,
            r.start_time == 0,
            r.stride == 0,
            r.priority == 16,
            r.exit_code == 0,
            r.has_res == true,
    {
        let mut syscall_times: Vec<u32> = Vec::new();
        let mut i: usize = 0;
        while i < MAX_SYSCALL_NUM
            invariant
                i <= MAX_SYSCALL_NUM,
                syscall_times@.len() == i,
                forall|j: int| 0 <= j < i ==> syscall_times@[j] == 0,
            decreases MAX_SYSCALL_NUM - i,
        {
            syscall_times.push(0);
            i = i + 1;
        }
        TaskControlBlock {
            pid: 0,
            tid: 0,
            task_status: TaskStatus::UnInit,
            task_cx: TaskContext::zero_init(),
            trap_cx: TrapContext { a0: 0, a1: 0, sp: 0, sepc: 0, kernel_satp: 0, kernel_sp: 0, trap_handler: 0 },
            syscall_times,
            time: 0,
            start_time: 0,
            stride: 0,
            priority: 16,
            exit_code: 0,
            has_res: true,
        }
    }

    /// Record one more invocation of the given system call.
    pub fn update_syscall_times(&mut self, syscall_id: usize)
        requires
            old(self).wf(),
            syscall_id < MAX_SYSCALL_NUM,
            old(self).syscall_times@[syscall_id as int] < u32::MAX,
        ensures
            final(self).wf(),
            final(self).syscall_times@ == old(self).syscall_times@.update(
                syscall_id as int,
                (old(self).syscall_times@[syscall_id as int] + 1) as u32,
            ),
            *final(self) == (TaskControlBlock {
                syscall_times: final(self).syscall_times,
                ..*old(self)
            }),
    {
        let v = self.syscall_times[syscall_id];
        self.syscall_times.set(syscall_id, v + 1);
    }

    /// Current lifecycle status.
    pub fn get_status(&self) -> (r: TaskStatus)
        ensures
            r == self.task_status,
    {
        self.task_status
    }

    /// Current stride accumulator.
    pub fn get_stride(&self) -> (r: usize)
        ensures
            r == self.stride,
    {
        self.stride
    }

    /// Scheduling priority.
    pub fn get_priority(&self) -> (r: usize)
        ensures
            r == self.priority,
    {
        self.priority
    }

    /// Overwrite the stride accumulator.
    pub fn set_stride(&mut self, stride: usize)
        ensures
            *final(self) == (TaskControlBlock { stride, ..*old(self) }),
    {
        self.stride = stride;
    }
}

} // verus!
