//! The kernel state the system-call layer drives: the process table, the
//! process-id allocator, the scheduler, and the currently running
//! process. Each operation is a step of the state machine: the caller
//! performs the outside work (loading an image, reading the clock) and
//! hands the plain values in.

use vstd::prelude::*;
use crate::config::{PAGE_SIZE, USER_STACK_SIZE};
use crate::id::RecycleAllocator;
use crate::manager::{has_ready, chosen_index, is_chosen_index, TaskManager};
use crate::mm::{AddressSpace, ExecImage};
use crate::process::{FileHandle, ProcessControlBlock, ProcessControlBlockInner};
use crate::detect::{MutexDeadlockDetect, SemaphoreDeadlockDetect, SEM_DETECT_SLOTS};
use crate::task::{TaskControlBlock, TaskStatus, TrapContext};

verus! {

/// Pid of the designated root process: the first process created. The
/// children of an exiting process are reparented to it, and it may not
/// itself exit.
pub const ROOT_PID: usize = 0;

/// The kernel's process and scheduling state.
pub struct Kernel {
    /// process table, indexed by pid; a `None` slot is a freed pid
    pub procs: Vec<Option<ProcessControlBlock>>,
    /// allocator of process ids
    pub pid_allocator: RecycleAllocator,
    /// the scheduler's ready queue
    pub scheduler: TaskManager,
    /// pid of the process whose task is running, if any
    pub current: Option<usize>,
}

impl Kernel {
    /// `p` is the pid of a live (unreaped) process.
    pub open spec fn live(self, p: int) -> bool {
        0 <= p < self.procs@.len() && self.procs@[p] is Some
    }

    /// The process at pid `p`.
    pub open spec fn proc_at(self, p: int) -> ProcessControlBlock {
        self.procs@[p].unwrap()
    }

    /// The synchronization-object state a process is born with: empty
    /// mutex/semaphore/condvar tables and both deadlock detectors fresh
    /// and disabled (one mutex slot of one available unit, no thread
    /// rows; all-zero semaphore accounts).
    pub open spec fn fresh_sync_state(inner: ProcessControlBlockInner) -> bool {
        &&& inner.mutex_list@.len() == 0
        &&& inner.semaphore_list@.len() == 0
        &&& inner.condvar_list@.len() == 0
        &&& !inner.mutex_deadlock_detect.deadlock_detect
        &&& inner.mutex_deadlock_detect.avail_ints().len() == 1
        &&& inner.mutex_deadlock_detect.avail_ints()[0] == 1
        &&& inner.mutex_deadlock_detect.allocation@.len() == 0
        &&& inner.mutex_deadlock_detect.need@.len() == 0
        &&& !inner.semaphore_deadlock_detect.deadlock_detect
        &&& forall|j: int|
            0 <= j < SEM_DETECT_SLOTS ==> #[trigger] inner.semaphore_deadlock_detect.avail_ints()[j]
                == 0
        &&& forall|i: int, j: int|
            0 <= i < SEM_DETECT_SLOTS && 0 <= j < SEM_DETECT_SLOTS
                ==> #[trigger] inner.semaphore_deadlock_detect.alloc_ints()[i][j] == 0
        &&& forall|i: int, j: int|
            0 <= i < SEM_DETECT_SLOTS && 0 <= j < SEM_DETECT_SLOTS
                ==> #[trigger] inner.semaphore_deadlock_detect.need_ints()[i][j] == 0
        &&& inner.task_res_allocator.is_allocated(0)
        &&& forall|j: int| j != 0 ==> !inner.task_res_allocator.is_allocated(j)
    }

    /// The table and the pid allocator agree: a slot is filled exactly
    /// when its pid is allocated, each block carries its own pid, and
    /// each live process is well formed with at least one thread slot.
    pub open spec fn table_wf(self) -> bool {
        &&& self.pid_allocator.wf()
        &&& self.procs@.len() == self.pid_allocator.current
        &&& forall|p: int|
            0 <= p < self.procs@.len() ==> (self.procs@[p] is Some
                <==> self.pid_allocator.is_allocated(p))
        &&& forall|p: int| #[trigger] self.live(p) ==> self.proc_at(p).pid == p
        &&& forall|p: int| #[trigger] self.live(p) ==> self.proc_at(p).inner.wf()
        &&& forall|p: int| #[trigger] self.live(p) ==> self.proc_at(p).inner.tasks@.len() >= 1
        &&& forall|p: int| #[trigger] self.live(p) ==> self.proc_at(p).inner.tasks@[0] is Some
    }

    /// Entry `i` of process `p`'s children list.
    pub open spec fn child_of(self, p: int, i: int) -> int {
        self.proc_at(p).inner.children@[i] as int
    }

    /// Children lists hold live processes, never the owner itself and
    /// never the root, and no pid stands in two lists or twice in one.
    pub open spec fn children_wf(self) -> bool {
        &&& forall|p: int, i: int|
            self.live(p) && 0 <= i < self.proc_at(p).inner.children@.len() ==> {
                &&& self.live(#[trigger] self.child_of(p, i))
                &&& self.child_of(p, i) != p
                &&& self.child_of(p, i) != ROOT_PID
            }
        &&& forall|p1: int, i1: int, p2: int, i2: int|
            self.live(p1) && 0 <= i1 < self.proc_at(p1).inner.children@.len() && self.live(p2) && 0
                <= i2 < self.proc_at(p2).inner.children@.len() && #[trigger] self.child_of(p1, i1)
                == #[trigger] self.child_of(p2, i2) ==> p1 == p2 && i1 == i2
    }

    /// The whole kernel state is well formed.
    pub open spec fn wf(self) -> bool {
        &&& self.table_wf()
        &&& self.children_wf()
        &&& (self.current matches Some(c) ==> self.live(c as int))
        &&& (self.procs@.len() > 0 ==> self.procs@[ROOT_PID as int] is Some)
        &&& self.scheduler.wf()
    }

    /// A kernel with no process and nothing scheduled.
    pub fn new() -> (r: Kernel)
        ensures
            r.wf(),
            r.procs@.len() == 0,
            r.scheduler.ready_queue@.len() == 0,
            r.current is None,
    {
        Kernel {
            procs: Vec::new(),
            pid_allocator: RecycleAllocator::new(),
            scheduler: TaskManager::new(),
            current: None,
        }
    }

    /// Create a fresh process from a loaded image: build its address
    /// space, allocate the smallest free pid, open the three standard
    /// descriptors, create the main thread with its trap context set to
    /// the image entry and the user stack top, register the process in
    /// the table, and hand the thread to the scheduler.
    pub fn create_process(&mut self, image: &ExecImage) -> (pid: usize)
        requires
            old(self).wf(),
            old(self).pid_allocator.current < usize::MAX,
            image.ustack_base + USER_STACK_SIZE <= usize::MAX,
        ensures
            final(self).wf(),
            old(self).pid_allocator.is_smallest_free(pid as int),
            final(self).pid_allocator.is_allocated(pid as int),
            forall|j: int|
                j != pid ==> (final(self).pid_allocator.is_allocated(j) <==> old(self).pid_allocator.is_allocated(j)),
            final(self).live(pid as int),
            ({
                let p = final(self).proc_at(pid as int);
                &&& p.pid == pid
                &&& !p.inner.is_zombie
                &&& p.inner.parent is None
                &&& p.inner.children@.len() == 0
                &&& p.inner.exit_code == 0
                &&& p.inner.fd_table@ == seq![
                    Some(FileHandle::Stdin),
                    Some(FileHandle::Stdout),
                    Some(FileHandle::Stdout),
                ]
                &&& p.inner.tasks@.len() == 1
                &&& p.inner.tasks@[0] is Some
                &&& ({
                    let t = p.inner.tasks@[0].unwrap();
                    &&& t.pid == pid
                    &&& t.tid == 0
                    &&& t.task_status == TaskStatus::Ready
                    &&& t.trap_cx == (TrapContext {
                        a0: 0,
                        a1: 0,
                        sp: (image.ustack_base + USER_STACK_SIZE) as usize,
                        sepc: image.entry_point,
                        kernel_satp: 0,
                        kernel_sp: 0,
                        trap_handler: 0,
                    })
                })
                &&& p.inner.memory_set.token == image.token
                &&& p.inner.memory_set.entry_point == image.entry_point
                &&& p.inner.memory_set.ustack_base == image.ustack_base
                &&& p.inner.memory_set.heap_bottom == image.brk_init
                &&& p.inner.memory_set.program_brk == image.brk_init
                &&& p.inner.memory_set.areas@.len() == 0
                &&& p.inner.memory_set.words@ == Map::<usize, usize>::empty()
                &&& p.inner.memory_set.ints@ == Map::<usize, i32>::empty()
                &&& p.inner.memory_set.bytes@ == Map::<usize, u8>::empty()
                &&& Kernel::fresh_sync_state(p.inner)
            }),
            forall|q: int|
                0 <= q < old(self).procs@.len() && q != pid ==> final(self).procs@[q] == old(self).procs@[q],
            final(self).procs@.len() == old(self).procs@.len() || (final(self).procs@.len() == old(
                self,
            ).procs@.len() + 1 && pid == old(self).procs@.len()),
            final(self).scheduler.ready_queue@.len() == old(self).scheduler.ready_queue@.len() + 1,
            final(self).scheduler.ready_queue@.drop_last() == old(self).scheduler.ready_queue@,
            ({
                let t = final(self).scheduler.ready_queue@.last();
                &&& t.pid == pid
                &&& t.tid == 0
                &&& t.task_status == TaskStatus::Ready
                &&& t.trap_cx == (TrapContext {
                    a0: 0,
                    a1: 0,
                    sp: (image.ustack_base + USER_STACK_SIZE) as usize,
                    sepc: image.entry_point,
                    kernel_satp: 0,
                    kernel_sp: 0,
                    trap_handler: 0,
                })
            }),
            final(self).current == old(self).current,
    {
        let pid = self.pid_allocator.alloc_id();
        let memory_set = AddressSpace::from_image(image);
        let ustack_top = image.ustack_base + USER_STACK_SIZE;

        let mut task_res_allocator = RecycleAllocator::new();
        let tid = task_res_allocator.alloc_id();

        let mut task = TaskControlBlock::new();
        task.pid = pid;
        task.tid = tid;
        task.task_status = TaskStatus::Ready;
        task.trap_cx = TrapContext::app_init_context(image.entry_point, ustack_top, 0, 0, 0);

        let mut queued = TaskControlBlock::new();
        queued.pid = pid;
        queued.tid = tid;
        queued.task_status = TaskStatus::Ready;
        queued.trap_cx = TrapContext::app_init_context(image.entry_point, ustack_top, 0, 0, 0);

        let mut fd_table: Vec<Option<FileHandle>> = Vec::new();
        fd_table.push(Some(FileHandle::Stdin));
        fd_table.push(Some(FileHandle::Stdout));
        fd_table.push(Some(FileHandle::Stdout));

        let mut tasks: Vec<Option<TaskControlBlock>> = Vec::new();
        tasks.push(Some(task));

        let pcb = ProcessControlBlock {
            pid,
            inner: ProcessControlBlockInner {
                is_zombie: false,
                memory_set,
                parent: None,
                children: Vec::new(),
                exit_code: 0,
                fd_table,
                tasks,
                task_res_allocator,
                mutex_list: Vec::new(),
                mutex_deadlock_detect: MutexDeadlockDetect::new(0),
                semaphore_list: Vec::new(),
                semaphore_deadlock_detect: SemaphoreDeadlockDetect::new(),
                condvar_list: Vec::new(),
            },
        };

        if pid == self.procs.len() {
            self.procs.push(Some(pcb));
        } else {
            self.procs[pid] = Some(pcb);
        }
        self.scheduler.add(queued);
        proof {
            assert(self.scheduler.ready_queue@.drop_last() == old(self).scheduler.ready_queue@);
            assert(self.procs@.len() == self.pid_allocator.current);
            assert forall|q: int|
                0 <= q < self.procs@.len() implies (self.procs@[q] is Some
                    <==> self.pid_allocator.is_allocated(q)) by {
                if q != pid {
                    if q < old(self).procs@.len() {
                        assert(self.procs@[q] == old(self).procs@[q]);
                    }
                }
            }
            if old(self).procs@.len() > 0 {
                assert(old(self).procs@[ROOT_PID as int] is Some);
                assert(old(self).pid_allocator.is_allocated(ROOT_PID as int));
                assert(pid != ROOT_PID);
                assert(self.procs@[ROOT_PID as int] is Some);
            }
            if self.current is Some {
                let c = self.current.unwrap() as int;
                assert(old(self).live(c));
                assert(c != pid);
                assert(self.live(c));
            }
            assert forall|p: int| #![trigger final(self).live(p)]
                final(self).live(p) implies (final(self).proc_at(p).pid == p && final(self).proc_at(p).inner.wf() && final(self).proc_at(p).inner.tasks@.len() >= 1 && final(self).proc_at(p).inner.tasks@[0] is Some) by {
                if p != pid {
                    assert(old(self).live(p));
                }
            }
            assert forall|p: int, i: int| #![trigger final(self).child_of(p, i)]
                final(self).live(p) && 0 <= i < final(self).proc_at(p).inner.children@.len()
                    implies (final(self).live(final(self).child_of(p, i)) && final(self).child_of(
                p,
                i,
            ) != p && final(self).child_of(p, i) != ROOT_PID) by {
                assert(p != pid);
                assert(old(self).live(p));
                assert(final(self).child_of(p, i) == old(self).child_of(p, i));
                assert(old(self).live(old(self).child_of(p, i)));
                assert(old(self).child_of(p, i) != pid);
            }
            assert forall|p1: int, i1: int, p2: int, i2: int|
                #![trigger final(self).child_of(p1, i1), final(self).child_of(p2, i2)]
                final(self).live(p1) && 0 <= i1 < final(self).proc_at(p1).inner.children@.len()
                    && final(self).live(p2) && 0 <= i2 < final(self).proc_at(
                    p2,
                ).inner.children@.len() && final(self).child_of(p1, i1) == final(self).child_of(
                    p2,
                    i2,
                ) implies (p1 == p2 && i1 == i2) by {
                assert(p1 != pid && p2 != pid);
                assert(old(self).live(p1) && old(self).live(p2));
                assert(old(self).child_of(p1, i1) == final(self).child_of(p1, i1));
                assert(old(self).child_of(p2, i2) == final(self).child_of(p2, i2));
            }
        }
        pid
    }

    /// `post` differs from `pre` in the process table only at pid `p`.
    pub open spec fn table_framed(pre: Kernel, post: Kernel, p: int) -> bool {
        &&& post.procs@.len() == pre.procs@.len()
        &&& forall|q: int| 0 <= q < pre.procs@.len() && q != p ==> post.procs@[q] == pre.procs@[q]
    }

    /// A step that rewrote one live process without touching its pid or
    /// its children list, the pid allocator, or any other slot keeps the
    /// kernel well formed.
    proof fn lemma_wf_after_proc_touch(pre: Kernel, post: Kernel, p: int)
        requires
            pre.wf(),
            pre.live(p),
            Kernel::table_framed(pre, post, p),
            post.live(p),
            post.proc_at(p).pid == pre.proc_at(p).pid,
            post.proc_at(p).inner.children@ == pre.proc_at(p).inner.children@,
            post.proc_at(p).inner.wf(),
            post.proc_at(p).inner.tasks@.len() >= 1,
            post.proc_at(p).inner.tasks@[0] is Some,
            post.pid_allocator == pre.pid_allocator,
            post.current matches Some(c) ==> post.live(c as int),
            post.scheduler.wf(),
        ensures
            post.wf(),
    {
        assert forall|q: int| #![trigger post.live(q)]
            post.live(q) implies (post.proc_at(q).pid == q && post.proc_at(q).inner.wf()
                && post.proc_at(q).inner.tasks@.len() >= 1 && post.proc_at(q).inner.tasks@[0]
                is Some) by {
            if q != p {
                assert(post.procs@[q] == pre.procs@[q]);
                assert(pre.live(q));
            }
        }
        assert forall|q: int|
            0 <= q < post.procs@.len() implies (post.procs@[q] is Some
                <==> post.pid_allocator.is_allocated(q)) by {
            if q != p {
                assert(post.procs@[q] == pre.procs@[q]);
            }
        }
        assert forall|q: int, i: int| #![trigger post.child_of(q, i)]
            post.live(q) && 0 <= i < post.proc_at(q).inner.children@.len() implies (post.live(
                post.child_of(q, i),
            ) && post.child_of(q, i) != q && post.child_of(q, i) != ROOT_PID) by {
            if q != p {
                assert(post.procs@[q] == pre.procs@[q]);
            }
            assert(pre.live(q));
            assert(post.child_of(q, i) == pre.child_of(q, i));
            assert(pre.live(pre.child_of(q, i)));
            let c = pre.child_of(q, i);
            if c != p {
                assert(post.procs@[c] == pre.procs@[c]);
            }
        }
        assert forall|p1: int, i1: int, p2: int, i2: int|
            #![trigger post.child_of(p1, i1), post.child_of(p2, i2)]
            post.live(p1) && 0 <= i1 < post.proc_at(p1).inner.children@.len() && post.live(p2) && 0
                <= i2 < post.proc_at(p2).inner.children@.len() && post.child_of(p1, i1)
                == post.child_of(p2, i2) implies (p1 == p2 && i1 == i2) by {
            if p1 != p {
                assert(post.procs@[p1] == pre.procs@[p1]);
            }
            if p2 != p {
                assert(post.procs@[p2] == pre.procs@[p2]);
            }
            assert(pre.live(p1) && pre.live(p2));
            assert(pre.child_of(p1, i1) == post.child_of(p1, i1));
            assert(pre.child_of(p2, i2) == post.child_of(p2, i2));
        }
        if post.procs@.len() > 0 {
            if p != ROOT_PID {
                assert(post.procs@[ROOT_PID as int] == pre.procs@[ROOT_PID as int]);
            }
        }
    }

    /// A step that left the process table's contents, the pid allocator
    /// and the current process unchanged keeps the kernel well formed.
    proof fn lemma_wf_same_table(pre: Kernel, post: Kernel)
        requires
            pre.wf(),
            post.procs@ == pre.procs@,
            post.pid_allocator == pre.pid_allocator,
            post.current == pre.current,
            post.scheduler.wf(),
        ensures
            post.wf(),
    {
        assert forall|q: int, i: int| #![trigger post.child_of(q, i)]
            post.live(q) && 0 <= i < post.proc_at(q).inner.children@.len() implies (post.live(
                post.child_of(q, i),
            ) && post.child_of(q, i) != q && post.child_of(q, i) != ROOT_PID) by {
            assert(pre.live(q));
            assert(post.child_of(q, i) == pre.child_of(q, i));
        }
        assert forall|p1: int, i1: int, p2: int, i2: int|
            #![trigger post.child_of(p1, i1), post.child_of(p2, i2)]
            post.live(p1) && 0 <= i1 < post.proc_at(p1).inner.children@.len() && post.live(p2) && 0
                <= i2 < post.proc_at(p2).inner.children@.len() && post.child_of(p1, i1)
                == post.child_of(p2, i2) implies (p1 == p2 && i1 == i2) by {
            assert(pre.live(p1) && pre.live(p2));
            assert(pre.child_of(p1, i1) == post.child_of(p1, i1));
            assert(pre.child_of(p2, i2) == post.child_of(p2, i2));
        }
        assert forall|q: int| #![trigger post.live(q)]
            post.live(q) implies (post.proc_at(q).pid == q && post.proc_at(q).inner.wf()
                && post.proc_at(q).inner.tasks@.len() >= 1 && post.proc_at(q).inner.tasks@[0]
                is Some) by {
            assert(pre.live(q));
        }
    }

    /// Move the running task from Running back to Ready and hand it to
    /// the scheduler; the processor is left idle until the next
    /// dispatch.
    pub fn sys_yield(&mut self) -> (r: isize)
        requires
            old(self).wf(),
            old(self).current is Some,
        ensures
            r == 0,
            final(self).wf(),
            final(self).current is None,
            ({
                let p = old(self).current.unwrap() as int;
                let t0 = old(self).proc_at(p).inner.tasks@[0].unwrap();
                let t1 = final(self).proc_at(p).inner.tasks@[0].unwrap();
                &&& Kernel::table_framed(*old(self), *final(self), p)
                &&& final(self).live(p)
                &&& t1 == (TaskControlBlock { task_status: TaskStatus::Ready, ..t0 })
                &&& final(self).proc_at(p).inner == (ProcessControlBlockInner {
                    tasks: final(self).proc_at(p).inner.tasks,
                    ..old(self).proc_at(p).inner
                })
                &&& final(self).proc_at(p).inner.tasks@ == old(self).proc_at(
                    p,
                ).inner.tasks@.update(0, Some(t1))
                &&& final(self).scheduler.ready_queue@.len() == old(self).scheduler.ready_queue@.len() + 1
                &&& final(self).scheduler.ready_queue@.drop_last() == old(self).scheduler.ready_queue@
                &&& final(self).scheduler.ready_queue@.last() == (TaskControlBlock {
                    task_status: TaskStatus::Ready,
                    syscall_times: final(self).scheduler.ready_queue@.last().syscall_times,
                    ..t0
                })
                &&& final(self).scheduler.ready_queue@.last().syscall_times@ == t0.syscall_times@
            }),
    {
        let p = match self.current {
            Some(p) => p,
            None => 0,
        };
        let ghost pre = *self;
        let mut queued = TaskControlBlock::new();
        match &mut self.procs[p] {
            Some(pcb) => {
                match &mut pcb.inner.tasks[0] {
                    Some(task) => {
                        task.task_status = TaskStatus::Ready;
                        queued.pid = task.pid;
                        queued.tid = task.tid;
                        queued.task_cx = task.task_cx;
                        queued.trap_cx = task.trap_cx;
                        queued.time = task.time;
                        queued.start_time = task.start_time;
                        queued.stride = task.stride;
                        queued.priority = task.priority;
                        queued.exit_code = task.exit_code;
                        queued.has_res = task.has_res;
                        let mut i: usize = 0;
                        while i < task.syscall_times.len()
                            invariant
                                queued.syscall_times@.len() == task.syscall_times@.len(),
                                i <= task.syscall_times@.len(),
                                forall|t: int|
                                    0 <= t < i ==> queued.syscall_times@[t]
                                        == task.syscall_times@[t],
                                queued == (TaskControlBlock {
                                    syscall_times: queued.syscall_times,
                                    task_status: queued.task_status,
                                    ..*task
                                }),
                            decreases task.syscall_times@.len() - i,
                        {
                            let v = task.syscall_times[i];
                            queued.syscall_times.set(i, v);
                            i = i + 1;
                        }
                        queued.task_status = TaskStatus::Ready;
                        proof {
                            assert(queued.syscall_times@ =~= task.syscall_times@);
                        }
                    },
                    None => {},
                }
            },
            None => {},
        }
        self.scheduler.add(queued);
        self.current = None;
        proof {
            Kernel::lemma_wf_after_proc_touch(pre, *self, p as int);
        }
        0
    }

    /// Dispatch the next task: take the stride-selected task from the
    /// ready queue, write its advanced stride back into its process's
    /// thread table, mark it Running and make its process current.
    /// Reports false when nothing is ready or the selected entry no
    /// longer names a live thread.
    pub fn run_next(&mut self) -> (r: bool)
        requires
            old(self).wf(),
        ensures
            final(self).wf(),
            !has_ready(old(self).scheduler.ready_queue@) ==> !r && *final(self) == *old(self),
            has_ready(old(self).scheduler.ready_queue@) ==> ({
                let q = crate::manager::normalized(old(self).scheduler.ready_queue@);
                let idx = chosen_index(q);
                let t = q[idx];
                let stride = (t.stride + crate::config::BIG_STRIDE / t.priority) as usize;
                &&& is_chosen_index(q, idx)
                &&& final(self).scheduler.ready_queue@ == q.remove(idx)
                &&& (old(self).live(t.pid as int) && t.tid < old(self).proc_at(
                    t.pid as int,
                ).inner.tasks@.len() && old(self).proc_at(t.pid as int).inner.tasks@[t.tid as int]
                    is Some) ==> {
                    let t0 = old(self).proc_at(t.pid as int).inner.tasks@[t.tid as int].unwrap();
                    let t1 = final(self).proc_at(t.pid as int).inner.tasks@[t.tid as int].unwrap();
                    &&& r
                    &&& final(self).current == Some(t.pid)
                    &&& Kernel::table_framed(*old(self), *final(self), t.pid as int)
                    &&& t1 == (TaskControlBlock {
                        task_status: TaskStatus::Running,
                        stride,
                        ..t0
                    })
                    &&& final(self).proc_at(t.pid as int).inner == (ProcessControlBlockInner {
                        tasks: final(self).proc_at(t.pid as int).inner.tasks,
                        ..old(self).proc_at(t.pid as int).inner
                    })
                    &&& final(self).proc_at(t.pid as int).inner.tasks@ == old(self).proc_at(
                        t.pid as int,
                    ).inner.tasks@.update(t.tid as int, Some(t1))
                    &&& stride > t.stride
                }
                &&& !(old(self).live(t.pid as int) && t.tid < old(self).proc_at(
                    t.pid as int,
                ).inner.tasks@.len() && old(self).proc_at(t.pid as int).inner.tasks@[t.tid as int]
                    is Some) ==> {
                    &&& !r
                    &&& final(self).procs@ == old(self).procs@
                    &&& final(self).current == old(self).current
                }
            }),
    {
        let ghost pre = *self;
        let fetched = self.scheduler.fetch();
        match fetched {
            Some(task) => {
                let p = task.pid;
                let tid = task.tid;
                let stride = task.stride;
                let mut ok = false;
                if p < self.procs.len() {
                    match &self.procs[p] {
                        Some(pcb) => {
                            if tid < pcb.inner.tasks.len() {
                                if pcb.inner.tasks[tid].is_some() {
                                    ok = true;
                                }
                            }
                        },
                        None => {},
                    }
                }
                if ok {
                    match &mut self.procs[p] {
                        Some(pcb) => {
                            match &mut pcb.inner.tasks[tid] {
                                Some(t) => {
                                    t.task_status = TaskStatus::Running;
                                    t.stride = stride;
                                },
                                None => {},
                            }
                        },
                        None => {},
                    }
                    self.current = Some(p);
                    proof {
                        let pi = p as int;
                        let ti = tid as int;
                        assert(pre.live(pi));
                        let inner0 = pre.proc_at(pi).inner;
                        let inner1 = self.proc_at(pi).inner;
                        assert(inner1.children@ == inner0.children@);
                        assert forall|i: int|
                            0 <= i < inner1.tasks@.len() && inner1.tasks@[i] is Some implies (
                        #[trigger] inner1.tasks@[i]).unwrap().wf() by {
                            if i != ti {
                                assert(inner1.tasks@[i] == inner0.tasks@[i]);
                            } else {
                                assert(inner0.tasks@[ti].unwrap().wf());
                            }
                        }
                        assert(inner1.wf());
                        assert(self.proc_at(pi).inner.tasks@[0] is Some);
                        Kernel::lemma_wf_after_proc_touch(pre, *self, pi);
                    }
                    true
                } else {
                    proof {
                        Kernel::lemma_wf_same_table(pre, *self);
                    }
                    false
                }
            },
            None => {
                false
            },
        }
    }

    /// A step that rewrote one live process, only emptying its children
    /// list besides fields outside the invariants, keeps the kernel well
    /// formed.
    proof fn lemma_wf_children_shrunk(pre: Kernel, post: Kernel, p: int)
        requires
            pre.wf(),
            pre.live(p),
            Kernel::table_framed(pre, post, p),
            post.live(p),
            post.proc_at(p).pid == pre.proc_at(p).pid,
            post.proc_at(p).inner.children@.len() == 0,
            post.proc_at(p).inner.wf(),
            post.proc_at(p).inner.tasks@.len() >= 1,
            post.proc_at(p).inner.tasks@[0] is Some,
            post.pid_allocator == pre.pid_allocator,
            post.current matches Some(c) ==> post.live(c as int),
            post.scheduler.wf(),
        ensures
            post.wf(),
    {
        assert forall|q: int| #![trigger post.live(q)]
            post.live(q) implies (post.proc_at(q).pid == q && post.proc_at(q).inner.wf()
                && post.proc_at(q).inner.tasks@.len() >= 1 && post.proc_at(q).inner.tasks@[0]
                is Some) by {
            if q != p {
                assert(post.procs@[q] == pre.procs@[q]);
                assert(pre.live(q));
            }
        }
        assert forall|q: int|
            0 <= q < post.procs@.len() implies (post.procs@[q] is Some
                <==> post.pid_allocator.is_allocated(q)) by {
            if q != p {
                assert(post.procs@[q] == pre.procs@[q]);
            }
        }
        assert forall|q: int, i: int| #![trigger post.child_of(q, i)]
            post.live(q) && 0 <= i < post.proc_at(q).inner.children@.len() implies (post.live(
                post.child_of(q, i),
            ) && post.child_of(q, i) != q && post.child_of(q, i) != ROOT_PID) by {
            assert(q != p);
            assert(post.procs@[q] == pre.procs@[q]);
            assert(pre.live(q));
            assert(post.child_of(q, i) == pre.child_of(q, i));
            assert(pre.live(pre.child_of(q, i)));
            let c = pre.child_of(q, i);
            if c != p {
                assert(post.procs@[c] == pre.procs@[c]);
            }
        }
        assert forall|p1: int, i1: int, p2: int, i2: int|
            #![trigger post.child_of(p1, i1), post.child_of(p2, i2)]
            post.live(p1) && 0 <= i1 < post.proc_at(p1).inner.children@.len() && post.live(p2) && 0
                <= i2 < post.proc_at(p2).inner.children@.len() && post.child_of(p1, i1)
                == post.child_of(p2, i2) implies (p1 == p2 && i1 == i2) by {
            assert(p1 != p && p2 != p);
            assert(post.procs@[p1] == pre.procs@[p1]);
            assert(post.procs@[p2] == pre.procs@[p2]);
            assert(pre.live(p1) && pre.live(p2));
            assert(pre.child_of(p1, i1) == post.child_of(p1, i1));
            assert(pre.child_of(p2, i2) == post.child_of(p2, i2));
        }
        if post.procs@.len() > 0 {
            if p != ROOT_PID {
                assert(post.procs@[ROOT_PID as int] == pre.procs@[ROOT_PID as int]);
            }
        }
    }

    /// Handing to the root process a batch of live pids that stand in no
    /// children list keeps the kernel well formed.
    proof fn lemma_wf_root_gains(pre: Kernel, post: Kernel, kids: Seq<usize>)
        requires
            pre.wf(),
            pre.procs@.len() > 0,
            pre.live(ROOT_PID as int),
            forall|t: int| 0 <= t < kids.len() ==> pre.live(#[trigger] kids[t] as int),
            forall|t: int| 0 <= t < kids.len() ==> #[trigger] kids[t] != ROOT_PID,
            forall|t1: int, t2: int|
                0 <= t1 < t2 < kids.len() ==> #[trigger] kids[t1] != #[trigger] kids[t2],
            forall|q: int, i: int|
                pre.live(q) && 0 <= i < pre.proc_at(q).inner.children@.len() ==> !kids.contains(
                    (#[trigger] pre.child_of(q, i)) as usize,
                ),
            Kernel::table_framed(pre, post, ROOT_PID as int),
            post.live(ROOT_PID as int),
            post.proc_at(ROOT_PID as int) == (ProcessControlBlock {
                inner: ProcessControlBlockInner {
                    children: post.proc_at(ROOT_PID as int).inner.children,
                    ..pre.proc_at(ROOT_PID as int).inner
                },
                ..pre.proc_at(ROOT_PID as int)
            }),
            post.proc_at(ROOT_PID as int).inner.children@ == pre.proc_at(
                ROOT_PID as int,
            ).inner.children@ + kids,
            post.pid_allocator == pre.pid_allocator,
            post.current is None,
            post.scheduler.wf(),
        ensures
            post.wf(),
    {
        let r = ROOT_PID as int;
        let old_kids = pre.proc_at(r).inner.children@;
        assert forall|q: int| #![trigger post.live(q)]
            post.live(q) implies (post.proc_at(q).pid == q && post.proc_at(q).inner.wf()
                && post.proc_at(q).inner.tasks@.len() >= 1 && post.proc_at(q).inner.tasks@[0]
                is Some) by {
            if q != r {
                assert(post.procs@[q] == pre.procs@[q]);
                assert(pre.live(q));
            } else {
                assert(pre.live(r));
                assert(pre.proc_at(r).inner.wf());
                assert(post.proc_at(r).inner.wf());
            }
        }
        assert forall|q: int|
            0 <= q < post.procs@.len() implies (post.procs@[q] is Some
                <==> post.pid_allocator.is_allocated(q)) by {
            if q != r {
                assert(post.procs@[q] == pre.procs@[q]);
            }
        }
        assert forall|q: int, i: int| #![trigger post.child_of(q, i)]
            post.live(q) && 0 <= i < post.proc_at(q).inner.children@.len() implies (post.live(
                post.child_of(q, i),
            ) && post.child_of(q, i) != q && post.child_of(q, i) != ROOT_PID) by {
            if q != r {
                assert(post.procs@[q] == pre.procs@[q]);
                assert(pre.live(q));
                assert(post.child_of(q, i) == pre.child_of(q, i));
                assert(pre.live(pre.child_of(q, i)));
                let c = pre.child_of(q, i);
                if c != r {
                    assert(post.procs@[c] == pre.procs@[c]);
                }
            } else {
                if i < old_kids.len() {
                    assert(post.child_of(r, i) == pre.child_of(r, i));
                    assert(pre.live(pre.child_of(r, i)));
                    let c = pre.child_of(r, i);
                    if c != r {
                        assert(post.procs@[c] == pre.procs@[c]);
                    }
                } else {
                    let c = post.child_of(r, i);
                    assert(c == kids[i - old_kids.len()] as int);
                    assert(pre.live(c));
                    assert(c != r);
                    assert(post.procs@[c] == pre.procs@[c]);
                }
            }
        }
        assert forall|p1: int, i1: int, p2: int, i2: int|
            #![trigger post.child_of(p1, i1), post.child_of(p2, i2)]
            post.live(p1) && 0 <= i1 < post.proc_at(p1).inner.children@.len() && post.live(p2) && 0
                <= i2 < post.proc_at(p2).inner.children@.len() && post.child_of(p1, i1)
                == post.child_of(p2, i2) implies (p1 == p2 && i1 == i2) by {
            let c = post.child_of(p1, i1);
            let in1 = p1 == r && i1 >= old_kids.len();
            let in2 = p2 == r && i2 >= old_kids.len();
            if p1 != r {
                assert(post.procs@[p1] == pre.procs@[p1]);
                assert(pre.live(p1));
            }
            if p2 != r {
                assert(post.procs@[p2] == pre.procs@[p2]);
                assert(pre.live(p2));
            }
            if in1 && in2 {
                assert(kids[i1 - old_kids.len()] == kids[i2 - old_kids.len()]);
                if i1 - old_kids.len() < i2 - old_kids.len() {
                    assert(kids[i1 - old_kids.len()] != kids[i2 - old_kids.len()]);
                }
                if i2 - old_kids.len() < i1 - old_kids.len() {
                    assert(kids[i2 - old_kids.len()] != kids[i1 - old_kids.len()]);
                }
            } else if in1 && !in2 {
                assert(pre.live(p2));
                assert(pre.child_of(p2, i2) == c);
                assert(kids.contains(c as usize));
                assert(false);
            } else if !in1 && in2 {
                assert(pre.live(p1));
                assert(pre.child_of(p1, i1) == c);
                assert(kids.contains(c as usize));
                assert(false);
            } else {
                assert(pre.child_of(p1, i1) == c && pre.child_of(p2, i2) == c);
            }
        }
        assert(post.procs@[r] is Some);
    }

    /// Terminate the running process: record the exit code on its main
    /// task and the process, release the task's user resources, close
    /// every file descriptor, hand all children to the root process
    /// (updating their parent links), and leave the process as a zombie
    /// for its parent to reap. The root process itself may not exit.
    pub fn sys_exit(&mut self, exit_code: i32)
        requires
            old(self).wf(),
            old(self).current is Some,
            old(self).current.unwrap() != ROOT_PID,
        ensures
            final(self).wf(),
            final(self).current is None,
            final(self).scheduler == old(self).scheduler,
            final(self).pid_allocator == old(self).pid_allocator,
            final(self).procs@.len() == old(self).procs@.len(),
            ({
                let p = old(self).current.unwrap() as int;
                let kids = old(self).proc_at(p).inner.children@;
                let t0 = old(self).proc_at(p).inner.tasks@[0].unwrap();
                &&& final(self).live(p)
                &&& final(self).proc_at(p).inner.is_zombie
                &&& final(self).proc_at(p).inner.exit_code == exit_code
                &&& final(self).proc_at(p).inner.children@.len() == 0
                &&& final(self).proc_at(p).inner.fd_table@.len() == 0
                &&& final(self).proc_at(p).inner.tasks@.len() == old(self).proc_at(
                    p,
                ).inner.tasks@.len()
                &&& final(self).proc_at(p).inner.tasks@[0] == Some(
                    TaskControlBlock {
                        task_status: TaskStatus::Exited,
                        exit_code,
                        has_res: false,
                        ..t0
                    },
                )
                &&& final(self).proc_at(p).inner.memory_set == old(self).proc_at(
                    p,
                ).inner.memory_set
                &&& final(self).proc_at(p).inner.parent == old(self).proc_at(p).inner.parent
                &&& (p != ROOT_PID ==> final(self).proc_at(ROOT_PID as int).inner.children@ == old(self).proc_at(ROOT_PID as int).inner.children@ + kids)
                &&& forall|j: int|
                    0 <= j < kids.len() ==> final(self).proc_at(
                        #[trigger] kids[j] as int,
                    ).inner.parent == Some(ROOT_PID)
                &&& forall|q: int|
                    0 <= q < old(self).procs@.len() && q != p && q != ROOT_PID
                        && !kids.contains(q as usize) ==> final(self).procs@[q] == old(self).procs@[q]
            }),
    {
        let p = match self.current {
            Some(p) => p,
            None => 0,
        };
        let ghost pre = *self;
        // take a copy of the children list
        let mut kids: Vec<usize> = Vec::new();
        match &self.procs[p] {
            Some(pcb) => {
                let mut i: usize = 0;
                while i < pcb.inner.children.len()
                    invariant
                        i <= pcb.inner.children@.len(),
                        kids@ == pcb.inner.children@.take(i as int),
                    decreases pcb.inner.children@.len() - i,
                {
                    kids.push(pcb.inner.children[i]);
                    proof {
                        assert(pcb.inner.children@.take(i + 1) =~= pcb.inner.children@.take(
                            i as int,
                        ).push(pcb.inner.children@[i as int]));
                    }
                    i = i + 1;
                }
                proof {
                    assert(pcb.inner.children@.take(pcb.inner.children@.len() as int)
                        =~= pcb.inner.children@);
                }
            },
            None => {},
        }
        proof {
            assert(kids@ == pre.proc_at(p as int).inner.children@);
        }
        // mark the process and its main task as exited
        match &mut self.procs[p] {
            Some(pcb) => {
                pcb.inner.is_zombie = true;
                pcb.inner.exit_code = exit_code;
                pcb.inner.fd_table = Vec::new();
                pcb.inner.children = Vec::new();
                match &mut pcb.inner.tasks[0] {
                    Some(t) => {
                        t.task_status = TaskStatus::Exited;
                        t.exit_code = exit_code;
                        t.has_res = false;
                    },
                    None => {},
                }
            },
            None => {},
        }
        proof {
            let pi = p as int;
            let inner0 = pre.proc_at(pi).inner;
            let inner1 = self.proc_at(pi).inner;
            assert forall|i: int|
                0 <= i < inner1.tasks@.len() && inner1.tasks@[i] is Some implies (
            #[trigger] inner1.tasks@[i]).unwrap().wf() by {
                if i != 0 {
                    assert(inner1.tasks@[i] == inner0.tasks@[i]);
                } else {
                    assert(inner0.tasks@[0].unwrap().wf());
                }
            }
            assert(inner1.wf());
            Kernel::lemma_wf_children_shrunk(pre, *self, pi);
        }
        let ghost mid1 = *self;
        proof {
            assert forall|t: int| 0 <= t < kids@.len() implies mid1.live(
                #[trigger] kids@[t] as int,
            ) by {
                assert(pre.child_of(p as int, t) == kids@[t] as int);
                assert(pre.live(kids@[t] as int));
                assert(kids@[t] as int != p);
                assert(mid1.procs@[kids@[t] as int] == pre.procs@[kids@[t] as int]);
            }
        }
        // reparent the children to the root process
        let mut j: usize = 0;
        while j < kids.len()
            invariant
                self.wf(),
                j <= kids@.len(),
                kids@ == pre.proc_at(p as int).inner.children@,
                pre.wf(),
                p == pre.current.unwrap(),
                pre.live(p as int),
                p != ROOT_PID,
                self.procs@.len() == mid1.procs@.len(),
                self.pid_allocator == mid1.pid_allocator,
                self.scheduler == mid1.scheduler,
                self.current == mid1.current,
                forall|t: int|
                    0 <= t < kids@.len() ==> mid1.live(#[trigger] kids@[t] as int),
                forall|t: int|
                    0 <= t < j ==> self.proc_at(#[trigger] kids@[t] as int).inner.parent == Some(
                        ROOT_PID,
                    ),
                forall|t: int|
                    0 <= t < j ==> self.procs@[#[trigger] kids@[t] as int] == Some(
                        ProcessControlBlock {
                            pid: kids@[t],
                            inner: ProcessControlBlockInner {
                                parent: Some(ROOT_PID),
                                ..mid1.proc_at(kids@[t] as int).inner
                            },
                        },
                    ),
                forall|q: int|
                    0 <= q < mid1.procs@.len() && !kids@.take(j as int).contains(q as usize)
                        ==> self.procs@[q] == mid1.procs@[q],
            decreases kids@.len() - j,
        {
            let c = kids[j];
            proof {
                assert(mid1.live(c as int));
                let mp = mid1.procs@[c as int];
                assert(kids@.take(j as int).contains(c) || self.procs@[c as int] == mp);
                assert(self.live(c as int));
            }
            let ghost step_pre = *self;
            match &mut self.procs[c] {
                Some(pcb) => {
                    pcb.inner.parent = Some(ROOT_PID);
                },
                None => {},
            }
            proof {
                let ci = c as int;
                assert(self.proc_at(ci).inner.wf());
                Kernel::lemma_wf_after_proc_touch(step_pre, *self, ci);
                assert forall|t: int|
                    0 <= t < j + 1 implies self.procs@[#[trigger] kids@[t] as int] == Some(
                    ProcessControlBlock {
                        pid: kids@[t],
                        inner: ProcessControlBlockInner {
                            parent: Some(ROOT_PID),
                            ..mid1.proc_at(kids@[t] as int).inner
                        },
                    },
                ) by {
                    if t < j {
                        if kids@[t] != c {
                            let sp = step_pre.procs@[kids@[t] as int];
                            assert(self.procs@[kids@[t] as int] == sp);
                        } else {
                            assert(step_pre.proc_at(ci).inner.parent == Some(ROOT_PID));
                        }
                    } else {
                        assert(kids@[t] == c);
                        if kids@.take(j as int).contains(c) {
                            assert(step_pre.proc_at(ci).inner.parent == Some(ROOT_PID));
                            assert(step_pre.procs@[ci] == Some(
                                ProcessControlBlock {
                                    pid: kids@[j as int],
                                    inner: ProcessControlBlockInner {
                                        parent: Some(ROOT_PID),
                                        ..mid1.proc_at(ci).inner
                                    },
                                },
                            ));
                        } else {
                            assert(step_pre.procs@[ci] == mid1.procs@[ci]);
                        }
                    }
                }
                assert forall|q: int|
                    0 <= q < mid1.procs@.len() && !kids@.take(j + 1).contains(q as usize)
                        implies self.procs@[q] == mid1.procs@[q] by {
                    assert(!kids@.take(j as int).contains(q as usize)) by {
                        if kids@.take(j as int).contains(q as usize) {
                            let w = choose|w: int|
                                0 <= w < j && kids@.take(j as int)[w] == q as usize;
                            assert(kids@.take(j + 1)[w] == q as usize);
                        }
                    }
                    assert(q != c) by {
                        if q == c {
                            assert(kids@.take(j + 1)[j as int] == c);
                        }
                    }
                    assert(self.procs@[q] == step_pre.procs@[q]);
                }
            }
            j = j + 1;
        }
        let ghost mid2 = *self;
        // hand the children to the root process
        match &mut self.procs[ROOT_PID] {
            Some(root) => {
                let mut j2: usize = 0;
                while j2 < kids.len()
                    invariant
                        j2 <= kids@.len(),
                        root.inner.children@ == mid2.proc_at(ROOT_PID as int).inner.children@
                            + kids@.take(j2 as int),
                        *root == (ProcessControlBlock {
                            inner: ProcessControlBlockInner {
                                children: root.inner.children,
                                ..mid2.proc_at(ROOT_PID as int).inner
                            },
                            ..mid2.proc_at(ROOT_PID as int)
                        }),
                    decreases kids@.len() - j2,
                {
                    root.inner.children.push(kids[j2]);
                    proof {
                        assert(kids@.take(j2 + 1) =~= kids@.take(j2 as int).push(
                            kids@[j2 as int],
                        ));
                        assert(root.inner.children@ =~= mid2.proc_at(
                            ROOT_PID as int,
                        ).inner.children@ + kids@.take(j2 + 1));
                    }
                    j2 = j2 + 1;
                }
                proof {
                    assert(kids@.take(kids@.len() as int) =~= kids@);
                }
            },
            None => {},
        }
        self.current = None;
        proof {
            assert forall|q: int, i: int|
                mid2.live(q) && 0 <= i < mid2.proc_at(q).inner.children@.len()
                    implies !kids@.contains((#[trigger] mid2.child_of(q, i)) as usize) by {
                if kids@.contains(mid2.child_of(q, i) as usize) {
                    let w = choose|w: int|
                        0 <= w < kids@.len() && kids@[w] == mid2.child_of(q, i) as usize;
                    // children lists were unchanged from the moment the
                    // exiting process's list was emptied, so a kid in a
                    // list now was in one then, contradicting uniqueness
                    // with its old place in the exiting process's list.
                    if q == p {
                        assert(mid2.proc_at(q).inner.children@.len() == 0);
                    } else {
                        assert(kids@.take(kids@.len() as int) =~= kids@);
                        if kids@.contains(q as usize) {
                            let t = choose|t: int|
                                0 <= t < kids@.len() && kids@[t] == q as usize;
                            assert(mid2.procs@[q] == Some(
                                ProcessControlBlock {
                                    pid: kids@[t],
                                    inner: ProcessControlBlockInner {
                                        parent: Some(ROOT_PID),
                                        ..mid1.proc_at(kids@[t] as int).inner
                                    },
                                },
                            ));
                            assert(mid2.proc_at(q).inner.children@ == mid1.proc_at(
                                q,
                            ).inner.children@);
                        } else {
                            assert(mid2.procs@[q] == mid1.procs@[q]);
                        }
                        assert(mid1.procs@[q] == pre.procs@[q]);
                        assert(mid2.proc_at(q).inner.children@ == pre.proc_at(
                            q,
                        ).inner.children@);
                        assert(pre.live(q));
                        assert(pre.child_of(q, i) == mid2.child_of(q, i));
                        assert(pre.child_of(p as int, w) == pre.child_of(q, i));
                        assert(p == q && w == i);
                    }
                }
            }
            assert forall|t1: int, t2: int|
                0 <= t1 < t2 < kids@.len() implies #[trigger] kids@[t1] != #[trigger] kids@[t2] by {
                assert(pre.child_of(p as int, t1) == kids@[t1] as int);
                assert(pre.child_of(p as int, t2) == kids@[t2] as int);
            }
            assert forall|t: int| 0 <= t < kids@.len() implies mid2.live(
                #[trigger] kids@[t] as int,
            ) by {
                assert(pre.child_of(p as int, t) == kids@[t] as int);
            }
            assert forall|t: int| 0 <= t < kids@.len() implies #[trigger] kids@[t]
                != ROOT_PID by {
                assert(pre.child_of(p as int, t) == kids@[t] as int);
            }
            Kernel::lemma_wf_root_gains(mid2, *self, kids@);
            // relate the final state to the snapshots for the frame and
            // per-process clauses
            let pi = p as int;
            let ri = ROOT_PID as int;
            assert(kids@.take(kids@.len() as int) =~= kids@);
            assert(!kids@.contains(p)) by {
                if kids@.contains(p) {
                    let t = choose|t: int| 0 <= t < kids@.len() && kids@[t] == p;
                    assert(pre.child_of(pi, t) == pi);
                }
            }
            assert(self.procs@[pi] == mid2.procs@[pi]);
            assert(mid2.procs@[pi] == mid1.procs@[pi]);
            assert(mid2.proc_at(ri).inner.children@ == mid1.proc_at(ri).inner.children@) by {
                assert(!kids@.contains(ROOT_PID));
                assert(mid2.procs@[ri] == mid1.procs@[ri]);
            }
            assert(mid1.proc_at(ri).inner.children@ == pre.proc_at(ri).inner.children@) by {
                assert(mid1.procs@[ri] == pre.procs@[ri]);
            }
            assert forall|t: int| 0 <= t < kids@.len() implies self.proc_at(
                #[trigger] kids@[t] as int,
            ).inner.parent == Some(ROOT_PID) by {
                assert(kids@[t] != ROOT_PID);
                assert(self.procs@[kids@[t] as int] == mid2.procs@[kids@[t] as int]);
                assert(mid2.proc_at(kids@[t] as int).inner.parent == Some(ROOT_PID));
            }
            assert forall|q: int|
                0 <= q < pre.procs@.len() && q != pi && q != ri && !kids@.contains(q as usize)
                    implies self.procs@[q] == pre.procs@[q] by {
                assert(self.procs@[q] == mid2.procs@[q]);
                assert(mid2.procs@[q] == mid1.procs@[q]);
                assert(mid1.procs@[q] == pre.procs@[q]);
            }
        }
    }

    /// The child filter of a wait: every child, or one exact pid.
    pub open spec fn wait_matches(filter: isize, c: usize) -> bool {
        filter == -1 || c == filter as usize
    }

    /// Child `i` of process `p` matches the filter and is a zombie.
    pub open spec fn wait_zmatch(self, p: int, filter: isize, i: int) -> bool {
        &&& Kernel::wait_matches(filter, self.proc_at(p).inner.children@[i])
        &&& self.proc_at(self.proc_at(p).inner.children@[i] as int).inner.is_zombie
    }

    /// Reaping child `c` out of process `p`'s children list keeps the
    /// kernel well formed.
    proof fn lemma_wf_after_reap(pre: Kernel, post: Kernel, p: int, c: int, zi: int)
        requires
            pre.wf(),
            pre.live(p),
            0 <= zi < pre.proc_at(p).inner.children@.len(),
            pre.child_of(p, zi) == c,
            post.procs@.len() == pre.procs@.len(),
            0 <= c < post.procs@.len(),
            post.procs@[c] is None,
            c != p,
            forall|q: int| 0 <= q < pre.procs@.len() && q != p && q != c ==> post.procs@[q] == pre.procs@[q],
            post.live(p),
            post.proc_at(p).pid == pre.proc_at(p).pid,
            post.proc_at(p).inner.children@ == pre.proc_at(p).inner.children@.remove(zi),
            post.proc_at(p).inner.wf(),
            post.proc_at(p).inner.tasks@.len() >= 1,
            post.proc_at(p).inner.tasks@[0] is Some,
            post.pid_allocator.wf(),
            post.procs@.len() == post.pid_allocator.current,
            !post.pid_allocator.is_allocated(c),
            forall|j: int|
                j != c ==> (post.pid_allocator.is_allocated(j) <==> pre.pid_allocator.is_allocated(
                    j,
                )),
            post.current == pre.current,
            pre.current matches Some(cc) ==> cc as int != c,
            post.scheduler.wf(),
        ensures
            post.wf(),
    {
        assert forall|q: int| #![trigger post.live(q)]
            post.live(q) implies (post.proc_at(q).pid == q && post.proc_at(q).inner.wf()
                && post.proc_at(q).inner.tasks@.len() >= 1 && post.proc_at(q).inner.tasks@[0]
                is Some) by {
            if q != p {
                assert(q != c);
                assert(post.procs@[q] == pre.procs@[q]);
                assert(pre.live(q));
            }
        }
        assert forall|q: int|
            0 <= q < post.procs@.len() implies (post.procs@[q] is Some
                <==> post.pid_allocator.is_allocated(q)) by {
            if q != p && q != c {
                assert(post.procs@[q] == pre.procs@[q]);
            }
        }
        assert forall|q: int, i: int| #![trigger post.child_of(q, i)]
            post.live(q) && 0 <= i < post.proc_at(q).inner.children@.len() implies (post.live(
                post.child_of(q, i),
            ) && post.child_of(q, i) != q && post.child_of(q, i) != ROOT_PID) by {
            let pre_i = if q == p && i >= zi {
                i + 1
            } else {
                i
            };
            if q != p {
                assert(q != c);
                assert(post.procs@[q] == pre.procs@[q]);
            }
            assert(pre.live(q));
            assert(post.child_of(q, i) == pre.child_of(q, pre_i));
            let d = pre.child_of(q, pre_i);
            assert(pre.live(d));
            assert(d != c) by {
                if d == c {
                    assert(pre.child_of(q, pre_i) == pre.child_of(p, zi));
                    assert(q == p && pre_i == zi);
                }
            }
            if d != p {
                assert(post.procs@[d] == pre.procs@[d]);
            }
        }
        assert forall|p1: int, i1: int, p2: int, i2: int|
            #![trigger post.child_of(p1, i1), post.child_of(p2, i2)]
            post.live(p1) && 0 <= i1 < post.proc_at(p1).inner.children@.len() && post.live(p2) && 0
                <= i2 < post.proc_at(p2).inner.children@.len() && post.child_of(p1, i1)
                == post.child_of(p2, i2) implies (p1 == p2 && i1 == i2) by {
            let pre_i1 = if p1 == p && i1 >= zi {
                i1 + 1
            } else {
                i1
            };
            let pre_i2 = if p2 == p && i2 >= zi {
                i2 + 1
            } else {
                i2
            };
            if p1 != p {
                assert(p1 != c);
                assert(post.procs@[p1] == pre.procs@[p1]);
            }
            if p2 != p {
                assert(p2 != c);
                assert(post.procs@[p2] == pre.procs@[p2]);
            }
            assert(pre.live(p1) && pre.live(p2));
            assert(post.child_of(p1, i1) == pre.child_of(p1, pre_i1));
            assert(post.child_of(p2, i2) == pre.child_of(p2, pre_i2));
            assert(p1 == p2 && pre_i1 == pre_i2);
        }
        if post.procs@.len() > 0 {
            assert(c != ROOT_PID) by {
                assert(pre.child_of(p, zi) != ROOT_PID);
            }
            if p != ROOT_PID {
                assert(post.procs@[ROOT_PID as int] == pre.procs@[ROOT_PID as int]);
            }
        }
    }

    /// A private copy of a process's children list.
    fn children_copy(&self, p: usize) -> (r: Vec<usize>)
        requires
            self.live(p as int),
        ensures
            r@ == self.proc_at(p as int).inner.children@,
    {
        let mut kids: Vec<usize> = Vec::new();
        match &self.procs[p] {
            Some(pcb) => {
                let mut i: usize = 0;
                while i < pcb.inner.children.len()
                    invariant
                        i <= pcb.inner.children@.len(),
                        kids@ == pcb.inner.children@.take(i as int),
                    decreases pcb.inner.children@.len() - i,
                {
                    kids.push(pcb.inner.children[i]);
                    proof {
                        assert(pcb.inner.children@.take(i + 1) =~= pcb.inner.children@.take(
                            i as int,
                        ).push(pcb.inner.children@[i as int]));
                    }
                    i = i + 1;
                }
                proof {
                    assert(pcb.inner.children@.take(pcb.inner.children@.len() as int)
                        =~= pcb.inner.children@);
                }
            },
            None => {},
        }
        kids
    }

    /// Poll for a terminated child. With no child matching the filter
    /// the result is -1; with matching children that are all still
    /// running it is -2; otherwise the first matching zombie child, in
    /// children-list order, is removed from the family and the table,
    /// its pid freed, its exit code written into the caller's memory at
    /// `exit_code_ptr`, and its pid returned.
    pub fn sys_waitpid(&mut self, pid: isize, exit_code_ptr: usize) -> (r: isize)
        requires
            old(self).wf(),
            old(self).current is Some,
            old(self).procs@.len() <= isize::MAX,
        ensures
            final(self).wf(),
            final(self).current == old(self).current,
            final(self).scheduler == old(self).scheduler,
            ({
                let p = old(self).current.unwrap() as int;
                let kids = old(self).proc_at(p).inner.children@;
                &&& (forall|i: int|
                    0 <= i < kids.len() ==> !Kernel::wait_matches(pid, #[trigger] kids[i]))
                    ==> (r == -1 && final(self).procs@ == old(self).procs@ && final(self).pid_allocator == old(self).pid_allocator)
                &&& ((exists|i: int|
                    0 <= i < kids.len() && Kernel::wait_matches(pid, #[trigger] kids[i])) && (
                forall|i: int|
                    0 <= i < kids.len() ==> !old(self).wait_zmatch(p, pid, i))) ==> (r == -2
                    && final(self).procs@ == old(self).procs@ && final(self).pid_allocator == old(self).pid_allocator)
                &&& (exists|i: int| 0 <= i < kids.len() && old(self).wait_zmatch(p, pid, i))
                    ==> (exists|i: int|
                    #![trigger old(self).wait_zmatch(p, pid, i)]
                    {
                        let c = kids[i] as int;
                        &&& 0 <= i < kids.len()
                        &&& old(self).wait_zmatch(p, pid, i)
                        &&& (forall|j: int| 0 <= j < i ==> !old(self).wait_zmatch(p, pid, j))
                        &&& r == kids[i] as isize
                        &&& final(self).procs@.len() == old(self).procs@.len()
                        &&& final(self).procs@[c] is None
                        &&& final(self).pid_allocator.wf()
                        &&& !final(self).pid_allocator.is_allocated(c)
                        &&& (forall|j: int|
                            j != c ==> (final(self).pid_allocator.is_allocated(j) <==> old(
                                self,
                            ).pid_allocator.is_allocated(j)))
                        &&& final(self).proc_at(p).inner.children@ == kids.remove(i)
                        &&& final(self).proc_at(p).inner.memory_set.ints@ == old(self).proc_at(
                            p,
                        ).inner.memory_set.ints@.insert(
                            exit_code_ptr,
                            old(self).proc_at(c).inner.exit_code,
                        )
                        &&& final(self).proc_at(p).inner == (ProcessControlBlockInner {
                            children: final(self).proc_at(p).inner.children,
                            memory_set: final(self).proc_at(p).inner.memory_set,
                            ..old(self).proc_at(p).inner
                        })
                        &&& final(self).proc_at(p).inner.memory_set == (AddressSpace {
                            ints: final(self).proc_at(p).inner.memory_set.ints,
                            ..old(self).proc_at(p).inner.memory_set
                        })
                        &&& forall|q: int|
                            0 <= q < old(self).procs@.len() && q != p && q != c ==> final(self).procs@[q] == old(self).procs@[q]
                    })
            }),
    {
        let p = match self.current {
            Some(p) => p,
            None => 0,
        };
        let ghost pre = *self;
        let kids = self.children_copy(p);
        let ghost kseq = kids@;
        let mut any_match = false;
        let mut zfound = false;
        let mut zi: usize = 0;
        let mut i: usize = 0;
        while i < kids.len()
            invariant
                *self == pre,
                pre.wf(),
                pre.live(p as int),
                kids@ == kseq,
                kseq == pre.proc_at(p as int).inner.children@,
                i <= kseq.len(),
                any_match == (exists|j: int|
                    0 <= j < i && Kernel::wait_matches(pid, #[trigger] kseq[j])),
                zfound ==> (zi < i && pre.wait_zmatch(p as int, pid, zi as int) && forall|j: int|
                    0 <= j < zi ==> !pre.wait_zmatch(p as int, pid, j)),
                !zfound ==> (forall|j: int| 0 <= j < i ==> !pre.wait_zmatch(p as int, pid, j)),
            decreases kseq.len() - i,
        {
            let c = kids[i];
            let m = pid == -1 || c == pid as usize;
            if m {
                any_match = true;
                proof {
                    assert(Kernel::wait_matches(pid, kseq[i as int]));
                    assert(pre.child_of(p as int, i as int) == c as int);
                    assert(pre.live(c as int));
                }
                let z = match &self.procs[c] {
                    Some(pcb) => pcb.inner.is_zombie,
                    None => false,
                };
                if z && !zfound {
                    zfound = true;
                    zi = i;
                }
            } else {
                proof {
                    assert(!Kernel::wait_matches(pid, kseq[i as int]));
                }
            }
            i = i + 1;
        }
        if !any_match {
            return -1;
        }
        if !zfound {
            proof {
                assert(forall|j: int|
                    0 <= j < kseq.len() ==> !pre.wait_zmatch(p as int, pid, j));
            }
            return -2;
        }
        let c = kids[zi];
        proof {
            assert(pre.child_of(p as int, zi as int) == c as int);
            assert(pre.live(c as int));
            assert(c as int != p as int);
        }
        let mut code: i32 = 0;
        match &self.procs[c] {
            Some(pcb) => {
                code = pcb.inner.exit_code;
            },
            None => {},
        }
        match &mut self.procs[p] {
            Some(pcb) => {
                pcb.inner.children.remove(zi);
                pcb.inner.memory_set.write_int(exit_code_ptr, code);
            },
            None => {},
        }
        self.procs[c] = None;
        self.pid_allocator.dealloc_id(c);
        proof {
            let pi = p as int;
            let ci = c as int;
            assert(self.proc_at(pi).inner.wf());
            Kernel::lemma_wf_after_reap(pre, *self, pi, ci, zi as int);
            assert(self.proc_at(pi).inner.children@ == kseq.remove(zi as int));
        }
        c as isize
    }

    /// Fork the running single-threaded process: clone its address
    /// space and file table into a child under a fresh pid, give the
    /// child one thread whose trap context equals the parent's except
    /// that its first return-value slot reads zero, append the child to
    /// the caller's children, and schedule the child's thread. Returns
    /// the child's pid, which the caller's own return-value slot will
    /// carry, so parent and child resume distinguishably.
    pub fn sys_fork(&mut self) -> (r: isize)
        requires
            old(self).wf(),
            old(self).current is Some,
            old(self).proc_at(old(self).current.unwrap() as int).inner.tasks@.len() == 1,
            old(self).pid_allocator.current < usize::MAX,
            old(self).procs@.len() < isize::MAX,
        ensures
            final(self).wf(),
            final(self).current == old(self).current,
            ({
                let p = old(self).current.unwrap() as int;
                let parent0 = old(self).proc_at(p);
                let t0 = parent0.inner.tasks@[0].unwrap();
                let c = r as int;
                &&& r >= 0
                &&& c != p
                &&& old(self).pid_allocator.is_smallest_free(c)
                &&& final(self).live(c)
                &&& ({
                    let child = final(self).proc_at(c);
                    &&& child.pid == c
                    &&& !child.inner.is_zombie
                    &&& child.inner.parent == Some(p as usize)
                    &&& child.inner.children@.len() == 0
                    &&& child.inner.exit_code == 0
                    &&& child.inner.fd_table@ == parent0.inner.fd_table@
                    &&& child.inner.tasks@.len() == 1
                    &&& child.inner.tasks@[0] is Some
                    &&& ({
                        let ct = child.inner.tasks@[0].unwrap();
                        &&& ct.pid == c
                        &&& ct.tid == 0
                        &&& ct.task_status == TaskStatus::Ready
                        &&& ct.trap_cx == (TrapContext { a0: 0, ..t0.trap_cx })
                    })
                    &&& child.inner.memory_set.words@ == parent0.inner.memory_set.words@
                    &&& child.inner.memory_set.ints@ == parent0.inner.memory_set.ints@
                    &&& child.inner.memory_set.bytes@ == parent0.inner.memory_set.bytes@
                    &&& child.inner.memory_set.areas@ == parent0.inner.memory_set.areas@
                    &&& child.inner.memory_set.entry_point == parent0.inner.memory_set.entry_point
                    &&& child.inner.memory_set.ustack_base == parent0.inner.memory_set.ustack_base
                    &&& child.inner.memory_set.heap_bottom == parent0.inner.memory_set.heap_bottom
                    &&& child.inner.memory_set.program_brk == parent0.inner.memory_set.program_brk
                    &&& child.inner.memory_set.token == c
                    &&& Kernel::fresh_sync_state(child.inner)
                })
                &&& final(self).proc_at(p).inner.children@ == parent0.inner.children@.push(
                    r as usize,
                )
                &&& final(self).proc_at(p).inner == (ProcessControlBlockInner {
                    children: final(self).proc_at(p).inner.children,
                    ..parent0.inner
                })
                &&& forall|q: int|
                    0 <= q < old(self).procs@.len() && q != p && q != c ==> final(self).procs@[q]
                        == old(self).procs@[q]
                &&& final(self).scheduler.ready_queue@.len() == old(
                    self,
                ).scheduler.ready_queue@.len() + 1
                &&& final(self).scheduler.ready_queue@.drop_last() == old(
                    self,
                ).scheduler.ready_queue@
                &&& ({
                    let qt = final(self).scheduler.ready_queue@.last();
                    &&& qt.pid == c
                    &&& qt.tid == 0
                    &&& qt.task_status == TaskStatus::Ready
                    &&& qt.trap_cx == (TrapContext { a0: 0, ..t0.trap_cx })
                })
            }),
    {
        let p = match self.current {
            Some(p) => p,
            None => 0,
        };
        let ghost pre = *self;
        let pid = self.pid_allocator.alloc_id();

        // clone what the child takes over from the parent
        let mut memory_set = AddressSpace::from_image(
            &ExecImage { entry_point: 0, ustack_base: 0, brk_init: 0, token: pid },
        );
        let mut fd_table: Vec<Option<FileHandle>> = Vec::new();
        let mut trap_cx = TrapContext::app_init_context(0, 0, 0, 0, 0);
        match &self.procs[p] {
            Some(pcb) => {
                memory_set = AddressSpace::from_existed_user(&pcb.inner.memory_set, pid);
                let mut i: usize = 0;
                while i < pcb.inner.fd_table.len()
                    invariant
                        i <= pcb.inner.fd_table@.len(),
                        fd_table@ == pcb.inner.fd_table@.take(i as int),
                    decreases pcb.inner.fd_table@.len() - i,
                {
                    fd_table.push(pcb.inner.fd_table[i]);
                    proof {
                        assert(pcb.inner.fd_table@.take(i + 1) =~= pcb.inner.fd_table@.take(
                            i as int,
                        ).push(pcb.inner.fd_table@[i as int]));
                    }
                    i = i + 1;
                }
                proof {
                    assert(pcb.inner.fd_table@.take(pcb.inner.fd_table@.len() as int)
                        =~= pcb.inner.fd_table@);
                }
                match &pcb.inner.tasks[0] {
                    Some(t) => {
                        trap_cx = t.trap_cx;
                    },
                    None => {},
                }
            },
            None => {},
        }
        trap_cx.a0 = 0;

        let mut task_res_allocator = RecycleAllocator::new();
        let tid = task_res_allocator.alloc_id();

        let mut task = TaskControlBlock::new();
        task.pid = pid;
        task.tid = tid;
        task.task_status = TaskStatus::Ready;
        task.trap_cx = trap_cx;

        let mut queued = TaskControlBlock::new();
        queued.pid = pid;
        queued.tid = tid;
        queued.task_status = TaskStatus::Ready;
        queued.trap_cx = trap_cx;

        let mut tasks: Vec<Option<TaskControlBlock>> = Vec::new();
        tasks.push(Some(task));

        let child = ProcessControlBlock {
            pid,
            inner: ProcessControlBlockInner {
                is_zombie: false,
                memory_set,
                parent: Some(p),
                children: Vec::new(),
                exit_code: 0,
                fd_table,
                tasks,
                task_res_allocator,
                mutex_list: Vec::new(),
                mutex_deadlock_detect: MutexDeadlockDetect::new(0),
                semaphore_list: Vec::new(),
                semaphore_deadlock_detect: SemaphoreDeadlockDetect::new(),
                condvar_list: Vec::new(),
            },
        };

        if pid == self.procs.len() {
            self.procs.push(Some(child));
        } else {
            self.procs[pid] = Some(child);
        }
        match &mut self.procs[p] {
            Some(pcb) => {
                pcb.inner.children.push(pid);
            },
            None => {},
        }
        self.scheduler.add(queued);

        proof {
            let pi = p as int;
            let ci = pid as int;
            assert(pre.live(pi));
            assert(ci != pi);
            assert(self.scheduler.ready_queue@.drop_last() == pre.scheduler.ready_queue@);
            assert(self.procs@.len() == self.pid_allocator.current);
            assert forall|q: int|
                0 <= q < self.procs@.len() implies (self.procs@[q] is Some
                    <==> self.pid_allocator.is_allocated(q)) by {
                if q != ci && q != pi {
                    if q < pre.procs@.len() {
                        assert(self.procs@[q] == pre.procs@[q]);
                    }
                }
            }
            assert forall|q: int| #![trigger self.live(q)]
                self.live(q) implies (self.proc_at(q).pid == q && self.proc_at(q).inner.wf()
                    && self.proc_at(q).inner.tasks@.len() >= 1 && self.proc_at(q).inner.tasks@[0]
                    is Some) by {
                if q != ci && q != pi {
                    assert(self.procs@[q] == pre.procs@[q]);
                    assert(pre.live(q));
                } else if q == pi {
                    assert(pre.live(pi));
                    assert(self.proc_at(pi).inner == (ProcessControlBlockInner {
                        children: self.proc_at(pi).inner.children,
                        ..pre.proc_at(pi).inner
                    }));
                }
            }
            assert forall|q: int, i: int| #![trigger self.child_of(q, i)]
                self.live(q) && 0 <= i < self.proc_at(q).inner.children@.len() implies (self.live(
                    self.child_of(q, i),
                ) && self.child_of(q, i) != q && self.child_of(q, i) != ROOT_PID) by {
                if q != ci && q != pi {
                    assert(self.procs@[q] == pre.procs@[q]);
                    assert(pre.live(q));
                    assert(self.child_of(q, i) == pre.child_of(q, i));
                    assert(pre.live(pre.child_of(q, i)));
                    let d = pre.child_of(q, i);
                    if d != ci && d != pi {
                        assert(self.procs@[d] == pre.procs@[d]);
                    }
                } else if q == pi {
                    if i < pre.proc_at(pi).inner.children@.len() {
                        assert(self.child_of(pi, i) == pre.child_of(pi, i));
                        assert(pre.live(pre.child_of(pi, i)));
                        let d = pre.child_of(pi, i);
                        if d != ci && d != pi {
                            assert(self.procs@[d] == pre.procs@[d]);
                        }
                    } else {
                        assert(self.child_of(pi, i) == ci);
                        assert(self.live(ci));
                        assert(!pre.pid_allocator.is_allocated(ci));
                        assert(ci != ROOT_PID) by {
                            if pre.procs@.len() > 0 {
                                assert(pre.procs@[ROOT_PID as int] is Some);
                                assert(pre.pid_allocator.is_allocated(ROOT_PID as int));
                            }
                        }
                    }
                }
            }
            assert forall|p1: int, i1: int, p2: int, i2: int|
                #![trigger self.child_of(p1, i1), self.child_of(p2, i2)]
                self.live(p1) && 0 <= i1 < self.proc_at(p1).inner.children@.len() && self.live(p2)
                    && 0 <= i2 < self.proc_at(p2).inner.children@.len() && self.child_of(p1, i1)
                    == self.child_of(p2, i2) implies (p1 == p2 && i1 == i2) by {
                let new1 = p1 == pi && i1 >= pre.proc_at(pi).inner.children@.len();
                let new2 = p2 == pi && i2 >= pre.proc_at(pi).inner.children@.len();
                if p1 != ci && p1 != pi {
                    assert(self.procs@[p1] == pre.procs@[p1]);
                    assert(pre.live(p1));
                }
                if p2 != ci && p2 != pi {
                    assert(self.procs@[p2] == pre.procs@[p2]);
                    assert(pre.live(p2));
                }
                if new1 && new2 {
                } else if new1 && !new2 {
                    assert(self.child_of(p2, i2) == pre.child_of(p2, i2));
                    assert(pre.live(pre.child_of(p2, i2)));
                    assert(pre.pid_allocator.is_allocated(ci));
                    assert(false);
                } else if !new1 && new2 {
                    assert(self.child_of(p1, i1) == pre.child_of(p1, i1));
                    assert(pre.live(pre.child_of(p1, i1)));
                    assert(pre.pid_allocator.is_allocated(ci));
                    assert(false);
                } else {
                    assert(self.child_of(p1, i1) == pre.child_of(p1, i1));
                    assert(self.child_of(p2, i2) == pre.child_of(p2, i2));
                    assert(pre.live(p1) || p1 == pi);
                    assert(pre.live(p2) || p2 == pi);
                }
            }
            if self.procs@.len() > 0 {
                if pre.procs@.len() > 0 {
                    assert(pre.procs@[ROOT_PID as int] is Some);
                    assert(ROOT_PID as int != ci);
                    if ROOT_PID as int != pi {
                        assert(self.procs@[ROOT_PID as int] == pre.procs@[ROOT_PID as int]);
                    }
                }
            }
            if self.current is Some {
                let cc = self.current.unwrap() as int;
                assert(pre.live(cc));
                assert(cc != ci);
                if cc != pi {
                    assert(self.procs@[cc] == pre.procs@[cc]);
                }
            }
        }
        pid as isize
    }

    /// Spawn a fresh child process directly from an image: create the
    /// process as `create_process` does, then make it a child of the
    /// caller. Returns the child's pid, or -1 when no image could be
    /// loaded.
    pub fn sys_spawn(&mut self, image: Option<&ExecImage>) -> (r: isize)
        requires
            old(self).wf(),
            old(self).current is Some,
            old(self).pid_allocator.current < usize::MAX,
            old(self).procs@.len() < isize::MAX,
            image matches Some(img) ==> img.ustack_base + USER_STACK_SIZE <= usize::MAX,
        ensures
            final(self).wf(),
            final(self).current == old(self).current,
            image is None ==> (r == -1 && *final(self) == *old(self)),
            image matches Some(img) ==> ({
                let p = old(self).current.unwrap() as int;
                let c = r as int;
                &&& r >= 0
                &&& c != p
                &&& old(self).pid_allocator.is_smallest_free(c)
                &&& final(self).live(c)
                &&& ({
                    let child = final(self).proc_at(c);
                    &&& child.pid == c
                    &&& !child.inner.is_zombie
                    &&& child.inner.parent == Some(p as usize)
                    &&& child.inner.children@.len() == 0
                    &&& child.inner.exit_code == 0
                    &&& child.inner.fd_table@ == seq![
                        Some(FileHandle::Stdin),
                        Some(FileHandle::Stdout),
                        Some(FileHandle::Stdout),
                    ]
                    &&& child.inner.tasks@.len() == 1
                    &&& child.inner.tasks@[0] is Some
                    &&& ({
                        let t = child.inner.tasks@[0].unwrap();
                        &&& t.pid == c
                        &&& t.tid == 0
                        &&& t.task_status == TaskStatus::Ready
                        &&& t.trap_cx == (TrapContext {
                            a0: 0,
                            a1: 0,
                            sp: (img.ustack_base + USER_STACK_SIZE) as usize,
                            sepc: img.entry_point,
                            kernel_satp: 0,
                            kernel_sp: 0,
                            trap_handler: 0,
                        })
                    })
                    &&& child.inner.memory_set.token == img.token
                    &&& child.inner.memory_set.entry_point == img.entry_point
                    &&& child.inner.memory_set.ustack_base == img.ustack_base
                    &&& child.inner.memory_set.heap_bottom == img.brk_init
                    &&& child.inner.memory_set.program_brk == img.brk_init
                    &&& child.inner.memory_set.areas@.len() == 0
                    &&& child.inner.memory_set.words@ == Map::<usize, usize>::empty()
                    &&& child.inner.memory_set.ints@ == Map::<usize, i32>::empty()
                    &&& child.inner.memory_set.bytes@ == Map::<usize, u8>::empty()
                    &&& Kernel::fresh_sync_state(child.inner)
                })
                &&& final(self).proc_at(p).inner.children@ == old(self).proc_at(
                    p,
                ).inner.children@.push(r as usize)
                &&& final(self).proc_at(p).inner == (ProcessControlBlockInner {
                    children: final(self).proc_at(p).inner.children,
                    ..old(self).proc_at(p).inner
                })
                &&& forall|q: int|
                    0 <= q < old(self).procs@.len() && q != p && q != c ==> final(self).procs@[q]
                        == old(self).procs@[q]
                &&& final(self).scheduler.ready_queue@.len() == old(
                    self,
                ).scheduler.ready_queue@.len() + 1
                &&& final(self).scheduler.ready_queue@.drop_last() == old(
                    self,
                ).scheduler.ready_queue@
                &&& ({
                    let qt = final(self).scheduler.ready_queue@.last();
                    &&& qt.pid == c
                    &&& qt.tid == 0
                    &&& qt.task_status == TaskStatus::Ready
                    &&& qt.trap_cx == (TrapContext {
                        a0: 0,
                        a1: 0,
                        sp: (img.ustack_base + USER_STACK_SIZE) as usize,
                        sepc: img.entry_point,
                        kernel_satp: 0,
                        kernel_sp: 0,
                        trap_handler: 0,
                    })
                })
            }),
    {
        let img = match image {
            Some(img) => img,
            None => {
                return -1;
            },
        };
        let p = match self.current {
            Some(p) => p,
            None => 0,
        };
        let ghost pre = *self;
        let pid = self.create_process(img);
        let ghost mid = *self;
        match &mut self.procs[pid] {
            Some(pcb) => {
                pcb.inner.parent = Some(p);
            },
            None => {},
        }
        proof {
            let ci = pid as int;
            assert(self.proc_at(ci).inner.wf());
            Kernel::lemma_wf_after_proc_touch(mid, *self, ci);
        }
        let ghost mid2 = *self;
        match &mut self.procs[p] {
            Some(pcb) => {
                pcb.inner.children.push(pid);
            },
            None => {},
        }
        proof {
            let pi = p as int;
            let ci = pid as int;
            assert(pre.live(pi));
            assert(!pre.pid_allocator.is_allocated(ci));
            assert(ci != pi);
            // no children list in mid2 holds the fresh pid: all lists are
            // as before the creation, whose entries were live then
            assert forall|q: int, i: int|
                mid2.live(q) && 0 <= i < mid2.proc_at(q).inner.children@.len()
                    implies #[trigger] mid2.child_of(q, i) != ci by {
                if q == ci {
                    assert(mid2.proc_at(ci).inner.children@.len() == 0);
                } else {
                    assert(mid2.procs@[q] == pre.procs@[q] || q == ci);
                    assert(pre.live(q));
                    assert(mid2.child_of(q, i) == pre.child_of(q, i));
                    assert(pre.live(pre.child_of(q, i)));
                    assert(pre.pid_allocator.is_allocated(pre.child_of(q, i)));
                }
            }
            assert forall|q: int| #![trigger self.live(q)]
                self.live(q) implies (self.proc_at(q).pid == q && self.proc_at(q).inner.wf()
                    && self.proc_at(q).inner.tasks@.len() >= 1 && self.proc_at(q).inner.tasks@[0]
                    is Some) by {
                if q != pi {
                    assert(self.procs@[q] == mid2.procs@[q]);
                    assert(mid2.live(q));
                } else {
                    assert(mid2.live(pi));
                    assert(self.proc_at(pi).inner == (ProcessControlBlockInner {
                        children: self.proc_at(pi).inner.children,
                        ..mid2.proc_at(pi).inner
                    }));
                }
            }
            assert forall|q: int|
                0 <= q < self.procs@.len() implies (self.procs@[q] is Some
                    <==> self.pid_allocator.is_allocated(q)) by {
                if q != pi {
                    assert(self.procs@[q] == mid2.procs@[q]);
                }
            }
            assert forall|q: int, i: int| #![trigger self.child_of(q, i)]
                self.live(q) && 0 <= i < self.proc_at(q).inner.children@.len() implies (self.live(
                    self.child_of(q, i),
                ) && self.child_of(q, i) != q && self.child_of(q, i) != ROOT_PID) by {
                if q != pi {
                    assert(self.procs@[q] == mid2.procs@[q]);
                    assert(mid2.live(q));
                    assert(self.child_of(q, i) == mid2.child_of(q, i));
                    assert(mid2.live(mid2.child_of(q, i)));
                    let d = mid2.child_of(q, i);
                    if d != pi {
                        assert(self.procs@[d] == mid2.procs@[d]);
                    }
                } else {
                    assert(mid2.live(pi));
                    if i < mid2.proc_at(pi).inner.children@.len() {
                        assert(self.child_of(pi, i) == mid2.child_of(pi, i));
                        assert(mid2.live(mid2.child_of(pi, i)));
                        let d = mid2.child_of(pi, i);
                        if d != pi {
                            assert(self.procs@[d] == mid2.procs@[d]);
                        }
                    } else {
                        assert(self.child_of(pi, i) == ci);
                        assert(mid2.live(ci));
                        assert(self.procs@[ci] == mid2.procs@[ci]);
                        assert(ci != ROOT_PID) by {
                            if pre.procs@.len() > 0 {
                                assert(pre.procs@[ROOT_PID as int] is Some);
                                assert(pre.pid_allocator.is_allocated(ROOT_PID as int));
                            } else {
                                assert(pre.live(pi));
                                assert(false);
                            }
                        }
                    }
                }
            }
            assert forall|p1: int, i1: int, p2: int, i2: int|
                #![trigger self.child_of(p1, i1), self.child_of(p2, i2)]
                self.live(p1) && 0 <= i1 < self.proc_at(p1).inner.children@.len() && self.live(p2)
                    && 0 <= i2 < self.proc_at(p2).inner.children@.len() && self.child_of(p1, i1)
                    == self.child_of(p2, i2) implies (p1 == p2 && i1 == i2) by {
                let new1 = p1 == pi && i1 >= mid2.proc_at(pi).inner.children@.len();
                let new2 = p2 == pi && i2 >= mid2.proc_at(pi).inner.children@.len();
                if p1 != pi {
                    assert(self.procs@[p1] == mid2.procs@[p1]);
                    assert(mid2.live(p1));
                } else {
                    assert(mid2.live(pi));
                }
                if p2 != pi {
                    assert(self.procs@[p2] == mid2.procs@[p2]);
                    assert(mid2.live(p2));
                } else {
                    assert(mid2.live(pi));
                }
                if new1 && new2 {
                } else if new1 && !new2 {
                    assert(self.child_of(p2, i2) == mid2.child_of(p2, i2));
                    assert(mid2.child_of(p2, i2) != ci);
                    assert(false);
                } else if !new1 && new2 {
                    assert(self.child_of(p1, i1) == mid2.child_of(p1, i1));
                    assert(mid2.child_of(p1, i1) != ci);
                    assert(false);
                } else {
                    assert(self.child_of(p1, i1) == mid2.child_of(p1, i1));
                    assert(self.child_of(p2, i2) == mid2.child_of(p2, i2));
                }
            }
            if self.procs@.len() > 0 {
                assert(mid2.procs@[ROOT_PID as int] is Some);
                if ROOT_PID as int != pi {
                    assert(self.procs@[ROOT_PID as int] == mid2.procs@[ROOT_PID as int]);
                }
            }
            if self.current is Some {
                let cc = self.current.unwrap() as int;
                assert(mid2.live(cc));
                if cc != pi {
                    assert(self.procs@[cc] == mid2.procs@[cc]);
                }
            }
            assert(mid2.proc_at(pi).inner.children@ == pre.proc_at(pi).inner.children@);
        }
        pid as isize
    }

    /// Replace the running single-threaded process's program with the
    /// given image and argument strings; -1 when no image could be
    /// loaded.
    pub fn sys_exec(&mut self, image: Option<&ExecImage>, args: &Vec<Vec<u8>>) -> (r: isize)
        requires
            old(self).wf(),
            old(self).current is Some,
            old(self).proc_at(old(self).current.unwrap() as int).inner.tasks@.len() == 1,
            image matches Some(img) ==> {
                &&& img.ustack_base + USER_STACK_SIZE <= usize::MAX
                &&& crate::config::WORD_SIZE * (args@.len() + 1) + crate::process::args_block_size(
                    args@.map_values(|v: Vec<u8>| v@),
                    args@.len() as int,
                ) <= img.ustack_base + USER_STACK_SIZE
            },
        ensures
            final(self).wf(),
            final(self).current == old(self).current,
            image is None ==> (r == -1 && *final(self) == *old(self)),
            image matches Some(img) ==> ({
                let p = old(self).current.unwrap() as int;
                let n = args@.len() as int;
                let top = img.ustack_base + USER_STACK_SIZE;
                let seqs = args@.map_values(|v: Vec<u8>| v@);
                let argv_base = crate::process::spec_argv_base(top, n);
                let t = final(self).proc_at(p).inner.tasks@[0].unwrap();
                let ms = final(self).proc_at(p).inner.memory_set;
                &&& r == 0
                &&& final(self).live(p)
                &&& final(self).proc_at(p).inner.tasks@.len() == 1
                &&& final(self).proc_at(p).inner.tasks@[0] is Some
                &&& t == (TaskControlBlock {
                    trap_cx: t.trap_cx,
                    ..old(self).proc_at(p).inner.tasks@[0].unwrap()
                })
                &&& t.trap_cx.sepc == img.entry_point
                &&& t.trap_cx.a0 == n
                &&& t.trap_cx.a1 == argv_base
                &&& ({
                    let raw_sp = crate::process::spec_arg_addr(seqs, top, n - 1);
                    t.trap_cx.sp == raw_sp - raw_sp % (crate::config::WORD_SIZE as int)
                })
                &&& final(self).proc_at(p).inner == (ProcessControlBlockInner {
                    memory_set: final(self).proc_at(p).inner.memory_set,
                    tasks: final(self).proc_at(p).inner.tasks,
                    ..old(self).proc_at(p).inner
                })
                &&& ms.token == img.token
                &&& ms.entry_point == img.entry_point
                &&& ms.ustack_base == img.ustack_base
                &&& ms.heap_bottom == img.brk_init
                &&& ms.program_brk == img.brk_init
                &&& ms.areas@.len() == 0
                &&& ms.ints@ == Map::<usize, i32>::empty()
                &&& forall|k: int| #![trigger crate::process::word_slot(argv_base, k)]
                    0 <= k < n ==> ms.words@.contains_key(crate::process::word_slot(argv_base, k))
                        && ms.words@[crate::process::word_slot(argv_base, k)]
                        == crate::process::spec_arg_addr(seqs, top, k)
                &&& ms.words@.contains_key(crate::process::word_slot(argv_base, n))
                &&& ms.words@[crate::process::word_slot(argv_base, n)] == 0
                &&& forall|k: int, j: int| #![trigger crate::process::byte_slot(seqs, top, k, j)]
                    0 <= k < n && 0 <= j <= seqs[k].len() ==> ms.bytes@.contains_key(
                        crate::process::byte_slot(seqs, top, k, j),
                    ) && ms.bytes@[crate::process::byte_slot(seqs, top, k, j)] == (if j
                        < seqs[k].len() {
                        seqs[k][j]
                    } else {
                        0u8
                    })
                &&& forall|q: int|
                    0 <= q < old(self).procs@.len() && q != p ==> final(self).procs@[q] == old(
                        self,
                    ).procs@[q]
            }),
    {
        let img = match image {
            Some(img) => img,
            None => {
                return -1;
            },
        };
        let p = match self.current {
            Some(p) => p,
            None => 0,
        };
        let ghost pre = *self;
        match &mut self.procs[p] {
            Some(pcb) => {
                pcb.exec(img, args);
            },
            None => {},
        }
        proof {
            let pi = p as int;
            let inner1 = self.proc_at(pi).inner;
            assert forall|i: int|
                0 <= i < inner1.tasks@.len() && inner1.tasks@[i] is Some implies (
            #[trigger] inner1.tasks@[i]).unwrap().wf() by {
                assert(i == 0);
                assert(pre.proc_at(pi).inner.tasks@[0].unwrap().wf());
            }
            assert(inner1.wf());
            Kernel::lemma_wf_after_proc_touch(pre, *self, pi);
        }
        0
    }

    /// Map the region `[start, start + len)` into the running process
    /// with the given access bits; -1 when the bits are invalid, the
    /// start is not page-aligned, the length is zero, or the region
    /// collides with one already requested.
    pub fn sys_mmap(&mut self, start: usize, len: usize, port: usize) -> (r: isize)
        requires
            old(self).wf(),
            old(self).current is Some,
            start + len <= usize::MAX,
        ensures
            final(self).wf(),
            final(self).current == old(self).current,
            ({
                let p = old(self).current.unwrap() as int;
                let ms = old(self).proc_at(p).inner.memory_set;
                let flags = (((port << 1) & 6) | 16) as u8;
                if port & !7usize != 0 || port & 7 == 0 || start % PAGE_SIZE != 0 || len
                    == 0 {
                    r == -1 && final(self).procs@ == old(self).procs@
                } else {
                    let can = forall|i: int|
                        0 <= i < ms.areas@.len() ==> !crate::mm::ranges_overlap(
                            (#[trigger] ms.areas@[i]).start as int,
                            ms.areas@[i].end as int,
                            start as int,
                            (start + len) as int,
                        );
                    &&& r == (if can {
                        0
                    } else {
                        -1
                    })
                    &&& (can ==> final(self).proc_at(p).inner.memory_set.areas@ == ms.areas@.push(
                        crate::mm::MapArea { start, end: (start + len) as usize, flags },
                    ))
                    &&& (can ==> final(self).proc_at(p).inner.memory_set == (AddressSpace {
                        areas: final(self).proc_at(p).inner.memory_set.areas,
                        ..ms
                    }))
                    &&& (can ==> final(self).proc_at(p).inner == (ProcessControlBlockInner {
                        memory_set: final(self).proc_at(p).inner.memory_set,
                        ..old(self).proc_at(p).inner
                    }))
                    &&& (!can ==> final(self).procs@ == old(self).procs@)
                    &&& forall|q: int|
                        0 <= q < old(self).procs@.len() && q != p ==> final(self).procs@[q] == old(
                            self,
                        ).procs@[q]
                }
            }),
    {
        if (port & !0x7usize) != 0 || (port & 0x7usize) == 0 || start % PAGE_SIZE != 0 || len == 0
        {
            return -1;
        }
        let flags: u8 = (((port << 1usize) & 0b0110usize) | 0b10000usize) as u8;
        let p = match self.current {
            Some(p) => p,
            None => 0,
        };
        let ghost pre = *self;
        let mut pushed = false;
        match &mut self.procs[p] {
            Some(pcb) => {
                pushed = pcb.inner.memory_set.push_unnamed_area(start, start + len, flags);
            },
            None => {},
        }
        proof {
            let pi = p as int;
            assert(self.proc_at(pi).inner.wf());
            Kernel::lemma_wf_after_proc_touch(pre, *self, pi);
            if !pushed {
                assert(self.procs@ =~= pre.procs@);
            }
        }
        if pushed {
            0
        } else {
            -1
        }
    }

    /// Unmap the region requested earlier as exactly `[start, start +
    /// len)` from the running process; -1 when the start is not
    /// page-aligned, the length is zero, or no such region exists.
    pub fn sys_munmap(&mut self, start: usize, len: usize) -> (r: isize)
        requires
            old(self).wf(),
            old(self).current is Some,
            start + len <= usize::MAX,
        ensures
            final(self).wf(),
            final(self).current == old(self).current,
            ({
                let p = old(self).current.unwrap() as int;
                let ms = old(self).proc_at(p).inner.memory_set;
                if start % PAGE_SIZE != 0 || len == 0 {
                    r == -1 && final(self).procs@ == old(self).procs@
                } else {
                    let found = exists|i: int|
                        0 <= i < ms.areas@.len() && (#[trigger] ms.areas@[i]).start == start
                            && ms.areas@[i].end == start + len;
                    &&& r == (if found {
                        0
                    } else {
                        -1
                    })
                    &&& (!found ==> final(self).procs@ == old(self).procs@)
                    &&& (found ==> (exists|i: int|
                        {
                            &&& 0 <= i < ms.areas@.len()
                            &&& (#[trigger] ms.areas@[i]).start == start
                            &&& ms.areas@[i].end == start + len
                            &&& (forall|j: int|
                                0 <= j < i ==> !((#[trigger] ms.areas@[j]).start == start
                                    && ms.areas@[j].end == start + len))
                            &&& final(self).proc_at(p).inner.memory_set.areas@ == ms.areas@.remove(
                                i,
                            )
                        }))
                    &&& (found ==> final(self).proc_at(p).inner.memory_set == (AddressSpace {
                        areas: final(self).proc_at(p).inner.memory_set.areas,
                        ..ms
                    }))
                    &&& (found ==> final(self).proc_at(p).inner == (ProcessControlBlockInner {
                        memory_set: final(self).proc_at(p).inner.memory_set,
                        ..old(self).proc_at(p).inner
                    }))
                    &&& forall|q: int|
                        0 <= q < old(self).procs@.len() && q != p ==> final(self).procs@[q] == old(
                            self,
                        ).procs@[q]
                }
            }),
    {
        if start % PAGE_SIZE != 0 {
            return -1;
        }
        if len == 0 {
            return -1;
        }
        let p = match self.current {
            Some(p) => p,
            None => 0,
        };
        let ghost pre = *self;
        let mut removed = false;
        match &mut self.procs[p] {
            Some(pcb) => {
                removed = pcb.inner.memory_set.remove_unnamed_area(start, start + len);
            },
            None => {},
        }
        proof {
            let pi = p as int;
            assert(self.proc_at(pi).inner.wf());
            Kernel::lemma_wf_after_proc_touch(pre, *self, pi);
            if !removed {
                assert(self.procs@ =~= pre.procs@);
            }
        }
        if removed {
            0
        } else {
            -1
        }
    }

    /// Move the running process's program break by `size` bytes and
    /// report the old break; -1 when the move would fall below the heap
    /// bottom or out of the address range.
    pub fn sys_sbrk(&mut self, size: i32) -> (r: isize)
        requires
            old(self).wf(),
            old(self).current is Some,
            old(self).proc_at(
                old(self).current.unwrap() as int,
            ).inner.memory_set.program_brk + size as int <= isize::MAX,
        ensures
            final(self).wf(),
            final(self).current == old(self).current,
            ({
                let p = old(self).current.unwrap() as int;
                let ms = old(self).proc_at(p).inner.memory_set;
                let new_brk = ms.program_brk + size as int;
                if ms.heap_bottom <= new_brk <= usize::MAX {
                    &&& r == ms.program_brk as isize
                    &&& final(self).proc_at(p).inner.memory_set.program_brk == new_brk
                    &&& final(self).proc_at(p).inner.memory_set == (AddressSpace {
                        program_brk: final(self).proc_at(p).inner.memory_set.program_brk,
                        ..ms
                    })
                    &&& final(self).proc_at(p).inner == (ProcessControlBlockInner {
                        memory_set: final(self).proc_at(p).inner.memory_set,
                        ..old(self).proc_at(p).inner
                    })
                    &&& forall|q: int|
                        0 <= q < old(self).procs@.len() && q != p ==> final(self).procs@[q] == old(
                            self,
                        ).procs@[q]
                } else {
                    r == -1 && final(self).procs@ == old(self).procs@
                }
            }),
    {
        let p = match self.current {
            Some(p) => p,
            None => 0,
        };
        let ghost pre = *self;
        let mut res: Option<usize> = None;
        match &mut self.procs[p] {
            Some(pcb) => {
                res = pcb.inner.memory_set.change_program_brk(size);
            },
            None => {},
        }
        proof {
            let pi = p as int;
            assert(self.proc_at(pi).inner.wf());
            Kernel::lemma_wf_after_proc_touch(pre, *self, pi);
            if res is None {
                assert(self.procs@ =~= pre.procs@);
            }
        }
        match res {
            Some(old_brk) => old_brk as isize,
            None => -1,
        }
    }

    /// The pid of the running process.
    pub fn sys_getpid(&self) -> (r: isize)
        requires
            self.wf(),
            self.current is Some,
            self.current.unwrap() <= isize::MAX,
        ensures
            r == self.current.unwrap() as isize,
    {
        match self.current {
            Some(p) => p as isize,
            None => -1,
        }
    }

    /// Setting a task priority is not supported by this surface.
    pub fn sys_set_priority(&self, _prio: isize) -> (r: isize)
        ensures
            r == -1,
    {
        -1
    }
}

} // verus!
