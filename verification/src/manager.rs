//! The scheduler: a ready queue with the stride-scheduling selection rule.
//!
//! `fetch` picks, among the queued tasks whose status is Ready, the one
//! with the minimum stride, breaking ties by queue order (the first
//! minimal entry wins), advances the winner's stride by
//! `BIG_STRIDE / priority`, removes it from the queue and returns it.
//!
//! The stride is an unbounded accumulator held in a machine word, the
//! classic hazard of this algorithm. `fetch` guards against it by
//! normalizing: when even the smallest Ready stride sits within one
//! step of the top of the range, every stride is first rebased downward
//! by that minimum (clamping at zero), which preserves the selection
//! order among Ready tasks and makes the winner's stride advance safe.
//! The contract therefore speaks of the queue after this rebase,
//! `normalized(queue)`, which equals the queue itself in every run that
//! stays below the limit.

use vstd::prelude::*;
use std::collections::VecDeque;
use crate::config::BIG_STRIDE;
use crate::task::{TaskControlBlock, TaskStatus};

verus! {

/// A task is schedulable when it is ready to run.
pub open spec fn is_ready(t: TaskControlBlock) -> bool {
    t.task_status == TaskStatus::Ready
}

/// Some queued task is ready.
pub open spec fn has_ready(q: Seq<TaskControlBlock>) -> bool {
    exists|i: int| 0 <= i < q.len() && is_ready(q[i])
}

/// `s` is the smallest stride among the Ready tasks of `q`.
pub open spec fn is_ready_min(q: Seq<TaskControlBlock>, s: int) -> bool {
    &&& exists|i: int| 0 <= i < q.len() && is_ready(q[i]) && q[i].stride == s
    &&& forall|i: int| 0 <= i < q.len() && is_ready(q[i]) ==> s <= q[i].stride
}

/// The smallest Ready stride of `q` (meaningful when `has_ready(q)`).
pub open spec fn ready_min_stride(q: Seq<TaskControlBlock>) -> int {
    choose|s: int| is_ready_min(q, s)
}

/// At most one value is the smallest Ready stride.
pub proof fn lemma_ready_min_unique(q: Seq<TaskControlBlock>, s1: int, s2: int)
    requires
        is_ready_min(q, s1),
        is_ready_min(q, s2),
    ensures
        s1 == s2,
{
    let i1 = choose|i: int| 0 <= i < q.len() && is_ready(q[i]) && q[i].stride == s1;
    let i2 = choose|i: int| 0 <= i < q.len() && is_ready(q[i]) && q[i].stride == s2;
    assert(s1 <= q[i2].stride);
    assert(s2 <= q[i1].stride);
}

/// Every stride rebased downward by `s`, clamping at zero. Among Ready
/// tasks, whose strides are all at least the Ready minimum, a rebase by
/// that minimum subtracts exactly and preserves their relative order.
pub open spec fn rebase(q: Seq<TaskControlBlock>, s: int) -> Seq<TaskControlBlock> {
    Seq::new(
        q.len(),
        |i: int|
            TaskControlBlock {
                stride: if q[i].stride >= s {
                    (q[i].stride - s) as usize
                } else {
                    0
                },
                ..q[i]
            },
    )
}

/// The queue `fetch` selects from: rebased by the smallest Ready stride
/// when that minimum sits within one step of the top of the range, the
/// queue itself otherwise.
pub open spec fn normalized(q: Seq<TaskControlBlock>) -> Seq<TaskControlBlock> {
    if has_ready(q) && ready_min_stride(q) + BIG_STRIDE > usize::MAX {
        rebase(q, ready_min_stride(q))
    } else {
        q
    }
}

/// `idx` is the index the stride rule selects in `q`: a ready entry of
/// minimum stride, and the first entry of that stride among the ready ones.
pub open spec fn is_chosen_index(q: Seq<TaskControlBlock>, idx: int) -> bool {
    &&& 0 <= idx < q.len()
    &&& is_ready(q[idx])
    &&& forall|j: int| 0 <= j < q.len() && is_ready(q[j]) ==> q[idx].stride <= q[j].stride
    &&& forall|j: int| 0 <= j < idx && is_ready(q[j]) ==> q[idx].stride < q[j].stride
}

/// The index the stride rule selects (meaningful when `has_ready(q)`).
pub open spec fn chosen_index(q: Seq<TaskControlBlock>) -> int {
    choose|idx: int| is_chosen_index(q, idx)
}

/// The selection rule is deterministic: at most one index satisfies it.
pub proof fn lemma_chosen_index_unique(q: Seq<TaskControlBlock>, i: int, j: int)
    requires
        is_chosen_index(q, i),
        is_chosen_index(q, j),
    ensures
        i == j,
{
    if i < j {
        assert(q[j].stride < q[i].stride);
        assert(q[i].stride <= q[j].stride);
    }
    if j < i {
        assert(q[i].stride < q[j].stride);
        assert(q[j].stride <= q[i].stride);
    }
}

/// The ready queue of runnable tasks.
pub struct TaskManager {
    pub ready_queue: VecDeque<TaskControlBlock>,
}

impl TaskManager {
    /// Every queued task is well formed, so its stride step is positive.
    pub open spec fn wf(self) -> bool {
        forall|i: int| 0 <= i < self.ready_queue@.len() ==> self.ready_queue@[i].wf()
    }

    /// Create an empty ready queue.
    pub fn new() -> (r: TaskManager)
        ensures
            r.wf(),
            r.ready_queue@.len() == 0,
    {
        TaskManager { ready_queue: VecDeque::new() }
    }

    /// Add a task to the back of the ready queue.
    pub fn add(&mut self, task: TaskControlBlock)
        requires
            task.wf(),
        ensures
            final(self).ready_queue@ == old(self).ready_queue@.push(task),
            old(self).wf() ==> final(self).wf(),
    {
        self.ready_queue.push_back(task);
    }

    /// Take the next task out of the ready queue: the first ready entry
    /// of minimum stride after the overflow-guarding rebase, its stride
    /// advanced by `BIG_STRIDE / priority`.
    pub fn fetch(&mut self) -> (r: Option<TaskControlBlock>)
        requires
            old(self).wf(),
        ensures
            final(self).wf(),
            !has_ready(old(self).ready_queue@) ==> r is None && *final(self) == *old(self),
            has_ready(old(self).ready_queue@) ==> {
                let q = normalized(old(self).ready_queue@);
                let idx = chosen_index(q);
                &&& is_chosen_index(q, idx)
                &&& r == Some(
                    TaskControlBlock {
                        stride: (q[idx].stride + BIG_STRIDE / q[idx].priority) as usize,
                        ..q[idx]
                    },
                )
                &&& r.unwrap().stride > q[idx].stride
                &&& final(self).ready_queue@ == q.remove(idx)
            },
    {
        let ghost q0 = self.ready_queue@;

        // find the smallest Ready stride
        let mut have: bool = false;
        let mut minr: usize = 0;
        let mut i: usize = 0;
        while i < self.ready_queue.len()
            invariant
                self.ready_queue@ == q0,
                i <= q0.len(),
                !have ==> forall|j: int| 0 <= j < i ==> !is_ready(q0[j]),
                have ==> {
                    &&& exists|j: int| 0 <= j < i && is_ready(q0[j]) && q0[j].stride == minr
                    &&& forall|j: int| 0 <= j < i && is_ready(q0[j]) ==> minr <= q0[j].stride
                },
            decreases q0.len() - i,
        {
            let ready = match self.ready_queue[i].get_status() {
                TaskStatus::Ready => true,
                _ => false,
            };
            if ready {
                let s = self.ready_queue[i].get_stride();
                if !have || s < minr {
                    minr = s;
                    have = true;
                }
            }
            i = i + 1;
        }
        if !have {
            return None;
        }
        proof {
            assert(is_ready_min(q0, minr as int));
            lemma_ready_min_unique(q0, minr as int, ready_min_stride(q0));
        }

        // rebase every stride downward when the Ready minimum sits within
        // one step of the top of the range
        if minr > usize::MAX - BIG_STRIDE {
            let len = self.ready_queue.len();
            let mut k: usize = 0;
            while k < len
                invariant
                    len == q0.len(),
                    k <= len,
                    self.ready_queue@ == q0.skip(k as int) + rebase(q0, minr as int).take(
                        k as int,
                    ),
                    forall|j: int| 0 <= j < q0.len() ==> q0[j].wf(),
                decreases len - k,
            {
                let popped = self.ready_queue.pop_front();
                let mut t = popped.unwrap();
                proof {
                    let ki = k as int;
                    assert((q0.skip(ki) + rebase(q0, minr as int).take(ki))[0] == q0[ki]);
                }
                let s = t.get_stride();
                let ns = if s >= minr {
                    s - minr
                } else {
                    0
                };
                t.set_stride(ns);
                self.ready_queue.push_back(t);
                proof {
                    assert(self.ready_queue@ =~= q0.skip(k + 1) + rebase(q0, minr as int).take(
                        k + 1,
                    ));
                }
                k = k + 1;
            }
            proof {
                assert(q0.skip(len as int).len() == 0);
                assert(self.ready_queue@ =~= rebase(q0, minr as int));
                assert(self.ready_queue@ == normalized(q0));
            }
        } else {
            proof {
                assert(self.ready_queue@ == normalized(q0));
            }
        }
        let ghost q = self.ready_queue@;
        proof {
            // the old Ready-minimum witness keeps the Ready minimum in
            // the normalized queue, now far enough from the limit
            let w = choose|j: int| 0 <= j < q0.len() && is_ready(q0[j]) && q0[j].stride == minr;
            assert(is_ready(q[w]));
            assert(q[w].stride + BIG_STRIDE <= usize::MAX);
            assert forall|j: int| 0 <= j < q.len() && is_ready(q[j]) implies q[w].stride
                <= q[j].stride by {
                assert(minr <= q0[j].stride);
            }
        }

        // select the first Ready entry of minimum stride
        let mut best: usize = 0;
        let mut found: bool = false;
        let mut i2: usize = 0;
        while i2 < self.ready_queue.len()
            invariant
                self.ready_queue@ == q,
                i2 <= q.len(),
                !found ==> forall|j: int| 0 <= j < i2 ==> !is_ready(q[j]),
                found ==> {
                    &&& best < i2
                    &&& is_ready(q[best as int])
                    &&& forall|j: int| 0 <= j < i2 && is_ready(q[j]) ==> q[best as int].stride
                        <= q[j].stride
                    &&& forall|j: int| 0 <= j < best && is_ready(q[j]) ==> q[best as int].stride
                        < q[j].stride
                },
            decreases q.len() - i2,
        {
            let ready = match self.ready_queue[i2].get_status() {
                TaskStatus::Ready => true,
                _ => false,
            };
            if ready {
                if !found {
                    best = i2;
                    found = true;
                } else if self.ready_queue[i2].get_stride() < self.ready_queue[best].get_stride() {
                    best = i2;
                }
            }
            i2 = i2 + 1;
        }
        proof {
            let w = choose|j: int| 0 <= j < q0.len() && is_ready(q0[j]) && q0[j].stride == minr;
            assert(is_ready(q[w]));
            assert(found);
            assert(is_chosen_index(q, best as int));
            lemma_chosen_index_unique(q, best as int, chosen_index(q));
            // the winner's stride is at most the rebased Ready minimum,
            // so one more step stays in range
            assert(q[best as int].stride <= q[w].stride);
        }
        let task_opt = self.ready_queue.remove(best);
        let mut task = task_opt.unwrap();
        proof {
            let bs = BIG_STRIDE as int;
            let pp = task.priority as int;
            assert(1 <= bs / pp && bs / pp <= bs) by (nonlinear_arith)
                requires
                    2 <= pp && pp <= bs,
            ;
        }
        let stride = task.get_stride() + BIG_STRIDE / task.get_priority();
        task.set_stride(stride);
        Some(task)
    }
}

} // verus!
