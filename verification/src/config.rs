//! Configuration constants of the execution core.

use vstd::prelude::*;

verus! {

/// Stride-scheduling pass constant: a dequeued task's stride advances by
/// `BIG_STRIDE / priority`, so over a long run CPU shares are proportional
/// to priorities.
pub const BIG_STRIDE: usize = 1048576;

/// Number of system-call slots tracked per task.
pub const MAX_SYSCALL_NUM: usize = 500;

/// Size in bytes of one page of memory.
pub const PAGE_SIZE: usize = 4096;

/// Size in bytes of one machine word.
pub const WORD_SIZE: usize = 8;

/// Size in bytes of one user stack.
pub const USER_STACK_SIZE: usize = 8192;

/// Upper bound on the number of threads one deadlock detector tracks.
pub const MAX_DETECT_THREADS: usize = 1024;

/// Upper bound on the number of resources one deadlock detector tracks.
pub const MAX_DETECT_RESOURCES: usize = 1024;

} // verus!
