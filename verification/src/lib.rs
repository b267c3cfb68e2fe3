//! Process and thread execution core of a small teaching operating system:
//! a recycling id allocator, a stride scheduler, a Banker's-algorithm
//! deadlock detector, and the process/task control blocks with the
//! process-level operations the system-call layer drives.

pub mod config;
pub mod id;
pub mod task;
pub mod manager;
pub mod detect;
pub mod mm;
pub mod process;
pub mod syscall;
pub mod kernel;
