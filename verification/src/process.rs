//! Process control blocks: per-process state — address space, thread
//! table, file-descriptor table, family links, exit state, the
//! synchronization-object tables and the two deadlock detectors — and the
//! single-process operations `exec` and the table helpers.

use vstd::prelude::*;
use crate::config::{USER_STACK_SIZE, WORD_SIZE};
use crate::detect::{MutexDeadlockDetect, SemaphoreDeadlockDetect};
use crate::id::RecycleAllocator;
use crate::mm::{AddressSpace, ExecImage};
use crate::task::{TaskControlBlock, TrapContext};

verus! {

/// A shared file handle held in a descriptor slot.
#[derive(Clone, Copy, PartialEq, Eq, Structural, Debug)]
pub enum FileHandle {
    /// the console input
    Stdin,
    /// the console output
    Stdout,
}

/// Mutable state of one process.
pub struct ProcessControlBlockInner {
    /// whether the process has terminated and awaits reaping
    pub is_zombie: bool,
    /// the process's address space
    pub memory_set: AddressSpace,
    /// pid of the parent, if any; a non-owning back-reference
    pub parent: Option<usize>,
    /// pids of the children this process owns
    pub children: Vec<usize>,
    /// exit code, valid once `is_zombie` is set
    pub exit_code: i32,
    /// file descriptor table; slots are reused after being closed
    pub fd_table: Vec<Option<FileHandle>>,
    /// thread table; entries become empty, the table never shrinks
    pub tasks: Vec<Option<TaskControlBlock>>,
    /// allocator of thread ids
    pub task_res_allocator: RecycleAllocator,
    /// mutex table; destroyed objects leave a reusable hole
    pub mutex_list: Vec<Option<usize>>,
    /// deadlock detector over the mutex resources
    pub mutex_deadlock_detect: MutexDeadlockDetect,
    /// semaphore table; destroyed objects leave a reusable hole
    pub semaphore_list: Vec<Option<usize>>,
    /// deadlock detector over the semaphore resources
    pub semaphore_deadlock_detect: SemaphoreDeadlockDetect,
    /// condition-variable table; destroyed objects leave a reusable hole
    pub condvar_list: Vec<Option<usize>>,
}

impl ProcessControlBlockInner {
    /// Well-formedness of the per-process state.
    pub open spec fn wf(self) -> bool {
        &&& self.memory_set.wf()
        &&& self.task_res_allocator.wf()
        &&& self.mutex_deadlock_detect.wf()
        &&& self.semaphore_deadlock_detect.wf()
        &&& forall|i: int|
            0 <= i < self.tasks@.len() && self.tasks@[i] is Some
                ==> (#[trigger] self.tasks@[i]).unwrap().wf()
    }

    /// The address-space token of this process's page table.
    pub fn get_user_token(&self) -> (r: usize)
        ensures
            r == self.memory_set.token,
    {
        self.memory_set.token()
    }

    /// The lowest free file-descriptor slot, extending the table when
    /// every slot is taken. The slot itself is left for the caller to
    /// fill.
    pub fn alloc_fd(&mut self) -> (fd: usize)
        ensures
            fd <= old(self).fd_table@.len(),
            forall|j: int| 0 <= j < fd ==> old(self).fd_table@[j] is Some,
            fd < old(self).fd_table@.len() ==> {
                &&& old(self).fd_table@[fd as int] is None
                &&& *final(self) == *old(self)
            },
            fd == old(self).fd_table@.len() ==> {
                &&& final(self).fd_table@ == old(self).fd_table@.push(None::<FileHandle>)
                &&& *final(self) == (ProcessControlBlockInner {
                    fd_table: final(self).fd_table,
                    ..*old(self)
                })
            },
    {
        let mut fd: usize = 0;
        while fd < self.fd_table.len()
            invariant
                *self == *old(self),
                fd <= self.fd_table@.len(),
                forall|j: int| 0 <= j < fd ==> self.fd_table@[j] is Some,
            decreases self.fd_table@.len() - fd,
        {
            if self.fd_table[fd].is_none() {
                return fd;
            }
            fd = fd + 1;
        }
        self.fd_table.push(None);
        self.fd_table.len() - 1
    }

    /// Allocate a thread id: the smallest one not in use.
    pub fn alloc_tid(&mut self) -> (tid: usize)
        requires
            old(self).task_res_allocator.wf(),
            old(self).task_res_allocator.current < usize::MAX,
        ensures
            final(self).task_res_allocator.wf(),
            old(self).task_res_allocator.is_smallest_free(tid as int),
            final(self).task_res_allocator.is_allocated(tid as int),
            forall|j: int|
                j != tid ==> (final(self).task_res_allocator.is_allocated(j) <==> old(
                    self,
                ).task_res_allocator.is_allocated(j)),
            *final(self) == (ProcessControlBlockInner {
                task_res_allocator: final(self).task_res_allocator,
                ..*old(self)
            }),
    {
        self.task_res_allocator.alloc_id()
    }

    /// Return a thread id to the free pool.
    pub fn dealloc_tid(&mut self, tid: usize)
        requires
            old(self).task_res_allocator.wf(),
            old(self).task_res_allocator.is_allocated(tid as int),
        ensures
            final(self).task_res_allocator.wf(),
            !final(self).task_res_allocator.is_allocated(tid as int),
            forall|j: int|
                j != tid ==> (final(self).task_res_allocator.is_allocated(j) <==> old(
                    self,
                ).task_res_allocator.is_allocated(j)),
            *final(self) == (ProcessControlBlockInner {
                task_res_allocator: final(self).task_res_allocator,
                ..*old(self)
            }),
    {
        self.task_res_allocator.dealloc_id(tid)
    }

    /// Number of thread slots of this process, freed ones included.
    pub fn thread_count(&self) -> (r: usize)
        ensures
            r == self.tasks@.len(),
    {
        self.tasks.len()
    }

    /// The task in slot `tid`; the slot must be filled.
    pub fn get_task(&self, tid: usize) -> (r: &TaskControlBlock)
        requires
            tid < self.tasks@.len(),
            self.tasks@[tid as int] is Some,
        ensures
            *r == self.tasks@[tid as int].unwrap(),
    {
        self.tasks[tid].as_ref().unwrap()
    }
}

/// Control block of one process: its never-reused pid and its mutable
/// state. In the running kernel the state sits behind the per-process
/// exclusive-access lock; here exclusivity is carried by the `&mut`
/// borrow itself.
pub struct ProcessControlBlock {
    /// process id; unique while any reference to the process survives
    pub pid: usize,
    /// the mutable per-process state
    pub inner: ProcessControlBlockInner,
}

/// Total size of the null-terminated argument strings `args[0..i]`.
pub open spec fn args_block_size(args: Seq<Seq<u8>>, i: int) -> int
    decreases i,
{
    if i <= 0 {
        0
    } else {
        args_block_size(args, i - 1) + args[i - 1].len() + 1
    }
}

/// Base of the argument-pointer vector on a user stack topped at `top`.
pub open spec fn spec_argv_base(top: int, n: int) -> int {
    top - WORD_SIZE * (n + 1)
}

/// Start address of argument string `i`, laid down from high to low
/// addresses below the argument-pointer vector.
pub open spec fn spec_arg_addr(args: Seq<Seq<u8>>, top: int, i: int) -> int {
    spec_argv_base(top, args.len() as int) - args_block_size(args, i + 1)
}

/// The argument block sizes grow with the index.
proof fn lemma_args_block_size_mono(args: Seq<Seq<u8>>, i: int, j: int)
    requires
        0 <= i <= j,
    ensures
        args_block_size(args, i) <= args_block_size(args, j),
    decreases j - i,
{
    if i < j {
        lemma_args_block_size_mono(args, i, j - 1);
    }
}

/// Facts about the argument layout on a user stack topped at `top`:
/// every argument block lies above address zero, below the argument
/// vector, and the blocks descend without overlapping.
proof fn lemma_arg_layout(seqs: Seq<Seq<u8>>, top: int, n: int)
    requires
        n == seqs.len(),
        0 <= n,
        WORD_SIZE * (n + 1) + args_block_size(seqs, n) <= top,
    ensures
        0 <= spec_argv_base(top, n),
        forall|k: int| #![trigger spec_arg_addr(seqs, top, k)]
            0 <= k < n ==> 0 <= spec_arg_addr(seqs, top, k),
        forall|k: int| #![trigger spec_arg_addr(seqs, top, k)]
            0 <= k < n ==> spec_arg_addr(seqs, top, k) + seqs[k].len() + 1
                <= spec_argv_base(top, n),
        forall|k1: int, k2: int|
            #![trigger spec_arg_addr(seqs, top, k1), spec_arg_addr(seqs, top, k2)]
            0 <= k1 < k2 < n ==> spec_arg_addr(seqs, top, k2) + seqs[k2].len() + 1
                <= spec_arg_addr(seqs, top, k1),
{
    assert(args_block_size(seqs, 0) == 0);
    lemma_args_block_size_mono(seqs, 0, n);
    assert forall|k: int| #![trigger spec_arg_addr(seqs, top, k)]
        0 <= k < n implies 0 <= spec_arg_addr(seqs, top, k) by {
        lemma_args_block_size_mono(seqs, k + 1, n);
    }
    assert forall|k: int| #![trigger spec_arg_addr(seqs, top, k)]
        0 <= k < n implies spec_arg_addr(seqs, top, k) + seqs[k].len() + 1
        <= spec_argv_base(top, n) by {
        lemma_args_block_size_mono(seqs, 0, k);
        assert(args_block_size(seqs, k + 1) == args_block_size(seqs, k) + seqs[k].len() + 1);
    }
    assert forall|k1: int, k2: int|
        #![trigger spec_arg_addr(seqs, top, k1), spec_arg_addr(seqs, top, k2)]
        0 <= k1 < k2 < n implies spec_arg_addr(seqs, top, k2) + seqs[k2].len() + 1
        <= spec_arg_addr(seqs, top, k1) by {
        lemma_args_block_size_mono(seqs, k1 + 1, k2);
        assert(args_block_size(seqs, k2 + 1) == args_block_size(seqs, k2) + seqs[k2].len() + 1);
    }
}

/// Address of slot `k` of the argument-pointer vector.
pub open spec fn word_slot(argv_base: int, k: int) -> usize {
    (argv_base + WORD_SIZE * k) as usize
}

/// Address of byte `t` of argument string `k`'s block.
pub open spec fn byte_slot(seqs: Seq<Seq<u8>>, top: int, k: int, t: int) -> usize {
    (spec_arg_addr(seqs, top, k) + t) as usize
}

impl ProcessControlBlock {
    /// Pid and state are consistent.
    pub open spec fn wf(self) -> bool {
        self.inner.wf()
    }

    /// The process id.
    pub fn getpid(&self) -> (r: usize)
        ensures
            r == self.pid,
    {
        self.pid
    }

    /// Read access to the per-process state. Mutation goes through the
    /// kernel operations, which hold the one `&mut` borrow that stands
    /// for the per-process lock.
    pub fn inner_exclusive_access(&self) -> (r: &ProcessControlBlockInner)
        ensures
            *r == self.inner,
    {
        &self.inner
    }

    /// Replace this single-threaded process's program: build a fresh
    /// address space from `image`, copy the argument strings onto the
    /// new user stack from high to low addresses, each null-terminated,
    /// write the null-terminated vector of their addresses below them,
    /// align the stack pointer down to the machine word, and
    /// reinitialize the main thread's trap context so the new program
    /// starts at the image's entry point and observes the argument count
    /// and vector in the two return-value slots.
    pub fn exec(&mut self, image: &ExecImage, args: &Vec<Vec<u8>>)
        requires
            old(self).inner.tasks@.len() == 1,
            old(self).inner.tasks@[0] is Some,
            image.ustack_base + USER_STACK_SIZE <= usize::MAX,
            WORD_SIZE * (args@.len() + 1) + args_block_size(
                args@.map_values(|v: Vec<u8>| v@),
                args@.len() as int,
            ) <= image.ustack_base + USER_STACK_SIZE,
        ensures
            final(self).pid == old(self).pid,
            final(self).inner.tasks@.len() == 1,
            final(self).inner.tasks@[0] is Some,
            ({
                let n = args@.len() as int;
                let top = image.ustack_base + USER_STACK_SIZE;
                let seqs = args@.map_values(|v: Vec<u8>| v@);
                let argv_base = spec_argv_base(top, n);
                let raw_sp = spec_arg_addr(seqs, top, n - 1);
                let sp = raw_sp - raw_sp % (WORD_SIZE as int);
                let t = final(self).inner.tasks@[0].unwrap();
                let ms = final(self).inner.memory_set;
                &&& t.trap_cx.sepc == image.entry_point
                &&& t.trap_cx.sp == sp
                &&& t.trap_cx.a0 == n
                &&& t.trap_cx.a1 == argv_base
                &&& t == (TaskControlBlock {
                    trap_cx: t.trap_cx,
                    ..old(self).inner.tasks@[0].unwrap()
                })
                &&& ms.token == image.token
                &&& ms.entry_point == image.entry_point
                &&& ms.ustack_base == image.ustack_base
                &&& ms.heap_bottom == image.brk_init
                &&& ms.program_brk == image.brk_init
                &&& ms.areas@.len() == 0
                &&& ms.ints@ == Map::<usize, i32>::empty()
                &&& ms.wf()
                &&& forall|k: int| #![trigger word_slot(argv_base, k)]
                    0 <= k < n ==> ms.words@.contains_key(word_slot(argv_base, k))
                        && ms.words@[word_slot(argv_base, k)] == spec_arg_addr(seqs, top, k)
                &&& ms.words@.contains_key(word_slot(argv_base, n))
                &&& ms.words@[word_slot(argv_base, n)] == 0
                &&& forall|k: int, j: int| #![trigger byte_slot(seqs, top, k, j)]
                    0 <= k < n && 0 <= j <= seqs[k].len() ==> ms.bytes@.contains_key(
                        byte_slot(seqs, top, k, j),
                    ) && ms.bytes@[byte_slot(seqs, top, k, j)] == (if j < seqs[k].len() {
                        seqs[k][j]
                    } else {
                        0u8
                    })
            }),
            final(self).inner == (ProcessControlBlockInner {
                memory_set: final(self).inner.memory_set,
                tasks: final(self).inner.tasks,
                ..old(self).inner
            }),
    {
        let ghost seqs = args@.map_values(|v: Vec<u8>| v@);
        let n = args.len();
        let top = image.ustack_base + USER_STACK_SIZE;
        self.inner.memory_set = AddressSpace::from_image(image);
        proof {
            lemma_arg_layout(seqs, top as int, n as int);
            assert(args_block_size(seqs, 0) == 0);
        }
        let argv_base = top - WORD_SIZE * (n + 1);
        self.inner.memory_set.write_word(argv_base + WORD_SIZE * n, 0);
        proof {
            assert(word_slot(argv_base as int, n as int) == (argv_base + WORD_SIZE * n) as usize);
        }
        let mut user_sp = argv_base;
        let mut i: usize = 0;
        while i < n
            invariant
                n == args@.len(),
                seqs == args@.map_values(|v: Vec<u8>| v@),
                top == image.ustack_base + USER_STACK_SIZE,
                top <= usize::MAX,
                WORD_SIZE * (n + 1) + args_block_size(seqs, n as int) <= top,
                argv_base == spec_argv_base(top as int, n as int),
                i <= n,
                user_sp == argv_base - args_block_size(seqs, i as int),
                self.inner.memory_set.token == image.token,
                self.inner.memory_set.entry_point == image.entry_point,
                self.inner.memory_set.ustack_base == image.ustack_base,
                self.inner.memory_set.heap_bottom == image.brk_init,
                self.inner.memory_set.program_brk == image.brk_init,
                self.inner.memory_set.areas@.len() == 0,
                self.inner.memory_set.ints@ == Map::<usize, i32>::empty(),
                self.inner.memory_set.wf(),
                self.inner.memory_set.words@.contains_key(word_slot(argv_base as int, n as int)),
                self.inner.memory_set.words@[word_slot(argv_base as int, n as int)] == 0,
                forall|k: int| #![trigger word_slot(argv_base as int, k)]
                    0 <= k < i ==> self.inner.memory_set.words@.contains_key(
                        word_slot(argv_base as int, k),
                    ) && self.inner.memory_set.words@[word_slot(argv_base as int, k)]
                        == spec_arg_addr(seqs, top as int, k),
                forall|k: int, t: int| #![trigger byte_slot(seqs, top as int, k, t)]
                    0 <= k < i && 0 <= t <= seqs[k].len()
                        ==> self.inner.memory_set.bytes@.contains_key(
                        byte_slot(seqs, top as int, k, t),
                    ) && self.inner.memory_set.bytes@[byte_slot(seqs, top as int, k, t)] == (if t
                        < seqs[k].len() {
                        seqs[k][t]
                    } else {
                        0u8
                    }),
                *old(self) == (ProcessControlBlock {
                    inner: (ProcessControlBlockInner {
                        memory_set: old(self).inner.memory_set,
                        ..self.inner
                    }),
                    ..*self
                }),
                self.pid == old(self).pid,
            decreases n - i,
        {
            proof {
                lemma_arg_layout(seqs, top as int, n as int);
                lemma_args_block_size_mono(seqs, 0, i as int);
                lemma_args_block_size_mono(seqs, i + 1, n as int);
                assert(args_block_size(seqs, i + 1) == args_block_size(seqs, i as int)
                    + seqs[i as int].len() + 1);
                assert(seqs[i as int] == args@[i as int]@);
                assert(0 <= spec_arg_addr(seqs, top as int, i as int));
            }
            let arg = &args[i];
            user_sp = user_sp - (arg.len() + 1);
            proof {
                assert(user_sp == spec_arg_addr(seqs, top as int, i as int));
            }
            let ghost msw = self.inner.memory_set;
            self.inner.memory_set.write_word(argv_base + WORD_SIZE * i, user_sp);
            proof {
                assert(self.inner.memory_set.bytes@ == msw.bytes@);
                assert(self.inner.memory_set.words@ == msw.words@.insert(
                    (argv_base + WORD_SIZE * i) as usize,
                    user_sp,
                ));
                assert((argv_base + WORD_SIZE * i) as usize == word_slot(
                    argv_base as int,
                    i as int,
                ));
                assert forall|k: int| #![trigger word_slot(argv_base as int, k)]
                    0 <= k <= i implies self.inner.memory_set.words@.contains_key(
                        word_slot(argv_base as int, k),
                    ) && self.inner.memory_set.words@[word_slot(argv_base as int, k)]
                        == spec_arg_addr(seqs, top as int, k) by {
                    if k < i {
                        assert(argv_base + WORD_SIZE * k < argv_base + WORD_SIZE * (i as int));
                        assert(word_slot(argv_base as int, k) != word_slot(
                            argv_base as int,
                            i as int,
                        ));
                    }
                }
                assert(word_slot(argv_base as int, n as int) != word_slot(
                    argv_base as int,
                    i as int,
                ));
            }
            let mut j: usize = 0;
            while j < arg.len()
                invariant
                    n == args@.len(),
                    i < n,
                    seqs == args@.map_values(|v: Vec<u8>| v@),
                    arg@ == seqs[i as int],
                    top == image.ustack_base + USER_STACK_SIZE,
                    top <= usize::MAX,
                    WORD_SIZE * (n + 1) + args_block_size(seqs, n as int) <= top,
                    argv_base == spec_argv_base(top as int, n as int),
                    user_sp == spec_arg_addr(seqs, top as int, i as int),
                    0 <= user_sp,
                    user_sp + arg@.len() + 1 <= argv_base,
                    j <= arg@.len(),
                    self.inner.memory_set.token == image.token,
                    self.inner.memory_set.entry_point == image.entry_point,
                    self.inner.memory_set.ustack_base == image.ustack_base,
                    self.inner.memory_set.heap_bottom == image.brk_init,
                    self.inner.memory_set.program_brk == image.brk_init,
                    self.inner.memory_set.areas@.len() == 0,
                    self.inner.memory_set.ints@ == Map::<usize, i32>::empty(),
                    self.inner.memory_set.wf(),
                    self.inner.memory_set.words@.contains_key(
                        word_slot(argv_base as int, n as int),
                    ),
                    self.inner.memory_set.words@[word_slot(argv_base as int, n as int)] == 0,
                    forall|k: int| #![trigger word_slot(argv_base as int, k)]
                        0 <= k <= i ==> self.inner.memory_set.words@.contains_key(
                            word_slot(argv_base as int, k),
                        ) && self.inner.memory_set.words@[word_slot(argv_base as int, k)]
                            == spec_arg_addr(seqs, top as int, k),
                    forall|k: int, t: int| #![trigger byte_slot(seqs, top as int, k, t)]
                        0 <= k < i && 0 <= t <= seqs[k].len()
                            ==> self.inner.memory_set.bytes@.contains_key(
                            byte_slot(seqs, top as int, k, t),
                        ) && self.inner.memory_set.bytes@[byte_slot(seqs, top as int, k, t)] == (
                        if t < seqs[k].len() {
                            seqs[k][t]
                        } else {
                            0u8
                        }),
                    forall|t: int| #![trigger byte_slot(seqs, top as int, i as int, t)]
                        0 <= t < j ==> self.inner.memory_set.bytes@.contains_key(
                            byte_slot(seqs, top as int, i as int, t),
                        ) && self.inner.memory_set.bytes@[byte_slot(seqs, top as int, i as int, t)]
                            == seqs[i as int][t],
                    *old(self) == (ProcessControlBlock {
                        inner: (ProcessControlBlockInner {
                            memory_set: old(self).inner.memory_set,
                            ..self.inner
                        }),
                        ..*self
                    }),
                    self.pid == old(self).pid,
                decreases arg@.len() - j,
            {
                proof {
                    lemma_arg_layout(seqs, top as int, n as int);
                }
                let b = arg[j];
                let ghost ms0 = self.inner.memory_set;
                self.inner.memory_set.write_byte(user_sp + j, b);
                proof {
                    assert(self.inner.memory_set.words@ == ms0.words@);
                    assert(self.inner.memory_set.bytes@ == ms0.bytes@.insert(
                        (user_sp + j) as usize,
                        b,
                    ));
                    assert((user_sp + j) as usize == byte_slot(
                        seqs,
                        top as int,
                        i as int,
                        j as int,
                    ));
                    assert forall|k: int, t: int| #![trigger byte_slot(seqs, top as int, k, t)]
                        0 <= k < i && 0 <= t <= seqs[k].len()
                            implies self.inner.memory_set.bytes@.contains_key(
                            byte_slot(seqs, top as int, k, t),
                        ) && self.inner.memory_set.bytes@[byte_slot(seqs, top as int, k, t)] == (
                        if t < seqs[k].len() {
                            seqs[k][t]
                        } else {
                            0u8
                        }) by {
                        let addrk = spec_arg_addr(seqs, top as int, k);
                        assert(spec_arg_addr(seqs, top as int, i as int) + seqs[i as int].len() + 1
                            <= addrk);
                        assert(0 <= addrk);
                        assert(addrk + seqs[k].len() + 1 <= top);
                        assert(byte_slot(seqs, top as int, k, t) != byte_slot(
                            seqs,
                            top as int,
                            i as int,
                            j as int,
                        ));
                    }
                    assert forall|t: int| #![trigger byte_slot(seqs, top as int, i as int, t)]
                        0 <= t < j + 1 implies self.inner.memory_set.bytes@.contains_key(
                            byte_slot(seqs, top as int, i as int, t),
                        ) && self.inner.memory_set.bytes@[byte_slot(seqs, top as int, i as int, t)]
                            == seqs[i as int][t] by {
                        if t < j {
                            assert(byte_slot(seqs, top as int, i as int, t) != byte_slot(
                                seqs,
                                top as int,
                                i as int,
                                j as int,
                            ));
                        }
                    }
                }
                j = j + 1;
            }
            proof {
                lemma_arg_layout(seqs, top as int, n as int);
            }
            let ghost ms1 = self.inner.memory_set;
            self.inner.memory_set.write_byte(user_sp + arg.len(), 0);
            proof {
                assert(self.inner.memory_set.words@ == ms1.words@);
                assert(self.inner.memory_set.bytes@ == ms1.bytes@.insert(
                    (user_sp + arg.len()) as usize,
                    0u8,
                ));
                assert((user_sp + arg.len()) as usize == byte_slot(
                    seqs,
                    top as int,
                    i as int,
                    seqs[i as int].len() as int,
                ));
                assert forall|k: int, t: int| #![trigger byte_slot(seqs, top as int, k, t)]
                    0 <= k < i + 1 && 0 <= t <= seqs[k].len()
                        implies self.inner.memory_set.bytes@.contains_key(
                        byte_slot(seqs, top as int, k, t),
                    ) && self.inner.memory_set.bytes@[byte_slot(seqs, top as int, k, t)] == (if t
                        < seqs[k].len() {
                        seqs[k][t]
                    } else {
                        0u8
                    }) by {
                    let addrk = spec_arg_addr(seqs, top as int, k);
                    assert(0 <= addrk);
                    assert(addrk + seqs[k].len() + 1 <= top);
                    if k < i {
                        assert(spec_arg_addr(seqs, top as int, i as int) + seqs[i as int].len() + 1
                            <= addrk);
                        assert(byte_slot(seqs, top as int, k, t) != byte_slot(
                            seqs,
                            top as int,
                            i as int,
                            seqs[i as int].len() as int,
                        ));
                    } else {
                        if t < seqs[i as int].len() {
                            assert(byte_slot(seqs, top as int, k, t) != byte_slot(
                                seqs,
                                top as int,
                                i as int,
                                seqs[i as int].len() as int,
                            ));
                        }
                    }
                }
                assert(args_block_size(seqs, i + 1) == args_block_size(seqs, i as int)
                    + seqs[i as int].len() + 1);
            }
            i = i + 1;
        }
        proof {
            lemma_arg_layout(seqs, top as int, n as int);
            if n > 0 {
                assert(args_block_size(seqs, n as int) == args_block_size(seqs, n - 1)
                    + seqs[n - 1].len() + 1);
            }
            assert(user_sp == spec_arg_addr(seqs, top as int, n as int - 1));
        }
        let aligned_sp = user_sp - user_sp % WORD_SIZE;
        let mut trap_cx = TrapContext::app_init_context(image.entry_point, aligned_sp, 0, 0, 0);
        trap_cx.a0 = n;
        trap_cx.a1 = argv_base;
        let slot = &mut self.inner.tasks[0];
        match slot {
            Some(t) => {
                t.trap_cx = trap_cx;
            },
            None => {},
        }
    }
}

} // verus!
