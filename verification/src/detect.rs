//! Deadlock detection: resource-allocation bookkeeping and the Banker's
//! safety algorithm.
//!
//! A detector keeps three accounts per process: `available[r]` units of
//! resource `r` not currently allocated, `allocation[t][r]` units held by
//! thread `t`, and `need[t][r]` units thread `t` has declared it may still
//! request. `detect` runs the classic safety scan: starting from
//! `work = available`, repeatedly finish any thread whose remaining need
//! fits into `work` and fold its allocation back in; the state is safe
//! iff every thread can be finished. All mutators are no-ops while
//! detection is disabled, and `detect` then reports safe unconditionally.

use vstd::prelude::*;
use crate::config::{MAX_DETECT_RESOURCES, MAX_DETECT_THREADS};

verus! {

/// One unit more than the largest magnitude an `i32` entry can have.
pub const ENTRY_BOUND: i64 = 2147483648;

/// Fixed number of thread and resource slots of a semaphore detector.
pub const SEM_DETECT_SLOTS: usize = 5;

/// A row of `i32` cells as unbounded integers.
pub open spec fn ints_of(s: Seq<i32>) -> Seq<int> {
    s.map_values(|x: i32| x as int)
}

/// A row of `i64` cells as unbounded integers.
pub open spec fn ints_of64(s: Seq<i64>) -> Seq<int> {
    s.map_values(|x: i64| x as int)
}

/// A matrix of `i32` cells as unbounded integers.
pub open spec fn mat_of(m: Seq<Vec<i32>>) -> Seq<Seq<int>> {
    m.map_values(|v: Vec<i32>| ints_of(v@))
}

/// Entrywise `a <= b` over the length of `a`.
pub open spec fn row_le(a: Seq<int>, b: Seq<int>) -> bool {
    forall|j: int| 0 <= j < a.len() ==> a[j] <= b[j]
}

/// Entrywise sum over the length of `a`.
pub open spec fn row_add(a: Seq<int>, b: Seq<int>) -> Seq<int> {
    Seq::new(a.len(), |j: int| a[j] + b[j])
}

/// One pass of the safety scan from thread `i` upward: each unfinished
/// thread whose need fits into the current work is finished and its
/// allocation folded back into work, in thread order.
pub open spec fn pass_from(
    alloc: Seq<Seq<int>>,
    need: Seq<Seq<int>>,
    work: Seq<int>,
    finish: Seq<bool>,
    i: int,
) -> (Seq<int>, Seq<bool>)
    decreases alloc.len() - i,
{
    if i < 0 || i >= alloc.len() {
        (work, finish)
    } else if !finish[i] && row_le(need[i], work) {
        pass_from(alloc, need, row_add(work, alloc[i]), finish.update(i, true), i + 1)
    } else {
        pass_from(alloc, need, work, finish, i + 1)
    }
}

/// The state after `k` full passes of the safety scan.
pub open spec fn run_passes(
    alloc: Seq<Seq<int>>,
    need: Seq<Seq<int>>,
    work: Seq<int>,
    finish: Seq<bool>,
    k: int,
) -> (Seq<int>, Seq<bool>)
    decreases k,
{
    if k <= 0 {
        (work, finish)
    } else {
        let s = run_passes(alloc, need, work, finish, k - 1);
        pass_from(alloc, need, s.0, s.1, 0)
    }
}

/// The Banker's safety condition: after as many passes as there are
/// threads (by then the scan has stabilized, since each useful pass
/// finishes at least one thread), every thread is finished.
pub open spec fn banker_safe(avail: Seq<int>, alloc: Seq<Seq<int>>, need: Seq<Seq<int>>) -> bool {
    let n = alloc.len() as int;
    let s = run_passes(alloc, need, avail, Seq::new(alloc.len(), |i: int| false), n);
    forall|i: int| 0 <= i < alloc.len() ==> s.1[i]
}

/// How many threads are finished.
pub open spec fn count_true(f: Seq<bool>) -> int
    decreases f.len(),
{
    if f.len() == 0 {
        0
    } else {
        count_true(f.drop_last()) + if f.last() {
            1int
        } else {
            0int
        }
    }
}

proof fn lemma_count_true_all_false(f: Seq<bool>)
    requires
        forall|i: int| 0 <= i < f.len() ==> !f[i],
    ensures
        count_true(f) == 0,
    decreases f.len(),
{
    if f.len() > 0 {
        lemma_count_true_all_false(f.drop_last());
    }
}

proof fn lemma_count_true_le_len(f: Seq<bool>)
    ensures
        0 <= count_true(f) <= f.len(),
    decreases f.len(),
{
    if f.len() > 0 {
        lemma_count_true_le_len(f.drop_last());
    }
}

proof fn lemma_count_true_update(f: Seq<bool>, i: int)
    requires
        0 <= i < f.len(),
        !f[i],
    ensures
        count_true(f.update(i, true)) == count_true(f) + 1,
    decreases f.len(),
{
    let g = f.update(i, true);
    if i == f.len() - 1 {
        assert(g.drop_last() =~= f.drop_last());
    } else {
        assert(g.drop_last() =~= f.drop_last().update(i, true));
        lemma_count_true_update(f.drop_last(), i);
    }
}

proof fn lemma_count_true_pointwise_le(f: Seq<bool>, g: Seq<bool>)
    requires
        f.len() == g.len(),
        forall|t: int| 0 <= t < f.len() && f[t] ==> g[t],
    ensures
        count_true(f) <= count_true(g),
    decreases f.len(),
{
    if f.len() > 0 {
        lemma_count_true_pointwise_le(f.drop_last(), g.drop_last());
    }
}

proof fn lemma_pass_from_shape(
    alloc: Seq<Seq<int>>,
    need: Seq<Seq<int>>,
    work: Seq<int>,
    finish: Seq<bool>,
    i: int,
)
    requires
        alloc.len() <= finish.len(),
    ensures
        pass_from(alloc, need, work, finish, i).1.len() == finish.len(),
        pass_from(alloc, need, work, finish, i).0.len() == work.len(),
        forall|t: int|
            0 <= t < finish.len() && finish[t] ==> pass_from(alloc, need, work, finish, i).1[t],
    decreases alloc.len() - i,
{
    reveal_with_fuel(pass_from, 2);
    if 0 <= i < alloc.len() {
        if !finish[i] && row_le(need[i], work) {
            let w1 = row_add(work, alloc[i]);
            let f1 = finish.update(i, true);
            lemma_pass_from_shape(alloc, need, w1, f1, i + 1);
            assert(pass_from(alloc, need, work, finish, i) == pass_from(alloc, need, w1, f1, i + 1));
            assert forall|t: int|
                0 <= t < finish.len() && finish[t] implies pass_from(
                alloc,
                need,
                work,
                finish,
                i,
            ).1[t] by {
                assert(f1[t]);
            }
        } else {
            lemma_pass_from_shape(alloc, need, work, finish, i + 1);
            assert(pass_from(alloc, need, work, finish, i) == pass_from(
                alloc,
                need,
                work,
                finish,
                i + 1,
            ));
        }
    }
}

proof fn lemma_pass_from_progress(
    alloc: Seq<Seq<int>>,
    need: Seq<Seq<int>>,
    work: Seq<int>,
    finish: Seq<bool>,
    i: int,
)
    requires
        alloc.len() <= finish.len(),
    ensures
        pass_from(alloc, need, work, finish, i) == (work, finish) || count_true(
            pass_from(alloc, need, work, finish, i).1,
        ) > count_true(finish),
    decreases alloc.len() - i,
{
    if 0 <= i < alloc.len() {
        if !finish[i] && row_le(need[i], work) {
            let f1 = finish.update(i, true);
            lemma_count_true_update(finish, i);
            lemma_pass_from_shape(alloc, need, row_add(work, alloc[i]), f1, i + 1);
            lemma_count_true_pointwise_le(
                f1,
                pass_from(alloc, need, row_add(work, alloc[i]), f1, i + 1).1,
            );
        } else {
            lemma_pass_from_progress(alloc, need, work, finish, i + 1);
        }
    }
}

proof fn lemma_run_passes_commute(
    alloc: Seq<Seq<int>>,
    need: Seq<Seq<int>>,
    work: Seq<int>,
    finish: Seq<bool>,
    k: int,
)
    requires
        k >= 1,
    ensures
        run_passes(alloc, need, work, finish, k) == ({
            let s = pass_from(alloc, need, work, finish, 0);
            run_passes(alloc, need, s.0, s.1, k - 1)
        }),
    decreases k,
{
    let s = pass_from(alloc, need, work, finish, 0);
    if k == 1 {
        assert(run_passes(alloc, need, work, finish, 1) == pass_from(
            alloc,
            need,
            run_passes(alloc, need, work, finish, 0).0,
            run_passes(alloc, need, work, finish, 0).1,
            0,
        ));
        assert(run_passes(alloc, need, work, finish, 0) == (work, finish));
        assert(run_passes(alloc, need, s.0, s.1, 0) == s);
    } else {
        lemma_run_passes_commute(alloc, need, work, finish, k - 1);
        assert(run_passes(alloc, need, work, finish, k) == pass_from(
            alloc,
            need,
            run_passes(alloc, need, work, finish, k - 1).0,
            run_passes(alloc, need, work, finish, k - 1).1,
            0,
        ));
        assert(run_passes(alloc, need, s.0, s.1, k - 1) == pass_from(
            alloc,
            need,
            run_passes(alloc, need, s.0, s.1, k - 2).0,
            run_passes(alloc, need, s.0, s.1, k - 2).1,
            0,
        ));
    }
}

proof fn lemma_run_passes_of_fixpoint(
    alloc: Seq<Seq<int>>,
    need: Seq<Seq<int>>,
    work: Seq<int>,
    finish: Seq<bool>,
    k: int,
)
    requires
        k >= 0,
        pass_from(alloc, need, work, finish, 0) == (work, finish),
    ensures
        run_passes(alloc, need, work, finish, k) == (work, finish),
    decreases k,
{
    if k > 0 {
        lemma_run_passes_of_fixpoint(alloc, need, work, finish, k - 1);
    }
}

proof fn lemma_run_passes_reaches_fixpoint(
    alloc: Seq<Seq<int>>,
    need: Seq<Seq<int>>,
    work: Seq<int>,
    finish: Seq<bool>,
    k: int,
)
    requires
        alloc.len() <= finish.len(),
        count_true(finish) + k >= finish.len(),
        k >= 0,
    ensures
        ({
            let s = run_passes(alloc, need, work, finish, k);
            pass_from(alloc, need, s.0, s.1, 0) == s
        }),
    decreases k,
{
    let p = pass_from(alloc, need, work, finish, 0);
    lemma_pass_from_progress(alloc, need, work, finish, 0);
    if p == (work, finish) {
        lemma_run_passes_of_fixpoint(alloc, need, work, finish, k);
    } else {
        lemma_pass_from_shape(alloc, need, work, finish, 0);
        if k == 0 {
            lemma_count_true_le_len(p.1);
            assert(false);
        } else {
            lemma_run_passes_commute(alloc, need, work, finish, k);
            lemma_run_passes_reaches_fixpoint(alloc, need, p.0, p.1, k - 1);
        }
    }
}

/// Running the safety scan for as many passes as there are threads is
/// already stable: any further pass leaves the state unchanged, so the
/// bounded scan and "repeat until no further thread can be marked"
/// reach the same verdict.
pub proof fn lemma_run_passes_stable(
    alloc: Seq<Seq<int>>,
    need: Seq<Seq<int>>,
    avail: Seq<int>,
    k: int,
)
    requires
        k >= alloc.len(),
    ensures
        run_passes(alloc, need, avail, Seq::new(alloc.len(), |i: int| false), k) == run_passes(
            alloc,
            need,
            avail,
            Seq::new(alloc.len(), |i: int| false),
            alloc.len() as int,
        ),
    decreases k,
{
    let n = alloc.len() as int;
    let f0 = Seq::new(alloc.len(), |i: int| false);
    if k > n {
        lemma_run_passes_stable(alloc, need, avail, k - 1);
        lemma_count_true_all_false(f0);
        lemma_run_passes_reaches_fixpoint(alloc, need, avail, f0, n);
        let s = run_passes(alloc, need, avail, f0, n);
        assert(run_passes(alloc, need, avail, f0, k) == pass_from(
            alloc,
            need,
            run_passes(alloc, need, avail, f0, k - 1).0,
            run_passes(alloc, need, avail, f0, k - 1).1,
            0,
        ));
    }
}

/// Shape of a detector's account: the two matrices have one row per
/// tracked thread and one column per resource, within the global caps.
pub open spec fn accounts_wf(avail: Seq<i32>, alloc: Seq<Vec<i32>>, need: Seq<Vec<i32>>) -> bool {
    &&& avail.len() <= MAX_DETECT_RESOURCES
    &&& alloc.len() <= need.len()
    &&& need.len() <= MAX_DETECT_THREADS
    &&& forall|i: int| 0 <= i < alloc.len() ==> alloc[i]@.len() == avail.len()
    &&& forall|i: int| 0 <= i < need.len() ==> need[i]@.len() == avail.len()
}

/// Entrywise `need_row <= work`, over the row's length.
fn row_le_exec(need_row: &Vec<i32>, work: &Vec<i64>) -> (r: bool)
    requires
        need_row@.len() == work@.len(),
    ensures
        r == row_le(ints_of(need_row@), ints_of64(work@)),
{
    let mut j: usize = 0;
    while j < need_row.len()
        invariant
            j <= need_row@.len(),
            need_row@.len() == work@.len(),
            forall|t: int| 0 <= t < j ==> ints_of(need_row@)[t] <= ints_of64(work@)[t],
        decreases need_row@.len() - j,
    {
        if (need_row[j] as i64) > work[j] {
            proof {
                assert(ints_of(need_row@)[j as int] == need_row@[j as int] as int);
                assert(ints_of64(work@)[j as int] == work@[j as int] as int);
            }
            return false;
        }
        j = j + 1;
    }
    true
}

/// Fold an allocation row into the work vector.
fn row_add_exec(work: &mut Vec<i64>, alloc_row: &Vec<i32>)
    requires
        old(work)@.len() == alloc_row@.len(),
        forall|j: int|
            0 <= j < old(work)@.len() ==> -0x2000000000000000int <= #[trigger] old(work)@[j]
                <= 0x2000000000000000int,
    ensures
        ints_of64(final(work)@) == row_add(ints_of64(old(work)@), ints_of(alloc_row@)),
        final(work)@.len() == old(work)@.len(),
{
    let mut j: usize = 0;
    while j < alloc_row.len()
        invariant
            j <= alloc_row@.len(),
            work@.len() == alloc_row@.len(),
            forall|t: int| j <= t < work@.len() ==> work@[t] == old(work)@[t],
            forall|t: int|
                0 <= t < j ==> work@[t] == old(work)@[t] + alloc_row@[t],
            forall|t: int|
                0 <= t < work@.len() ==> -0x2000000000000000int <= #[trigger] old(work)@[t]
                    <= 0x2000000000000000int,
        decreases alloc_row@.len() - j,
    {
        let w = work[j];
        work.set(j, w + alloc_row[j] as i64);
        j = j + 1;
    }
    proof {
        assert(ints_of64(work@) =~= row_add(ints_of64(old(work)@), ints_of(alloc_row@)));
    }
}

/// Run the safety scan over the given accounts and report whether every
/// thread can finish.
pub fn banker_check(available: &Vec<i32>, allocation: &Vec<Vec<i32>>, need: &Vec<Vec<i32>>) -> (r:
    bool)
    requires
        accounts_wf(available@, allocation@, need@),
    ensures
        r == banker_safe(ints_of(available@), mat_of(allocation@), mat_of(need@)),
{
    let ghost am = mat_of(allocation@);
    let ghost nm = mat_of(need@);
    let ghost w0 = ints_of(available@);
    let n = allocation.len();
    let m = available.len();

    let mut work: Vec<i64> = Vec::new();
    let mut j: usize = 0;
    while j < m
        invariant
            j <= m,
            m == available@.len(),
            work@.len() == j,
            forall|t: int| 0 <= t < j ==> work@[t] == available@[t] as i64,
        decreases m - j,
    {
        work.push(available[j] as i64);
        j = j + 1;
    }
    let mut finish: Vec<bool> = Vec::new();
    let mut t: usize = 0;
    while t < n
        invariant
            t <= n,
            finish@.len() == t,
            forall|u: int| 0 <= u < t ==> !finish@[u],
        decreases n - t,
    {
        finish.push(false);
        t = t + 1;
    }
    let ghost f0 = Seq::new(am.len(), |i: int| false);
    proof {
        assert(finish@ =~= f0);
        assert(ints_of64(work@) =~= w0);
        assert(run_passes(am, nm, w0, f0, 0) == (w0, f0));
        lemma_count_true_all_false(f0);
        assert forall|t: int| 0 <= t < m implies w0[t] - count_true(finish@) * ENTRY_BOUND
            <= #[trigger] ints_of64(work@)[t] <= w0[t] + count_true(finish@) * ENTRY_BOUND by {
            assert(ints_of64(work@)[t] == work@[t] as int);
        }
    }

    let mut p: usize = 0;
    while p < n
        invariant
            p <= n,
            n == allocation@.len(),
            m == available@.len(),
            am == mat_of(allocation@),
            nm == mat_of(need@),
            w0 == ints_of(available@),
            accounts_wf(available@, allocation@, need@),
            work@.len() == m,
            finish@.len() == n,
            (ints_of64(work@), finish@) == run_passes(am, nm, w0, f0, p as int),
            forall|t: int|
                0 <= t < m ==> w0[t] - count_true(finish@) * ENTRY_BOUND <= #[trigger] ints_of64(
                    work@,
                )[t] <= w0[t] + count_true(finish@) * ENTRY_BOUND,
        decreases n - p,
    {
        let ghost wp = ints_of64(work@);
        let ghost fp = finish@;
        let mut i: usize = 0;
        while i < n
            invariant
                i <= n,
                n == allocation@.len(),
                m == available@.len(),
                am == mat_of(allocation@),
                nm == mat_of(need@),
                w0 == ints_of(available@),
                accounts_wf(available@, allocation@, need@),
                work@.len() == m,
                finish@.len() == n,
                pass_from(am, nm, wp, fp, 0) == pass_from(am, nm, ints_of64(work@), finish@, i as int),
                forall|t: int|
                    0 <= t < m ==> w0[t] - count_true(finish@) * ENTRY_BOUND <= #[trigger] ints_of64(
                        work@,
                    )[t] <= w0[t] + count_true(finish@) * ENTRY_BOUND,
            decreases n - i,
        {
            if !finish[i] {
                let can = row_le_exec(&need[i], &work);
                if can {
    proof {
                        lemma_count_true_le_len(finish@);
                        lemma_count_true_update(finish@, i as int);
                        assert(count_true(finish@) <= MAX_DETECT_THREADS);
                        assert forall|t: int| 0 <= t < work@.len()
                            implies -0x2000000000000000int <= #[trigger] work@[t]
                            <= 0x2000000000000000int by {
                            assert(ints_of64(work@)[t] == work@[t] as int);
                            assert(w0[t] == available@[t] as int);
                        }
                    }
                    let ghost w_before = ints_of64(work@);
                    let ghost f_before = finish@;
                    row_add_exec(&mut work, &allocation[i]);
                    finish.set(i, true);
                    proof {
                        assert(nm[i as int] == ints_of(need@[i as int]@));
                        assert(am[i as int] == ints_of(allocation@[i as int]@));
                        assert(pass_from(am, nm, w_before, f_before, i as int) == pass_from(
                            am,
                            nm,
                            row_add(w_before, am[i as int]),
                            f_before.update(i as int, true),
                            i + 1,
                        ));
                        assert(finish@ == f_before.update(i as int, true));
                    }
                } else {
                    proof {
                        assert(pass_from(am, nm, ints_of64(work@), finish@, i as int) == pass_from(
                            am,
                            nm,
                            ints_of64(work@),
                            finish@,
                            i + 1,
                        ));
                    }
                }
            } else {
                proof {
                    assert(pass_from(am, nm, ints_of64(work@), finish@, i as int) == pass_from(
                        am,
                        nm,
                        ints_of64(work@),
                        finish@,
                        i + 1,
                    ));
                }
            }
            i = i + 1;
        }
        proof {
            assert(pass_from(am, nm, ints_of64(work@), finish@, n as int) == (
                ints_of64(work@),
                finish@,
            ));
            assert(run_passes(am, nm, w0, f0, p + 1) == pass_from(am, nm, wp, fp, 0));
        }
        p = p + 1;
    }

    let mut all: bool = true;
    let mut i: usize = 0;
    while i < n
        invariant
            i <= n,
            finish@.len() == n,
            all == (forall|t: int| 0 <= t < i ==> finish@[t]),
        decreases n - i,
    {
        if !finish[i] {
            all = false;
        }
        i = i + 1;
    }
    proof {
        assert((ints_of64(work@), finish@) == run_passes(am, nm, w0, f0, n as int));
        assert(am.len() == allocation@.len());
        assert(Seq::new(am.len(), |i: int| false) =~= f0);
        let s = run_passes(am, nm, w0, Seq::new(am.len(), |i: int| false), am.len() as int);
        assert(s.1 == finish@);
    }
    all
}


/// Per-process deadlock detector for mutual-exclusion resources.
///
/// Created with a configured number of resource slots, each holding one
/// unit; thread rows are appended as threads declare themselves.
pub struct MutexDeadlockDetect {
    /// whether deadlock detection is enabled for this process
    pub deadlock_detect: bool,
    /// units of each resource not currently allocated
    pub available: Vec<i32>,
    /// units of each resource held, per thread
    pub allocation: Vec<Vec<i32>>,
    /// units of each resource still possibly requested, per thread
    pub need: Vec<Vec<i32>>,
}

impl MutexDeadlockDetect {
    /// The accounts have consistent shape.
    pub open spec fn wf(self) -> bool {
        accounts_wf(self.available@, self.allocation@, self.need@)
    }

    /// The available units as unbounded integers.
    pub open spec fn avail_ints(self) -> Seq<int> {
        ints_of(self.available@)
    }

    /// The allocation matrix as unbounded integers.
    pub open spec fn alloc_ints(self) -> Seq<Seq<int>> {
        mat_of(self.allocation@)
    }

    /// The need matrix as unbounded integers.
    pub open spec fn need_ints(self) -> Seq<Seq<int>> {
        mat_of(self.need@)
    }

    /// A detector with `n + 1` resource slots of one available unit each,
    /// no thread rows yet, and detection disabled.
    pub fn new(n: usize) -> (r: MutexDeadlockDetect)
        requires
            n < MAX_DETECT_RESOURCES,
        ensures
            r.wf(),
            !r.deadlock_detect,
            r.avail_ints() =~= Seq::new((n + 1) as nat, |j: int| 1int),
            r.allocation@.len() == 0,
            r.need@.len() == 0,
    {
        let slots = n + 1;
        let mut available: Vec<i32> = Vec::new();
        let mut j: usize = 0;
        while j < slots
            invariant
                slots == n + 1,
                j <= slots,
                available@.len() == j,
                forall|t: int| 0 <= t < j ==> available@[t] == 1i32,
            decreases slots - j,
        {
            available.push(1);
            j = j + 1;
        }
        MutexDeadlockDetect { deadlock_detect: false, available, allocation: Vec::new(), need: Vec::new() }
    }

    /// Enable deadlock detection.
    pub fn open(&mut self)
        ensures
            *final(self) == (MutexDeadlockDetect { deadlock_detect: true, ..*old(self) }),
    {
        self.deadlock_detect = true;
    }

    /// Disable deadlock detection.
    pub fn close(&mut self)
        ensures
            *final(self) == (MutexDeadlockDetect { deadlock_detect: false, ..*old(self) }),
    {
        self.deadlock_detect = false;
    }

    /// Remove `num` units of `resource` from the available pool; a no-op
    /// while detection is disabled.
    pub fn consume_resource(&mut self, resource: usize, num: usize)
        requires
            old(self).wf(),
            old(self).deadlock_detect ==> {
                &&& resource < old(self).available@.len()
                &&& num <= i32::MAX
                &&& i32::MIN <= old(self).avail_ints()[resource as int] - num
            },
        ensures
            final(self).wf(),
            !old(self).deadlock_detect ==> *final(self) == *old(self),
            old(self).deadlock_detect ==> {
                &&& final(self).avail_ints() == old(self).avail_ints().update(
                    resource as int,
                    old(self).avail_ints()[resource as int] - num,
                )
                &&& final(self).allocation@ == old(self).allocation@
                &&& final(self).need@ == old(self).need@
                &&& final(self).deadlock_detect
            },
    {
        if !self.deadlock_detect {
            return;
        }
        let v = self.available[resource];
        self.available.set(resource, v - num as i32);
        proof {
            assert(final(self).avail_ints() =~= old(self).avail_ints().update(
                resource as int,
                old(self).avail_ints()[resource as int] - num,
            ));
        }
    }

    /// Record the units of each resource thread `task` holds: a new row
    /// for the next thread, or a replacement of the last row; a no-op
    /// while detection is disabled.
    pub fn allocate_resource(&mut self, task: usize, resource: Vec<i32>)
        requires
            old(self).wf(),
            old(self).deadlock_detect ==> {
                &&& resource@.len() == old(self).available@.len()
                &&& (task == old(self).allocation@.len() && old(self).allocation@.len() < old(
                    self,
                ).need@.len()) || (old(self).allocation@.len() > 0 && task == old(
                    self,
                ).allocation@.len() - 1)
            },
        ensures
            final(self).wf(),
            !old(self).deadlock_detect ==> *final(self) == *old(self),
            old(self).deadlock_detect && task == old(self).allocation@.len() ==> {
                &&& final(self).alloc_ints() == old(self).alloc_ints().push(ints_of(resource@))
                &&& final(self).available@ == old(self).available@
                &&& final(self).need@ == old(self).need@
                &&& final(self).deadlock_detect
            },
            old(self).deadlock_detect && task < old(self).allocation@.len() ==> {
                &&& final(self).alloc_ints() == old(self).alloc_ints().update(
                    task as int,
                    ints_of(resource@),
                )
                &&& final(self).available@ == old(self).available@
                &&& final(self).need@ == old(self).need@
                &&& final(self).deadlock_detect
            },
    {
        if !self.deadlock_detect {
            return;
        }
        if task >= self.allocation.len() {
            self.allocation.push(resource);
            proof {
                assert(final(self).alloc_ints() =~= old(self).alloc_ints().push(
                    ints_of(resource@),
                ));
            }
        } else {
            self.allocation[task] = resource;
            proof {
                assert(final(self).alloc_ints() =~= old(self).alloc_ints().update(
                    task as int,
                    ints_of(resource@),
                ));
            }
        }
    }

    /// Record the units of each resource thread `task` may still request:
    /// a new row for the next thread, or a replacement; a no-op while
    /// detection is disabled.
    pub fn need_resource(&mut self, task: usize, resource: Vec<i32>)
        requires
            old(self).wf(),
            old(self).deadlock_detect ==> {
                &&& resource@.len() == old(self).available@.len()
                &&& task <= old(self).need@.len()
                &&& (task == old(self).need@.len() ==> old(self).need@.len() < MAX_DETECT_THREADS)
            },
        ensures
            final(self).wf(),
            !old(self).deadlock_detect ==> *final(self) == *old(self),
            old(self).deadlock_detect && task == old(self).need@.len() ==> {
                &&& final(self).need_ints() == old(self).need_ints().push(ints_of(resource@))
                &&& final(self).available@ == old(self).available@
                &&& final(self).allocation@ == old(self).allocation@
                &&& final(self).deadlock_detect
            },
            old(self).deadlock_detect && task < old(self).need@.len() ==> {
                &&& final(self).need_ints() == old(self).need_ints().update(
                    task as int,
                    ints_of(resource@),
                )
                &&& final(self).available@ == old(self).available@
                &&& final(self).allocation@ == old(self).allocation@
                &&& final(self).deadlock_detect
            },
    {
        if !self.deadlock_detect {
            return;
        }
        if task >= self.need.len() {
            self.need.push(resource);
            proof {
                assert(final(self).need_ints() =~= old(self).need_ints().push(ints_of(resource@)));
            }
        } else {
            self.need[task] = resource;
            proof {
                assert(final(self).need_ints() =~= old(self).need_ints().update(
                    task as int,
                    ints_of(resource@),
                ));
            }
        }
    }

    /// Run the safety scan; reports safe unconditionally while detection
    /// is disabled.
    pub fn detect(&self) -> (r: bool)
        requires
            self.wf(),
        ensures
            r == if self.deadlock_detect {
                banker_safe(self.avail_ints(), self.alloc_ints(), self.need_ints())
            } else {
                true
            },
    {
        if !self.deadlock_detect {
            return true;
        }
        banker_check(&self.available, &self.allocation, &self.need)
    }
}

/// Per-process deadlock detector for counting-semaphore resources, with a
/// fixed number of thread and resource slots.
pub struct SemaphoreDeadlockDetect {
    /// whether deadlock detection is enabled for this process
    pub deadlock_detect: bool,
    /// units of each resource not currently allocated
    pub available: Vec<i32>,
    /// units of each resource held, per thread
    pub allocation: Vec<Vec<i32>>,
    /// units of each resource still possibly requested, per thread
    pub need: Vec<Vec<i32>>,
}

impl SemaphoreDeadlockDetect {
    /// The accounts have their fixed shape: `SEM_DETECT_SLOTS` thread rows
    /// of `SEM_DETECT_SLOTS` resource columns.
    pub open spec fn wf(self) -> bool {
        &&& self.available@.len() == SEM_DETECT_SLOTS
        &&& self.allocation@.len() == SEM_DETECT_SLOTS
        &&& self.need@.len() == SEM_DETECT_SLOTS
        &&& forall|i: int|
            0 <= i < SEM_DETECT_SLOTS ==> self.allocation@[i]@.len() == SEM_DETECT_SLOTS
        &&& forall|i: int| 0 <= i < SEM_DETECT_SLOTS ==> self.need@[i]@.len() == SEM_DETECT_SLOTS
    }

    /// The available units as unbounded integers.
    pub open spec fn avail_ints(self) -> Seq<int> {
        ints_of(self.available@)
    }

    /// The allocation matrix as unbounded integers.
    pub open spec fn alloc_ints(self) -> Seq<Seq<int>> {
        mat_of(self.allocation@)
    }

    /// The need matrix as unbounded integers.
    pub open spec fn need_ints(self) -> Seq<Seq<int>> {
        mat_of(self.need@)
    }

    /// A detector with all accounts zero and detection disabled.
    pub fn new() -> (r: SemaphoreDeadlockDetect)
        ensures
            r.wf(),
            !r.deadlock_detect,
            forall|j: int| 0 <= j < SEM_DETECT_SLOTS ==> r.avail_ints()[j] == 0,
            forall|i: int, j: int|
                0 <= i < SEM_DETECT_SLOTS && 0 <= j < SEM_DETECT_SLOTS ==> r.alloc_ints()[i][j]
                    == 0,
            forall|i: int, j: int|
                0 <= i < SEM_DETECT_SLOTS && 0 <= j < SEM_DETECT_SLOTS ==> r.need_ints()[i][j]
                    == 0,
    {
        let mut available: Vec<i32> = Vec::new();
        let mut j: usize = 0;
        while j < SEM_DETECT_SLOTS
            invariant
                j <= SEM_DETECT_SLOTS,
                available@.len() == j,
                forall|t: int| 0 <= t < j ==> available@[t] == 0i32,
            decreases SEM_DETECT_SLOTS - j,
        {
            available.push(0);
            j = j + 1;
        }
        let mut allocation: Vec<Vec<i32>> = Vec::new();
        let mut need: Vec<Vec<i32>> = Vec::new();
        let mut i: usize = 0;
        while i < SEM_DETECT_SLOTS
            invariant
                i <= SEM_DETECT_SLOTS,
                allocation@.len() == i,
                need@.len() == i,
                forall|t: int| 0 <= t < i ==> allocation@[t]@.len() == SEM_DETECT_SLOTS,
                forall|t: int| 0 <= t < i ==> need@[t]@.len() == SEM_DETECT_SLOTS,
                forall|t: int, u: int|
                    0 <= t < i && 0 <= u < SEM_DETECT_SLOTS ==> allocation@[t]@[u] == 0i32,
                forall|t: int, u: int|
                    0 <= t < i && 0 <= u < SEM_DETECT_SLOTS ==> need@[t]@[u] == 0i32,
            decreases SEM_DETECT_SLOTS - i,
        {
            let mut row_a: Vec<i32> = Vec::new();
            let mut row_n: Vec<i32> = Vec::new();
            let mut j2: usize = 0;
            while j2 < SEM_DETECT_SLOTS
                invariant
                    j2 <= SEM_DETECT_SLOTS,
                    row_a@.len() == j2,
                    row_n@.len() == j2,
                    forall|u: int| 0 <= u < j2 ==> row_a@[u] == 0i32,
                    forall|u: int| 0 <= u < j2 ==> row_n@[u] == 0i32,
                decreases SEM_DETECT_SLOTS - j2,
            {
                row_a.push(0);
                row_n.push(0);
                j2 = j2 + 1;
            }
            allocation.push(row_a);
            need.push(row_n);
            i = i + 1;
        }
        SemaphoreDeadlockDetect { deadlock_detect: false, available, allocation, need }
    }

    /// Enable deadlock detection.
    pub fn open(&mut self)
        ensures
            *final(self) == (SemaphoreDeadlockDetect { deadlock_detect: true, ..*old(self) }),
    {
        self.deadlock_detect = true;
    }

    /// Disable deadlock detection.
    pub fn close(&mut self)
        ensures
            *final(self) == (SemaphoreDeadlockDetect { deadlock_detect: false, ..*old(self) }),
    {
        self.deadlock_detect = false;
    }

    /// Remove `num` units of `resource` from the available pool; a no-op
    /// while detection is disabled.
    pub fn consume_resource(&mut self, resource: usize, num: usize)
        requires
            old(self).wf(),
            old(self).deadlock_detect ==> {
                &&& resource < SEM_DETECT_SLOTS
                &&& num <= i32::MAX
                &&& i32::MIN <= old(self).avail_ints()[resource as int] - num
            },
        ensures
            final(self).wf(),
            !old(self).deadlock_detect ==> *final(self) == *old(self),
            old(self).deadlock_detect ==> {
                &&& final(self).avail_ints() == old(self).avail_ints().update(
                    resource as int,
                    old(self).avail_ints()[resource as int] - num,
                )
                &&& final(self).allocation@ == old(self).allocation@
                &&& final(self).need@ == old(self).need@
                &&& final(self).deadlock_detect
            },
    {
        if !self.deadlock_detect {
            return;
        }
        let v = self.available[resource];
        self.available.set(resource, v - num as i32);
        proof {
            assert(final(self).avail_ints() =~= old(self).avail_ints().update(
                resource as int,
                old(self).avail_ints()[resource as int] - num,
            ));
        }
    }

    /// Put `num` units of `resource` back into the available pool; a
    /// no-op while detection is disabled.
    pub fn put_resource(&mut self, resource: usize, num: usize)
        requires
            old(self).wf(),
            old(self).deadlock_detect ==> {
                &&& resource < SEM_DETECT_SLOTS
                &&& num <= i32::MAX
                &&& old(self).avail_ints()[resource as int] + num <= i32::MAX
            },
        ensures
            final(self).wf(),
            !old(self).deadlock_detect ==> *final(self) == *old(self),
            old(self).deadlock_detect ==> {
                &&& final(self).avail_ints() == old(self).avail_ints().update(
                    resource as int,
                    old(self).avail_ints()[resource as int] + num,
                )
                &&& final(self).allocation@ == old(self).allocation@
                &&& final(self).need@ == old(self).need@
                &&& final(self).deadlock_detect
            },
    {
        if !self.deadlock_detect {
            return;
        }
        let v = self.available[resource];
        self.available.set(resource, v + num as i32);
        proof {
            assert(final(self).avail_ints() =~= old(self).avail_ints().update(
                resource as int,
                old(self).avail_ints()[resource as int] + num,
            ));
        }
    }

    /// Move `num` allocated units of `resource_id` onto thread `task`'s
    /// allocation row; a no-op while detection is disabled.
    pub fn allocate_resource(&mut self, task: usize, resource_id: usize, num: usize)
        requires
            old(self).wf(),
            old(self).deadlock_detect ==> {
                &&& task < SEM_DETECT_SLOTS
                &&& resource_id < SEM_DETECT_SLOTS
                &&& num <= i32::MAX
                &&& old(self).alloc_ints()[task as int][resource_id as int] + num <= i32::MAX
            },
        ensures
            final(self).wf(),
            !old(self).deadlock_detect ==> *final(self) == *old(self),
            old(self).deadlock_detect ==> {
                &&& final(self).alloc_ints() == old(self).alloc_ints().update(
                    task as int,
                    old(self).alloc_ints()[task as int].update(
                        resource_id as int,
                        old(self).alloc_ints()[task as int][resource_id as int] + num,
                    ),
                )
                &&& final(self).available@ == old(self).available@
                &&& final(self).need@ == old(self).need@
                &&& final(self).deadlock_detect
            },
    {
        if !self.deadlock_detect {
            return;
        }
        let v = self.allocation[task][resource_id];
        self.allocation[task].set(resource_id, v + num as i32);
        proof {
            assert(final(self).alloc_ints()[task as int] =~= old(self).alloc_ints()[
                task as int].update(
                resource_id as int,
                old(self).alloc_ints()[task as int][resource_id as int] + num,
            ));
            assert(final(self).alloc_ints() =~= old(self).alloc_ints().update(
                task as int,
                final(self).alloc_ints()[task as int],
            ));
        }
    }

    /// Take `num` units of `resource_id` back off thread `task`'s
    /// allocation row; a no-op while detection is disabled.
    pub fn deallocate_resource(&mut self, task: usize, resource_id: usize, num: usize)
        requires
            old(self).wf(),
            old(self).deadlock_detect ==> {
                &&& task < SEM_DETECT_SLOTS
                &&& resource_id < SEM_DETECT_SLOTS
                &&& num <= i32::MAX
                &&& i32::MIN <= old(self).alloc_ints()[task as int][resource_id as int] - num
            },
        ensures
            final(self).wf(),
            !old(self).deadlock_detect ==> *final(self) == *old(self),
            old(self).deadlock_detect ==> {
                &&& final(self).alloc_ints() == old(self).alloc_ints().update(
                    task as int,
                    old(self).alloc_ints()[task as int].update(
                        resource_id as int,
                        old(self).alloc_ints()[task as int][resource_id as int] - num,
                    ),
                )
                &&& final(self).available@ == old(self).available@
                &&& final(self).need@ == old(self).need@
                &&& final(self).deadlock_detect
            },
    {
        if !self.deadlock_detect {
            return;
        }
        let v = self.allocation[task][resource_id];
        self.allocation[task].set(resource_id, v - num as i32);
        proof {
            assert(final(self).alloc_ints()[task as int] =~= old(self).alloc_ints()[
                task as int].update(
                resource_id as int,
                old(self).alloc_ints()[task as int][resource_id as int] - num,
            ));
            assert(final(self).alloc_ints() =~= old(self).alloc_ints().update(
                task as int,
                final(self).alloc_ints()[task as int],
            ));
        }
    }

    /// Declare `num` more units of `resource_id` thread `task` may still
    /// request; a no-op while detection is disabled.
    pub fn need_num_resource(&mut self, task: usize, resource_id: usize, num: usize)
        requires
            old(self).wf(),
            old(self).deadlock_detect ==> {
                &&& task < SEM_DETECT_SLOTS
                &&& resource_id < SEM_DETECT_SLOTS
                &&& num <= i32::MAX
                &&& old(self).need_ints()[task as int][resource_id as int] + num <= i32::MAX
            },
        ensures
            final(self).wf(),
            !old(self).deadlock_detect ==> *final(self) == *old(self),
            old(self).deadlock_detect ==> {
                &&& final(self).need_ints() == old(self).need_ints().update(
                    task as int,
                    old(self).need_ints()[task as int].update(
                        resource_id as int,
                        old(self).need_ints()[task as int][resource_id as int] + num,
                    ),
                )
                &&& final(self).available@ == old(self).available@
                &&& final(self).allocation@ == old(self).allocation@
                &&& final(self).deadlock_detect
            },
    {
        if !self.deadlock_detect {
            return;
        }
        let v = self.need[task][resource_id];
        self.need[task].set(resource_id, v + num as i32);
        proof {
            assert(final(self).need_ints()[task as int] =~= old(self).need_ints()[
                task as int].update(
                resource_id as int,
                old(self).need_ints()[task as int][resource_id as int] + num,
            ));
            assert(final(self).need_ints() =~= old(self).need_ints().update(
                task as int,
                final(self).need_ints()[task as int],
            ));
        }
    }

    /// Withdraw `num` declared units of `resource_id` from thread
    /// `task`'s need row; a no-op while detection is disabled.
    pub fn release_need_num_resource(&mut self, task: usize, resource_id: usize, num: usize)
        requires
            old(self).wf(),
            old(self).deadlock_detect ==> {
                &&& task < SEM_DETECT_SLOTS
                &&& resource_id < SEM_DETECT_SLOTS
                &&& num <= i32::MAX
                &&& i32::MIN <= old(self).need_ints()[task as int][resource_id as int] - num
            },
        ensures
            final(self).wf(),
            !old(self).deadlock_detect ==> *final(self) == *old(self),
            old(self).deadlock_detect ==> {
                &&& final(self).need_ints() == old(self).need_ints().update(
                    task as int,
                    old(self).need_ints()[task as int].update(
                        resource_id as int,
                        old(self).need_ints()[task as int][resource_id as int] - num,
                    ),
                )
                &&& final(self).available@ == old(self).available@
                &&& final(self).allocation@ == old(self).allocation@
                &&& final(self).deadlock_detect
            },
    {
        if !self.deadlock_detect {
            return;
        }
        let v = self.need[task][resource_id];
        self.need[task].set(resource_id, v - num as i32);
        proof {
            assert(final(self).need_ints()[task as int] =~= old(self).need_ints()[
                task as int].update(
                resource_id as int,
                old(self).need_ints()[task as int][resource_id as int] - num,
            ));
            assert(final(self).need_ints() =~= old(self).need_ints().update(
                task as int,
                final(self).need_ints()[task as int],
            ));
        }
    }

    /// Run the safety scan over every thread slot; reports safe
    /// unconditionally while detection is disabled.
    pub fn detect(&self) -> (r: bool)
        requires
            self.wf(),
        ensures
            r == if self.deadlock_detect {
                banker_safe(self.avail_ints(), self.alloc_ints(), self.need_ints())
            } else {
                true
            },
    {
        if !self.deadlock_detect {
            return true;
        }
        banker_check(&self.available, &self.allocation, &self.need)
    }
}

} // verus!
