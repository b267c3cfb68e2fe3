//! Recycling identifier allocator: issues and reuses small integer ids
//! (process ids, thread ids) so that id-indexed tables stay dense.
//!
//! `alloc` always returns the smallest id not currently in use, preferring
//! recycled ids over extending the range; `dealloc` returns an id to the
//! free pool and may only be called on an id that is currently allocated.

use vstd::prelude::*;

verus! {

/// Allocator over the ids `0..current`, minus the ones in `recycled`.
pub struct RecycleAllocator {
    pub current: usize,
    pub recycled: Vec<usize>,
}

impl RecycleAllocator {
    /// Well-formedness: every recycled id lies below `current`, and no id
    /// is recycled twice.
    pub open spec fn wf(self) -> bool {
        &&& forall|i: int| 0 <= i < self.recycled@.len() ==> self.recycled@[i] < self.current
        &&& forall|i: int, j: int|
            0 <= i < j < self.recycled@.len() ==> self.recycled@[i] != self.recycled@[j]
    }

    /// An id is allocated when it has been issued and not yet freed.
    pub open spec fn is_allocated(self, id: int) -> bool {
        &&& 0 <= id < self.current
        &&& !self.recycled@.contains(id as usize)
    }

    /// `id` is the smallest id that is free in `self`.
    pub open spec fn is_smallest_free(self, id: int) -> bool {
        &&& 0 <= id
        &&& !self.is_allocated(id)
        &&& forall|j: int| 0 <= j < id ==> self.is_allocated(j)
    }

    /// How far the issued range extends; free ids at or above this point
    /// have never been handed out.
    pub open spec fn range_end(self) -> int {
        self.current as int
    }

    /// A fresh allocator with no id in use.
    pub fn new() -> (r: RecycleAllocator)
        ensures
            r.wf(),
            forall|j: int| !r.is_allocated(j),
            r.range_end() == 0,
    {
        RecycleAllocator { current: 0, recycled: Vec::new() }
    }

    /// Issue the smallest id not currently in use.
    pub fn alloc_id(&mut self) -> (id: usize)
        requires
            old(self).wf(),
            old(self).current < usize::MAX,
        ensures
            final(self).wf(),
            old(self).is_smallest_free(id as int),
            final(self).is_allocated(id as int),
            forall|j: int| j != id ==> (final(self).is_allocated(j) <==> old(self).is_allocated(j)),
            final(self).current == (if id == old(self).current {
                old(self).current + 1
            } else {
                old(self).current as int
            }),
    {
        if self.recycled.len() > 0 {
            let mut min_idx: usize = 0;
            let mut k: usize = 1;
            while k < self.recycled.len()
                invariant
                    0 < k <= self.recycled@.len(),
                    min_idx < k,
                    forall|i: int| 0 <= i < k ==> self.recycled@[min_idx as int] <= self.recycled@[i],
                decreases self.recycled@.len() - k,
            {
                if self.recycled[k] < self.recycled[min_idx] {
                    min_idx = k;
                }
                k = k + 1;
            }
            let id = self.recycled.remove(min_idx);
            proof {
                let r0 = old(self).recycled@;
                let r1 = self.recycled@;
                assert(r1 == r0.remove(min_idx as int));
                // The removed value occurs nowhere else, so it is now free
                // while every other id keeps its status.
                assert forall|v: usize| v != id implies (r1.contains(v) <==> r0.contains(v)) by {
                    if r0.contains(v) {
                        let i = choose|i: int| 0 <= i < r0.len() && r0[i] == v;
                        if i < min_idx {
                            assert(r1[i] == v);
                        } else {
                            assert(r1[i - 1] == v);
                        }
                    }
                    if r1.contains(v) {
                        let i = choose|i: int| 0 <= i < r1.len() && r1[i] == v;
                        if i < min_idx {
                            assert(r0[i] == v);
                        } else {
                            assert(r0[i + 1] == v);
                        }
                    }
                }
                assert(!r1.contains(id)) by {
                    if r1.contains(id) {
                        let i = choose|i: int| 0 <= i < r1.len() && r1[i] == id;
                        if i < min_idx {
                            assert(r0[i] == id && r0[min_idx as int] == id);
                        } else {
                            assert(r0[i + 1] == id && r0[min_idx as int] == id);
                        }
                    }
                }
                // Every id below the chosen minimum is allocated: it is in
                // range and cannot be in the recycled pool.
                assert forall|j: int| 0 <= j < id implies old(self).is_allocated(j) by {
                    if r0.contains(j as usize) {
                        let i = choose|i: int| 0 <= i < r0.len() && r0[i] == j as usize;
                        assert(r0[min_idx as int] <= r0[i]);
                    }
                }
            }
            id
        } else {
            let id = self.current;
            self.current = self.current + 1;
            id
        }
    }

    /// Return an allocated id to the free pool.
    pub fn dealloc_id(&mut self, id: usize)
        requires
            old(self).wf(),
            old(self).is_allocated(id as int),
        ensures
            final(self).wf(),
            !final(self).is_allocated(id as int),
            forall|j: int| j != id ==> (final(self).is_allocated(j) <==> old(self).is_allocated(j)),
            final(self).range_end() == old(self).range_end(),
    {
        self.recycled.push(id);
        proof {
            let r0 = old(self).recycled@;
            let r1 = self.recycled@;
            assert forall|v: usize| v != id implies (r1.contains(v) <==> r0.contains(v)) by {
                if r1.contains(v) {
                    let i = choose|i: int| 0 <= i < r1.len() && r1[i] == v;
                    assert(r0[i] == v);
                }
                if r0.contains(v) {
                    let i = choose|i: int| 0 <= i < r0.len() && r0[i] == v;
                    assert(r1[i] == v);
                }
            }
            assert(r1.contains(id)) by {
                assert(r1[r1.len() - 1] == id);
            }
        }
    }
}

/// The id `alloc` hands out is a function of which ids are free alone: two
/// allocators with the same allocated-id predicate issue the same id next.
/// Together with the frame conditions of `alloc` and `dealloc` this gives
/// the round-trip law: allocating a batch of ids, freeing them all, and
/// allocating again yields the same set of ids.
pub proof fn lemma_alloc_determined_by_free_set(
    a: RecycleAllocator,
    b: RecycleAllocator,
    ra: int,
    rb: int,
)
    requires
        forall|j: int| a.is_allocated(j) <==> b.is_allocated(j),
        a.is_smallest_free(ra),
        b.is_smallest_free(rb),
    ensures
        ra == rb,
{
    if ra < rb {
        assert(b.is_allocated(ra));
        assert(a.is_allocated(ra));
    }
    if rb < ra {
        assert(a.is_allocated(rb));
        assert(b.is_allocated(rb));
    }
}

/// Freeing an id that `alloc` just issued restores the allocated-id
/// predicate exactly: the states before the allocation and after the
/// matching free agree on every id. Applied once per id, a batch of
/// allocations followed by freeing the whole batch leaves the free set
/// as it began, so allocating the batch again yields the same ids.
pub proof fn lemma_alloc_dealloc_round_trip(
    s0: RecycleAllocator,
    s1: RecycleAllocator,
    s2: RecycleAllocator,
    id: int,
)
    requires
        !s0.is_allocated(id),
        s1.is_allocated(id),
        forall|j: int| j != id ==> (s1.is_allocated(j) <==> s0.is_allocated(j)),
        !s2.is_allocated(id),
        forall|j: int| j != id ==> (s2.is_allocated(j) <==> s1.is_allocated(j)),
    ensures
        forall|j: int| s2.is_allocated(j) <==> s0.is_allocated(j),
{
}

} // verus!
