use proc_core::id::RecycleAllocator;

#[test]
fn alloc_counts_up_from_zero() {
    let mut a = RecycleAllocator::new();
    assert_eq!(a.alloc_id(), 0);
    assert_eq!(a.alloc_id(), 1);
    assert_eq!(a.alloc_id(), 2);
}

#[test]
fn alloc_prefers_smallest_recycled() {
    let mut a = RecycleAllocator::new();
    let _ = a.alloc_id();
    let _ = a.alloc_id();
    let _ = a.alloc_id();
    let _ = a.alloc_id();
    a.dealloc_id(2);
    a.dealloc_id(0);
    a.dealloc_id(3);
    assert_eq!(a.alloc_id(), 0);
    assert_eq!(a.alloc_id(), 2);
    assert_eq!(a.alloc_id(), 3);
    assert_eq!(a.alloc_id(), 4);
}

#[test]
fn round_trip_returns_same_id_set() {
    let mut a = RecycleAllocator::new();
    let mut first: Vec<usize> = Vec::new();
    for _ in 0..10 {
        first.push(a.alloc_id());
    }
    for id in first.iter() {
        a.dealloc_id(*id);
    }
    let mut second: Vec<usize> = Vec::new();
    for _ in 0..10 {
        second.push(a.alloc_id());
    }
    let mut f = first.clone();
    let mut s = second.clone();
    f.sort();
    s.sort();
    assert_eq!(f, s);
}

#[test]
fn round_trip_with_interleaved_frees() {
    let mut a = RecycleAllocator::new();
    let i0 = a.alloc_id();
    let i1 = a.alloc_id();
    let i2 = a.alloc_id();
    a.dealloc_id(i1);
    let i3 = a.alloc_id();
    assert_eq!(i3, i1);
    a.dealloc_id(i0);
    a.dealloc_id(i2);
    a.dealloc_id(i3);
    let mut again = vec![a.alloc_id(), a.alloc_id(), a.alloc_id()];
    again.sort();
    assert_eq!(again, vec![0, 1, 2]);
}
