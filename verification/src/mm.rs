//! Model of the memory-management collaborator as this core consumes it:
//! an address space is an opaque token plus the facts the core reads and
//! writes through it — the executable's entry point and user-stack base,
//! the mapped-region list, the heap break, and the user-memory cells the
//! core stores through the address translator. Cells are kept per access
//! width, mirroring the three typed accesses the core makes (machine
//! words for argument vectors, 32-bit integers for exit codes, bytes for
//! argument strings).

use vstd::prelude::*;

verus! {

/// A write-back store of typed memory cells, last write winning.
pub struct CellStore<V> {
    pub cells: Vec<(usize, V)>,
}

/// The mapping an ordered write log denotes: later writes shadow earlier
/// ones.
pub open spec fn log_map<V>(s: Seq<(usize, V)>) -> Map<usize, V>
    decreases s.len(),
{
    if s.len() == 0 {
        Map::empty()
    } else {
        log_map(s.drop_last()).insert(s.last().0, s.last().1)
    }
}

impl<V: Copy> CellStore<V> {
    /// The memory contents this store denotes.
    pub open spec fn view(&self) -> Map<usize, V> {
        log_map(self.cells@)
    }

    /// An empty store.
    pub fn new() -> (r: CellStore<V>)
        ensures
            r@ == Map::<usize, V>::empty(),
    {
        CellStore { cells: Vec::new() }
    }

    /// Write one cell.
    pub fn write(&mut self, addr: usize, value: V)
        ensures
            final(self)@ == old(self)@.insert(addr, value),
    {
        self.cells.push((addr, value));
        proof {
            assert(self.cells@.drop_last() == old(self).cells@);
        }
    }

    /// Read one cell back, if it was ever written.
    pub fn read(&self, addr: usize) -> (r: Option<V>)
        ensures
            r == if self@.contains_key(addr) {
                Some(self@[addr])
            } else {
                None::<V>
            },
    {
        let mut i: usize = self.cells.len();
        proof {
            assert(self.cells@.take(self.cells@.len() as int) =~= self.cells@);
        }
        while i > 0
            invariant
                i <= self.cells@.len(),
                log_map(self.cells@).contains_key(addr) == log_map(
                    self.cells@.take(i as int),
                ).contains_key(addr),
                log_map(self.cells@).contains_key(addr) ==> log_map(self.cells@)[addr] == log_map(
                    self.cells@.take(i as int),
                )[addr],
            decreases i,
        {
            i = i - 1;
            let (a, v) = self.cells[i];
            proof {
                assert(self.cells@.take(i + 1).drop_last() =~= self.cells@.take(i as int));
                assert(self.cells@.take(i + 1).last() == self.cells@[i as int]);
            }
            if a == addr {
                return Some(v);
            }
        }
        proof {
            assert(self.cells@.take(0) =~= Seq::<(usize, V)>::empty());
        }
        None
    }

    /// A store with the same contents.
    pub fn duplicate(&self) -> (r: CellStore<V>)
        ensures
            r@ == self@,
    {
        let mut cells: Vec<(usize, V)> = Vec::new();
        let mut i: usize = 0;
        while i < self.cells.len()
            invariant
                i <= self.cells@.len(),
                cells@ == self.cells@.take(i as int),
            decreases self.cells@.len() - i,
        {
            cells.push(self.cells[i]);
            proof {
                assert(self.cells@.take(i + 1) =~= self.cells@.take(i as int).push(
                    self.cells@[i as int],
                ));
            }
            i = i + 1;
        }
        proof {
            assert(self.cells@.take(self.cells@.len() as int) =~= self.cells@);
        }
        CellStore { cells }
    }
}

/// A loaded executable image as the loader hands it over: where execution
/// starts, where the user stack area begins, the initial heap break, and
/// the token of the page table built for it.
#[derive(Clone, Copy, PartialEq, Eq, Structural, Debug)]
pub struct ExecImage {
    /// first instruction of the program
    pub entry_point: usize,
    /// base of the user stack area
    pub ustack_base: usize,
    /// initial program break (bottom of the heap)
    pub brk_init: usize,
    /// address-space token of the page table the loader built
    pub token: usize,
}

/// One mapped region `[start, end)` with its access flags.
#[derive(Clone, Copy, PartialEq, Eq, Structural, Debug)]
pub struct MapArea {
    /// inclusive start address
    pub start: usize,
    /// exclusive end address
    pub end: usize,
    /// access flags of the region
    pub flags: u8,
}

/// Two half-open ranges intersect.
pub open spec fn ranges_overlap(s1: int, e1: int, s2: int, e2: int) -> bool {
    s1 < e2 && s2 < e1
}

/// An address space of one process.
pub struct AddressSpace {
    /// page-table token identifying this address space
    pub token: usize,
    /// entry point of the loaded program
    pub entry_point: usize,
    /// base of the user stack area
    pub ustack_base: usize,
    /// bottom of the heap; the break never moves below it
    pub heap_bottom: usize,
    /// current program break
    pub program_brk: usize,
    /// regions mapped on request, disjoint from one another
    pub areas: Vec<MapArea>,
    /// machine-word cells written through the translator
    pub words: CellStore<usize>,
    /// 32-bit integer cells written through the translator
    pub ints: CellStore<i32>,
    /// byte cells written through the translator
    pub bytes: CellStore<u8>,
}

impl AddressSpace {
    /// The break never lies below the heap bottom, and the requested
    /// regions never overlap one another.
    pub open spec fn wf(self) -> bool {
        &&& self.heap_bottom <= self.program_brk
        &&& forall|i: int, j: int|
            0 <= i < j < self.areas@.len() ==> !ranges_overlap(
                self.areas@[i].start as int,
                self.areas@[i].end as int,
                self.areas@[j].start as int,
                self.areas@[j].end as int,
            )
    }

    /// The address space the loader builds for an image: empty user
    /// memory, the break at its initial position, no requested regions.
    pub fn from_image(image: &ExecImage) -> (r: AddressSpace)
        ensures
            r.wf(),
            r.token == image.token,
            r.entry_point == image.entry_point,
            r.ustack_base == image.ustack_base,
            r.heap_bottom == image.brk_init,
            r.program_brk == image.brk_init,
            r.areas@.len() == 0,
            r.words@ == Map::<usize, usize>::empty(),
            r.ints@ == Map::<usize, i32>::empty(),
            r.bytes@ == Map::<usize, u8>::empty(),
    {
        AddressSpace {
            token: image.token,
            entry_point: image.entry_point,
            ustack_base: image.ustack_base,
            heap_bottom: image.brk_init,
            program_brk: image.brk_init,
            areas: Vec::new(),
            words: CellStore::new(),
            ints: CellStore::new(),
            bytes: CellStore::new(),
        }
    }

    /// A clone of an existing user address space — same contents, mapped
    /// regions and break — under a fresh page-table token.
    pub fn from_existed_user(other: &AddressSpace, token: usize) -> (r: AddressSpace)
        requires
            other.wf(),
        ensures
            r.wf(),
            r.token == token,
            r.entry_point == other.entry_point,
            r.ustack_base == other.ustack_base,
            r.heap_bottom == other.heap_bottom,
            r.program_brk == other.program_brk,
            r.areas@ == other.areas@,
            r.words@ == other.words@,
            r.ints@ == other.ints@,
            r.bytes@ == other.bytes@,
    {
        let mut areas: Vec<MapArea> = Vec::new();
        let mut i: usize = 0;
        while i < other.areas.len()
            invariant
                i <= other.areas@.len(),
                areas@ == other.areas@.take(i as int),
            decreases other.areas@.len() - i,
        {
            areas.push(other.areas[i]);
            proof {
                assert(other.areas@.take(i + 1) =~= other.areas@.take(i as int).push(
                    other.areas@[i as int],
                ));
            }
            i = i + 1;
        }
        proof {
            assert(other.areas@.take(other.areas@.len() as int) =~= other.areas@);
        }
        AddressSpace {
            token,
            entry_point: other.entry_point,
            ustack_base: other.ustack_base,
            heap_bottom: other.heap_bottom,
            program_brk: other.program_brk,
            areas,
            words: other.words.duplicate(),
            ints: other.ints.duplicate(),
            bytes: other.bytes.duplicate(),
        }
    }

    /// The address of this address space's page table.
    pub fn token(&self) -> (r: usize)
        ensures
            r == self.token,
    {
        self.token
    }

    /// Map the region `[start, end)` with the given flags; refused when
    /// it overlaps a region already mapped on request.
    pub fn push_unnamed_area(&mut self, start: usize, end: usize, flags: u8) -> (r: bool)
        requires
            old(self).wf(),
        ensures
            final(self).wf(),
            r == (forall|i: int|
                0 <= i < old(self).areas@.len() ==> !ranges_overlap(
                    old(self).areas@[i].start as int,
                    old(self).areas@[i].end as int,
                    start as int,
                    end as int,
                )),
            r ==> final(self).areas@ == old(self).areas@.push(MapArea { start, end, flags }),
            !r ==> *final(self) == *old(self),
            *final(self) == (AddressSpace { areas: final(self).areas, ..*old(self) }),
    {
        let mut i: usize = 0;
        while i < self.areas.len()
            invariant
                *self == *old(self),
                old(self).wf(),
                i <= self.areas@.len(),
                forall|t: int|
                    0 <= t < i ==> !ranges_overlap(
                        self.areas@[t].start as int,
                        self.areas@[t].end as int,
                        start as int,
                        end as int,
                    ),
            decreases self.areas@.len() - i,
        {
            if self.areas[i].start < end && start < self.areas[i].end {
                proof {
                    assert(ranges_overlap(
                        self.areas@[i as int].start as int,
                        self.areas@[i as int].end as int,
                        start as int,
                        end as int,
                    ));
                }
                return false;
            }
            i = i + 1;
        }
        self.areas.push(MapArea { start, end, flags });
        true
    }

    /// Unmap the region mapped on request as exactly `[start, end)`;
    /// refused when no such region exists. The first matching region is
    /// the one removed.
    pub fn remove_unnamed_area(&mut self, start: usize, end: usize) -> (r: bool)
        requires
            old(self).wf(),
        ensures
            final(self).wf(),
            r == (exists|i: int|
                0 <= i < old(self).areas@.len() && old(self).areas@[i].start == start && old(
                    self,
                ).areas@[i].end == end),
            r ==> (exists|i: int|
                {
                    &&& 0 <= i < old(self).areas@.len()
                    &&& old(self).areas@[i].start == start
                    &&& old(self).areas@[i].end == end
                    &&& (forall|j: int|
                        0 <= j < i ==> !(old(self).areas@[j].start == start && old(
                            self,
                        ).areas@[j].end == end))
                    &&& final(self).areas@ == old(self).areas@.remove(i)
                }),
            !r ==> *final(self) == *old(self),
            *final(self) == (AddressSpace { areas: final(self).areas, ..*old(self) }),
    {
        let mut i: usize = 0;
        while i < self.areas.len()
            invariant
                *self == *old(self),
                old(self).wf(),
                i <= self.areas@.len(),
                forall|t: int|
                    0 <= t < i ==> !(self.areas@[t].start == start && self.areas@[t].end == end),
            decreases self.areas@.len() - i,
        {
            if self.areas[i].start == start && self.areas[i].end == end {
                let picked = i;
                let ghost pre = self.areas@;
                self.areas.remove(picked);
                proof {
                    let post = self.areas@;
                    assert(post == pre.remove(picked as int));
                    assert forall|a: int, b: int| 0 <= a < b < post.len() implies !ranges_overlap(
                        post[a].start as int,
                        post[a].end as int,
                        post[b].start as int,
                        post[b].end as int,
                    ) by {
                        let a0 = if a < picked { a } else { a + 1 };
                        let b0 = if b < picked { b } else { b + 1 };
                        assert(post[a] == pre[a0]);
                        assert(post[b] == pre[b0]);
                    }
                }
                return true;
            }
            i = i + 1;
        }
        false
    }

    /// Move the program break by `size` bytes; reports the old break, or
    /// nothing when the new break would fall below the heap bottom or
    /// out of the address range.
    pub fn change_program_brk(&mut self, size: i32) -> (r: Option<usize>)
        requires
            old(self).wf(),
        ensures
            final(self).wf(),
            *final(self) == (AddressSpace { program_brk: final(self).program_brk, ..*old(self) }),
            ({
                let new_brk = old(self).program_brk + size as int;
                if old(self).heap_bottom <= new_brk <= usize::MAX {
                    r == Some(old(self).program_brk) && final(self).program_brk == new_brk
                } else {
                    r is None && *final(self) == *old(self)
                }
            }),
    {
        if size >= 0 {
            let grow = size as usize;
            if grow <= usize::MAX - self.program_brk {
                let old_brk = self.program_brk;
                self.program_brk = self.program_brk + grow;
                Some(old_brk)
            } else {
                None
            }
        } else {
            let shrink = (-(size as i64)) as usize;
            if self.program_brk >= shrink && self.program_brk - shrink >= self.heap_bottom {
                let old_brk = self.program_brk;
                self.program_brk = self.program_brk - shrink;
                Some(old_brk)
            } else {
                None
            }
        }
    }

    /// Store a machine word into user memory through the translator.
    pub fn write_word(&mut self, addr: usize, value: usize)
        ensures
            *final(self) == (AddressSpace { words: final(self).words, ..*old(self) }),
            final(self).words@ == old(self).words@.insert(addr, value),
    {
        self.words.write(addr, value);
    }

    /// Store a 32-bit integer into user memory through the translator.
    pub fn write_int(&mut self, addr: usize, value: i32)
        ensures
            *final(self) == (AddressSpace { ints: final(self).ints, ..*old(self) }),
            final(self).ints@ == old(self).ints@.insert(addr, value),
    {
        self.ints.write(addr, value);
    }

    /// Store a byte into user memory through the translator.
    pub fn write_byte(&mut self, addr: usize, value: u8)
        ensures
            *final(self) == (AddressSpace { bytes: final(self).bytes, ..*old(self) }),
            final(self).bytes@ == old(self).bytes@.insert(addr, value),
    {
        self.bytes.write(addr, value);
    }

    /// Read a machine word of user memory back.
    pub fn read_word(&self, addr: usize) -> (r: Option<usize>)
        ensures
            r == if self.words@.contains_key(addr) {
                Some(self.words@[addr])
            } else {
                None::<usize>
            },
    {
        self.words.read(addr)
    }

    /// Read a 32-bit integer of user memory back.
    pub fn read_int(&self, addr: usize) -> (r: Option<i32>)
        ensures
            r == if self.ints@.contains_key(addr) {
                Some(self.ints@[addr])
            } else {
                None::<i32>
            },
    {
        self.ints.read(addr)
    }

    /// Read a byte of user memory back.
    pub fn read_byte(&self, addr: usize) -> (r: Option<u8>)
        ensures
            r == if self.bytes@.contains_key(addr) {
                Some(self.bytes@[addr])
            } else {
                None::<u8>
            },
    {
        self.bytes.read(addr)
    }
}

} // verus!
