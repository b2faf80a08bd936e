//! The free-list registry: the allocator state, its invariants, and its
//! boot-time construction.

use vstd::prelude::*;
use vstd::arithmetic::div_mod::{lemma_fundamental_div_mod, lemma_mod_bound, lemma_mod_multiples_basic};
use crate::defs::{
    coalesced, frame_slot, frames_disjoint, frames_wf, free_bytes, lemma_free_bytes_single_from,
    lemma_rung_size_mono, lemma_rung_size_pos, lemma_rung_size_top, rung_addr, rung_of,
    rung_of_from, rung_size, MAX_FRAME_SIZE, MIN_FRAME_SIZE, NUM_RUNGS,
};

verus! {

/// A binary buddy allocator over the flat address range
/// `[0, memory_size)`.  Free frames are tracked per rung; outstanding
/// allocations and withheld bytes are tracked in ghost state for the
/// conservation and disjointness invariants.
pub struct BuddyAllocator {
    /// `frames[i]` holds the sorted base addresses of the free frames of
    /// size `rung_size(i)`.
    pub frames: Vec<Vec<usize>>,
    /// The total number of bytes handed to `init`.
    pub memory_size: usize,
    /// End of the managed range: the largest multiple of `MAX_FRAME_SIZE`
    /// not exceeding `memory_size`.
    pub managed_end: usize,
    /// The `(base, rung)` pairs of the allocations currently outstanding.
    pub allocated_frames: Ghost<Set<(int, int)>>,
    /// Bytes currently handed out.
    pub allocated_bytes: Ghost<int>,
    /// Bytes permanently withheld: reserved ranges, plus the tail of memory
    /// beyond the last whole maximum-size frame.
    pub reserved_bytes: Ghost<int>,
}

impl BuddyAllocator {
    /// The registry contents, one address sequence per rung.
    pub open spec fn rungs(self) -> Seq<Seq<usize>> {
        self.frames@.map_values(|v: Vec<usize>| v@)
    }

    pub open spec fn mem_size(self) -> int {
        self.memory_size as int
    }

    /// End of the managed address range.
    pub open spec fn end(self) -> int {
        self.managed_end as int
    }

    pub open spec fn alloc_set(self) -> Set<(int, int)> {
        self.allocated_frames@
    }

    pub open spec fn alloc_bytes(self) -> int {
        self.allocated_bytes@
    }

    pub open spec fn res_bytes(self) -> int {
        self.reserved_bytes@
    }

    /// Every outstanding allocation is an aligned frame inside the managed
    /// range.
    pub open spec fn alloc_frames_ok(self) -> bool {
        forall|p: (int, int)| #[trigger]
            self.alloc_set().contains(p) ==> 0 <= p.1 < NUM_RUNGS && 0 <= p.0
                && p.0 % rung_size(p.1) == 0 && p.0 + rung_size(p.1) <= self.end()
    }

    /// Outstanding allocations do not overlap one another.
    pub open spec fn alloc_disjoint(self) -> bool {
        forall|p: (int, int), q: (int, int)|
            #![trigger self.alloc_set().contains(p), self.alloc_set().contains(q)]
            self.alloc_set().contains(p) && self.alloc_set().contains(q) && p != q
                ==> frames_disjoint(p.0, rung_size(p.1), q.0, rung_size(q.1))
    }

    /// No free frame intersects an outstanding allocation.
    pub open spec fn alloc_free_disjoint(self) -> bool {
        forall|p: (int, int), i: int, j: int|
            #![trigger self.alloc_set().contains(p), rung_addr(self.rungs(), i, j)]
            self.alloc_set().contains(p) && frame_slot(self.rungs(), i, j)
                ==> frames_disjoint(
                    p.0,
                    rung_size(p.1),
                    rung_addr(self.rungs(), i, j),
                    rung_size(i),
                )
    }

    /// The allocator's invariant: a structurally well-formed registry, and
    /// conservation of bytes between the free, allocated and withheld pools.
    pub open spec fn wf(self) -> bool {
        &&& frames_wf(self.rungs(), self.end())
        &&& self.end() <= self.mem_size()
        &&& self.alloc_frames_ok()
        &&& self.alloc_disjoint()
        &&& self.alloc_free_disjoint()
        &&& self.alloc_bytes() >= 0
        &&& self.res_bytes() >= 0
        &&& free_bytes(self.rungs()) + self.alloc_bytes() + self.res_bytes() == self.mem_size()
    }

    /// Below the top rung no two free frames of one rung are buddies.
    pub open spec fn fully_coalesced(self) -> bool {
        coalesced(self.rungs())
    }

    /// Number of free frames currently held at rung `i`.
    pub fn rung_count(&self, i: usize) -> (n: usize)
        requires
            i < NUM_RUNGS,
            self.rungs().len() == NUM_RUNGS,
        ensures
            n == self.rungs()[i as int].len(),
    {
        self.frames[i].len()
    }

    /// The `j`-th lowest free address at rung `i`.
    pub fn rung_frame(&self, i: usize, j: usize) -> (x: usize)
        requires
            i < NUM_RUNGS,
            self.rungs().len() == NUM_RUNGS,
            j < self.rungs()[i as int].len(),
        ensures
            x as int == rung_addr(self.rungs(), i as int, j as int),
    {
        self.frames[i][j]
    }

    /// The memory size this allocator was initialized with.
    pub fn total_memory(&self) -> (n: usize)
        ensures
            n == self.mem_size(),
    {
        self.memory_size
    }
}

/// The rung that serves a request of `size` bytes, with its frame size, or
/// `None` when the request exceeds the largest frame.
pub(crate) fn find_rung(size: usize) -> (r: Option<(usize, usize)>)
    requires
        1 <= size,
    ensures
        match r {
            Some(os) => {
                &&& size <= MAX_FRAME_SIZE
                &&& os.0 == rung_of(size as int)
                &&& os.0 < NUM_RUNGS
                &&& os.1 == rung_size(os.0 as int)
            },
            None => size > MAX_FRAME_SIZE,
        },
{
    let mut ord: usize = 0;
    let mut s: usize = MIN_FRAME_SIZE;
    while s < size && ord < NUM_RUNGS - 1
        invariant
            1 <= size,
            ord < NUM_RUNGS,
            s == rung_size(ord as int),
            rung_of(size as int) == rung_of_from(size as int, ord as int),
        decreases NUM_RUNGS - ord,
    {
        proof {
            lemma_rung_size_mono(ord as int + 1, NUM_RUNGS - 1);
            lemma_rung_size_top();
            assert(rung_of_from(size as int, ord as int) == rung_of_from(size as int, ord as int + 1));
        }
        ord = ord + 1;
        s = s * 2;
    }
    proof {
        lemma_rung_size_mono(ord as int, NUM_RUNGS - 1);
        lemma_rung_size_top();
    }
    if s < size {
        None
    } else {
        proof {
            assert(rung_of_from(size as int, ord as int) == ord);
        }
        Some((ord, s))
    }
}

/// Finds the position of the address `x` in a rung, scanning from the
/// lowest.
pub(crate) fn find_addr(v: &Vec<usize>, x: usize) -> (r: Option<usize>)
    ensures
        match r {
            Some(w) => w < v@.len() && v@[w as int] == x,
            None => !v@.contains(x),
        },
{
    let mut w: usize = 0;
    while w < v.len()
        invariant
            w <= v@.len(),
            forall|m: int| 0 <= m < w ==> v@[m] != x,
        decreases v@.len() - w,
    {
        if v[w] == x {
            return Some(w);
        }
        w = w + 1;
    }
    None
}

/// Inserts a fresh address into a rung, keeping the addresses sorted.
pub(crate) fn insert_addr(v: &mut Vec<usize>, x: usize)
    requires
        crate::defs::rung_sorted(old(v)@),
        !old(v)@.contains(x),
    ensures
        final(v)@ == crate::defs::sorted_insert(old(v)@, x),
{
    let mut w: usize = 0;
    while w < v.len() && v[w] < x
        invariant
            *v == *old(v),
            w <= v@.len(),
            forall|m: int| 0 <= m < w ==> v@[m] < x,
        decreases v@.len() - w,
    {
        w = w + 1;
    }
    proof {
        if (w as int) < v@.len() {
            assert(v@[w as int] != x) by {
                if v@[w as int] == x {
                    assert(v@.contains(x)) by {
                        assert(v@[w as int] == x);
                    }
                }
            }
        }
        crate::defs::lemma_sorted_insert_at(v@, x, w as int);
    }
    v.insert(w, x);
}

/// Builds the registry for a flat memory of `memory_size` bytes based at
/// address zero: every rung starts empty except the top one, which holds
/// `memory_size / MAX_FRAME_SIZE` contiguous maximum-size frames.  Bytes in
/// the tail beyond the last whole maximum-size frame are counted as withheld.
pub fn init(memory_size: usize) -> (a: BuddyAllocator)
    requires
        memory_size >= MAX_FRAME_SIZE,
    ensures
        a.wf(),
        a.fully_coalesced(),
        a.mem_size() == memory_size,
        a.end() == memory_size as int / MAX_FRAME_SIZE as int * MAX_FRAME_SIZE,
        a.alloc_set() == Set::<(int, int)>::empty(),
        a.alloc_bytes() == 0,
        a.res_bytes() == memory_size - a.end(),
        forall|i: int| 0 <= i < NUM_RUNGS - 1 ==> a.rungs()[i].len() == 0,
        a.rungs()[NUM_RUNGS - 1].len() == memory_size as int / MAX_FRAME_SIZE as int,
        forall|j: int| 0 <= j < a.rungs()[NUM_RUNGS - 1].len()
            ==> #[trigger] rung_addr(a.rungs(), NUM_RUNGS - 1, j) == j * MAX_FRAME_SIZE,
{
    let mut frames: Vec<Vec<usize>> = Vec::new();
    let mut i: usize = 0;
    while i < NUM_RUNGS - 1
        invariant
            frames@.len() == i,
            i <= NUM_RUNGS - 1,
            forall|k: int| 0 <= k < i ==> frames@[k]@.len() == 0,
        decreases NUM_RUNGS - 1 - i,
    {
        frames.push(Vec::new());
        i = i + 1;
    }
    let count = memory_size / MAX_FRAME_SIZE;
    proof {
        lemma_fundamental_div_mod(memory_size as int, MAX_FRAME_SIZE as int);
        lemma_mod_bound(memory_size as int, MAX_FRAME_SIZE as int);
    }
    let mut top: Vec<usize> = Vec::new();
    let mut j: usize = 0;
    let mut addr: usize = 0;
    while j < count
        invariant
            top@.len() == j,
            j <= count,
            addr == j * MAX_FRAME_SIZE,
            count * MAX_FRAME_SIZE <= memory_size,
            forall|k: int| 0 <= k < j ==> top@[k] == k * MAX_FRAME_SIZE,
        decreases count - j,
    {
        top.push(addr);
        addr = addr + MAX_FRAME_SIZE;
        j = j + 1;
    }
    frames.push(top);
    let a = BuddyAllocator {
        frames,
        memory_size,
        managed_end: addr,
        allocated_frames: Ghost(Set::empty()),
        allocated_bytes: Ghost(0),
        reserved_bytes: Ghost(memory_size - addr),
    };
    proof {
        lemma_rung_size_top();
        lemma_rung_size_pos(NUM_RUNGS - 1);
        let fr = a.rungs();
        assert(fr.len() == NUM_RUNGS);
        assert(fr[NUM_RUNGS - 1] == top@);
        assert forall|ii: int, jj: int| frame_slot(fr, ii, jj) implies
            #[trigger] rung_addr(fr, ii, jj) % rung_size(ii) == 0
                && rung_addr(fr, ii, jj) + rung_size(ii) <= a.end() by {
            assert(ii == NUM_RUNGS - 1);
            assert(rung_addr(fr, ii, jj) == jj * MAX_FRAME_SIZE);
            lemma_mod_multiples_basic(jj, MAX_FRAME_SIZE as int);
        }
        lemma_free_bytes_single_from(fr, NUM_RUNGS - 1, 0);
        assert(free_bytes(fr) == count * rung_size(NUM_RUNGS - 1));
    }
    a
}

} // verus!
