//! The allocation engine: finds the smallest adequate rung, splitting larger
//! frames on demand, and the adapter that checks size and alignment.

use vstd::prelude::*;
use vstd::arithmetic::div_mod::lemma_mod_multiples_vanish;
use crate::defs::{
    free_bytes_from,
    first_free_from, frame_slot, frames_disjoint, free_bytes, lemma_aligned_down,
    lemma_free_bytes_update, lemma_mod_div_transitive, lemma_rung_of_props, lemma_rung_size_mono,
    lemma_rung_size_pos, lemma_rung_size_top, rung_addr, rung_of, rung_size, MAX_FRAME_SIZE,
    MIN_FRAME_SIZE, NUM_RUNGS,
};
use crate::registry::{find_rung, BuddyAllocator};

verus! {

/// Failure modes of an allocation request.
#[derive(Clone, Copy, Debug, PartialEq, Eq, Structural)]
pub enum AllocError {
    /// A zero-byte request; nothing is handed out.
    ZeroSize,
    /// The requested alignment does not divide the minimum frame size.
    UnsupportedAlignment,
    /// The requested size exceeds the largest frame size.
    RequestTooLarge,
    /// No free frame of sufficient size exists on any rung.
    OutOfMemory,
}

/// An alignment the allocator can honour: every frame base is a multiple of
/// `MIN_FRAME_SIZE`, so exactly the divisors of `MIN_FRAME_SIZE` work.
pub open spec fn align_ok(a: int) -> bool {
    0 < a && MIN_FRAME_SIZE as int % a == 0
}

/// The memory configuration (size, managed end, withheld bytes) is untouched.
pub open spec fn same_config(pre: BuddyAllocator, post: BuddyAllocator) -> bool {
    &&& post.mem_size() == pre.mem_size()
    &&& post.end() == pre.end()
    &&& post.res_bytes() == pre.res_bytes()
}

/// The exact effect of a successful allocation of `size` bytes returning the
/// frame based at `p`: the lowest free frame of the first populated rung at
/// or above `rung_of(size)` is taken; on every rung walked past on the way
/// down, the upper half of the split frame is left free.
pub open spec fn alloc_transition(
    pre: BuddyAllocator,
    post: BuddyAllocator,
    size: usize,
    p: usize,
) -> bool {
    let fr0 = pre.rungs();
    let r0 = rung_of(size as int);
    let f = first_free_from(fr0, r0);
    &&& 1 <= size <= MAX_FRAME_SIZE
    &&& r0 <= f < NUM_RUNGS
    &&& p as int == rung_addr(fr0, f, 0)
    &&& p as int % rung_size(r0) == 0
    &&& p as int + rung_size(r0) <= pre.end()
    &&& post.rungs().len() == NUM_RUNGS
    &&& post.rungs()[f] == fr0[f].drop_first()
    &&& forall|k: int|
        r0 <= k < f ==> #[trigger] post.rungs()[k] == seq![(p as int + rung_size(k)) as usize]
    &&& forall|k: int|
        0 <= k < NUM_RUNGS && !(r0 <= k <= f) ==> #[trigger] post.rungs()[k] == fr0[k]
    &&& post.alloc_set() == pre.alloc_set().insert((p as int, r0))
    &&& post.alloc_bytes() == pre.alloc_bytes() + rung_size(r0)
    &&& free_bytes(post.rungs()) == free_bytes(fr0) - rung_size(r0)
    &&& same_config(pre, post)
}

impl BuddyAllocator {
    /// Serves a request of `size` bytes from the smallest adequate rung,
    /// recursively splitting a larger frame when that rung is empty.  Returns
    /// `None` when the request exceeds the largest frame or every adequate
    /// rung is empty.
    pub fn alloc_recursive(&mut self, size: usize) -> (r: Option<usize>)
        requires
            old(self).wf(),
            1 <= size,
        ensures
            final(self).wf(),
            same_config(*old(self), *final(self)),
            old(self).fully_coalesced() ==> final(self).fully_coalesced(),
            match r {
                None => *final(self) == *old(self) && (size > MAX_FRAME_SIZE
                    || first_free_from(old(self).rungs(), rung_of(size as int)) == NUM_RUNGS),
                Some(p) => alloc_transition(*old(self), *final(self), size, p),
            },
    {
        let (r0, s0) = match find_rung(size) {
            None => {
                return None;
            },
            Some(os) => os,
        };
        proof {
            lemma_rung_of_props(size as int);
        }
        // Find the first rung at or above r0 with a free frame.
        let mut f = r0;
        let mut fs = s0;
        while f < NUM_RUNGS - 1 && self.frames[f].len() == 0
            invariant
                *self == *old(self),
                old(self).wf(),
                r0 <= f < NUM_RUNGS,
                fs == rung_size(f as int),
                first_free_from(self.rungs(), r0 as int) == first_free_from(self.rungs(), f as int),
                forall|k: int| r0 <= k < f ==> #[trigger] self.rungs()[k].len() == 0,
            decreases NUM_RUNGS - f,
        {
            proof {
                lemma_rung_size_mono(f as int + 1, NUM_RUNGS - 1);
                lemma_rung_size_top();
                assert(first_free_from(self.rungs(), f as int)
                    == first_free_from(self.rungs(), f as int + 1));
            }
            f = f + 1;
            fs = fs * 2;
        }
        if self.frames[f].len() == 0 {
            proof {
                assert(first_free_from(self.rungs(), NUM_RUNGS as int) == NUM_RUNGS);
                assert(first_free_from(self.rungs(), f as int) == NUM_RUNGS);
            }
            return None;
        }
        let ghost fr0 = self.rungs();
        proof {
            assert(first_free_from(fr0, f as int) == f);
            assert(frame_slot(fr0, f as int, 0));
            assert(rung_addr(fr0, f as int, 0) % rung_size(f as int) == 0);
        }
        let p = self.frames[f].remove(0);
        let ghost base = self.rungs();
        proof {
            assert(base[f as int] == fr0[f as int].drop_first()) by {
                assert(base[f as int] =~= fr0[f as int].remove(0));
                assert(fr0[f as int].remove(0) =~= fr0[f as int].drop_first());
            }
            assert(forall|k: int| 0 <= k < NUM_RUNGS && k != f ==> base[k] == fr0[k]);
            assert(base =~= fr0.update(f as int, base[f as int]));
            lemma_free_bytes_update(fr0, f as int, base[f as int], 0);
            assert(base[f as int].len() - fr0[f as int].len() == -1);
            assert(free_bytes_from(base, 0) == free_bytes_from(fr0, 0)
                + (base[f as int].len() - fr0[f as int].len()) * rung_size(f as int));
            assert((base[f as int].len() - fr0[f as int].len()) * rung_size(f as int)
                == -1 * rung_size(f as int)) by (nonlinear_arith)
                requires base[f as int].len() - fr0[f as int].len() == -1,
            ;
            assert(free_bytes(base) == free_bytes(fr0) - rung_size(f as int));
            lemma_rung_size_pos(r0 as int);
            lemma_rung_size_mono(r0 as int, f as int);
            lemma_aligned_down(p as int, r0 as int, f as int);
            assert(rung_addr(fr0, f as int, 0) + rung_size(f as int) <= old(self).end());
        }
        // Walk back down, leaving the upper half free on each rung passed.
        let mut i = r0;
        let mut cs = s0;
        while i < f
            invariant
                r0 <= i <= f < NUM_RUNGS,
                cs == rung_size(i as int),
                self.frames@.len() == NUM_RUNGS,
                self.memory_size == old(self).memory_size,
                self.managed_end == old(self).managed_end,
                self.allocated_frames == old(self).allocated_frames,
                self.allocated_bytes == old(self).allocated_bytes,
                self.reserved_bytes == old(self).reserved_bytes,
                p as int == rung_addr(fr0, f as int, 0),
                p as int % rung_size(f as int) == 0,
                p as int + rung_size(f as int) <= usize::MAX,
                forall|k: int| i <= k < f ==> #[trigger] self.rungs()[k].len() == 0,
                forall|k: int|
                    r0 <= k < i ==> #[trigger] self.rungs()[k]
                        == seq![(p as int + rung_size(k)) as usize],
                forall|k: int|
                    0 <= k < NUM_RUNGS && !(r0 <= k < i) ==> #[trigger] self.rungs()[k] == base[k],
                free_bytes(self.rungs()) == free_bytes(base) + rung_size(i as int) - rung_size(
                    r0 as int,
                ),
            decreases f - i,
        {
            proof {
                lemma_rung_size_pos(i as int);
                lemma_rung_size_mono(i as int, f as int);
                lemma_rung_size_mono(i as int + 1, f as int);
            }
            let child = p + cs;
            let ghost before = self.rungs();
            proof {
                assert(before[i as int].len() == 0);
            }
            self.frames[i].push(child);
            proof {
                assert(self.frames@[i as int]@ == before[i as int].push(child));
                assert(self.rungs()[i as int] =~= seq![(p as int + rung_size(i as int)) as usize]);
                assert(self.rungs() =~= before.update(
                    i as int,
                    seq![(p as int + rung_size(i as int)) as usize],
                ));
                lemma_free_bytes_update(
                    before,
                    i as int,
                    seq![(p as int + rung_size(i as int)) as usize],
                    0,
                );
            }
            i = i + 1;
            cs = cs * 2;
        }
        proof {
            self.allocated_frames@ = self.allocated_frames@.insert((p as int, r0 as int));
            self.allocated_bytes@ = self.allocated_bytes@ + rung_size(r0 as int);
        }
        proof {
            let pre = *old(self);
            let post = *self;
            let nr = post.rungs();
            let fi = f as int;
            let ri = r0 as int;
            let e = pre.end();
            lemma_rung_size_pos(ri);
            lemma_rung_size_mono(ri, fi);
            assert(fr0 == pre.rungs());
            assert(nr == self.rungs());
            assert(forall|k2: int|
                ri <= k2 < fi ==> #[trigger] nr[k2] == seq![(p as int + rung_size(k2)) as usize]);
            assert(forall|k2: int|
                0 <= k2 < NUM_RUNGS && !(ri <= k2 < fi) ==> #[trigger] nr[k2] == base[k2]);
            assert(nr[fi] == fr0[fi].drop_first());
            assert(free_bytes(nr) == free_bytes(fr0) - rung_size(ri));
            // Every old slot of the new state maps to a slot of fr0 holding
            // the same address; the split children tile (p, p + rung_size(f)).
            assert(rung_addr(fr0, fi, 0) + rung_size(fi) <= e);
            assert forall|k: int, j: int| frame_slot(nr, k, j) implies
                #[trigger] rung_addr(nr, k, j) % rung_size(k) == 0
                    && rung_addr(nr, k, j) + rung_size(k) <= e by {
                if ri <= k < fi {
                    lemma_rung_size_pos(k);
                    lemma_rung_size_mono(k, fi);
                    lemma_rung_size_mono(k + 1, fi);
                    assert(rung_addr(nr, k, j) == p as int + rung_size(k));
                    lemma_aligned_down(p as int, k, fi);
                    lemma_mod_multiples_vanish(1, p as int, rung_size(k));
                } else if k == fi {
                    assert(rung_addr(nr, k, j) == rung_addr(fr0, k, j + 1));
                    assert(frame_slot(fr0, k, j + 1));
                } else {
                    assert(rung_addr(nr, k, j) == rung_addr(fr0, k, j));
                    assert(frame_slot(fr0, k, j));
                }
            }
            assert forall|k: int| 0 <= k < nr.len() implies crate::defs::rung_sorted(#[trigger] nr[k]) by {
                if k == fi {
                    assert forall|x: int, y: int| 0 <= x < y < nr[k].len() implies nr[k][x] < nr[k][y] by {
                        assert(nr[k][x] == fr0[k][x + 1] && nr[k][y] == fr0[k][y + 1]);
                    }
                } else if !(ri <= k < fi) {
                    assert(nr[k] == fr0[k]);
                }
            }
            // Disjointness: map each slot either to an old slot or to a
            // split child contained in (p, p + rung_size(f)).
            assert forall|k: int, j: int, k2: int, j2: int|
                frame_slot(nr, k, j) && frame_slot(nr, k2, j2) && (k != k2 || j != j2) implies
                frames_disjoint(
                    #[trigger] rung_addr(nr, k, j),
                    rung_size(k),
                    #[trigger] rung_addr(nr, k2, j2),
                    rung_size(k2),
                ) by {
                lemma_split_slot_disjoint(fr0, nr, p, ri, fi, k, j, k2, j2);
            }
            // Ghost bookkeeping.
            assert(post.alloc_set() == pre.alloc_set().insert((p as int, ri)));
            assert forall|q: (int, int)| #[trigger] post.alloc_set().contains(q) implies
                0 <= q.1 < NUM_RUNGS && 0 <= q.0 && q.0 % rung_size(q.1) == 0
                    && q.0 + rung_size(q.1) <= post.end() by {
                if q != ((p as int, ri)) {
                    assert(pre.alloc_set().contains(q));
                }
            }
            assert forall|q: (int, int), q2: (int, int)|
                post.alloc_set().contains(q) && post.alloc_set().contains(q2) && q != q2 implies
                frames_disjoint(q.0, rung_size(q.1), q2.0, rung_size(q2.1)) by {
                let newp = (p as int, ri);
                if q != newp && q2 != newp {
                    assert(pre.alloc_set().contains(q) && pre.alloc_set().contains(q2));
                } else {
                    let other = if q == newp { q2 } else { q };
                    assert(pre.alloc_set().contains(other));
                    // The old allocation is disjoint from the whole frame
                    // that was taken from rung f.
                    assert(frame_slot(fr0, fi, 0));
                    assert(frames_disjoint(
                        other.0,
                        rung_size(other.1),
                        rung_addr(fr0, fi, 0),
                        rung_size(fi),
                    ));
                }
            }
            assert forall|q: (int, int), k: int, j: int|
                #![trigger post.alloc_set().contains(q), rung_addr(nr, k, j)]
                post.alloc_set().contains(q) && frame_slot(nr, k, j) implies
                frames_disjoint(
                    q.0,
                    rung_size(q.1),
                    rung_addr(nr, k, j),
                    rung_size(k),
                ) by {
                let newp = (p as int, ri);
                if ri <= k < fi {
                    lemma_rung_size_pos(k);
                    lemma_rung_size_mono(ri, k);
                    lemma_rung_size_mono(k, fi);
                    lemma_rung_size_mono(k + 1, fi);
                    assert(rung_addr(nr, k, j) == p as int + rung_size(k));
                    if q == newp {
                        // The handed-out block is the low part; the child is
                        // above it.
                    } else {
                        assert(pre.alloc_set().contains(q));
                        assert(frame_slot(fr0, fi, 0));
                        assert(frames_disjoint(
                            q.0,
                            rung_size(q.1),
                            rung_addr(fr0, fi, 0),
                            rung_size(fi),
                        ));
                    }
                } else {
                    let j0 = if k == fi { j + 1 } else { j };
                    assert(frame_slot(fr0, k, j0));
                    assert(rung_addr(nr, k, j) == rung_addr(fr0, k, j0));
                    if q == newp {
                        assert((k, j0) != ((fi, 0int)));
                        assert(frames_disjoint(
                            rung_addr(fr0, k, j0),
                            rung_size(k),
                            rung_addr(fr0, fi, 0),
                            rung_size(fi),
                        ));
                    } else {
                        assert(pre.alloc_set().contains(q));
                    }
                }
            }
            // Coalescedness is preserved: rung f lost its head, the split
            // rungs hold a single frame each, all others are untouched.
            if pre.fully_coalesced() {
                assert forall|k: int, j: int, l: int|
                    0 <= k < nr.len() - 1 && 0 <= j < nr[k].len() && 0 <= l < nr[k].len() implies
                    #[trigger] rung_addr(nr, k, l) != crate::defs::buddy_of(
                        #[trigger] rung_addr(nr, k, j),
                        rung_size(k),
                    ) by {
                    if k == fi {
                        assert(nr[k].len() == fr0[k].len() - 1);
                        assert(rung_addr(nr, k, j) == rung_addr(fr0, k, j + 1));
                        assert(rung_addr(nr, k, l) == rung_addr(fr0, k, l + 1));
                    } else if ri <= k < fi {
                        lemma_rung_size_pos(k);
                        lemma_rung_size_mono(k, fi);
                        assert(nr[k] == seq![(p as int + rung_size(k)) as usize]);
                        assert(nr[k].len() == 1);
                        assert(j == 0 && l == 0);
                    } else {
                        assert(nr[k] == fr0[k]);
                        assert(rung_addr(nr, k, j) == rung_addr(fr0, k, j));
                        assert(rung_addr(nr, k, l) == rung_addr(fr0, k, l));
                    }
                }
            }
        }
        Some(p)
    }

    /// Translates the kernel's generic "allocate `size` bytes aligned to
    /// `align`" contract into the buddy engine: zero-size and unsupported
    /// alignments are rejected before any mutation, and exhaustion is
    /// surfaced as a recoverable error.
    pub fn allocate(&mut self, size: usize, align: usize) -> (r: Result<usize, AllocError>)
        requires
            old(self).wf(),
        ensures
            final(self).wf(),
            same_config(*old(self), *final(self)),
            old(self).fully_coalesced() ==> final(self).fully_coalesced(),
            match r {
                Ok(p) => {
                    &&& align_ok(align as int)
                    &&& alloc_transition(*old(self), *final(self), size, p)
                    &&& p as int % align as int == 0
                },
                Err(e) => *final(self) == *old(self) && match e {
                    AllocError::ZeroSize => size == 0,
                    AllocError::UnsupportedAlignment => size > 0 && !align_ok(align as int),
                    AllocError::RequestTooLarge => size > MAX_FRAME_SIZE && align_ok(align as int),
                    AllocError::OutOfMemory => {
                        &&& 1 <= size <= MAX_FRAME_SIZE
                        &&& align_ok(align as int)
                        &&& first_free_from(old(self).rungs(), rung_of(size as int)) == NUM_RUNGS
                    },
                },
            },
    {
        if size == 0 {
            return Err(AllocError::ZeroSize);
        }
        if align == 0 || MIN_FRAME_SIZE % align != 0 {
            return Err(AllocError::UnsupportedAlignment);
        }
        if size > MAX_FRAME_SIZE {
            return Err(AllocError::RequestTooLarge);
        }
        match self.alloc_recursive(size) {
            Some(p) => {
                proof {
                    lemma_rung_of_props(size as int);
                    lemma_aligned_down(p as int, 0, rung_of(size as int));
                    lemma_mod_div_transitive(p as int, MIN_FRAME_SIZE as int, align as int);
                }
                Ok(p)
            },
            None => Err(AllocError::OutOfMemory),
        }
    }
}

/// Any two distinct slots of the registry that results from taking the
/// lowest frame of rung `f` and re-filling the rungs `[r0, f)` with split
/// children are disjoint.
proof fn lemma_split_slot_disjoint(
    fr0: Seq<Seq<usize>>,
    nr: Seq<Seq<usize>>,
    p: usize,
    r0: int,
    f: int,
    k: int,
    j: int,
    k2: int,
    j2: int,
)
    requires
        crate::defs::frames_no_overlap(fr0),
        fr0.len() == NUM_RUNGS,
        nr.len() == NUM_RUNGS,
        0 <= r0 <= f < NUM_RUNGS,
        frame_slot(fr0, f, 0),
        p as int == rung_addr(fr0, f, 0),
        p as int + rung_size(f) <= usize::MAX,
        nr[f] == fr0[f].drop_first(),
        forall|k: int| r0 <= k < f ==> #[trigger] nr[k] == seq![(p as int + rung_size(k)) as usize],
        forall|k: int| 0 <= k < NUM_RUNGS && !(r0 <= k <= f) ==> #[trigger] nr[k] == fr0[k],
        frame_slot(nr, k, j),
        frame_slot(nr, k2, j2),
        k != k2 || j != j2,
    ensures
        frames_disjoint(rung_addr(nr, k, j), rung_size(k), rung_addr(nr, k2, j2), rung_size(k2)),
{
    // A slot on an unsplit rung corresponds to an old slot; on rung f the
    // index shifts by one; on a split rung the single child lies inside
    // (p + rung_size(k), p + rung_size(f)].
    let child = |k: int| r0 <= k < f;
    if child(k) && child(k2) {
        lemma_rung_size_pos(k);
        lemma_rung_size_pos(k2);
        lemma_rung_size_mono(k, f);
        lemma_rung_size_mono(k2, f);
        assert(rung_addr(nr, k, j) == p as int + rung_size(k));
        assert(rung_addr(nr, k2, j2) == p as int + rung_size(k2));
        assert(k != k2);
        if k < k2 {
            lemma_rung_size_mono(k + 1, k2);
        } else {
            lemma_rung_size_mono(k2 + 1, k);
        }
    } else if child(k) || child(k2) {
        let (ck, ok, oj) = if child(k) { (k, k2, j2) } else { (k2, k, j) };
        let oj0 = if ok == f { oj + 1 } else { oj };
        lemma_rung_size_mono(ck, f);
        lemma_rung_size_pos(ck);
        assert(frame_slot(fr0, ok, oj0));
        assert(rung_addr(nr, ok, oj) == rung_addr(fr0, ok, oj0));
        assert(rung_addr(nr, ck, if ck == k { j } else { j2 }) == p as int + rung_size(ck));
        assert((ok, oj0) != ((f, 0int)));
        assert(frames_disjoint(
            rung_addr(fr0, ok, oj0),
            rung_size(ok),
            rung_addr(fr0, f, 0),
            rung_size(f),
        ));
        lemma_rung_size_mono(ck + 1, f);
        lemma_rung_size_pos(ck);
    } else {
        let j0 = if k == f { j + 1 } else { j };
        let j20 = if k2 == f { j2 + 1 } else { j2 };
        assert(frame_slot(fr0, k, j0));
        assert(frame_slot(fr0, k2, j20));
        assert(rung_addr(nr, k, j) == rung_addr(fr0, k, j0));
        assert(rung_addr(nr, k2, j2) == rung_addr(fr0, k2, j20));
        assert((k, j0) != ((k2, j20)));
        assert(frames_disjoint(
            rung_addr(fr0, k, j0),
            rung_size(k),
            rung_addr(fr0, k2, j20),
            rung_size(k2),
        ));
    }
}

} // verus!
