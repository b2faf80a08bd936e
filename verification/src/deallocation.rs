//! The deallocation engine: returns a frame to its rung, merging it with its
//! buddy whenever the buddy is free, walking up the ladder; and the adapter
//! that rejects structurally invalid frees.

use vstd::prelude::*;
use vstd::arithmetic::div_mod::{lemma_div_pos_is_pos, lemma_fundamental_div_mod};
use crate::allocation::same_config;
use crate::defs::{
    buddy_of, coalesce, frame_slot, frames_disjoint, frames_wf, free_bytes,
    lemma_align_split, lemma_buddy_involution, lemma_free_bytes_update, lemma_remove_value_at,
    lemma_remove_value_props, lemma_rung_insert_wf, lemma_rung_shrink, lemma_rung_size_mono,
    lemma_rung_size_pos, lemma_rung_size_top, lemma_sorted_insert_props, remove_value, rung_addr,
    rung_has, rung_of, rung_size, sorted_insert, MAX_FRAME_SIZE, NUM_RUNGS,
};
use crate::registry::{find_addr, find_rung, insert_addr, BuddyAllocator};

verus! {

/// Failure mode of a deallocation request.
#[derive(Clone, Copy, Debug, PartialEq, Eq, Structural)]
pub enum FreeError {
    /// The pointer/size pair cannot come from an outstanding allocation:
    /// the size fits no rung, the pointer is misaligned or out of range, or
    /// the range intersects memory that is already free.
    InvalidFree,
}

/// The structural conditions under which freeing `(ptr, size)` is sound:
/// the size fits a rung, the pointer is an aligned in-range frame base of
/// that rung, and the frame overlaps no free frame.
pub open spec fn can_free(s: BuddyAllocator, ptr: usize, size: usize) -> bool {
    let r = rung_of(size as int);
    &&& 1 <= size <= MAX_FRAME_SIZE
    &&& ptr as int % rung_size(r) == 0
    &&& ptr as int + rung_size(r) <= s.end()
    &&& forall|k: int, j: int|
        frame_slot(s.rungs(), k, j) ==> frames_disjoint(
            ptr as int,
            rung_size(r),
            #[trigger] rung_addr(s.rungs(), k, j),
            rung_size(k),
        )
}

/// The exact effect of freeing the frame `(ptr, size)`.
pub open spec fn dealloc_transition(
    pre: BuddyAllocator,
    post: BuddyAllocator,
    ptr: usize,
    size: usize,
) -> bool {
    let r = rung_of(size as int);
    &&& post.rungs() == coalesce(pre.rungs(), ptr, r)
    &&& post.alloc_set() == pre.alloc_set().remove((ptr as int, r))
    &&& post.alloc_bytes() == pre.alloc_bytes() - rung_size(r)
    &&& free_bytes(post.rungs()) == free_bytes(pre.rungs()) + rung_size(r)
    &&& same_config(pre, post)
}

/// One merge step of the coalescing walk: when the buddy of `a` is free on
/// rung `i`, removing it and moving to the lower of the pair on rung `i + 1`
/// preserves the walk's preconditions.
proof fn lemma_coalesce_step(fr: Seq<Seq<usize>>, a: usize, i: int, e: int)
    requires
        frames_wf(fr, e),
        0 <= i < NUM_RUNGS - 1,
        a as int % rung_size(i) == 0,
        a as int + rung_size(i) <= e,
        forall|k: int, j: int|
            frame_slot(fr, k, j) ==> frames_disjoint(
                a as int,
                rung_size(i),
                #[trigger] rung_addr(fr, k, j),
                rung_size(k),
            ),
        rung_has(fr[i], buddy_of(a as int, rung_size(i))),
    ensures
        ({
            let s = rung_size(i);
            let b = buddy_of(a as int, s);
            let fr2 = fr.update(i, remove_value(fr[i], b as usize));
            let lo: usize = if a as int <= b { a } else { b as usize };
            &&& 0 <= b <= usize::MAX
            &&& fr[i].contains(b as usize)
            &&& frames_wf(fr2, e)
            &&& lo as int % rung_size(i + 1) == 0
            &&& lo as int + rung_size(i + 1) <= e
            &&& forall|k: int, j: int|
                frame_slot(fr2, k, j) ==> frames_disjoint(
                    lo as int,
                    rung_size(i + 1),
                    #[trigger] rung_addr(fr2, k, j),
                    rung_size(k),
                )
            &&& coalesce(fr, a, i) == coalesce(fr2, lo, i + 1)
            &&& free_bytes(fr2) == free_bytes(fr) - rung_size(i)
        }),
{
    let s = rung_size(i);
    lemma_rung_size_pos(i);
    lemma_buddy_involution(a as int, s);
    let b = buddy_of(a as int, s);
    let wb = choose|j: int| 0 <= j < fr[i].len() && fr[i][j] == b;
    assert(frame_slot(fr, i, wb) && rung_addr(fr, i, wb) == b);
    assert(fr[i].contains(b as usize)) by {
        assert(fr[i][wb] == b as usize);
    }
    lemma_remove_value_props(fr[i], b as usize);
    let t = remove_value(fr[i], b as usize);
    let fr2 = fr.update(i, t);
    lemma_rung_shrink(fr, i, t, e);
    let lo: usize = if a as int <= b {
        a
    } else {
        b as usize
    };
    assert(rung_size(i + 1) == 2 * s);
    // alignment of the merged frame
    lemma_align_split(a as int, s);
    if a as int % (2 * s) == 0 {
        assert(b == a as int + s && lo == a);
    } else {
        assert(b == a as int - s && lo as int == b);
        assert(b % (2 * s) == 0);
    }
    // bounds of the merged frame
    assert(rung_addr(fr, i, wb) + s <= e);
    assert(lo as int + 2 * s <= e);
    // the merged range overlaps no remaining frame
    assert forall|k: int, j: int| frame_slot(fr2, k, j) implies frames_disjoint(
        lo as int,
        rung_size(i + 1),
        #[trigger] rung_addr(fr2, k, j),
        rung_size(k),
    ) by {
        let y = fr2[k][j];
        lemma_rung_size_pos(k);
        if k == i {
            assert(t[j] == y);
            assert(t.contains(y));
            assert(fr[i].contains(y) && y != b as usize);
            let j0 = choose|j0: int| 0 <= j0 < fr[i].len() && fr[i][j0] == y;
            assert(frame_slot(fr, i, j0) && rung_addr(fr, i, j0) == y as int);
            assert(j0 != wb);
            assert(frames_disjoint(rung_addr(fr, i, j0), s, rung_addr(fr, i, wb), s));
            assert(frames_disjoint(a as int, s, rung_addr(fr, i, j0), s));
        } else {
            assert(rung_addr(fr2, k, j) == rung_addr(fr, k, j));
            assert(frame_slot(fr, k, j));
            assert((k, j) != ((i, wb)));
            assert(frames_disjoint(
                rung_addr(fr, k, j),
                rung_size(k),
                rung_addr(fr, i, wb),
                s,
            ));
            assert(frames_disjoint(a as int, s, rung_addr(fr, k, j), rung_size(k)));
        }
    }
    // the walk takes exactly this step
    assert(coalesce(fr, a, i) == coalesce(fr2, lo, i + 1));
    // bookkeeping
    lemma_free_bytes_update(fr, i, t, 0);
    assert(t.len() - fr[i].len() == -1);
    assert((t.len() - fr[i].len()) * rung_size(i) == -1 * rung_size(i)) by (nonlinear_arith)
        requires t.len() - fr[i].len() == -1,
    ;
}

/// The full coalescing walk keeps the registry well formed, frees exactly
/// one frame's worth of bytes, and never creates an uncoalesced buddy pair.
proof fn lemma_coalesce_wf(fr: Seq<Seq<usize>>, a: usize, i: int, e: int)
    requires
        frames_wf(fr, e),
        0 <= i < NUM_RUNGS,
        a as int % rung_size(i) == 0,
        a as int + rung_size(i) <= e,
        forall|k: int, j: int|
            frame_slot(fr, k, j) ==> frames_disjoint(
                a as int,
                rung_size(i),
                #[trigger] rung_addr(fr, k, j),
                rung_size(k),
            ),
    ensures
        frames_wf(coalesce(fr, a, i), e),
        free_bytes(coalesce(fr, a, i)) == free_bytes(fr) + rung_size(i),
        crate::defs::coalesced(fr) ==> crate::defs::coalesced(coalesce(fr, a, i)),
    decreases NUM_RUNGS - i,
{
    let s = rung_size(i);
    lemma_rung_size_pos(i);
    let b = buddy_of(a as int, s);
    lemma_buddy_involution(a as int, s);
    let c = coalesce(fr, a, i);
    if i < NUM_RUNGS - 1 && rung_has(fr[i], b) {
        lemma_coalesce_step(fr, a, i, e);
        let t = remove_value(fr[i], b as usize);
        let fr2 = fr.update(i, t);
        let lo: usize = if a as int <= b {
            a
        } else {
            b as usize
        };
        lemma_coalesce_wf(fr2, lo, i + 1, e);
        assert(free_bytes(c) == free_bytes(fr) - rung_size(i) + rung_size(i + 1));
        if crate::defs::coalesced(fr) {
            lemma_remove_value_props(fr[i], b as usize);
            assert forall|k: int, j: int, l: int|
                0 <= k < fr2.len() - 1 && 0 <= j < fr2[k].len() && 0 <= l < fr2[k].len() implies
                #[trigger] rung_addr(fr2, k, l) != buddy_of(
                    #[trigger] rung_addr(fr2, k, j),
                    rung_size(k),
                ) by {
                if k == i {
                    let y = fr2[k][j];
                    let y2 = fr2[k][l];
                    assert(t[j] == y && t[l] == y2);
                    assert(t.contains(y) && t.contains(y2));
                    assert(fr[i].contains(y) && fr[i].contains(y2));
                    let j0 = choose|j0: int| 0 <= j0 < fr[i].len() && fr[i][j0] == y;
                    let l0 = choose|l0: int| 0 <= l0 < fr[i].len() && fr[i][l0] == y2;
                    assert(rung_addr(fr, i, j0) == y as int && rung_addr(fr, i, l0) == y2 as int);
                } else {
                    assert(fr2[k] == fr[k]);
                    assert(rung_addr(fr2, k, j) == rung_addr(fr, k, j));
                    assert(rung_addr(fr2, k, l) == rung_addr(fr, k, l));
                }
            }
        }
    } else {
        lemma_rung_insert_wf(fr, i, a, e);
        let t = sorted_insert(fr[i], a);
        assert(c == fr.update(i, t));
        lemma_sorted_insert_props(fr[i], a);
        lemma_free_bytes_update(fr, i, t, 0);
        assert(t.len() - fr[i].len() == 1);
        assert((t.len() - fr[i].len()) * rung_size(i) == rung_size(i)) by (nonlinear_arith)
            requires t.len() - fr[i].len() == 1,
        ;
        if crate::defs::coalesced(fr) {
            assert forall|k: int, j: int, l: int|
                0 <= k < c.len() - 1 && 0 <= j < c[k].len() && 0 <= l < c[k].len() implies
                #[trigger] rung_addr(c, k, l) != buddy_of(
                    #[trigger] rung_addr(c, k, j),
                    rung_size(k),
                ) by {
                if k == i {
                    // i < NUM_RUNGS - 1 here, so the buddy of `a` is not free
                    // on this rung; no pair involving `a` can arise, and old
                    // pairs were already excluded.
                    let y = c[k][j];
                    let y2 = c[k][l];
                    assert(t[j] == y && t[l] == y2);
                    assert(t.contains(y) && t.contains(y2));
                    if y == a && y2 == a {
                        assert(buddy_of(a as int, s) != a as int);
                    } else if y == a {
                        assert(fr[i].contains(y2));
                        let l0 = choose|l0: int| 0 <= l0 < fr[i].len() && fr[i][l0] == y2;
                        assert(rung_addr(fr, i, l0) == y2 as int);
                        assert(rung_addr(fr, i, l0) % rung_size(i) == 0);
                        lemma_buddy_involution(y2 as int, s);
                        // y2 != buddy_of(a) since the buddy is not free, and
                        // a != buddy_of(y2) by the involution
                        assert(y2 as int != b) by {
                            if y2 as int == b {
                                assert(rung_has(fr[i], b)) by {
                                    assert(fr[i][l0] == b);
                                }
                            }
                        }
                        assert(buddy_of(y2 as int, s) != a as int);
                    } else if y2 == a {
                        assert(fr[i].contains(y));
                        let j0 = choose|j0: int| 0 <= j0 < fr[i].len() && fr[i][j0] == y;
                        assert(rung_addr(fr, i, j0) == y as int);
                        assert(rung_addr(fr, i, j0) % rung_size(i) == 0);
                        lemma_buddy_involution(y as int, s);
                        assert(y as int != b) by {
                            if y as int == b {
                                assert(rung_has(fr[i], b)) by {
                                    assert(fr[i][j0] == b);
                                }
                            }
                        }
                        assert(a as int != buddy_of(y as int, s)) by {
                            if a as int == buddy_of(y as int, s) {
                                assert(y as int == buddy_of(a as int, s));
                            }
                        }
                    } else {
                        assert(fr[i].contains(y) && fr[i].contains(y2));
                        let j0 = choose|j0: int| 0 <= j0 < fr[i].len() && fr[i][j0] == y;
                        let l0 = choose|l0: int| 0 <= l0 < fr[i].len() && fr[i][l0] == y2;
                        assert(rung_addr(fr, i, j0) == y as int && rung_addr(fr, i, l0) == y2 as int);
                    }
                } else {
                    assert(c[k] == fr[k]);
                    assert(rung_addr(c, k, j) == rung_addr(fr, k, j));
                    assert(rung_addr(c, k, l) == rung_addr(fr, k, l));
                }
            }
        }
    }
}

/// A range that intersects neither the freed frame nor any free frame stays
/// clear of every frame throughout the coalescing walk.
proof fn lemma_coalesce_keeps_disjoint(
    fr: Seq<Seq<usize>>,
    a: usize,
    i: int,
    e: int,
    x: int,
    sx: int,
)
    requires
        frames_wf(fr, e),
        0 <= i < NUM_RUNGS,
        a as int % rung_size(i) == 0,
        a as int + rung_size(i) <= e,
        forall|k: int, j: int|
            frame_slot(fr, k, j) ==> frames_disjoint(
                a as int,
                rung_size(i),
                #[trigger] rung_addr(fr, k, j),
                rung_size(k),
            ),
        forall|k: int, j: int|
            frame_slot(fr, k, j) ==> frames_disjoint(
                x,
                sx,
                #[trigger] rung_addr(fr, k, j),
                rung_size(k),
            ),
        frames_disjoint(x, sx, a as int, rung_size(i)),
        sx > 0,
    ensures
        forall|k: int, j: int|
            frame_slot(coalesce(fr, a, i), k, j) ==> frames_disjoint(
                x,
                sx,
                #[trigger] rung_addr(coalesce(fr, a, i), k, j),
                rung_size(k),
            ),
    decreases NUM_RUNGS - i,
{
    let s = rung_size(i);
    lemma_rung_size_pos(i);
    let b = buddy_of(a as int, s);
    lemma_buddy_involution(a as int, s);
    let c = coalesce(fr, a, i);
    if i < NUM_RUNGS - 1 && rung_has(fr[i], b) {
        lemma_coalesce_step(fr, a, i, e);
        lemma_remove_value_props(fr[i], b as usize);
        let t = remove_value(fr[i], b as usize);
        let fr2 = fr.update(i, t);
        let lo: usize = if a as int <= b {
            a
        } else {
            b as usize
        };
        let wb = choose|j: int| 0 <= j < fr[i].len() && fr[i][j] == b;
        assert(frame_slot(fr, i, wb) && rung_addr(fr, i, wb) == b);
        assert(frames_disjoint(x, sx, b, s));
        assert forall|k: int, j: int| frame_slot(fr2, k, j) implies frames_disjoint(
            x,
            sx,
            #[trigger] rung_addr(fr2, k, j),
            rung_size(k),
        ) by {
            let y = fr2[k][j];
            if k == i {
                assert(t[j] == y);
                assert(t.contains(y));
                assert(fr[i].contains(y));
                let j0 = choose|j0: int| 0 <= j0 < fr[i].len() && fr[i][j0] == y;
                assert(frame_slot(fr, i, j0) && rung_addr(fr, i, j0) == y as int);
            } else {
                assert(rung_addr(fr2, k, j) == rung_addr(fr, k, j));
                assert(frame_slot(fr, k, j));
            }
        }
        assert(frames_disjoint(x, sx, lo as int, rung_size(i + 1)));
        lemma_coalesce_keeps_disjoint(fr2, lo, i + 1, e, x, sx);
    } else {
        lemma_rung_insert_wf(fr, i, a, e);
        let t = sorted_insert(fr[i], a);
        assert(c == fr.update(i, t));
        lemma_sorted_insert_props(fr[i], a);
        assert forall|k: int, j: int| frame_slot(c, k, j) implies frames_disjoint(
            x,
            sx,
            #[trigger] rung_addr(c, k, j),
            rung_size(k),
        ) by {
            let y = c[k][j];
            if k == i {
                assert(t[j] == y);
                assert(t.contains(y));
                if y != a {
                    assert(fr[i].contains(y));
                    let j0 = choose|j0: int| 0 <= j0 < fr[i].len() && fr[i][j0] == y;
                    assert(frame_slot(fr, i, j0) && rung_addr(fr, i, j0) == y as int);
                }
            } else {
                assert(rung_addr(c, k, j) == rung_addr(fr, k, j));
                assert(frame_slot(fr, k, j));
            }
        }
    }
}

impl BuddyAllocator {
    /// Frees the frame `(ptr, size)`: starting at the rung that served the
    /// size, the frame is merged with its buddy whenever the buddy is free,
    /// walking up the ladder; the final merged frame is put back on the rung
    /// where no further merge is possible.
    pub fn dealloc_iter(&mut self, ptr: usize, size: usize)
        requires
            old(self).wf(),
            can_free(*old(self), ptr, size),
            old(self).alloc_set().contains((ptr as int, rung_of(size as int))),
            old(self).alloc_bytes() >= rung_size(rung_of(size as int)),
        ensures
            final(self).wf(),
            old(self).fully_coalesced() ==> final(self).fully_coalesced(),
            dealloc_transition(*old(self), *final(self), ptr, size),
    {
        let (r0, s0) = match find_rung(size) {
            Some(os) => os,
            None => {
                proof {
                    assert(false);
                }
                (0, 0)
            },
        };
        let ghost orig = self.rungs();
        let ghost e = old(self).end();
        let ghost r0i = r0 as int;
        proof {
            self.allocated_frames@ = self.allocated_frames@.remove((ptr as int, r0i));
            self.allocated_bytes@ = self.allocated_bytes@ - rung_size(r0i);
        }
        let mut cur = ptr;
        let mut i = r0;
        let mut s = s0;
        while i < NUM_RUNGS - 1
            invariant
                old(self).wf(),
                can_free(*old(self), ptr, size),
                old(self).alloc_set().contains((ptr as int, r0i)),
                old(self).alloc_bytes() >= rung_size(r0i),
                r0i == rung_of(size as int),
                orig == old(self).rungs(),
                r0 <= i < NUM_RUNGS,
                s == rung_size(i as int),
                self.frames@.len() == NUM_RUNGS,
                frames_wf(self.rungs(), e),
                self.memory_size == old(self).memory_size,
                self.managed_end == old(self).managed_end,
                e == old(self).end(),
                self.allocated_frames@ == old(self).alloc_set().remove((ptr as int, r0i)),
                self.allocated_bytes@ == old(self).alloc_bytes() - rung_size(r0i),
                self.reserved_bytes == old(self).reserved_bytes,
                cur as int % rung_size(i as int) == 0,
                cur as int + rung_size(i as int) <= e,
                forall|k: int, j: int|
                    frame_slot(self.rungs(), k, j) ==> frames_disjoint(
                        cur as int,
                        rung_size(i as int),
                        #[trigger] rung_addr(self.rungs(), k, j),
                        rung_size(k),
                    ),
                coalesce(orig, ptr, r0i) == coalesce(self.rungs(), cur, i as int),
            decreases NUM_RUNGS - i,
        {
            proof {
                lemma_rung_size_pos(i as int);
                lemma_rung_size_mono(i as int + 1, NUM_RUNGS - 1);
                lemma_rung_size_top();
                assert(rung_size(i as int + 1) == 2 * rung_size(i as int));
                let si = rung_size(i as int);
                if cur as int % (2 * si) != 0 {
                    lemma_align_split(cur as int, si);
                    lemma_fundamental_div_mod(cur as int, 2 * si);
                    lemma_div_pos_is_pos(cur as int, 2 * si);
                    assert(cur as int >= si);
                }
            }
            let buddy: usize = if cur % (2 * s) == 0 {
                cur + s
            } else {
                cur - s
            };
            proof {
                assert(buddy as int == buddy_of(cur as int, rung_size(i as int)));
            }
            match find_addr(&self.frames[i], buddy) {
                Some(w) => {
                    let ghost before = self.rungs();
                    proof {
                        assert(rung_has(before[i as int], buddy as int)) by {
                            assert(before[i as int][w as int] == buddy);
                        }
                        lemma_coalesce_step(before, cur, i as int, e);
                        lemma_remove_value_at(before[i as int], buddy, w as int);
                    }
                    self.frames[i].remove(w);
                    proof {
                        assert(self.rungs() =~= before.update(
                            i as int,
                            remove_value(before[i as int], buddy),
                        ));
                    }
                    if buddy < cur {
                        cur = buddy;
                    }
                    i = i + 1;
                    s = s * 2;
                },
                None => {
                    proof {
                        assert(!rung_has(self.rungs()[i as int], buddy as int)) by {
                            if rung_has(self.rungs()[i as int], buddy as int) {
                                let j0 = choose|j0: int|
                                    0 <= j0 < self.rungs()[i as int].len()
                                        && self.rungs()[i as int][j0] == buddy as int;
                                assert(self.frames[i as int]@.contains(buddy)) by {
                                    assert(self.frames[i as int]@[j0] == buddy);
                                }
                            }
                        }
                        assert(!self.rungs()[i as int].contains(cur)) by {
                            if self.rungs()[i as int].contains(cur) {
                                let j0 = choose|j0: int|
                                    0 <= j0 < self.rungs()[i as int].len()
                                        && self.rungs()[i as int][j0] == cur;
                                assert(frame_slot(self.rungs(), i as int, j0));
                                assert(rung_addr(self.rungs(), i as int, j0) == cur as int);
                            }
                        }
                        lemma_rung_insert_wf(self.rungs(), i as int, cur, e);
                        assert(coalesce(self.rungs(), cur, i as int) == self.rungs().update(
                            i as int,
                            sorted_insert(self.rungs()[i as int], cur),
                        ));
                    }
                    let ghost before = self.rungs();
                    insert_addr(&mut self.frames[i], cur);
                    proof {
                        assert(self.rungs() =~= before.update(
                            i as int,
                            sorted_insert(before[i as int], cur),
                        ));
                        lemma_dealloc_finish(*old(self), *self, ptr, size);
                    }
                    return;
                },
            }
        }
        // top rung: no buddy above, put the frame back
        proof {
            lemma_rung_size_pos(i as int);
            assert(!self.rungs()[i as int].contains(cur)) by {
                if self.rungs()[i as int].contains(cur) {
                    let j0 = choose|j0: int|
                        0 <= j0 < self.rungs()[i as int].len()
                            && self.rungs()[i as int][j0] == cur;
                    assert(frame_slot(self.rungs(), i as int, j0));
                    assert(rung_addr(self.rungs(), i as int, j0) == cur as int);
                }
            }
            lemma_rung_insert_wf(self.rungs(), i as int, cur, e);
            assert(coalesce(self.rungs(), cur, i as int) == self.rungs().update(
                i as int,
                sorted_insert(self.rungs()[i as int], cur),
            ));
        }
        let ghost before = self.rungs();
        insert_addr(&mut self.frames[i], cur);
        proof {
            assert(self.rungs() =~= before.update(
                i as int,
                sorted_insert(before[i as int], cur),
            ));
            lemma_dealloc_finish(*old(self), *self, ptr, size);
        }
    }
}

impl BuddyAllocator {
    /// True when no free frame intersects the byte range `[lo, lo + sz)`.
    fn range_free_of(&self, lo: usize, sz: usize) -> (r: bool)
        requires
            self.wf(),
            lo as int + sz as int <= usize::MAX,
            sz > 0,
        ensures
            r <==> forall|k: int, j: int|
                frame_slot(self.rungs(), k, j) ==> frames_disjoint(
                    lo as int,
                    sz as int,
                    #[trigger] rung_addr(self.rungs(), k, j),
                    rung_size(k),
                ),
    {
        let mut k: usize = 0;
        let mut sk: usize = crate::defs::MIN_FRAME_SIZE;
        while k < NUM_RUNGS
            invariant
                self.wf(),
                lo as int + sz as int <= usize::MAX,
                k <= NUM_RUNGS,
                k < NUM_RUNGS ==> sk == rung_size(k as int),
                forall|k2: int, j: int|
                    0 <= k2 < k && frame_slot(self.rungs(), k2, j) ==> frames_disjoint(
                        lo as int,
                        sz as int,
                        #[trigger] rung_addr(self.rungs(), k2, j),
                        rung_size(k2),
                    ),
            decreases NUM_RUNGS - k,
        {
            let n = self.frames[k].len();
            let mut j: usize = 0;
            while j < n
                invariant
                    self.wf(),
                    lo as int + sz as int <= usize::MAX,
                    k < NUM_RUNGS,
                    sk == rung_size(k as int),
                    n == self.rungs()[k as int].len(),
                    j <= n,
                    forall|j2: int|
                        0 <= j2 < j ==> frames_disjoint(
                            lo as int,
                            sz as int,
                            #[trigger] rung_addr(self.rungs(), k as int, j2),
                            rung_size(k as int),
                        ),
                decreases n - j,
            {
                let f = self.frames[k][j];
                proof {
                    assert(frame_slot(self.rungs(), k as int, j as int));
                    assert(rung_addr(self.rungs(), k as int, j as int) == f as int);
                }
                if f < lo + sz && f + sk > lo {
                    proof {
                        assert(!frames_disjoint(
                            lo as int,
                            sz as int,
                            rung_addr(self.rungs(), k as int, j as int),
                            rung_size(k as int),
                        ));
                    }
                    return false;
                }
                j = j + 1;
            }
            proof {
                lemma_rung_size_mono(k as int, NUM_RUNGS - 1);
                lemma_rung_size_top();
            }
            k = k + 1;
            sk = if k < NUM_RUNGS {
                sk * 2
            } else {
                sk
            };
        }
        true
    }

    /// Checks a free request structurally and frees the frame when the
    /// checks pass: the size must fit a rung, the pointer must be an
    /// aligned, in-range base of that rung, and the frame must not intersect
    /// memory that is already free.  A pair failing them cannot come from an
    /// outstanding allocation and is rejected as `InvalidFree` with nothing
    /// mutated.  Frames are identified by pointer and size alone; the
    /// alignment argument does not enter the check.
    pub fn dealloc(&mut self, ptr: usize, size: usize, _align: usize) -> (r: Result<
        (),
        FreeError,
    >)
        requires
            old(self).wf(),
            // The caller contract that no run-time check can test: a pair
            // that passes the structural checks must denote an outstanding
            // allocation.
            can_free(*old(self), ptr, size) ==> old(self).alloc_set().contains(
                (ptr as int, rung_of(size as int)),
            ) && old(self).alloc_bytes() >= rung_size(rung_of(size as int)),
        ensures
            final(self).wf(),
            same_config(*old(self), *final(self)),
            old(self).fully_coalesced() ==> final(self).fully_coalesced(),
            match r {
                Ok(u) => can_free(*old(self), ptr, size) && dealloc_transition(
                    *old(self),
                    *final(self),
                    ptr,
                    size,
                ),
                Err(FreeError::InvalidFree) => !can_free(*old(self), ptr, size) && *final(self)
                    == *old(self),
            },
    {
        if size == 0 {
            return Err(FreeError::InvalidFree);
        }
        let (r0, s0) = match find_rung(size) {
            Some(os) => os,
            None => {
                return Err(FreeError::InvalidFree);
            },
        };
        proof {
            crate::defs::lemma_rung_of_props(size as int);
            lemma_rung_size_pos(r0 as int);
        }
        if ptr % s0 != 0 {
            return Err(FreeError::InvalidFree);
        }
        if s0 > self.managed_end || ptr > self.managed_end - s0 {
            return Err(FreeError::InvalidFree);
        }
        if !self.range_free_of(ptr, s0) {
            return Err(FreeError::InvalidFree);
        }
        proof {
            assert(can_free(*old(self), ptr, size));
        }
        self.dealloc_iter(ptr, size);
        Ok(())
    }
}

/// Once the registry holds the result of the coalescing walk and the ghost
/// books are balanced, the allocator invariant holds again.
proof fn lemma_dealloc_finish(pre: BuddyAllocator, post: BuddyAllocator, ptr: usize, size: usize)
    requires
        pre.wf(),
        can_free(pre, ptr, size),
        pre.alloc_set().contains((ptr as int, rung_of(size as int))),
        pre.alloc_bytes() >= rung_size(rung_of(size as int)),
        post.rungs() == coalesce(pre.rungs(), ptr, rung_of(size as int)),
        post.memory_size == pre.memory_size,
        post.managed_end == pre.managed_end,
        post.reserved_bytes == pre.reserved_bytes,
        post.alloc_set() == pre.alloc_set().remove((ptr as int, rung_of(size as int))),
        post.alloc_bytes() == pre.alloc_bytes() - rung_size(rung_of(size as int)),
    ensures
        post.wf(),
        pre.fully_coalesced() ==> post.fully_coalesced(),
        dealloc_transition(pre, post, ptr, size),
{
    let r = rung_of(size as int);
    let e = pre.end();
    let fr = pre.rungs();
    let freed = (ptr as int, r);
    crate::defs::lemma_rung_of_props(size as int);
    lemma_rung_size_pos(r);
    lemma_coalesce_wf(fr, ptr, r, e);
    assert forall|q: (int, int)| #[trigger] post.alloc_set().contains(q) implies
        0 <= q.1 < NUM_RUNGS && 0 <= q.0 && q.0 % rung_size(q.1) == 0
            && q.0 + rung_size(q.1) <= post.end() by {
        assert(pre.alloc_set().contains(q));
    }
    assert forall|q: (int, int), q2: (int, int)|
        post.alloc_set().contains(q) && post.alloc_set().contains(q2) && q != q2 implies
        frames_disjoint(q.0, rung_size(q.1), q2.0, rung_size(q2.1)) by {
        assert(pre.alloc_set().contains(q) && pre.alloc_set().contains(q2));
    }
    assert forall|q: (int, int), k: int, j: int|
        #![trigger post.alloc_set().contains(q), rung_addr(post.rungs(), k, j)]
        post.alloc_set().contains(q) && frame_slot(post.rungs(), k, j) implies
        frames_disjoint(q.0, rung_size(q.1), rung_addr(post.rungs(), k, j), rung_size(k)) by {
        assert(pre.alloc_set().contains(q));
        assert(q != freed);
        lemma_rung_size_pos(q.1);
        assert(frames_disjoint(q.0, rung_size(q.1), freed.0, rung_size(freed.1)));
        assert forall|k2: int, j2: int| frame_slot(fr, k2, j2) implies frames_disjoint(
            q.0,
            rung_size(q.1),
            #[trigger] rung_addr(fr, k2, j2),
            rung_size(k2),
        ) by {
            assert(pre.alloc_free_disjoint());
        }
        lemma_coalesce_keeps_disjoint(fr, ptr, r, e, q.0, rung_size(q.1));
    }
}

} // verus!
