//! The reservation carver: permanently withholds an address range from the
//! allocatable universe, splitting exactly the free frames that straddle a
//! boundary of the range and removing the frames inside it.

use vstd::prelude::*;
use vstd::arithmetic::div_mod::lemma_mod_multiples_vanish;
use crate::defs::{
    buddy_of, coalesced, frame_slot, frames_disjoint, frames_wf, free_bytes,
    lemma_buddy_involution, lemma_free_bytes_update,
    lemma_mod_div_transitive, lemma_rung_insert_wf, lemma_rung_shrink, lemma_rung_size_pos,
    lemma_sorted_insert_props, rung_addr, rung_pairs_overlap, rung_size, rung_sorted,
    sorted_insert, MAX_FRAME_SIZE, MIN_FRAME_SIZE, NUM_RUNGS,
};
use crate::registry::{insert_addr, BuddyAllocator};

verus! {

/// Permanently removes the byte range `[start, start + len)` from the free
/// lists.  Walking the rungs from the largest down, a free frame that only
/// partially overlaps the range (a range boundary falls strictly inside it)
/// is split into its two halves on the rung below; a frame fully inside the
/// range is removed outright.  At the minimum rung every frame that
/// intersects the range is removed, so the excluded region is exact to the
/// minimum frame granularity, widened outward to frame boundaries.  The
/// bytes that leave the free lists are counted as withheld.
pub fn reserve(a: &mut BuddyAllocator, start: usize, len: usize)
    requires
        old(a).wf(),
        start as int + len as int <= usize::MAX,
    ensures
        final(a).wf(),
        final(a).mem_size() == old(a).mem_size(),
        final(a).end() == old(a).end(),
        final(a).alloc_set() == old(a).alloc_set(),
        final(a).alloc_bytes() == old(a).alloc_bytes(),
        len == 0 ==> *final(a) == *old(a),
        len > 0 ==> forall|k: int, j: int|
            frame_slot(final(a).rungs(), k, j) ==> frames_disjoint(
                start as int,
                len as int,
                #[trigger] rung_addr(final(a).rungs(), k, j),
                rung_size(k),
            ),
        forall|k: int, j: int|
            frame_slot(old(a).rungs(), k, j) && frames_disjoint(
                start as int,
                len as int,
                #[trigger] rung_addr(old(a).rungs(), k, j),
                rung_size(k),
            ) ==> final(a).rungs()[k].contains(old(a).rungs()[k][j]),
        free_bytes(final(a).rungs()) <= free_bytes(old(a).rungs()),
        final(a).res_bytes() == old(a).res_bytes() + free_bytes(old(a).rungs()) - free_bytes(
            final(a).rungs(),
        ),
        old(a).fully_coalesced() ==> final(a).fully_coalesced(),
{
    if len == 0 {
        return;
    }
    let ghost orig = a.rungs();
    let ghost e = old(a).end();
    let ghost qs = old(a).alloc_set();
    let mut i: usize = NUM_RUNGS - 1;
    let mut s: usize = MAX_FRAME_SIZE;
    proof {
        crate::defs::lemma_rung_size_top();
    }
    while i > 0
        invariant
            old(a).wf(),
            len > 0,
            start as int + len as int <= usize::MAX,
            i < NUM_RUNGS,
            s == rung_size(i as int),
            a.frames@.len() == NUM_RUNGS,
            frames_wf(a.rungs(), e),
            e == old(a).end(),
            a.memory_size == old(a).memory_size,
            a.managed_end == old(a).managed_end,
            a.allocated_frames == old(a).allocated_frames,
            a.allocated_bytes == old(a).allocated_bytes,
            a.reserved_bytes == old(a).reserved_bytes,
            orig == old(a).rungs(),
            free_bytes(a.rungs()) <= free_bytes(orig),
            forall|k: int| 0 <= k < i ==> #[trigger] a.rungs()[k] == orig[k],
            coalesced(orig) ==> (forall|k: int, j: int, l: int|
                i < k < NUM_RUNGS - 1 && 0 <= j < a.rungs()[k].len() && 0 <= l
                    < a.rungs()[k].len() ==> #[trigger] rung_addr(a.rungs(), k, l) != buddy_of(
                    #[trigger] rung_addr(a.rungs(), k, j),
                    rung_size(k),
                )),
            coalesced(orig) && i < NUM_RUNGS - 1 ==> rung_pairs_overlap(
                a.rungs(),
                i as int,
                start as int,
                len as int,
            ),
            forall|k: int, j: int|
                i < k && frame_slot(a.rungs(), k, j) ==> frames_disjoint(
                    start as int,
                    len as int,
                    #[trigger] rung_addr(a.rungs(), k, j),
                    rung_size(k),
                ),
            forall|k: int, j: int|
                frame_slot(orig, k, j) && frames_disjoint(
                    start as int,
                    len as int,
                    #[trigger] rung_addr(orig, k, j),
                    rung_size(k),
                ) ==> a.rungs()[k].contains(orig[k][j]),
            qs == old(a).alloc_set(),
            forall|q: (int, int), k: int, j: int|
                #![trigger qs.contains(q), rung_addr(a.rungs(), k, j)]
                qs.contains(q) && frame_slot(a.rungs(), k, j) ==> frames_disjoint(
                    q.0,
                    rung_size(q.1),
                    rung_addr(a.rungs(), k, j),
                    rung_size(k),
                ),
        decreases i,
    {
        let ghost prev = a.rungs();
        carve_rung(a, i, s, start, len, Ghost(orig), Ghost(e), Ghost(qs));
        proof {
            assert(rung_size(i as int) == 2 * rung_size(i as int - 1));
            if coalesced(orig) {
                assert forall|k: int, j: int, l: int|
                    i as int - 1 < k < NUM_RUNGS - 1 && 0 <= j < a.rungs()[k].len() && 0 <= l
                        < a.rungs()[k].len() implies #[trigger] rung_addr(a.rungs(), k, l)
                    != buddy_of(#[trigger] rung_addr(a.rungs(), k, j), rung_size(k)) by {
                    if k > i as int {
                        assert(a.rungs()[k] == prev[k]);
                        assert(rung_addr(a.rungs(), k, j) == rung_addr(prev, k, j));
                        assert(rung_addr(a.rungs(), k, l) == rung_addr(prev, k, l));
                    }
                }
            }
        }
        i = i - 1;
        s = s / 2;
    }
    // the minimum rung: remove every frame that intersects the range
    let ghost cur0 = a.rungs();
    let end_r = start + len;
    let n = a.frames[0].len();
    let mut keep: Vec<usize> = Vec::new();
    let mut j: usize = 0;
    while j < n
        invariant
            end_r == start + len,
            len > 0,
            a.frames@.len() == NUM_RUNGS,
            frames_wf(a.rungs(), e),
            e <= usize::MAX,
            cur0 == a.rungs(),
            n == cur0[0].len(),
            j <= n,
            rung_sorted(keep@),
            keep@.len() <= j,
            forall|mm: int| 0 <= mm < keep@.len() ==> cur0[0].contains(#[trigger] keep@[mm]),
            forall|mm: int|
                0 <= mm < keep@.len() ==> frames_disjoint(
                    start as int,
                    len as int,
                    #[trigger] keep@[mm] as int,
                    rung_size(0),
                ),
            keep@.len() > 0 && j < n ==> keep@[keep@.len() - 1] < cur0[0][j as int],
            forall|jj: int|
                0 <= jj < j && frames_disjoint(
                    start as int,
                    len as int,
                    #[trigger] rung_addr(cur0, 0, jj),
                    rung_size(0),
                ) ==> keep@.contains(cur0[0][jj]),
        decreases n - j,
    {
        let f = a.frames[0][j];
        proof {
            assert(frame_slot(cur0, 0, j as int));
            assert(rung_addr(cur0, 0, j as int) == f as int);
            assert(f as int + rung_size(0) <= e);
        }
        if f < end_r && f + MIN_FRAME_SIZE > start {
            // intersects the range: it leaves the allocatable universe
        } else {
            let ghost old_keep = keep@;
            keep.push(f);
            proof {
                assert forall|x: int, y: int| 0 <= x < y < keep@.len() implies keep@[x] < keep@[y]
                    by {
                    if y < keep@.len() - 1 {
                        assert(old_keep[x] == keep@[x] && old_keep[y] == keep@[y]);
                    } else if x < keep@.len() - 1 {
                        assert(old_keep[x] == keep@[x]);
                    }
                }
                assert forall|jj: int|
                    0 <= jj < j + 1 && frames_disjoint(
                        start as int,
                        len as int,
                        #[trigger] rung_addr(cur0, 0, jj),
                        rung_size(0),
                    ) implies keep@.contains(cur0[0][jj]) by {
                    if jj < j {
                        assert(old_keep.contains(cur0[0][jj]));
                        let mm = choose|mm: int|
                            0 <= mm < old_keep.len() && old_keep[mm] == cur0[0][jj];
                        assert(keep@[mm] == cur0[0][jj]);
                    } else {
                        assert(keep@[keep@.len() - 1] == cur0[0][jj]);
                    }
                }
            }
        }
        j = j + 1;
    }
    let ghost keepv = keep@;
    let ghost before = a.rungs();
    {
        let slot = &mut a.frames[0];
        *slot = keep;
    }
    proof {
        assert(before == cur0);
        assert(a.rungs() =~= before.update(0, keepv));
        lemma_rung_shrink(before, 0, keepv, e);
        lemma_free_bytes_update(before, 0, keepv, 0);
        lemma_rung_size_pos(0);
        assert((keepv.len() - before[0].len()) * rung_size(0) <= 0) by (nonlinear_arith)
            requires
                keepv.len() <= before[0].len(),
                rung_size(0) > 0,
        ;
        a.reserved_bytes@ = old(a).res_bytes() + free_bytes(orig) - free_bytes(a.rungs());
        // every surviving frame avoids the range
        assert forall|k: int, j2: int| frame_slot(a.rungs(), k, j2) implies frames_disjoint(
            start as int,
            len as int,
            #[trigger] rung_addr(a.rungs(), k, j2),
            rung_size(k),
        ) by {
            if k == 0 {
                assert(a.rungs()[0] == keepv);
                assert(keepv[j2] == a.rungs()[0][j2]);
            } else {
                assert(a.rungs()[k] == before[k]);
                assert(rung_addr(a.rungs(), k, j2) == rung_addr(before, k, j2));
                assert(frame_slot(before, k, j2));
            }
        }
        // surviving old frames are still present
        assert forall|k: int, j2: int|
            frame_slot(orig, k, j2) && frames_disjoint(
                start as int,
                len as int,
                #[trigger] rung_addr(orig, k, j2),
                rung_size(k),
            ) implies a.rungs()[k].contains(orig[k][j2]) by {
            if k == 0 {
                assert(before[0].contains(orig[0][j2]));
                let jj = choose|jj: int| 0 <= jj < before[0].len() && before[0][jj] == orig[0][j2];
                assert(rung_addr(cur0, 0, jj) == orig[0][j2] as int);
                assert(keepv.contains(cur0[0][jj]));
            } else {
                assert(a.rungs()[k] == before[k]);
            }
        }
        if coalesced(orig) {
            assert forall|k: int, j2: int, l2: int|
                0 <= k < a.rungs().len() - 1 && 0 <= j2 < a.rungs()[k].len() && 0 <= l2
                    < a.rungs()[k].len() implies #[trigger] rung_addr(a.rungs(), k, l2)
                != buddy_of(#[trigger] rung_addr(a.rungs(), k, j2), rung_size(k)) by {
                if k == 0 {
                    if rung_addr(a.rungs(), 0, l2) == buddy_of(
                        rung_addr(a.rungs(), 0, j2),
                        rung_size(0),
                    ) {
                        // a buddy pair of kept minimum frames would have a
                        // member inside the range, but kept frames avoid it
                        let y1 = a.rungs()[0][j2];
                        let y2 = a.rungs()[0][l2];
                        assert(keepv[j2] == y1 && keepv[l2] == y2);
                        assert(before[0].contains(y1)) by {
                            assert(keepv.contains(y1)) by {
                                assert(keepv[j2] == y1);
                            }
                        }
                        assert(before[0].contains(y2)) by {
                            assert(keepv.contains(y2)) by {
                                assert(keepv[l2] == y2);
                            }
                        }
                        let w1 = choose|w1: int|
                            0 <= w1 < before[0].len() && #[trigger] before[0][w1] == y1;
                        let w2 = choose|w2: int|
                            0 <= w2 < before[0].len() && #[trigger] before[0][w2] == y2;
                        assert(rung_addr(cur0, 0, w1) == y1 as int);
                        assert(rung_addr(cur0, 0, w2) == y2 as int);
                        assert(frames_disjoint(
                            start as int,
                            len as int,
                            y1 as int,
                            rung_size(0),
                        ));
                        assert(frames_disjoint(
                            start as int,
                            len as int,
                            y2 as int,
                            rung_size(0),
                        ));
                    }
                } else {
                    assert(a.rungs()[k] == before[k]);
                    assert(rung_addr(a.rungs(), k, j2) == rung_addr(cur0, k, j2));
                    assert(rung_addr(a.rungs(), k, l2) == rung_addr(cur0, k, l2));
                }
            }
        }
        // outstanding allocations still avoid every free frame
        assert(a.alloc_set() == qs);
        assert forall|q: (int, int), k: int, j2: int|
            #![trigger qs.contains(q), rung_addr(a.rungs(), k, j2)]
            qs.contains(q) && frame_slot(a.rungs(), k, j2) implies frames_disjoint(
                q.0,
                rung_size(q.1),
                rung_addr(a.rungs(), k, j2),
                rung_size(k),
            ) by {
            if k == 0 {
                let y = a.rungs()[0][j2];
                assert(keepv[j2] == y);
                assert(keepv.contains(y)) by {
                    assert(keepv[j2] == y);
                }
                assert(before[0].contains(y));
                let jj = choose|jj: int| 0 <= jj < before[0].len() && before[0][jj] == y;
                assert(rung_addr(before, 0, jj) == y as int);
                assert(frame_slot(before, 0, jj));
            } else {
                assert(rung_addr(a.rungs(), k, j2) == rung_addr(before, k, j2));
                assert(frame_slot(before, k, j2));
            }
        }
    }
}

/// Carves one rung: frames fully inside `[start, start + len)` are removed,
/// frames partially overlapping it are replaced by their two halves on the
/// rung below, and frames clear of it are kept.
fn carve_rung(
    a: &mut BuddyAllocator,
    i: usize,
    s: usize,
    start: usize,
    len: usize,
    Ghost(orig): Ghost<Seq<Seq<usize>>>,
    Ghost(e): Ghost<int>,
    Ghost(qs): Ghost<Set<(int, int)>>,
)
    requires
        0 < i < NUM_RUNGS,
        s == rung_size(i as int),
        len > 0,
        start as int + len as int <= usize::MAX,
        old(a).frames@.len() == NUM_RUNGS,
        frames_wf(old(a).rungs(), e),
        e == old(a).end(),
        orig.len() == NUM_RUNGS,
        free_bytes(old(a).rungs()) <= free_bytes(orig),
        forall|k: int, j: int|
            frame_slot(orig, k, j) && frames_disjoint(
                start as int,
                len as int,
                #[trigger] rung_addr(orig, k, j),
                rung_size(k),
            ) ==> old(a).rungs()[k].contains(orig[k][j]),
        forall|q: (int, int), k: int, j: int|
            #![trigger qs.contains(q), rung_addr(old(a).rungs(), k, j)]
            qs.contains(q) && frame_slot(old(a).rungs(), k, j) ==> frames_disjoint(
                q.0,
                rung_size(q.1),
                rung_addr(old(a).rungs(), k, j),
                rung_size(k),
            ),
        forall|k: int, j: int|
            i < k && frame_slot(old(a).rungs(), k, j) ==> frames_disjoint(
                start as int,
                len as int,
                #[trigger] rung_addr(old(a).rungs(), k, j),
                rung_size(k),
            ),
        forall|k: int| 0 <= k < i ==> #[trigger] old(a).rungs()[k] == orig[k],
        coalesced(orig) && (i as int) < NUM_RUNGS - 1 ==> rung_pairs_overlap(
            old(a).rungs(),
            i as int,
            start as int,
            len as int,
        ),
    ensures
        final(a).frames@.len() == NUM_RUNGS,
        frames_wf(final(a).rungs(), e),
        final(a).memory_size == old(a).memory_size,
        final(a).managed_end == old(a).managed_end,
        final(a).allocated_frames == old(a).allocated_frames,
        final(a).allocated_bytes == old(a).allocated_bytes,
        final(a).reserved_bytes == old(a).reserved_bytes,
        free_bytes(final(a).rungs()) <= free_bytes(orig),
        forall|k: int, j: int|
            frame_slot(orig, k, j) && frames_disjoint(
                start as int,
                len as int,
                #[trigger] rung_addr(orig, k, j),
                rung_size(k),
            ) ==> final(a).rungs()[k].contains(orig[k][j]),
        forall|q: (int, int), k: int, j: int|
            #![trigger qs.contains(q), rung_addr(final(a).rungs(), k, j)]
            qs.contains(q) && frame_slot(final(a).rungs(), k, j) ==> frames_disjoint(
                q.0,
                rung_size(q.1),
                rung_addr(final(a).rungs(), k, j),
                rung_size(k),
            ),
        forall|k: int, j: int|
            i as int - 1 < k && frame_slot(final(a).rungs(), k, j) ==> frames_disjoint(
                start as int,
                len as int,
                #[trigger] rung_addr(final(a).rungs(), k, j),
                rung_size(k),
            ),
        forall|k: int|
            0 <= k < NUM_RUNGS && k != i as int && k != i as int - 1
                ==> #[trigger] final(a).rungs()[k] == old(a).rungs()[k],
        coalesced(orig) && (i as int) < NUM_RUNGS - 1 ==> (forall|j: int, l: int|
            0 <= j < final(a).rungs()[i as int].len()
                && 0 <= l < final(a).rungs()[i as int].len()
                ==> #[trigger] rung_addr(final(a).rungs(), i as int, l) != buddy_of(
                #[trigger] rung_addr(final(a).rungs(), i as int, j),
                rung_size(i as int),
            )),
        coalesced(orig) ==> rung_pairs_overlap(
            final(a).rungs(),
            i as int - 1,
            start as int,
            len as int,
        ),
{
    let end_r = start + len;
    let ghost cur0 = a.rungs();
    proof {
        lemma_rung_size_pos(i as int);
        lemma_rung_size_pos(i as int - 1);
        assert(rung_size(i as int) == 2 * rung_size(i as int - 1));
    }
    let half = s / 2;
    let n = a.frames[i].len();
    let mut keep: Vec<usize> = Vec::new();
    let mut splits: Vec<usize> = Vec::new();
    let mut j: usize = 0;
    while j < n
        invariant
            end_r == start + len,
            len > 0,
            0 < i < NUM_RUNGS,
            s == rung_size(i as int),
            *a == *old(a),
            a.frames@.len() == NUM_RUNGS,
            frames_wf(a.rungs(), e),
            e <= usize::MAX,
            cur0 == a.rungs(),
            n == cur0[i as int].len(),
            j <= n,
            rung_sorted(keep@),
            rung_sorted(splits@),
            keep@.len() + splits@.len() <= j,
            forall|mm: int| 0 <= mm < keep@.len() ==> cur0[i as int].contains(#[trigger] keep@[mm]),
            forall|mm: int|
                0 <= mm < splits@.len() ==> cur0[i as int].contains(#[trigger] splits@[mm]),
            forall|mm: int|
                0 <= mm < splits@.len() ==> !frames_disjoint(
                    start as int,
                    len as int,
                    #[trigger] splits@[mm] as int,
                    rung_size(i as int),
                ),
            forall|mm: int|
                0 <= mm < keep@.len() ==> frames_disjoint(
                    start as int,
                    len as int,
                    #[trigger] keep@[mm] as int,
                    rung_size(i as int),
                ),
            keep@.len() > 0 && j < n ==> keep@[keep@.len() - 1] < cur0[i as int][j as int],
            splits@.len() > 0 && j < n ==> splits@[splits@.len() - 1] < cur0[i as int][j as int],
            forall|jj: int|
                0 <= jj < j && frames_disjoint(
                    start as int,
                    len as int,
                    #[trigger] rung_addr(cur0, i as int, jj),
                    rung_size(i as int),
                ) ==> keep@.contains(cur0[i as int][jj]),
        decreases n - j,
    {
        let f = a.frames[i][j];
        proof {
            assert(frame_slot(cur0, i as int, j as int));
            assert(rung_addr(cur0, i as int, j as int) == f as int);
            assert(f as int + rung_size(i as int) <= e);
        }
        if f < end_r && f + s > start {
            if start <= f && f + s <= end_r {
                // fully inside: it leaves the allocatable universe
            } else {
                let ghost old_splits = splits@;
                splits.push(f);
                proof {
                    assert forall|x: int, y: int|
                        0 <= x < y < splits@.len() implies splits@[x] < splits@[y] by {
                        if y < splits@.len() - 1 {
                            assert(old_splits[x] == splits@[x] && old_splits[y] == splits@[y]);
                        } else if x < splits@.len() - 1 {
                            assert(old_splits[x] == splits@[x]);
                        }
                    }
                }
            }
        } else {
            let ghost old_keep = keep@;
            keep.push(f);
            proof {
                assert forall|x: int, y: int| 0 <= x < y < keep@.len() implies keep@[x] < keep@[y]
                    by {
                    if y < keep@.len() - 1 {
                        assert(old_keep[x] == keep@[x] && old_keep[y] == keep@[y]);
                    } else if x < keep@.len() - 1 {
                        assert(old_keep[x] == keep@[x]);
                    }
                }
                assert forall|jj: int|
                    0 <= jj < j + 1 && frames_disjoint(
                        start as int,
                        len as int,
                        #[trigger] rung_addr(cur0, i as int, jj),
                        rung_size(i as int),
                    ) implies keep@.contains(cur0[i as int][jj]) by {
                    if jj < j {
                        assert(old_keep.contains(cur0[i as int][jj]));
                        let mm = choose|mm: int|
                            0 <= mm < old_keep.len() && old_keep[mm] == cur0[i as int][jj];
                        assert(keep@[mm] == cur0[i as int][jj]);
                    } else {
                        assert(keep@[keep@.len() - 1] == cur0[i as int][jj]);
                    }
                }
            }
        }
        j = j + 1;
    }
    let ghost keepv = keep@;
    let ghost splitsv = splits@;
    let ghost before = a.rungs();
    {
        let slot = &mut a.frames[i];
        *slot = keep;
    }
    let ghost mid = a.rungs();
    proof {
        assert(before == cur0);
        assert(mid =~= before.update(i as int, keepv));
        assert(mid[i as int - 1] == cur0[i as int - 1]);
        lemma_rung_shrink(before, i as int, keepv, e);
        lemma_free_bytes_update(before, i as int, keepv, 0);
        assert((keepv.len() - before[i as int].len()) * rung_size(i as int) <= 0)
            by (nonlinear_arith)
            requires
                keepv.len() <= before[i as int].len(),
                rung_size(i as int) > 0,
        ;
        // outstanding allocations avoid the kept frames, which were free
        assert forall|q: (int, int), k: int, j2: int|
            #![trigger qs.contains(q), rung_addr(mid, k, j2)]
            qs.contains(q) && frame_slot(mid, k, j2) implies frames_disjoint(
                q.0,
                rung_size(q.1),
                rung_addr(mid, k, j2),
                rung_size(k),
            ) by {
            if k == i as int {
                let y = mid[k][j2];
                assert(keepv[j2] == y);
                assert(keepv.contains(y)) by {
                    assert(keepv[j2] == y);
                }
                assert(cur0[i as int].contains(y));
                let jy = choose|jy: int| 0 <= jy < cur0[i as int].len() && cur0[i as int][jy] == y;
                assert(rung_addr(cur0, i as int, jy) == y as int);
                assert(frame_slot(cur0, i as int, jy));
            } else {
                assert(rung_addr(mid, k, j2) == rung_addr(cur0, k, j2));
                assert(frame_slot(cur0, k, j2));
            }
        }
        if coalesced(orig) {
            // the rung below still holds its original, fully coalesced
            // contents: no buddy pair exists there at all
            assert(mid[i as int - 1] == orig[i as int - 1]);
            assert forall|j2: int, l2: int|
                0 <= j2 < mid[i as int - 1].len() && 0 <= l2 < mid[i as int - 1].len()
                    && #[trigger] rung_addr(mid, i as int - 1, l2) == buddy_of(
                    #[trigger] rung_addr(mid, i as int - 1, j2),
                    rung_size(i as int - 1),
                ) implies !frames_disjoint(
                    start as int,
                    len as int,
                    rung_addr(mid, i as int - 1, j2),
                    rung_size(i as int - 1),
                ) || !frames_disjoint(
                    start as int,
                    len as int,
                    rung_addr(mid, i as int - 1, l2),
                    rung_size(i as int - 1),
                ) by {
                assert(rung_addr(mid, i as int - 1, j2) == rung_addr(orig, i as int - 1, j2));
                assert(rung_addr(mid, i as int - 1, l2) == rung_addr(orig, i as int - 1, l2));
            }
        }
        // pending splits overlap no frame once their rung entry is gone
        assert forall|m2: int, k: int, j2: int|
            #![trigger splitsv[m2], rung_addr(mid, k, j2)]
            0 <= m2 < splitsv.len() && frame_slot(mid, k, j2) implies frames_disjoint(
                splitsv[m2] as int,
                rung_size(i as int),
                rung_addr(mid, k, j2),
                rung_size(k),
            ) by {
            let fsp = splitsv[m2];
            assert(cur0[i as int].contains(fsp));
            let jf = choose|jf: int| 0 <= jf < cur0[i as int].len() && cur0[i as int][jf] == fsp;
            assert(frame_slot(cur0, i as int, jf) && rung_addr(cur0, i as int, jf) == fsp as int);
            if k == i as int {
                let y = mid[k][j2];
                assert(keepv[j2] == y);
                assert(keepv.contains(y)) by {
                    assert(keepv[j2] == y);
                }
                assert(cur0[i as int].contains(y));
                let jy = choose|jy: int| 0 <= jy < cur0[i as int].len() && cur0[i as int][jy] == y;
                assert(rung_addr(cur0, i as int, jy) == y as int);
                // the kept frame avoids the range while the split one meets
                // it, so the two are different frames
                assert(y != fsp);
                assert(jy != jf);
            } else {
                assert(rung_addr(mid, k, j2) == rung_addr(cur0, k, j2));
                assert(frame_slot(cur0, k, j2));
                assert((k, j2) != ((i as int, jf)));
            }
        }
    }
    // replace each straddling frame by its two halves on the rung below
    let mut m: usize = 0;
    while m < splits.len()
        invariant
            end_r == start + len,
            len > 0,
            0 < i < NUM_RUNGS,
            s == rung_size(i as int),
            half == rung_size(i as int - 1),
            s == 2 * half,
            splits@ == splitsv,
            rung_sorted(splitsv),
            a.frames@.len() == NUM_RUNGS,
            frames_wf(a.rungs(), e),
            a.memory_size == old(a).memory_size,
            a.managed_end == old(a).managed_end,
            a.allocated_frames == old(a).allocated_frames,
            a.allocated_bytes == old(a).allocated_bytes,
            a.reserved_bytes == old(a).reserved_bytes,
            m <= splitsv.len(),
            cur0 == old(a).rungs(),
            frames_wf(cur0, e),
            e <= usize::MAX,
            forall|mm: int|
                0 <= mm < splitsv.len() ==> cur0[i as int].contains(#[trigger] splitsv[mm]),
            forall|mm: int|
                0 <= mm < splitsv.len() ==> !frames_disjoint(
                    start as int,
                    len as int,
                    #[trigger] splitsv[mm] as int,
                    rung_size(i as int),
                ),
            forall|mm: int|
                0 <= mm < keepv.len() ==> frames_disjoint(
                    start as int,
                    len as int,
                    #[trigger] keepv[mm] as int,
                    rung_size(i as int),
                ),
            a.rungs()[i as int] == keepv,
            forall|k: int| 0 <= k < NUM_RUNGS && k != i as int - 1 && k != i as int
                ==> #[trigger] a.rungs()[k] == cur0[k],
            forall|y: usize| mid[i as int - 1].contains(y) ==> #[trigger] a.rungs()[i as int
                - 1].contains(y),
            mid[i as int - 1] == cur0[i as int - 1],
            forall|m2: int, k: int, j2: int|
                #![trigger splitsv[m2], rung_addr(a.rungs(), k, j2)]
                m <= m2 < splitsv.len() && frame_slot(a.rungs(), k, j2) ==> frames_disjoint(
                    splitsv[m2] as int,
                    rung_size(i as int),
                    rung_addr(a.rungs(), k, j2),
                    rung_size(k),
                ),
            free_bytes(a.rungs()) == free_bytes(mid) + m * rung_size(i as int),
            free_bytes(mid) <= free_bytes(orig),
            coalesced(orig) ==> rung_pairs_overlap(
                a.rungs(),
                i as int - 1,
                start as int,
                len as int,
            ),
            forall|q: (int, int), k: int, j2: int|
                #![trigger qs.contains(q), rung_addr(cur0, k, j2)]
                qs.contains(q) && frame_slot(cur0, k, j2) ==> frames_disjoint(
                    q.0,
                    rung_size(q.1),
                    rung_addr(cur0, k, j2),
                    rung_size(k),
                ),
            forall|q: (int, int), k: int, j2: int|
                #![trigger qs.contains(q), rung_addr(a.rungs(), k, j2)]
                qs.contains(q) && frame_slot(a.rungs(), k, j2) ==> frames_disjoint(
                    q.0,
                    rung_size(q.1),
                    rung_addr(a.rungs(), k, j2),
                    rung_size(k),
                ),
        decreases splitsv.len() - m,
    {
        let f = splits[m];
        let ghost top = a.rungs();
        proof {
            assert(cur0[i as int].contains(splitsv[m as int]));
            let j0 = choose|j0: int|
                0 <= j0 < cur0[i as int].len() && cur0[i as int][j0] == splitsv[m as int];
            assert(frame_slot(cur0, i as int, j0));
            assert(rung_addr(cur0, i as int, j0) == f as int);
            assert(f as int % rung_size(i as int) == 0);
            assert(f as int + rung_size(i as int) <= e);
            lemma_rung_size_pos(i as int);
            lemma_rung_size_pos(i as int - 1);
            crate::defs::lemma_rung_size_divides(i as int - 1, i as int);
            lemma_mod_div_transitive(f as int, rung_size(i as int), rung_size(i as int - 1));
            lemma_mod_multiples_vanish(1, f as int, rung_size(i as int - 1));
            // the lower half overlaps no current frame
            assert forall|k: int, j2: int| frame_slot(top, k, j2) implies frames_disjoint(
                f as int,
                rung_size(i as int - 1),
                #[trigger] rung_addr(top, k, j2),
                rung_size(k),
            ) by {
                assert(frames_disjoint(
                    splitsv[m as int] as int,
                    rung_size(i as int),
                    rung_addr(top, k, j2),
                    rung_size(k),
                ));
            }
            lemma_rung_insert_wf(top, i as int - 1, f, e);
            lemma_sorted_insert_props(top[i as int - 1], f);
        }
        let ghost t1 = sorted_insert(top[i as int - 1], f);
        insert_addr(&mut a.frames[i - 1], f);
        let ghost after1 = a.rungs();
        proof {
            assert(after1 =~= top.update(i as int - 1, t1));
            lemma_free_bytes_update(top, i as int - 1, t1, 0);
            assert(t1.len() == top[i as int - 1].len() + 1);
            assert((t1.len() - top[i as int - 1].len()) * rung_size(i as int - 1) == rung_size(
                i as int - 1,
            )) by (nonlinear_arith)
                requires t1.len() == top[i as int - 1].len() + 1,
            ;
            assert(free_bytes(after1) == free_bytes(top) + rung_size(i as int - 1));
            // the upper half overlaps nothing either: the lower half is
            // adjacent, everything else avoids the whole split frame
            assert forall|k: int, j2: int| frame_slot(after1, k, j2) implies frames_disjoint(
                f as int + rung_size(i as int - 1),
                rung_size(i as int - 1),
                #[trigger] rung_addr(after1, k, j2),
                rung_size(k),
            ) by {
                if k == i as int - 1 {
                    let y = after1[k][j2];
                    assert(t1[j2] == y);
                    assert(t1.contains(y));
                    if y == f {
                    } else {
                        assert(top[i as int - 1].contains(y));
                        let tr = top[i as int - 1];
                        let jy = choose|jy: int| 0 <= jy < tr.len() && #[trigger] tr[jy] == y;
                        assert(top[i as int - 1][jy] == y);
                        assert(frame_slot(top, i as int - 1, jy));
                        assert(rung_addr(top, i as int - 1, jy) == y as int);
                        assert(frames_disjoint(
                            splitsv[m as int] as int,
                            rung_size(i as int),
                            rung_addr(top, i as int - 1, jy),
                            rung_size(i as int - 1),
                        ));
                    }
                } else {
                    assert(rung_addr(after1, k, j2) == rung_addr(top, k, j2));
                    assert(frame_slot(top, k, j2));
                    assert(frames_disjoint(
                        splitsv[m as int] as int,
                        rung_size(i as int),
                        rung_addr(top, k, j2),
                        rung_size(k),
                    ));
                }
            }
            lemma_rung_insert_wf(after1, i as int - 1, (f + half) as usize, e);
            lemma_sorted_insert_props(after1[i as int - 1], (f + half) as usize);
        }
        let c2 = f + half;
        let ghost t2 = sorted_insert(after1[i as int - 1], c2);
        insert_addr(&mut a.frames[i - 1], c2);
        proof {
            let after2 = a.rungs();
            assert(after2 =~= after1.update(i as int - 1, t2));
            lemma_free_bytes_update(after1, i as int - 1, t2, 0);
            assert(t2.len() == after1[i as int - 1].len() + 1);
            assert((t2.len() - after1[i as int - 1].len()) * rung_size(i as int - 1) == rung_size(
                i as int - 1,
            )) by (nonlinear_arith)
                requires t2.len() == after1[i as int - 1].len() + 1,
            ;
            assert(free_bytes(after2) == free_bytes(after1) + rung_size(i as int - 1));
            assert(free_bytes(after2) == free_bytes(mid) + m * rung_size(i as int) + rung_size(
                i as int,
            ));
            assert((m + 1) * rung_size(i as int) == m * rung_size(i as int) + rung_size(i as int))
                by (nonlinear_arith);
            // growth of the rung below keeps old entries present
            assert forall|y: usize| mid[i as int - 1].contains(y) implies #[trigger] after2[i as int
                - 1].contains(y) by {
                assert(t1.contains(y));
                assert(t2.contains(y));
            }
            if coalesced(orig) {
                // new buddy pairs can only be the two fresh halves, whose
                // parent meets the range
                let h2 = rung_size(i as int - 1);
                lemma_buddy_involution(f as int, h2);
                assert forall|j2: int, l2: int|
                    0 <= j2 < after2[i as int - 1].len() && 0 <= l2 < after2[i as int - 1].len()
                        && #[trigger] rung_addr(after2, i as int - 1, l2) == buddy_of(
                        #[trigger] rung_addr(after2, i as int - 1, j2),
                        h2,
                    ) implies !frames_disjoint(
                        start as int,
                        len as int,
                        rung_addr(after2, i as int - 1, j2),
                        h2,
                    ) || !frames_disjoint(
                        start as int,
                        len as int,
                        rung_addr(after2, i as int - 1, l2),
                        h2,
                    ) by {
                    let y1 = after2[i as int - 1][j2];
                    let y2 = after2[i as int - 1][l2];
                    assert(t2[j2] == y1 && t2[l2] == y2);
                    assert(t2.contains(y1) && t2.contains(y2));
                    assert(rung_addr(after2, i as int - 1, j2) % h2 == 0);
                    assert(rung_addr(after2, i as int - 1, l2) % h2 == 0);
                    lemma_buddy_involution(y1 as int, h2);
                    let fresh1 = y1 == f || y1 == c2;
                    let fresh2 = y2 == f || y2 == c2;
                    if fresh1 && fresh2 {
                        // the sibling pair of this split: the parent frame
                        // meets the range, so one of its halves does
                        assert(!frames_disjoint(
                            start as int,
                            len as int,
                            f as int,
                            rung_size(i as int),
                        ));
                    } else if fresh1 {
                        // the buddy of a fresh half is the other fresh half
                        assert(y2 as int == buddy_of(y1 as int, h2));
                        assert(y2 == f || y2 == c2);
                    } else if fresh2 {
                        assert(y1 as int == buddy_of(y2 as int, h2));
                        assert(y1 == f || y1 == c2);
                    } else {
                        // two entries that were already present: the pass
                        // invariant covers them
                        assert(t1.contains(y1) && t1.contains(y2));
                        assert(top[i as int - 1].contains(y1));
                        assert(top[i as int - 1].contains(y2));
                        let tr3 = top[i as int - 1];
                        let w1 = choose|w1: int| 0 <= w1 < tr3.len() && #[trigger] tr3[w1] == y1;
                        let w2 = choose|w2: int| 0 <= w2 < tr3.len() && #[trigger] tr3[w2] == y2;
                        assert(rung_addr(top, i as int - 1, w1) == y1 as int);
                        assert(rung_addr(top, i as int - 1, w2) == y2 as int);
                    }
                }
            }
            // pending splits still clear of everything: the two new halves
            // lie inside their own split frame, disjoint from later ones
            assert forall|m2: int, k: int, j2: int|
                #![trigger splitsv[m2], rung_addr(after2, k, j2)]
                m + 1 <= m2 < splitsv.len() && frame_slot(after2, k, j2) implies frames_disjoint(
                    splitsv[m2] as int,
                    rung_size(i as int),
                    rung_addr(after2, k, j2),
                    rung_size(k),
                ) by {
                let fsp = splitsv[m2];
                if k == i as int - 1 {
                    let y = after2[k][j2];
                    assert(t2[j2] == y);
                    assert(t2.contains(y));
                    if y == c2 || y == f {
                        // both halves lie inside the split frame `f`, and
                        // distinct split frames are disjoint
                        let jf = choose|jf: int|
                            0 <= jf < cur0[i as int].len() && cur0[i as int][jf] == splitsv[m as int];
                        let jf2 = choose|jf2: int|
                            0 <= jf2 < cur0[i as int].len() && cur0[i as int][jf2] == fsp;
                        assert(frame_slot(cur0, i as int, jf));
                        assert(frame_slot(cur0, i as int, jf2));
                        assert(rung_addr(cur0, i as int, jf) == f as int);
                        assert(rung_addr(cur0, i as int, jf2) == fsp as int);
                        assert(splitsv[m as int] != fsp);
                        assert(jf != jf2);
                        assert(frames_disjoint(
                            f as int,
                            rung_size(i as int),
                            fsp as int,
                            rung_size(i as int),
                        ));
                    } else {
                        assert(t1.contains(y));
                        assert(top[i as int - 1].contains(y));
                        let tr = top[i as int - 1];
                        let jy = choose|jy: int| 0 <= jy < tr.len() && #[trigger] tr[jy] == y;
                        assert(top[i as int - 1][jy] == y);
                        assert(frame_slot(top, i as int - 1, jy));
                        assert(rung_addr(top, i as int - 1, jy) == y as int);
                    }
                } else {
                    assert(rung_addr(after2, k, j2) == rung_addr(top, k, j2));
                    assert(frame_slot(top, k, j2));
                }
            }
            // outstanding allocations avoid the new halves: they avoided the
            // whole split frame, an original free frame
            assert forall|q: (int, int), k: int, j2: int|
                #![trigger qs.contains(q), rung_addr(after2, k, j2)]
                qs.contains(q) && frame_slot(after2, k, j2) implies
                frames_disjoint(
                    q.0,
                    rung_size(q.1),
                    rung_addr(after2, k, j2),
                    rung_size(k),
                ) by {
                if k == i as int - 1 {
                    let y = after2[k][j2];
                    assert(t2[j2] == y);
                    assert(t2.contains(y));
                    if y == c2 || y == f {
                        let jf = choose|jf: int|
                            0 <= jf < cur0[i as int].len() && cur0[i as int][jf] == splitsv[m as int];
                        assert(frame_slot(cur0, i as int, jf));
                        assert(rung_addr(cur0, i as int, jf) == f as int);
                        assert(frames_disjoint(
                            q.0,
                            rung_size(q.1),
                            f as int,
                            rung_size(i as int),
                        ));
                    } else {
                        assert(t1.contains(y));
                        assert(top[i as int - 1].contains(y));
                        let tr = top[i as int - 1];
                        let jy = choose|jy: int| 0 <= jy < tr.len() && #[trigger] tr[jy] == y;
                        assert(top[i as int - 1][jy] == y);
                        assert(frame_slot(top, i as int - 1, jy));
                        assert(rung_addr(top, i as int - 1, jy) == y as int);
                    }
                } else {
                    assert(rung_addr(after2, k, j2) == rung_addr(top, k, j2));
                    assert(frame_slot(top, k, j2));
                }
            }
        }
        m = m + 1;
    }
    proof {
        assert(free_bytes(a.rungs()) <= free_bytes(orig)) by {
            assert(free_bytes(mid) + splitsv.len() * rung_size(i as int) <= free_bytes(orig) + (
            splitsv.len() - (before[i as int].len() - keepv.len())) * rung_size(i as int))
                by (nonlinear_arith)
                requires
                    free_bytes(mid) == free_bytes(before) + (keepv.len() - before[i as int].len())
                        * rung_size(i as int),
                    free_bytes(before) <= free_bytes(orig),
                    rung_size(i as int) > 0,
            ;
            assert(splitsv.len() <= before[i as int].len() - keepv.len());
            assert((splitsv.len() - (before[i as int].len() - keepv.len())) * rung_size(i as int)
                <= 0) by (nonlinear_arith)
                requires
                    splitsv.len() <= before[i as int].len() - keepv.len(),
                    rung_size(i as int) > 0,
            ;
            assert(m * rung_size(i as int) <= splitsv.len() * rung_size(i as int))
                by (nonlinear_arith)
                requires
                    m <= splitsv.len(),
                    rung_size(i as int) > 0,
            ;
        }
        assert(cur0 == old(a).rungs());
        if coalesced(orig) && (i as int) < NUM_RUNGS - 1 {
            // the kept frames avoid the range; an entry buddy pair had a
            // member meeting it, so no pair survives on this rung
            assert forall|j2: int, l2: int|
                0 <= j2 < a.rungs()[i as int].len() && 0 <= l2 < a.rungs()[i as int].len()
                implies #[trigger] rung_addr(a.rungs(), i as int, l2) != buddy_of(
                    #[trigger] rung_addr(a.rungs(), i as int, j2),
                    rung_size(i as int),
                ) by {
                if rung_addr(a.rungs(), i as int, l2) == buddy_of(
                    rung_addr(a.rungs(), i as int, j2),
                    rung_size(i as int),
                ) {
                    let y1 = a.rungs()[i as int][j2];
                    let y2 = a.rungs()[i as int][l2];
                    assert(keepv[j2] == y1 && keepv[l2] == y2);
                    assert(frames_disjoint(start as int, len as int, y1 as int, rung_size(i as int)));
                    assert(frames_disjoint(start as int, len as int, y2 as int, rung_size(i as int)));
                    assert(cur0[i as int].contains(y1)) by {
                        assert(keepv.contains(y1)) by {
                            assert(keepv[j2] == y1);
                        }
                    }
                    assert(cur0[i as int].contains(y2)) by {
                        assert(keepv.contains(y2)) by {
                            assert(keepv[l2] == y2);
                        }
                    }
                    let tr4 = cur0[i as int];
                    let w1 = choose|w1: int| 0 <= w1 < tr4.len() && #[trigger] tr4[w1] == y1;
                    let w2 = choose|w2: int| 0 <= w2 < tr4.len() && #[trigger] tr4[w2] == y2;
                    assert(rung_addr(cur0, i as int, w1) == y1 as int);
                    assert(rung_addr(cur0, i as int, w2) == y2 as int);
                }
            }
        }
        // frames on this rung and above avoid the range
        assert forall|k: int, j2: int|
            i as int - 1 < k && frame_slot(a.rungs(), k, j2) implies frames_disjoint(
                start as int,
                len as int,
                #[trigger] rung_addr(a.rungs(), k, j2),
                rung_size(k),
            ) by {
            if k == i as int {
                let y = a.rungs()[k][j2];
                assert(keepv[j2] == y);
                assert(frames_disjoint(start as int, len as int, keepv[j2] as int, rung_size(k)));
            } else {
                assert(a.rungs()[k] == cur0[k]);
                assert(rung_addr(a.rungs(), k, j2) == rung_addr(cur0, k, j2));
                assert(frame_slot(cur0, k, j2));
            }
        }
        // old frames clear of the range survive
        assert forall|k: int, j2: int|
            frame_slot(orig, k, j2) && frames_disjoint(
                start as int,
                len as int,
                #[trigger] rung_addr(orig, k, j2),
                rung_size(k),
            ) implies a.rungs()[k].contains(orig[k][j2]) by {
            let y = orig[k][j2];
            assert(old(a).rungs()[k].contains(y));
            if k == i as int {
                let jj = choose|jj: int|
                    0 <= jj < cur0[i as int].len() && cur0[i as int][jj] == y;
                assert(rung_addr(cur0, i as int, jj) == y as int);
                assert(keepv.contains(cur0[i as int][jj]));
            } else if k == i as int - 1 {
                assert(mid[i as int - 1].contains(y));
            } else {
                assert(a.rungs()[k] == cur0[k]);
            }
        }
    }
}

} // verus!
