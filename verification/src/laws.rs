//! The allocator's global laws: conservation of bytes, alignment of served
//! addresses, disjointness of frames, the allocate/free round trip, and
//! completeness of buddy coalescing.

use vstd::prelude::*;
use crate::allocation::alloc_transition;
use crate::deallocation::dealloc_transition;
use crate::defs::{
    buddy_of, coalesce, first_free_from, frame_slot, frames_disjoint, free_bytes,
    lemma_aligned_down, lemma_buddy_involution, lemma_rung_of_props, lemma_rung_size_divides,
    lemma_rung_size_mono, lemma_rung_size_pos, lemma_sorted_insert_head,
    lemma_sorted_insert_props, remove_value, rung_addr, rung_has, rung_of, rung_size, rung_sorted,
    sorted_insert, NUM_RUNGS,
};
use crate::registry::BuddyAllocator;

verus! {

/// Conservation: in every reachable state, the free bytes, the bytes of the
/// outstanding allocations and the withheld bytes add up to the memory size
/// handed to boot-time initialization.  (Bytes beyond the last whole
/// maximum-size frame are withheld from the start.)
pub proof fn lemma_conservation(a: BuddyAllocator)
    requires
        a.wf(),
    ensures
        free_bytes(a.rungs()) + a.alloc_bytes() + a.res_bytes() == a.mem_size(),
{
}

/// Alignment: every address a successful allocation returns is a multiple
/// of the size of the rung that served the request.
pub proof fn lemma_alignment(pre: BuddyAllocator, post: BuddyAllocator, size: usize, p: usize)
    requires
        alloc_transition(pre, post, size, p),
    ensures
        p as int % rung_size(rung_of(size as int)) == 0,
{
}

/// No overlap: two distinct free frames, on any rungs, never cover
/// intersecting byte ranges.
pub proof fn lemma_no_overlap(a: BuddyAllocator, i: int, j: int, k: int, l: int)
    requires
        a.wf(),
        frame_slot(a.rungs(), i, j),
        frame_slot(a.rungs(), k, l),
        i != k || j != l,
    ensures
        frames_disjoint(
            rung_addr(a.rungs(), i, j),
            rung_size(i),
            rung_addr(a.rungs(), k, l),
            rung_size(k),
        ),
{
}

/// No overlap, continued: a free frame never intersects the range of an
/// outstanding allocation.
pub proof fn lemma_free_allocated_disjoint(a: BuddyAllocator, q: (int, int), i: int, j: int)
    requires
        a.wf(),
        a.alloc_set().contains(q),
        frame_slot(a.rungs(), i, j),
    ensures
        frames_disjoint(q.0, rung_size(q.1), rung_addr(a.rungs(), i, j), rung_size(i)),
{
}

/// All rungs below the first populated one are empty.
proof fn lemma_first_free_empty(fr: Seq<Seq<usize>>, i: int)
    requires
        0 <= i <= NUM_RUNGS,
    ensures
        i <= first_free_from(fr, i) <= NUM_RUNGS,
        forall|k: int| i <= k < first_free_from(fr, i) ==> fr[k].len() == 0,
        first_free_from(fr, i) < NUM_RUNGS ==> fr[first_free_from(fr, i)].len() > 0,
    decreases NUM_RUNGS - i,
{
    if i < NUM_RUNGS && fr[i].len() == 0 {
        lemma_first_free_empty(fr, i + 1);
    }
}

/// Removing a freshly inserted address undoes the insertion.
proof fn lemma_remove_sorted_insert(s: Seq<usize>, x: usize)
    requires
        rung_sorted(s),
        !s.contains(x),
    ensures
        remove_value(sorted_insert(s, x), x) == s,
    decreases s.len(),
{
    if s.len() == 0 {
        assert(remove_value(sorted_insert(s, x), x) =~= s);
    } else if x < s[0] {
        assert(sorted_insert(s, x) == seq![x] + s);
        assert((seq![x] + s)[0] == x);
        assert(remove_value(seq![x] + s, x) =~= s);
    } else {
        assert(x != s[0]) by {
            if x == s[0] {
                assert(s.contains(x)) by {
                    assert(s[0] == x);
                }
            }
        }
        let d = s.drop_first();
        assert(rung_sorted(d)) by {
            assert(forall|j: int, l: int|
                0 <= j < l < d.len() ==> d[j] == s[j + 1] && d[l] == s[l + 1]);
        }
        assert(!d.contains(x)) by {
            if d.contains(x) {
                let w = choose|w: int| 0 <= w < d.len() && d[w] == x;
                assert(s[w + 1] == x);
            }
        }
        lemma_remove_sorted_insert(d, x);
        let ins = sorted_insert(s, x);
        assert(ins == seq![s[0]] + sorted_insert(d, x));
        assert(ins[0] == s[0]);
        assert(ins.drop_first() =~= sorted_insert(d, x));
        assert(remove_value(ins, x) == seq![ins[0]] + remove_value(ins.drop_first(), x));
        assert(remove_value(ins, x) =~= s);
    }
}

/// Climbing back up: the coalescing walk started on the block just carved
/// out undoes the split chain exactly, restoring the registry that the
/// allocation started from.
proof fn lemma_coalesce_undoes_split(
    fr0: Seq<Seq<usize>>,
    mr: Seq<Seq<usize>>,
    p: usize,
    i: int,
    f: int,
)
    requires
        fr0.len() == NUM_RUNGS,
        mr.len() == NUM_RUNGS,
        0 <= i <= f < NUM_RUNGS,
        fr0[f].len() > 0,
        p == fr0[f][0],
        p as int % rung_size(f) == 0,
        p as int + rung_size(f) <= usize::MAX,
        rung_sorted(fr0[f]),
        crate::defs::coalesced(fr0),
        forall|k: int| i <= k < f ==> #[trigger] fr0[k].len() == 0,
        forall|k: int| i <= k < f ==> #[trigger] mr[k] == seq![(p as int + rung_size(k)) as usize],
        mr[f] == fr0[f].drop_first(),
        forall|k: int| 0 <= k < NUM_RUNGS && !(i <= k <= f) ==> #[trigger] mr[k] == fr0[k],
    ensures
        coalesce(mr, p, i) == fr0,
    decreases f - i,
{
    lemma_rung_size_pos(i);
    let s = rung_size(i);
    if i == f {
        // the walk stops here: the buddy of `p` is not free, because the
        // registry it came from was fully coalesced
        if i < NUM_RUNGS - 1 {
            let b = buddy_of(p as int, s);
            assert(!rung_has(mr[i], b)) by {
                if rung_has(mr[i], b) {
                    let l = choose|l: int| 0 <= l < mr[i].len() && mr[i][l] == b;
                    assert(fr0[i][l + 1] == b);
                    assert(rung_addr(fr0, i, l + 1) == buddy_of(rung_addr(fr0, i, 0), rung_size(i)));
                }
            }
        }
        assert(coalesce(mr, p, i) == mr.update(i, sorted_insert(mr[i], p)));
        lemma_sorted_insert_head(fr0[f]);
        assert(sorted_insert(mr[f], p) == fr0[f]);
        assert(mr.update(f, fr0[f]) =~= fr0);
    } else {
        lemma_rung_size_mono(i + 1, f);
        lemma_rung_size_divides(i + 1, f);
        lemma_aligned_down(p as int, i + 1, f);
        // p is aligned to the next rung, so its buddy here is the upper half
        assert(rung_size(i + 1) == 2 * s);
        assert(p as int % (2 * s) == 0);
        let b = buddy_of(p as int, s);
        assert(b == p as int + s);
        assert(mr[i] == seq![(p as int + rung_size(i)) as usize]);
        assert(rung_has(mr[i], b)) by {
            assert(mr[i][0] == (p as int + s) as usize);
        }
        let t = remove_value(mr[i], b as usize);
        assert(t =~= fr0[i]) by {
            assert(mr[i][0] == b as usize);
        }
        let mr2 = mr.update(i, t);
        assert(coalesce(mr, p, i) == coalesce(mr2, p, i + 1)) by {
            assert(p as int <= b);
        }
        assert forall|k: int| i + 1 <= k < f implies #[trigger] mr2[k] == seq![(p as int
            + rung_size(k)) as usize] by {
            assert(mr2[k] == mr[k]);
        }
        assert forall|k: int| 0 <= k < NUM_RUNGS && !(i + 1 <= k <= f) implies #[trigger] mr2[k]
            == fr0[k] by {
            if k == i {
                assert(mr2[i] == t);
            } else {
                assert(mr2[k] == mr[k]);
            }
        }
        lemma_coalesce_undoes_split(fr0, mr2, p, i + 1, f);
    }
}

/// Round trip: allocating a block and immediately freeing it restores the
/// registry to its exact prior state — the same free addresses on every
/// rung — and restores the ghost books.
pub proof fn lemma_alloc_dealloc_round_trip(
    pre: BuddyAllocator,
    mid: BuddyAllocator,
    post: BuddyAllocator,
    size: usize,
    p: usize,
)
    requires
        pre.wf(),
        pre.fully_coalesced(),
        alloc_transition(pre, mid, size, p),
        dealloc_transition(mid, post, p, size),
    ensures
        post.rungs() == pre.rungs(),
        post.alloc_set() == pre.alloc_set(),
        post.alloc_bytes() == pre.alloc_bytes(),
        post.res_bytes() == pre.res_bytes(),
        post.mem_size() == pre.mem_size(),
{
    let fr0 = pre.rungs();
    let r0 = rung_of(size as int);
    let f = first_free_from(fr0, r0);
    lemma_rung_of_props(size as int);
    lemma_first_free_empty(fr0, r0);
    assert(frame_slot(fr0, f, 0));
    assert(rung_addr(fr0, f, 0) % rung_size(f) == 0);
    assert(rung_addr(fr0, f, 0) + rung_size(f) <= pre.end());
    lemma_coalesce_undoes_split(fr0, mid.rungs(), p, r0, f);
    assert(post.rungs() == coalesce(mid.rungs(), p, r0));
    // the handed-out pair was fresh, so inserting and removing it cancels
    let pr = (p as int, r0);
    assert(!pre.alloc_set().contains(pr)) by {
        if pre.alloc_set().contains(pr) {
            lemma_rung_size_pos(r0);
            lemma_rung_size_pos(f);
            assert(frames_disjoint(p as int, rung_size(r0), rung_addr(fr0, f, 0), rung_size(f)));
        }
    }
    assert(post.alloc_set() =~= pre.alloc_set());
}

/// Coalescing completeness.  On a rung below the top, with neither half of
/// a buddy pair free: freeing one half alone leaves it free on its own rung
/// (first equation); freeing the other half afterwards removes the first
/// from that rung and continues the walk from the pair's parent frame on
/// the rung above (second equation).  Applying the law with the two halves
/// exchanged covers the other order of the two frees.
pub proof fn lemma_coalescing_completeness(fr: Seq<Seq<usize>>, a: usize, i: int)
    requires
        fr.len() == NUM_RUNGS,
        0 <= i < NUM_RUNGS - 1,
        a as int % rung_size(i) == 0,
        a as int + rung_size(i) <= usize::MAX,
        rung_sorted(fr[i]),
        !rung_has(fr[i], a as int),
        !rung_has(fr[i], buddy_of(a as int, rung_size(i))),
    ensures
        coalesce(fr, a, i)[i] == sorted_insert(fr[i], a),
        coalesce(
            coalesce(fr, a, i),
            buddy_of(a as int, rung_size(i)) as usize,
            i,
        ) == coalesce(
            fr,
            if a as int <= buddy_of(a as int, rung_size(i)) {
                a
            } else {
                buddy_of(a as int, rung_size(i)) as usize
            },
            i + 1,
        ),
{
    lemma_rung_size_pos(i);
    let s = rung_size(i);
    lemma_buddy_involution(a as int, s);
    let b = buddy_of(a as int, s);
    assert(!fr[i].contains(a)) by {
        if fr[i].contains(a) {
            let w = choose|w: int| 0 <= w < fr[i].len() && fr[i][w] == a;
            assert(rung_has(fr[i], a as int)) by {
                assert(fr[i][w] == a as int);
            }
        }
    }
    lemma_sorted_insert_props(fr[i], a);
    let c1 = fr.update(i, sorted_insert(fr[i], a));
    assert(coalesce(fr, a, i) == c1);
    // freeing the buddy then finds `a` free and merges
    assert(buddy_of(b, s) == a as int);
    assert(0 <= b <= usize::MAX);
    assert(rung_has(c1[i], a as int)) by {
        assert(c1[i].contains(a));
        let w = choose|w: int| 0 <= w < c1[i].len() && c1[i][w] == a;
        assert(c1[i][w] == a as int);
    }
    lemma_remove_sorted_insert(fr[i], a);
    assert(remove_value(c1[i], a) == fr[i]);
    let c2 = c1.update(i, fr[i]);
    assert(c2 =~= fr);
    let lo: usize = if b <= a as int {
        b as usize
    } else {
        a
    };
    assert(coalesce(c1, b as usize, i) == coalesce(c2, lo, i + 1));
    assert(coalesce(c2, lo, i + 1) == coalesce(fr, lo, i + 1));
    assert(lo == if a as int <= b {
        a
    } else {
        b as usize
    });
}

} // verus!
